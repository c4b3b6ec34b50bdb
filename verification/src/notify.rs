//! Whether a switch is announced by a desktop notification.

use crate::config::{Config, NotificationConfig};
use vstd::prelude::*;
use vstd::std_specs::iter::IteratorSpec;
use vstd::string::StrSliceExecFns;
use vstd::string::StringExecFns;

verus! {

/// A notification that is to be delivered.
#[derive(Debug)]
pub struct Notification {
    pub title: String,
    pub body: String,
}

/// The rule: notifications must be enabled; where they are restricted to
/// steps of the cycle, the switch must be one; where they are restricted to
/// sessions without a terminal, none may be attached.
pub open spec fn notification_due(
    settings: NotificationConfig,
    implicit_cycle: bool,
    tty_present: bool,
) -> bool {
    &&& settings.enabled
    &&& settings.only_on_implicit_cycle ==> implicit_cycle
    &&& settings.only_when_no_tty ==> !tty_present
}

/// Decides whether a switch is announced.  `implicit_cycle` tells that the
/// switch was a step of the cycle; `tty_present` that standard input, output
/// or error is a terminal.
pub fn should_notify(cfg: &Config, implicit_cycle: bool, tty_present: bool) -> (due: bool)
    ensures
        due == notification_due(cfg.notifications, implicit_cycle, tty_present),
{
    if !cfg.notifications.enabled {
        return false;
    }
    if cfg.notifications.only_on_implicit_cycle && !implicit_cycle {
        return false;
    }
    if cfg.notifications.only_when_no_tty && tty_present {
        return false;
    }
    true
}

/// The notification to deliver for a switch, if one is due: it carries
/// `title` and `body` as given.
pub fn maybe_notify(
    cfg: &Config,
    implicit_cycle: bool,
    tty_present: bool,
    title: &str,
    body: &str,
) -> (r: Option<Notification>)
    ensures
        r is Some <==> notification_due(cfg.notifications, implicit_cycle, tty_present),
        r is Some ==> r->Some_0.title@ == title@ && r->Some_0.body@ == body@,
{
    if should_notify(cfg, implicit_cycle, tty_present) {
        Some(Notification { title: title.to_owned(), body: body.to_owned() })
    } else {
        None
    }
}

/// With the settings of a new directory, only a step of the cycle made
/// without a terminal is announced.
pub proof fn lemma_default_settings(implicit_cycle: bool, tty_present: bool)
    ensures
        notification_due(
            NotificationConfig { enabled: true, only_when_no_tty: true, only_on_implicit_cycle: true },
            implicit_cycle,
            tty_present,
        ) <==> implicit_cycle && !tty_present,
{
}

/// Nothing is announced while notifications are disabled.
pub proof fn lemma_disabled_is_silent(
    settings: NotificationConfig,
    implicit_cycle: bool,
    tty_present: bool,
)
    requires
        !settings.enabled,
    ensures
        !notification_due(settings, implicit_cycle, tty_present),
{
}

/// `s` with a backslash put before every double quote.
pub open spec fn escape_quotes(s: Seq<char>) -> Seq<char>
    decreases s.len(),
{
    if s.len() == 0 {
        Seq::empty()
    } else if s.last() == '"' {
        escape_quotes(s.drop_last()) + seq!['\\', '"']
    } else {
        escape_quotes(s.drop_last()).push(s.last())
    }
}

/// Puts a backslash before every double quote of `s`, so that the text can
/// stand between double quotes in AppleScript.
pub fn escape_for_applescript(s: &str) -> (escaped: String)
    ensures
        escaped@ == escape_quotes(s@),
{
    broadcast use vstd::string::group_string_axioms;

    let total: usize = s.unicode_len();
    let mut escaped = String::new();
    let mut chars = s.chars();
    let mut seen: usize = 0;
    let mut start: usize = 0;
    proof {
        reveal_strlit("\\\"");
        assert(s@.take(0) =~= Seq::<char>::empty());
        assert(escaped@ + s@.subrange(0, 0) =~= Seq::<char>::empty());
    }
    loop
        invariant
            chars.remaining() == s@.skip(seen as int),
            0 <= start <= seen <= s@.len() == total,
            escaped@ + s@.subrange(start as int, seen as int) == escape_quotes(
                s@.take(seen as int),
            ),
            "\\\""@ == seq!['\\', '"'],
        ensures
            seen == s@.len(),
        decreases s@.len() - seen,
    {
        match chars.next() {
            Some(c) => {
                proof {
                    let now = s@.take(seen + 1);
                    assert(c == s@[seen as int]);
                    assert(now.drop_last() =~= s@.take(seen as int));
                    assert(now.last() == c);
                }
                if c == '"' {
                    let ghost before = escaped@;
                    let ghost run = s@.subrange(start as int, seen as int);
                    escaped.append(s.substring_char(start, seen));
                    escaped.append("\\\"");
                    start = seen + 1;
                    proof {
                        assert(escaped@ + s@.subrange(start as int, seen + 1) =~= (before + run)
                            + seq!['\\', '"']);
                    }
                } else {
                    proof {
                        assert(escaped@ + s@.subrange(start as int, seen + 1) =~= (escaped@
                            + s@.subrange(start as int, seen as int)).push(c));
                    }
                }
                seen = seen + 1;
            },
            None => {
                break ;
            },
        }
    }
    escaped.append(s.substring_char(start, total));
    assert(s@.take(total as int) =~= s@);
    escaped
}

/// The AppleScript that shows a notification with `title` and `body`.
pub open spec fn applescript_text(title: Seq<char>, body: Seq<char>) -> Seq<char> {
    "display notification \""@ + escape_quotes(body) + "\" with title \""@ + escape_quotes(title)
        + "\""@
}

/// The AppleScript that shows `notification`.
pub fn notification_script(notification: &Notification) -> (script: String)
    ensures
        script@ == applescript_text(notification.title@, notification.body@),
{
    let body = escape_for_applescript(notification.body.as_str());
    let title = escape_for_applescript(notification.title.as_str());
    "display notification \"".to_owned().concat(body.as_str()).concat("\" with title \"").concat(
        title.as_str(),
    ).concat("\"")
}

} // verus!
