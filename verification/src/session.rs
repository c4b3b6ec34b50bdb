//! What a command decides between its calls to the credential store and to
//! the GitHub command line: the caller reads and installs tokens, and hands
//! what came back to the functions here.

use crate::config::{ensure_alias, opt_name, opt_str, Config, ConfigView};
use crate::error::SwitchError;
use crate::fingerprint_map::{as_map, has_key, lemma_put, put};
use crate::hashing::fingerprint_of;
use crate::logic::{
    alias_for_token, alias_with_fingerprint, choose_next_alias, lemma_alias_with_fingerprint,
    lemma_with_alias_well_formed, next_alias, token_fingerprint,
};
use crate::notify::{maybe_notify, notification_due, Notification};
use crate::text::{trim, trimmed};
use vstd::prelude::*;
use vstd::string::StringExecFns;

verus! {

impl ConfigView {
    /// The directory after `tag` has been recorded as the fingerprint of
    /// `alias`, which is listed if it was not.
    pub open spec fn token_recorded(self, alias: Seq<char>, tag: Seq<char>) -> ConfigView {
        ConfigView { fingerprints: put(self.fingerprints, alias, tag), ..self.with_alias(alias) }
    }

    /// The directory after a switch to `alias`, whose token has the
    /// fingerprint `tag`.
    pub open spec fn switched_to(self, alias: Seq<char>, tag: Seq<char>) -> ConfigView {
        ConfigView { last_used_alias: Some(alias), ..self.token_recorded(alias, tag) }
    }
}

/// The alias that the active token belongs to, where the token could be read
/// and is known.
pub open spec fn active_alias(cfg: ConfigView, active_token: Option<Seq<char>>) -> Option<
    Seq<char>,
> {
    match active_token {
        Some(token) => alias_with_fingerprint(cfg.fingerprints, fingerprint_of(trimmed(token))),
        None => None,
    }
}

/// The alias that is active now.  `active_token` is the token that the
/// GitHub command line reports, `None` where it reports none.
pub fn current_alias(cfg: &Config, active_token: Option<&str>) -> (alias: Option<String>)
    ensures
        opt_name(alias) == active_alias(cfg@, opt_str(active_token)),
{
    match active_token {
        Some(token) => alias_for_token(cfg, token),
        None => None,
    }
}

/// The alias to switch to when none is named: the one after the active
/// alias in the cycle.
pub fn pick_next_alias(cfg: &Config, active_token: Option<&str>) -> (r: Result<
    String,
    SwitchError,
>)
    ensures
        cfg@.aliases.len() < 2 <==> r is Err,
        r is Err ==> r == Err::<String, SwitchError>(SwitchError::InsufficientAliases),
        r is Ok ==> r->Ok_0@ == next_alias(
            cfg@.aliases,
            active_alias(cfg@, opt_str(active_token)),
        ),
{
    let current = current_alias(cfg, active_token);
    match &current {
        Some(name) => choose_next_alias(cfg.aliases.as_slice(), Some(name.as_str())),
        None => choose_next_alias(cfg.aliases.as_slice(), None),
    }
}

/// The token to store for what the user entered: the entry without its
/// surrounding whitespace, which must leave something.
pub fn prepare_token(entered: &str) -> (r: Result<&str, SwitchError>)
    ensures
        r is Ok <==> trimmed(entered@).len() > 0,
        r is Ok ==> r->Ok_0@ == trimmed(entered@),
        r is Err ==> r == Err::<&str, SwitchError>(SwitchError::EmptyToken),
{
    let token = trim(entered);
    if token.unicode_len() == 0 {
        Err(SwitchError::EmptyToken)
    } else {
        Ok(token)
    }
}

/// Records that `token` is now stored under `alias`: lists the alias and
/// enters the token's fingerprint.
pub fn record_token(cfg: &mut Config, alias: &str, token: &str)
    ensures
        final(cfg)@ == old(cfg)@.token_recorded(alias@, fingerprint_of(token@)),
{
    ensure_alias(cfg, alias);
    cfg.fingerprints.insert(alias.to_owned(), token_fingerprint(token));
}

/// What is left to do when an attempt to switch has ended.
#[derive(Debug)]
pub struct SwitchReport {
    /// The directory has changed and is to be saved.
    pub persist: bool,
    /// The notification to deliver, if one is due.
    pub notification: Option<Notification>,
}

/// Title and body of the notification that reports how a switch to `target`
/// ended.
pub open spec fn switch_message(target: Seq<char>, installed: bool) -> (Seq<char>, Seq<char>) {
    if installed {
        ("GitHub token switched"@, "Switched GitHub token: "@ + target)
    } else {
        ("GitHub token switch failed"@, "Failed switching to: "@ + target)
    }
}

/// Takes note of how the attempt to install the token of `target` ended.
///
/// Where it was installed, the directory lists `target`, holds the token's
/// fingerprint and has `target` as the alias used last, and is to be saved.
/// Where it failed, the directory is left as it was and nothing is to be
/// saved.  Either way the report carries the notification that is due.
pub fn finish_switch(
    cfg: &mut Config,
    target: &str,
    token: &str,
    installed: bool,
    implicit_cycle: bool,
    tty_present: bool,
) -> (report: SwitchReport)
    ensures
        final(cfg)@ == if installed {
            old(cfg)@.switched_to(target@, fingerprint_of(token@))
        } else {
            old(cfg)@
        },
        report.persist == installed,
        report.notification is Some <==> notification_due(
            old(cfg).notifications,
            implicit_cycle,
            tty_present,
        ),
        report.notification is Some ==> (
            report.notification->Some_0.title@,
            report.notification->Some_0.body@,
        ) == switch_message(target@, installed),
{
    if installed {
        record_token(cfg, target, token);
        cfg.last_used_alias = Some(target.to_owned());
        let body = "Switched GitHub token: ".to_owned().concat(target);
        let notification = maybe_notify(
            cfg,
            implicit_cycle,
            tty_present,
            "GitHub token switched",
            body.as_str(),
        );
        SwitchReport { persist: true, notification }
    } else {
        let body = "Failed switching to: ".to_owned().concat(target);
        let notification = maybe_notify(
            cfg,
            implicit_cycle,
            tty_present,
            "GitHub token switch failed",
            body.as_str(),
        );
        SwitchReport { persist: false, notification }
    }
}

/// Recording a token keeps a consistent directory consistent; afterwards
/// the alias is listed and has the fingerprint.
pub proof fn lemma_token_recorded_well_formed(cfg: ConfigView, alias: Seq<char>, tag: Seq<char>)
    requires
        cfg.well_formed(),
    ensures
        cfg.token_recorded(alias, tag).well_formed(),
        cfg.token_recorded(alias, tag).aliases.contains(alias),
        cfg.token_recorded(alias, tag).fingerprint_map() == cfg.fingerprint_map().insert(
            alias,
            tag,
        ),
        cfg.token_recorded(alias, tag).last_used_alias == cfg.last_used_alias,
{
    let after = cfg.token_recorded(alias, tag);
    lemma_with_alias_well_formed(cfg, alias);
    lemma_put(cfg.fingerprints, alias, tag);
    assert forall|k: Seq<char>| has_key(after.fingerprints, k) implies after.aliases.contains(
        k,
    ) by {
        assert(as_map(after.fingerprints).contains_key(k));
        if k != alias {
            assert(as_map(cfg.fingerprints).contains_key(k));
            assert(has_key(cfg.fingerprints, k));
            assert(cfg.with_alias(alias).well_formed());
        }
    }
}

/// A switch keeps a consistent directory consistent; afterwards the alias
/// is the one used last, and the token it was switched to is recognised as
/// that of the alias, unless another alias has the same fingerprint.
pub proof fn lemma_switched_to_well_formed(cfg: ConfigView, alias: Seq<char>, tag: Seq<char>)
    requires
        cfg.well_formed(),
    ensures
        cfg.switched_to(alias, tag).well_formed(),
        cfg.switched_to(alias, tag).last_used_alias == Some(alias),
        cfg.switched_to(alias, tag).fingerprint_map() == cfg.fingerprint_map().insert(alias, tag),
        (forall|k: Seq<char>| #[trigger]
            cfg.fingerprint_map().contains_key(k) && k != alias ==> cfg.fingerprint_map()[k]
                != tag) ==> alias_with_fingerprint(cfg.switched_to(alias, tag).fingerprints, tag)
            == Some(alias),
{
    lemma_token_recorded_well_formed(cfg, alias, tag);
    let after = cfg.switched_to(alias, tag);
    lemma_alias_with_fingerprint(after, tag);
    if forall|k: Seq<char>| #[trigger]
        cfg.fingerprint_map().contains_key(k) && k != alias ==> cfg.fingerprint_map()[k] != tag {
        assert(after.fingerprint_map().contains_key(alias));
        assert(after.fingerprint_map()[alias] == tag);
        assert forall|k: Seq<char>| #[trigger]
            after.fingerprint_map().contains_key(k) && after.fingerprint_map()[k]
                == tag implies k == alias by {
            if k != alias {
                assert(cfg.fingerprint_map().contains_key(k));
            }
        }
    }
}

} // verus!
