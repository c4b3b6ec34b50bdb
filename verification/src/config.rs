//! The alias directory: the aliases in cycle order, their fingerprints, the
//! notification settings and the alias that was activated last.

use crate::fingerprint_map::{as_map, distinct_keys, has_key, FingerprintMap};
use crate::text::str_eq;
use vstd::prelude::*;

verus! {

/// Name of the application, and of its configuration directory.
pub const APP_NAME: &'static str = "gh-token-switch";

/// When a switch is announced by a desktop notification.
#[derive(Debug, Clone, Copy)]
pub struct NotificationConfig {
    /// Notifications are sent at all.
    pub enabled: bool,
    /// Only when no terminal is attached.
    pub only_when_no_tty: bool,
    /// Only when the switch was a step of the cycle, not a switch by name.
    pub only_on_implicit_cycle: bool,
}

impl Default for NotificationConfig {
    fn default() -> (settings: Self)
        ensures
            settings.enabled,
            settings.only_when_no_tty,
            settings.only_on_implicit_cycle,
    {
        NotificationConfig { enabled: true, only_when_no_tty: true, only_on_implicit_cycle: true }
    }
}

/// The alias directory.
#[derive(Debug)]
pub struct Config {
    /// The aliases, in the order of the cycle.
    pub aliases: Vec<String>,
    /// The fingerprint of the token last stored under each alias.
    pub fingerprints: FingerprintMap,
    /// When to notify.
    pub notifications: NotificationConfig,
    /// The alias that was activated last.
    pub last_used_alias: Option<String>,
}

/// The text of each string of a sequence.
pub open spec fn names(v: Seq<String>) -> Seq<Seq<char>> {
    v.map_values(|s: String| s@)
}

/// The text of an optional string.
pub open spec fn opt_name(o: Option<String>) -> Option<Seq<char>> {
    match o {
        Some(s) => Some(s@),
        None => None,
    }
}

/// The text of an optional string slice.
pub open spec fn opt_str(o: Option<&str>) -> Option<Seq<char>> {
    match o {
        Some(s) => Some(s@),
        None => None,
    }
}

/// The directory as mathematical data.
pub struct ConfigView {
    /// The aliases in cycle order.
    pub aliases: Seq<Seq<char>>,
    /// Alias and fingerprint of each entry of the fingerprint table, in the
    /// table's order.
    pub fingerprints: Seq<(Seq<char>, Seq<char>)>,
    /// When to notify.
    pub notifications: NotificationConfig,
    /// The alias that was activated last.
    pub last_used_alias: Option<Seq<char>>,
}

impl ConfigView {
    /// The fingerprint table as a mapping.
    pub open spec fn fingerprint_map(self) -> Map<Seq<char>, Seq<char>> {
        as_map(self.fingerprints)
    }

    /// The directory is consistent: no alias is listed twice, every alias
    /// with a fingerprint is listed, and so is the alias used last.
    pub open spec fn well_formed(self) -> bool {
        &&& self.aliases.no_duplicates()
        &&& distinct_keys(self.fingerprints)
        &&& forall|k: Seq<char>| has_key(self.fingerprints, k) ==> self.aliases.contains(k)
        &&& match self.last_used_alias {
            Some(a) => self.aliases.contains(a),
            None => true,
        }
    }

    /// The directory mentions `alias`: among the aliases, in the fingerprint
    /// table, or as the alias used last.
    pub open spec fn mentions(self, alias: Seq<char>) -> bool {
        ||| self.aliases.contains(alias)
        ||| has_key(self.fingerprints, alias)
        ||| self.last_used_alias == Some(alias)
    }

    /// The directory with `alias` listed: appended if it was not.
    pub open spec fn with_alias(self, alias: Seq<char>) -> ConfigView {
        if self.aliases.contains(alias) {
            self
        } else {
            ConfigView { aliases: self.aliases.push(alias), ..self }
        }
    }
}

impl View for Config {
    type V = ConfigView;

    open spec fn view(&self) -> ConfigView {
        ConfigView {
            aliases: names(self.aliases@),
            fingerprints: self.fingerprints.entries(),
            notifications: self.notifications,
            last_used_alias: opt_name(self.last_used_alias),
        }
    }
}

impl Clone for Config {
    /// A directory with the same content.
    fn clone(&self) -> (copy: Self)
        ensures
            copy@ == self@,
    {
        let mut aliases: Vec<String> = Vec::new();
        let mut i: usize = 0;
        while i < self.aliases.len()
            invariant
                i <= self.aliases.len(),
                names(aliases@) == names(self.aliases@).take(i as int),
            decreases self.aliases.len() - i,
        {
            let ghost before = names(aliases@);
            aliases.push(self.aliases[i].clone());
            assert(names(aliases@) =~= before.push(self.aliases@[i as int]@));
            assert(names(self.aliases@).take(i + 1) =~= before.push(self.aliases@[i as int]@));
            i += 1;
        }
        assert(names(self.aliases@).take(self.aliases.len() as int) =~= names(self.aliases@));
        let last_used_alias = match &self.last_used_alias {
            Some(alias) => Some(alias.clone()),
            None => None,
        };
        Config {
            aliases,
            fingerprints: self.fingerprints.clone(),
            notifications: self.notifications,
            last_used_alias,
        }
    }
}

impl Default for Config {
    /// The empty directory with the default notification settings.
    fn default() -> (cfg: Self)
        ensures
            cfg@.aliases == Seq::<Seq<char>>::empty(),
            cfg@.fingerprints == Seq::<(Seq<char>, Seq<char>)>::empty(),
            cfg@.notifications.enabled,
            cfg@.notifications.only_when_no_tty,
            cfg@.notifications.only_on_implicit_cycle,
            cfg@.last_used_alias.is_none(),
            cfg@.well_formed(),
    {
        let cfg = Config {
            aliases: Vec::new(),
            fingerprints: FingerprintMap::new(),
            notifications: NotificationConfig::default(),
            last_used_alias: None,
        };
        assert(cfg@.aliases =~= Seq::<Seq<char>>::empty());
        cfg
    }
}

/// The place of the first occurrence of `alias` among `aliases`.
pub fn alias_position(aliases: &[String], alias: &str) -> (r: Option<usize>)
    ensures
        match r {
            Some(i) => names(aliases@).index_of_first(alias@) == Some(i as int) && i
                < aliases.len(),
            None => names(aliases@).index_of_first(alias@).is_none(),
        },
        r.is_some() == names(aliases@).contains(alias@),
{
    let mut i: usize = 0;
    while i < aliases.len()
        invariant
            i <= aliases.len(),
            forall|k: int| 0 <= k < i ==> (#[trigger] names(aliases@)[k]) != alias@,
        decreases aliases.len() - i,
    {
        if str_eq(aliases[i].as_str(), alias) {
            proof {
                assert(names(aliases@)[i as int] == alias@);
                names(aliases@).index_of_first_ensures(alias@);
            }
            return Some(i);
        }
        i += 1;
    }
    proof {
        names(aliases@).index_of_first_ensures(alias@);
    }
    None
}

/// Lists `alias` in the directory, at the end, unless it is listed already.
pub fn ensure_alias(cfg: &mut Config, alias: &str)
    ensures
        final(cfg)@ == old(cfg)@.with_alias(alias@),
{
    if alias_position(cfg.aliases.as_slice(), alias).is_none() {
        cfg.aliases.push(alias.to_owned());
        assert(names(cfg.aliases@) =~= names(old(cfg).aliases@).push(alias@));
    }
}

} // verus!
