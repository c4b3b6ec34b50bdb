//! Fingerprinting, recognising the active alias, the cycle, and the changes
//! that a rename or a delete makes to the directory.

use crate::config::{alias_position, names, opt_name, opt_str, Config, ConfigView};
use crate::error::SwitchError;
use crate::fingerprint_map::{
    as_map, distinct_keys, first_with_value, has_key, key_position, lemma_as_map,
    lemma_first_with_value, lemma_key_position, lemma_put, lemma_without, put, without,
};
use crate::hashing::{fingerprint_from_digest, fingerprint_of, sha256};
use crate::text::{str_eq, trim, trimmed};
use vstd::prelude::*;

verus! {

/// The alias of the first entry of `entries` with the fingerprint `tag`.
pub open spec fn alias_with_fingerprint(
    entries: Seq<(Seq<char>, Seq<char>)>,
    tag: Seq<char>,
) -> Option<Seq<char>> {
    let i = first_with_value(entries, tag);
    if i < entries.len() {
        Some(entries[i].0)
    } else {
        None
    }
}

/// The alias that follows `current` in the cycle through `aliases`: the
/// first alias where nothing is current, and the second where `current` is
/// not listed.
pub open spec fn next_alias(aliases: Seq<Seq<char>>, current: Option<Seq<char>>) -> Seq<char> {
    match current {
        None => aliases[0],
        Some(name) => {
            let at = match aliases.index_of_first(name) {
                Some(i) => i,
                None => 0,
            };
            aliases[(at + 1) % (aliases.len() as int)]
        },
    }
}

/// The aliases other than `alias`, in their order.
pub open spec fn without_alias(aliases: Seq<Seq<char>>, alias: Seq<char>) -> Seq<Seq<char>> {
    aliases.filter(|a: Seq<char>| a != alias)
}

impl ConfigView {
    /// A rename of `old_alias` to `new_alias` is admitted: the names differ
    /// and the new one is not listed.
    pub open spec fn rename_admitted(self, old_alias: Seq<char>, new_alias: Seq<char>) -> bool {
        old_alias != new_alias && !self.aliases.contains(new_alias)
    }

    /// The directory after a request to rename `old_alias` to `new_alias`.
    ///
    /// A request that is not admitted leaves the directory as it is.
    /// Otherwise the new name takes the place of the old one in the cycle,
    /// or the last place where the old one is not listed; the fingerprint of
    /// the old name, if it has one, goes to the new name; and where the old
    /// name was used last, the new one is.
    pub open spec fn renamed(self, old_alias: Seq<char>, new_alias: Seq<char>) -> ConfigView {
        if self.rename_admitted(old_alias, new_alias) {
            ConfigView {
                aliases: match self.aliases.index_of_first(old_alias) {
                    Some(i) => self.aliases.update(i, new_alias),
                    None => self.aliases.push(new_alias),
                },
                fingerprints: if has_key(self.fingerprints, old_alias) {
                    put(
                        without(self.fingerprints, old_alias),
                        new_alias,
                        self.fingerprints[key_position(self.fingerprints, old_alias)].1,
                    )
                } else {
                    self.fingerprints
                },
                notifications: self.notifications,
                last_used_alias: if self.last_used_alias == Some(old_alias) {
                    Some(new_alias)
                } else {
                    self.last_used_alias
                },
            }
        } else {
            self
        }
    }

    /// The directory after `alias` has been deleted.
    pub open spec fn deleted(self, alias: Seq<char>) -> ConfigView {
        ConfigView {
            aliases: without_alias(self.aliases, alias),
            fingerprints: without(self.fingerprints, alias),
            notifications: self.notifications,
            last_used_alias: if self.last_used_alias == Some(alias) {
                None
            } else {
                self.last_used_alias
            },
        }
    }
}

/// The fingerprint of `token`: the first sixteen characters of the
/// hexadecimal SHA-256 digest of its bytes.
pub fn token_fingerprint(token: &str) -> (tag: String)
    ensures
        tag@ == fingerprint_of(token@),
{
    let digest = sha256(token.as_bytes());
    fingerprint_from_digest(&digest)
}

/// The alias whose recorded fingerprint is `tag`: the first such entry of
/// the fingerprint table, `None` where no entry has it.
pub fn alias_for_fingerprint(cfg: &Config, tag: &str) -> (alias: Option<String>)
    ensures
        opt_name(alias) == alias_with_fingerprint(cfg@.fingerprints, tag@),
{
    match cfg.fingerprints.find_by_value(tag) {
        Some(key) => Some(key.clone()),
        None => None,
    }
}

/// The alias under which `token` is known: the one whose recorded
/// fingerprint is that of the token without its surrounding whitespace.
pub fn alias_for_token(cfg: &Config, token: &str) -> (alias: Option<String>)
    ensures
        opt_name(alias) == alias_with_fingerprint(
            cfg@.fingerprints,
            fingerprint_of(trimmed(token@)),
        ),
{
    let tag = token_fingerprint(trim(token));
    alias_for_fingerprint(cfg, tag.as_str())
}

/// The alias to activate next when cycling.
pub fn choose_next_alias(aliases: &[String], current: Option<&str>) -> (r: Result<
    String,
    SwitchError,
>)
    ensures
        aliases@.len() < 2 <==> r is Err,
        r is Err ==> r == Err::<String, SwitchError>(SwitchError::InsufficientAliases),
        r is Ok ==> r->Ok_0@ == next_alias(names(aliases@), opt_str(current)),
{
    if aliases.len() < 2 {
        return Err(SwitchError::InsufficientAliases);
    }
    match current {
        Some(name) => {
            let at: usize = match alias_position(aliases, name) {
                Some(i) => i,
                None => 0,
            };
            let next: usize = (at + 1) % aliases.len();
            Ok(aliases[next].clone())
        },
        None => Ok(aliases[0].clone()),
    }
}

/// Tells whether `alias` is the alias that was used last.
fn is_last_used(cfg: &Config, alias: &str) -> (r: bool)
    ensures
        r == (cfg@.last_used_alias == Some(alias@)),
{
    match &cfg.last_used_alias {
        Some(last) => str_eq(last.as_str(), alias),
        None => false,
    }
}

/// Tells whether a rename of `old_alias` to `new_alias` may go ahead: the
/// names differ and the new one is not listed.
pub fn check_rename(cfg: &Config, old_alias: &str, new_alias: &str) -> (r: Result<
    (),
    SwitchError,
>)
    ensures
        r is Ok <==> old_alias@ != new_alias@ && !cfg@.aliases.contains(new_alias@),
        old_alias@ == new_alias@ ==> r == Err::<(), SwitchError>(SwitchError::IdenticalNames),
        old_alias@ != new_alias@ && cfg@.aliases.contains(new_alias@) ==> (r matches Err(
            SwitchError::AliasExists { alias },
        ) && alias@ == new_alias@),
{
    if str_eq(old_alias, new_alias) {
        return Err(SwitchError::IdenticalNames);
    }
    if alias_position(cfg.aliases.as_slice(), new_alias).is_some() {
        return Err(SwitchError::AliasExists { alias: new_alias.to_owned() });
    }
    Ok(())
}

/// Renames `old_alias` to `new_alias` throughout the directory, unless the
/// names are the same or the new one is listed already: the request is then
/// turned down and the directory is left as it was.
///
/// The new name takes the place of the old one in the cycle, or the last
/// place where the old one is not listed.  The fingerprint of the old name,
/// if it has one, goes to the new name.  Where the old name was used last,
/// the new one is.
pub fn apply_rename_metadata(cfg: &mut Config, old_alias: &str, new_alias: &str) -> (r: Result<
    (),
    SwitchError,
>)
    ensures
        r is Ok <==> old_alias@ != new_alias@ && !old(cfg)@.aliases.contains(new_alias@),
        r is Ok ==> final(cfg)@ == old(cfg)@.renamed(old_alias@, new_alias@),
        r is Err ==> final(cfg)@ == old(cfg)@,
        old_alias@ == new_alias@ ==> r == Err::<(), SwitchError>(SwitchError::IdenticalNames),
        old_alias@ != new_alias@ && old(cfg)@.aliases.contains(new_alias@) ==> (r matches Err(
            SwitchError::AliasExists { alias },
        ) && alias@ == new_alias@),
{
    match check_rename(cfg, old_alias, new_alias) {
        Ok(()) => {},
        Err(e) => {
            return Err(e);
        },
    }
    match alias_position(cfg.aliases.as_slice(), old_alias) {
        Some(i) => {
            cfg.aliases.set(i, new_alias.to_owned());
            assert(names(cfg.aliases@) =~= names(old(cfg).aliases@).update(
                i as int,
                new_alias@,
            ));
        },
        None => {
            cfg.aliases.push(new_alias.to_owned());
            assert(names(cfg.aliases@) =~= names(old(cfg).aliases@).push(new_alias@));
        },
    }
    proof {
        use_type_invariant(&cfg.fingerprints);
        lemma_as_map(cfg@.fingerprints);
    }
    if let Some(tag) = cfg.fingerprints.remove(old_alias) {
        cfg.fingerprints.insert(new_alias.to_owned(), tag);
    }
    if is_last_used(cfg, old_alias) {
        cfg.last_used_alias = Some(new_alias.to_owned());
    }
    Ok(())
}

/// The strings of `aliases` other than `alias`, in their order.
fn aliases_without(aliases: &Vec<String>, alias: &str) -> (kept: Vec<String>)
    ensures
        names(kept@) == without_alias(names(aliases@), alias@),
{
    let ghost other = |a: Seq<char>| a != alias@;
    let mut kept: Vec<String> = Vec::new();
    let mut i: usize = 0;
    proof {
        reveal(Seq::filter);
        assert(names(aliases@).take(0) =~= Seq::<Seq<char>>::empty());
        assert(names(kept@) =~= Seq::<Seq<char>>::empty());
    }
    while i < aliases.len()
        invariant
            i <= aliases.len(),
            other == |a: Seq<char>| a != alias@,
            names(kept@) == names(aliases@).take(i as int).filter(other),
        decreases aliases.len() - i,
    {
        proof {
            let now = names(aliases@).take(i + 1);
            reveal(Seq::filter);
            assert(now.drop_last() =~= names(aliases@).take(i as int));
            assert(now.last() == aliases@[i as int]@);
        }
        if !str_eq(aliases[i].as_str(), alias) {
            let ghost before = names(kept@);
            kept.push(aliases[i].clone());
            assert(names(kept@) =~= before.push(aliases@[i as int]@));
        }
        i += 1;
    }
    assert(names(aliases@).take(aliases.len() as int) =~= names(aliases@));
    kept
}

/// Deletes `alias` from the directory: from the cycle, from the fingerprint
/// table, and as the alias used last.  An alias that is not there is no
/// error.
pub fn apply_delete_metadata(cfg: &mut Config, alias: &str)
    ensures
        final(cfg)@ == old(cfg)@.deleted(alias@),
{
    cfg.aliases = aliases_without(&cfg.aliases, alias);
    cfg.fingerprints.remove(alias);
    if is_last_used(cfg, alias) {
        cfg.last_used_alias = None;
    }
}

/// A search by fingerprint finds nothing where no alias has the
/// fingerprint, and finds the alias where exactly one has it.
pub proof fn lemma_alias_with_fingerprint(cfg: ConfigView, tag: Seq<char>)
    requires
        distinct_keys(cfg.fingerprints),
    ensures
        (forall|k: Seq<char>| #[trigger]
            cfg.fingerprint_map().contains_key(k) ==> cfg.fingerprint_map()[k] != tag)
            ==> alias_with_fingerprint(cfg.fingerprints, tag).is_none(),
        forall|a: Seq<char>|
            #![trigger cfg.fingerprint_map().contains_key(a)]
            {
                &&& cfg.fingerprint_map().contains_key(a)
                &&& cfg.fingerprint_map()[a] == tag
                &&& forall|k: Seq<char>| #[trigger]
                    cfg.fingerprint_map().contains_key(k) && cfg.fingerprint_map()[k] == tag
                        ==> k == a
            } ==> alias_with_fingerprint(cfg.fingerprints, tag) == Some(a),
        match alias_with_fingerprint(cfg.fingerprints, tag) {
            Some(a) => cfg.fingerprint_map().contains_key(a) && cfg.fingerprint_map()[a] == tag,
            None => forall|k: Seq<char>| #[trigger]
                cfg.fingerprint_map().contains_key(k) ==> cfg.fingerprint_map()[k] != tag,
        },
{
    let entries = cfg.fingerprints;
    let i = first_with_value(entries, tag);
    lemma_first_with_value(entries, tag);
    lemma_as_map(entries);
    if i < entries.len() {
        lemma_key_position(entries, i);
        assert(as_map(entries).contains_key(entries[i].0));
        assert(as_map(entries)[entries[i].0] == tag);
        assert(cfg.fingerprint_map().contains_key(entries[i].0));
    } else {
        assert forall|k: Seq<char>| #[trigger]
            cfg.fingerprint_map().contains_key(k) implies cfg.fingerprint_map()[k] != tag by {
            let p = key_position(entries, k);
            assert(entries[p].1 != tag);
            lemma_key_position(entries, p);
        }
    }
}

/// The alias chosen next is one of the cycle.
pub proof fn lemma_next_alias_listed(aliases: Seq<Seq<char>>, current: Option<Seq<char>>)
    requires
        aliases.len() >= 1,
    ensures
        aliases.contains(next_alias(aliases, current)),
{
    match current {
        None => {
            assert(aliases[0] == next_alias(aliases, current));
        },
        Some(name) => {
            aliases.index_of_first_ensures(name);
            let at = match aliases.index_of_first(name) {
                Some(i) => i,
                None => 0,
            };
            let next = (at + 1) % (aliases.len() as int);
            assert(0 <= next < aliases.len());
            assert(aliases[next] == next_alias(aliases, current));
        },
    }
}

/// In a cycle without repetition, the alias after the one at `i` is the one
/// at `i + 1`, and the first one after the last.
pub proof fn lemma_next_alias_steps(aliases: Seq<Seq<char>>, i: int)
    requires
        aliases.no_duplicates(),
        0 <= i < aliases.len(),
    ensures
        next_alias(aliases, Some(aliases[i])) == aliases[if i + 1 < aliases.len() {
            i + 1
        } else {
            0
        }],
{
    aliases.index_of_first_ensures(aliases[i]);
    assert(aliases.index_of_first(aliases[i]) == Some(i));
    let n = aliases.len() as int;
    if i + 1 < n {
        assert((i + 1) % n == i + 1) by (nonlinear_arith)
            requires
                0 <= i + 1 < n,
        ;
    } else {
        assert((i + 1) % n == 0) by (nonlinear_arith)
            requires
                i + 1 == n,
                n > 0,
        ;
    }
}

/// Listing an alias keeps a consistent directory consistent.
pub proof fn lemma_with_alias_well_formed(cfg: ConfigView, alias: Seq<char>)
    requires
        cfg.well_formed(),
    ensures
        cfg.with_alias(alias).well_formed(),
        cfg.with_alias(alias).aliases.contains(alias),
{
    let after = cfg.with_alias(alias);
    if !cfg.aliases.contains(alias) {
        assert(after.aliases[cfg.aliases.len() as int] == alias);
        assert forall|k: Seq<char>| cfg.aliases.contains(k) implies after.aliases.contains(k) by {
            let i = choose|i: int| 0 <= i < cfg.aliases.len() && cfg.aliases[i] == k;
            assert(after.aliases[i] == k);
        }
    }
}

/// A request to rename keeps a consistent directory consistent, whether
/// it is admitted or not: in particular no alias is ever listed twice.
pub proof fn lemma_renamed_keeps_well_formed(
    cfg: ConfigView,
    old_alias: Seq<char>,
    new_alias: Seq<char>,
)
    requires
        cfg.well_formed(),
    ensures
        cfg.renamed(old_alias, new_alias).well_formed(),
{
    if cfg.rename_admitted(old_alias, new_alias) {
        lemma_renamed_well_formed(cfg, old_alias, new_alias);
    }
}

/// A request to rename that is not admitted changes nothing.
pub proof fn lemma_rename_refused(cfg: ConfigView, old_alias: Seq<char>, new_alias: Seq<char>)
    requires
        old_alias == new_alias || cfg.aliases.contains(new_alias),
    ensures
        cfg.renamed(old_alias, new_alias) == cfg,
{
}

/// An admitted rename keeps a consistent directory consistent; afterwards
/// the new name is listed and the old one is mentioned nowhere.
pub proof fn lemma_renamed_well_formed(cfg: ConfigView, old_alias: Seq<char>, new_alias: Seq<char>)
    requires
        cfg.well_formed(),
        cfg.rename_admitted(old_alias, new_alias),
    ensures
        cfg.renamed(old_alias, new_alias).well_formed(),
        cfg.renamed(old_alias, new_alias).aliases.contains(new_alias),
        !cfg.renamed(old_alias, new_alias).mentions(old_alias),
        cfg.renamed(old_alias, new_alias).aliases.len() == if cfg.aliases.contains(old_alias) {
            cfg.aliases.len()
        } else {
            cfg.aliases.len() + 1
        },
        cfg.renamed(old_alias, new_alias).fingerprint_map() == if cfg.fingerprint_map().contains_key(
            old_alias,
        ) {
            cfg.fingerprint_map().remove(old_alias).insert(
                new_alias,
                cfg.fingerprint_map()[old_alias],
            )
        } else {
            cfg.fingerprint_map()
        },
{
    let after = cfg.renamed(old_alias, new_alias);
    cfg.aliases.index_of_first_ensures(old_alias);
    lemma_as_map(cfg.fingerprints);
    lemma_without(cfg.fingerprints, old_alias);
    let stripped = without(cfg.fingerprints, old_alias);
    if has_key(cfg.fingerprints, old_alias) {
        let tag = cfg.fingerprints[key_position(cfg.fingerprints, old_alias)].1;
        lemma_put(stripped, new_alias, tag);
        lemma_as_map(after.fingerprints);
    }
    match cfg.aliases.index_of_first(old_alias) {
        Some(i) => {
            assert(after.aliases[i] == new_alias);
            assert forall|k: Seq<char>| cfg.aliases.contains(k) && k != old_alias implies #[trigger]
                after.aliases.contains(k) by {
                let j = choose|j: int| 0 <= j < cfg.aliases.len() && cfg.aliases[j] == k;
                assert(after.aliases[j] == k);
            }
        },
        None => {
            assert(after.aliases[cfg.aliases.len() as int] == new_alias);
            assert forall|k: Seq<char>| cfg.aliases.contains(k) implies #[trigger]
                after.aliases.contains(k) by {
                let j = choose|j: int| 0 <= j < cfg.aliases.len() && cfg.aliases[j] == k;
                assert(after.aliases[j] == k);
            }
        },
    }
    assert(!after.aliases.contains(old_alias)) by {
        if after.aliases.contains(old_alias) {
            let j = choose|j: int| 0 <= j < after.aliases.len() && after.aliases[j] == old_alias;
            assert(cfg.aliases[j] == old_alias);
        }
    }
    assert forall|k: Seq<char>| has_key(after.fingerprints, k) implies after.aliases.contains(
        k,
    ) by {
        assert(as_map(after.fingerprints).contains_key(k));
        if k != new_alias {
            assert(as_map(cfg.fingerprints).contains_key(k));
            assert(has_key(cfg.fingerprints, k));
        }
    }
    assert(!has_key(after.fingerprints, old_alias)) by {
        if has_key(after.fingerprints, old_alias) {
            assert(as_map(after.fingerprints).contains_key(old_alias));
        }
    }
}

/// A delete keeps a consistent directory consistent, and afterwards the
/// alias is mentioned nowhere.
pub proof fn lemma_deleted_well_formed(cfg: ConfigView, alias: Seq<char>)
    requires
        cfg.well_formed(),
    ensures
        cfg.deleted(alias).well_formed(),
        cfg.deleted(alias).fingerprint_map() == cfg.fingerprint_map().remove(alias),
{
    let after = cfg.deleted(alias);
    lemma_filtered(cfg.aliases, alias);
    lemma_without(cfg.fingerprints, alias);
    assert forall|k: Seq<char>| has_key(after.fingerprints, k) implies after.aliases.contains(
        k,
    ) by {
        assert(as_map(after.fingerprints).contains_key(k));
        assert(as_map(cfg.fingerprints).contains_key(k));
        assert(has_key(cfg.fingerprints, k));
    }
}

/// After a delete the alias is mentioned nowhere, whatever the directory
/// held.
pub proof fn lemma_deleted_forgets(cfg: ConfigView, alias: Seq<char>)
    requires
        distinct_keys(cfg.fingerprints),
    ensures
        !cfg.deleted(alias).mentions(alias),
{
    lemma_filtered(cfg.aliases, alias);
    lemma_without(cfg.fingerprints, alias);
}

/// Deleting an alias that the directory does not mention changes nothing.
pub proof fn lemma_delete_absent(cfg: ConfigView, alias: Seq<char>)
    requires
        !cfg.mentions(alias),
    ensures
        cfg.deleted(alias) == cfg,
{
    lemma_filtered(cfg.aliases, alias);
    assert(cfg.deleted(alias).aliases =~= cfg.aliases);
}

/// In a consistent directory an alias that is not listed is mentioned
/// nowhere, so that deleting it changes nothing.
pub proof fn lemma_delete_unlisted(cfg: ConfigView, alias: Seq<char>)
    requires
        cfg.well_formed(),
        !cfg.aliases.contains(alias),
    ensures
        cfg.deleted(alias) == cfg,
{
    lemma_delete_absent(cfg, alias);
}

/// Deleting an alias a second time changes nothing.
pub proof fn lemma_delete_idempotent(cfg: ConfigView, alias: Seq<char>)
    requires
        distinct_keys(cfg.fingerprints),
    ensures
        cfg.deleted(alias).deleted(alias) == cfg.deleted(alias),
{
    lemma_deleted_forgets(cfg, alias);
    lemma_delete_absent(cfg.deleted(alias), alias);
}

/// What is left of a list of aliases when one is filtered out: the others,
/// in their order, and as often as before.
pub proof fn lemma_filtered(aliases: Seq<Seq<char>>, alias: Seq<char>)
    ensures
        !without_alias(aliases, alias).contains(alias),
        forall|k: Seq<char>|
            k != alias ==> (aliases.contains(k) <==> #[trigger] without_alias(
                aliases,
                alias,
            ).contains(k)),
        aliases.no_duplicates() ==> without_alias(aliases, alias).no_duplicates(),
        !aliases.contains(alias) ==> without_alias(aliases, alias) == aliases,
    decreases aliases.len(),
{
    reveal(Seq::filter);
    if aliases.len() > 0 {
        let front = aliases.drop_last();
        let last = aliases.last();
        lemma_filtered(front, alias);
        let kept = without_alias(front, alias);
        let all = without_alias(aliases, alias);
        assert(all == if last != alias { kept.push(last) } else { kept });
        assert forall|k: Seq<char>| k != alias implies (aliases.contains(k) <==> #[trigger]
            all.contains(k)) by {
            if aliases.contains(k) {
                let i = choose|i: int| 0 <= i < aliases.len() && aliases[i] == k;
                if i < front.len() {
                    assert(front[i] == k);
                    assert(kept.contains(k));
                    let j = choose|j: int| 0 <= j < kept.len() && kept[j] == k;
                    assert(all[j] == k);
                } else {
                    assert(all[kept.len() as int] == k);
                }
            }
            if all.contains(k) {
                let j = choose|j: int| 0 <= j < all.len() && all[j] == k;
                if j < kept.len() {
                    assert(kept[j] == k);
                    assert(without_alias(front, alias).contains(k));
                    assert(front.contains(k));
                    let i = choose|i: int| 0 <= i < front.len() && front[i] == k;
                    assert(aliases[i] == k);
                } else {
                    assert(aliases[aliases.len() - 1] == k);
                }
            }
        }
        assert(!all.contains(alias)) by {
            if all.contains(alias) {
                let j = choose|j: int| 0 <= j < all.len() && all[j] == alias;
                if j < kept.len() {
                    assert(kept[j] == alias);
                }
            }
        }
        if aliases.no_duplicates() {
            assert(front.no_duplicates());
            if last != alias {
                assert(!kept.contains(last)) by {
                    if kept.contains(last) {
                        assert(front.contains(last));
                        let i = choose|i: int| 0 <= i < front.len() && front[i] == last;
                        assert(aliases[i] == aliases[aliases.len() - 1]);
                    }
                }
                assert forall|i: int, j: int|
                    0 <= i < all.len() && 0 <= j < all.len() && i != j implies all[i]
                    != all[j] by {
                    if i == kept.len() {
                        assert(kept[j] == all[j]);
                    } else if j == kept.len() {
                        assert(kept[i] == all[i]);
                    } else {
                        assert(kept[i] == all[i] && kept[j] == all[j]);
                    }
                }
            }
        }
        if !aliases.contains(alias) {
            assert(!front.contains(alias)) by {
                if front.contains(alias) {
                    let i = choose|i: int| 0 <= i < front.len() && front[i] == alias;
                    assert(aliases[i] == alias);
                }
            }
            assert(last != alias) by {
                assert(aliases[aliases.len() - 1] == last);
            }
            assert(all =~= aliases);
        }
    }
}

} // verus!
