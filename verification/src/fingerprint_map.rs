//! The table from alias to fingerprint: an association list that keeps the
//! order in which aliases were first entered and holds every alias once.

use crate::text::str_eq;
use vstd::prelude::*;

verus! {

/// An entry as the text of its alias and of its fingerprint.
pub open spec fn entry_view(e: (String, String)) -> (Seq<char>, Seq<char>) {
    (e.0@, e.1@)
}

/// The entries of a vector as text.
pub open spec fn entries_view(v: Seq<(String, String)>) -> Seq<(Seq<char>, Seq<char>)> {
    v.map_values(|e: (String, String)| entry_view(e))
}

/// Some entry has the alias `key`.
pub open spec fn has_key(entries: Seq<(Seq<char>, Seq<char>)>, key: Seq<char>) -> bool {
    exists|i: int| 0 <= i < entries.len() && (#[trigger] entries[i]).0 == key
}

/// The index of an entry with the alias `key`, where there is one.
pub open spec fn key_position(entries: Seq<(Seq<char>, Seq<char>)>, key: Seq<char>) -> int {
    choose|i: int| 0 <= i < entries.len() && (#[trigger] entries[i]).0 == key
}

/// No alias has two entries.
pub open spec fn distinct_keys(entries: Seq<(Seq<char>, Seq<char>)>) -> bool {
    forall|i: int, j: int|
        0 <= i < j < entries.len() ==> (#[trigger] entries[i]).0 != (#[trigger] entries[j]).0
}

/// The mapping that the entries stand for.
pub open spec fn as_map(entries: Seq<(Seq<char>, Seq<char>)>) -> Map<Seq<char>, Seq<char>> {
    Map::new(
        |k: Seq<char>| has_key(entries, k),
        |k: Seq<char>| entries[key_position(entries, k)].1,
    )
}

/// The entries after `key` has been given the fingerprint `value`: an alias
/// already entered keeps its place, a new one goes to the end.
pub open spec fn put(
    entries: Seq<(Seq<char>, Seq<char>)>,
    key: Seq<char>,
    value: Seq<char>,
) -> Seq<(Seq<char>, Seq<char>)> {
    if has_key(entries, key) {
        entries.update(key_position(entries, key), (key, value))
    } else {
        entries.push((key, value))
    }
}

/// The entries without the one for `key`; the others keep their order.
pub open spec fn without(entries: Seq<(Seq<char>, Seq<char>)>, key: Seq<char>) -> Seq<
    (Seq<char>, Seq<char>),
> {
    if has_key(entries, key) {
        entries.remove(key_position(entries, key))
    } else {
        entries
    }
}

/// The entries after each pair of `pairs` has been put in turn.
pub open spec fn put_all(
    entries: Seq<(Seq<char>, Seq<char>)>,
    pairs: Seq<(Seq<char>, Seq<char>)>,
) -> Seq<(Seq<char>, Seq<char>)>
    decreases pairs.len(),
{
    if pairs.len() == 0 {
        entries
    } else {
        put(put_all(entries, pairs.drop_last()), pairs.last().0, pairs.last().1)
    }
}

/// Some entry has the fingerprint `value`.
pub open spec fn has_value(entries: Seq<(Seq<char>, Seq<char>)>, value: Seq<char>) -> bool {
    exists|i: int| 0 <= i < entries.len() && (#[trigger] entries[i]).1 == value
}

/// The index of the first entry with the fingerprint `value`, or the number
/// of entries where there is none.
pub open spec fn first_with_value(entries: Seq<(Seq<char>, Seq<char>)>, value: Seq<char>) -> int
    decreases entries.len(),
{
    if entries.len() == 0 {
        0
    } else if entries.first().1 == value {
        0
    } else {
        1 + first_with_value(entries.drop_first(), value)
    }
}

/// What `first_with_value` finds: no entry before it has the fingerprint,
/// and the entry at it, if there is one, has.
pub proof fn lemma_first_with_value(entries: Seq<(Seq<char>, Seq<char>)>, value: Seq<char>)
    ensures
        0 <= first_with_value(entries, value) <= entries.len(),
        forall|k: int|
            0 <= k < first_with_value(entries, value) ==> (#[trigger] entries[k]).1 != value,
        first_with_value(entries, value) < entries.len() ==> entries[first_with_value(
            entries,
            value,
        )].1 == value,
        first_with_value(entries, value) < entries.len() <==> has_value(entries, value),
    decreases entries.len(),
{
    if entries.len() > 0 && entries.first().1 != value {
        let rest = entries.drop_first();
        lemma_first_with_value(rest, value);
        let i = first_with_value(entries, value);
        assert forall|k: int| 0 <= k < i implies (#[trigger] entries[k]).1 != value by {
            if k > 0 {
                assert(rest[k - 1] == entries[k]);
            }
        }
        if i < entries.len() {
            assert(rest[i - 1] == entries[i]);
        }
    }
    let i = first_with_value(entries, value);
    if has_value(entries, value) {
        let k = choose|k: int| 0 <= k < entries.len() && (#[trigger] entries[k]).1 == value;
        assert(i <= k);
    }
}

/// With distinct aliases, the entry found for an alias is the only one.
pub proof fn lemma_key_position(entries: Seq<(Seq<char>, Seq<char>)>, i: int)
    requires
        distinct_keys(entries),
        0 <= i < entries.len(),
    ensures
        has_key(entries, entries[i].0),
        key_position(entries, entries[i].0) == i,
{
    let p = key_position(entries, entries[i].0);
    assert(0 <= p < entries.len() && entries[p].0 == entries[i].0);
    if p < i {
        assert(entries[p].0 != entries[i].0);
    } else if i < p {
        assert(entries[i].0 != entries[p].0);
    }
}

/// The mapping holds exactly the aliases entered, each with its fingerprint.
pub proof fn lemma_as_map(entries: Seq<(Seq<char>, Seq<char>)>)
    requires
        distinct_keys(entries),
    ensures
        forall|i: int|
            0 <= i < entries.len() ==> as_map(entries).contains_key((#[trigger] entries[i]).0)
                && as_map(entries)[entries[i].0] == entries[i].1,
        forall|k: Seq<char>| #[trigger]
            as_map(entries).contains_key(k) ==> 0 <= key_position(entries, k) < entries.len()
                && entries[key_position(entries, k)].0 == k,
        as_map(entries).dom().finite(),
        as_map(entries).len() == entries.len(),
    decreases entries.len(),
{
    assert forall|i: int| 0 <= i < entries.len() implies as_map(entries).contains_key(
        (#[trigger] entries[i]).0,
    ) && as_map(entries)[entries[i].0] == entries[i].1 by {
        lemma_key_position(entries, i);
    }
    if entries.len() == 0 {
        assert(as_map(entries).dom() =~= Set::<Seq<char>>::empty());
    } else {
        let front = entries.drop_last();
        let last = entries.last();
        lemma_as_map(front);
        assert(!has_key(front, last.0)) by {
            if has_key(front, last.0) {
                let p = key_position(front, last.0);
                assert(entries[p].0 == front[p].0);
                assert(entries[p].0 != entries[entries.len() - 1].0);
            }
        }
        assert(as_map(entries).dom() =~= as_map(front).dom().insert(last.0)) by {
            assert forall|k: Seq<char>| as_map(entries).dom().contains(k) implies as_map(
                front,
            ).dom().insert(last.0).contains(k) by {
                let p = key_position(entries, k);
                if p < front.len() {
                    assert(front[p].0 == k);
                }
            }
            assert forall|k: Seq<char>| as_map(front).dom().insert(last.0).contains(
                k,
            ) implies as_map(entries).dom().contains(k) by {
                if k == last.0 {
                    assert(entries[entries.len() - 1].0 == k);
                } else {
                    let p = key_position(front, k);
                    assert(entries[p].0 == k);
                }
            }
        }
    }
}

/// Putting a fingerprint keeps the aliases distinct and is an insertion
/// into the mapping.
pub proof fn lemma_put(entries: Seq<(Seq<char>, Seq<char>)>, key: Seq<char>, value: Seq<char>)
    requires
        distinct_keys(entries),
    ensures
        distinct_keys(put(entries, key, value)),
        as_map(put(entries, key, value)) == as_map(entries).insert(key, value),
{
    let after = put(entries, key, value);
    if has_key(entries, key) {
        let p = key_position(entries, key);
        assert forall|i: int| 0 <= i < after.len() implies (#[trigger] after[i]).0
            == entries[i].0 by {}
        assert(distinct_keys(after)) by {
            assert forall|i: int, j: int| 0 <= i < j < after.len() implies (#[trigger] after[i]).0
                != (#[trigger] after[j]).0 by {
                assert(entries[i].0 != entries[j].0);
            }
        }
    } else {
        assert(distinct_keys(after)) by {
            assert forall|i: int, j: int| 0 <= i < j < after.len() implies (#[trigger] after[i]).0
                != (#[trigger] after[j]).0 by {
                if j < entries.len() {
                    assert(entries[i].0 != entries[j].0);
                } else {
                    assert(entries[i].0 != key);
                }
            }
        }
    }
    lemma_as_map(entries);
    lemma_as_map(after);
    assert(as_map(after) =~= as_map(entries).insert(key, value)) by {
        assert forall|k: Seq<char>| as_map(after).contains_key(k) implies as_map(entries).insert(
            key,
            value,
        ).contains_key(k) && as_map(after)[k] == as_map(entries).insert(key, value)[k] by {
            let p = key_position(after, k);
            if k != key {
                assert(p < entries.len());
                assert(entries[p] == after[p]);
                lemma_key_position(entries, p);
            } else {
                if has_key(entries, key) {
                    let q = key_position(entries, key);
                    assert(after[q].0 == key);
                    lemma_key_position(after, q);
                } else {
                    lemma_key_position(after, entries.len() as int);
                }
            }
        }
        assert forall|k: Seq<char>| as_map(entries).insert(key, value).contains_key(
            k,
        ) implies as_map(after).contains_key(k) by {
            if k == key {
                if has_key(entries, key) {
                    let q = key_position(entries, key);
                    assert(after[q].0 == key);
                } else {
                    assert(after[entries.len() as int].0 == key);
                }
            } else {
                let p = key_position(entries, k);
                assert(after[p].0 == k);
            }
        }
    }
}

/// Putting the entries of a table in turn builds the same table again.
pub proof fn lemma_put_all_distinct(entries: Seq<(Seq<char>, Seq<char>)>)
    requires
        distinct_keys(entries),
    ensures
        put_all(Seq::empty(), entries) == entries,
    decreases entries.len(),
{
    if entries.len() == 0 {
        assert(entries =~= Seq::empty());
    } else {
        let front = entries.drop_last();
        let last = entries.last();
        lemma_put_all_distinct(front);
        assert(!has_key(front, last.0)) by {
            if has_key(front, last.0) {
                let p = key_position(front, last.0);
                assert(entries[p].0 == front[p].0);
                assert(entries[p].0 != entries[entries.len() - 1].0);
            }
        }
        assert(front.push(last) =~= entries);
    }
}

/// Taking an alias out keeps the others distinct and is a removal from the
/// mapping.
pub proof fn lemma_without(entries: Seq<(Seq<char>, Seq<char>)>, key: Seq<char>)
    requires
        distinct_keys(entries),
    ensures
        distinct_keys(without(entries, key)),
        !has_key(without(entries, key), key),
        as_map(without(entries, key)) == as_map(entries).remove(key),
{
    let after = without(entries, key);
    lemma_as_map(entries);
    if has_key(entries, key) {
        let p = key_position(entries, key);
        assert forall|i: int| 0 <= i < after.len() implies (#[trigger] after[i]) == entries[if i
            < p {
            i
        } else {
            i + 1
        }] by {}
        assert(distinct_keys(after)) by {
            assert forall|i: int, j: int| 0 <= i < j < after.len() implies (#[trigger] after[i]).0
                != (#[trigger] after[j]).0 by {
                let a = if i < p { i } else { i + 1 };
                let b = if j < p { j } else { j + 1 };
                assert(entries[a].0 != entries[b].0);
            }
        }
        assert(!has_key(after, key)) by {
            if has_key(after, key) {
                let q = key_position(after, key);
                let a = if q < p { q } else { q + 1 };
                assert(entries[a].0 == key);
                if a < p {
                    assert(entries[a].0 != entries[p].0);
                } else {
                    assert(entries[p].0 != entries[a].0);
                }
            }
        }
        lemma_as_map(after);
        assert(as_map(after) =~= as_map(entries).remove(key)) by {
            assert forall|k: Seq<char>| as_map(after).contains_key(k) implies as_map(
                entries,
            ).remove(key).contains_key(k) && as_map(after)[k] == as_map(entries).remove(key)[k] by {
                let q = key_position(after, k);
                let a = if q < p { q } else { q + 1 };
                assert(entries[a] == after[q]);
                lemma_key_position(entries, a);
            }
            assert forall|k: Seq<char>| as_map(entries).remove(key).contains_key(
                k,
            ) implies as_map(after).contains_key(k) by {
                let a = key_position(entries, k);
                let q = if a < p { a } else { a - 1 };
                assert(after[q].0 == k);
            }
        }
    } else {
        assert(as_map(entries).remove(key) =~= as_map(entries));
    }
}

/// The fingerprint recorded for each alias.
///
/// Every alias is held once.  Entries keep the order in which their aliases
/// were first put; that order decides which alias a search by fingerprint
/// finds first.
#[derive(Debug)]
pub struct FingerprintMap {
    entries: Vec<(String, String)>,
}

impl View for FingerprintMap {
    type V = Map<Seq<char>, Seq<char>>;

    open spec fn view(&self) -> Map<Seq<char>, Seq<char>> {
        as_map(self.entries())
    }
}

impl FingerprintMap {
    /// The entries in order, as text.
    pub closed spec fn entries(&self) -> Seq<(Seq<char>, Seq<char>)> {
        entries_view(self.entries@)
    }

    /// No alias is entered twice.
    #[verifier::type_invariant]
    pub open spec fn well_formed(&self) -> bool {
        distinct_keys(self.entries())
    }

    /// An empty table.
    pub fn new() -> (table: Self)
        ensures
            table.entries() == Seq::<(Seq<char>, Seq<char>)>::empty(),
            table@ == Map::<Seq<char>, Seq<char>>::empty(),
    {
        let table = FingerprintMap { entries: Vec::new() };
        assert(table.entries() =~= Seq::<(Seq<char>, Seq<char>)>::empty());
        assert(table@ =~= Map::<Seq<char>, Seq<char>>::empty());
        table
    }

    /// The number of aliases that have a fingerprint.
    pub fn len(&self) -> (n: usize)
        ensures
            n == self.entries().len(),
            n == self@.len(),
    {
        proof {
            use_type_invariant(self);
            lemma_as_map(self.entries());
        }
        self.entries.len()
    }

    /// Tells whether no alias has a fingerprint.
    pub fn is_empty(&self) -> (r: bool)
        ensures
            r == (self.entries().len() == 0),
    {
        self.entries.len() == 0
    }

    /// The place of `key` among the entries.
    fn position(&self, key: &str) -> (r: Option<usize>)
        ensures
            self.well_formed(),
            match r {
                Some(i) => has_key(self.entries(), key@) && i == key_position(
                    self.entries(),
                    key@,
                ) && i < self.entries().len(),
                None => !has_key(self.entries(), key@),
            },
    {
        proof {
            use_type_invariant(self);
        }
        let mut i: usize = 0;
        while i < self.entries.len()
            invariant
                i <= self.entries.len(),
                self.well_formed(),
                forall|k: int| 0 <= k < i ==> (#[trigger] self.entries()[k]).0 != key@,
            decreases self.entries.len() - i,
        {
            if str_eq(self.entries[i].0.as_str(), key) {
                proof {
                    lemma_key_position(self.entries(), i as int);
                }
                return Some(i);
            }
            i += 1;
        }
        None
    }

    /// Tells whether `key` has a fingerprint.
    pub fn contains_key(&self, key: &str) -> (r: bool)
        ensures
            r == self@.contains_key(key@),
            r == has_key(self.entries(), key@),
    {
        self.position(key).is_some()
    }

    /// The fingerprint of `key`, where it has one.
    pub fn get(&self, key: &str) -> (r: Option<&String>)
        ensures
            match r {
                Some(value) => self@.contains_key(key@) && value@ == self@[key@],
                None => !self@.contains_key(key@),
            },
    {
        match self.position(key) {
            Some(i) => Some(&self.entries[i].1),
            None => None,
        }
    }

    /// Gives `key` the fingerprint `value` and returns the one it had.  An
    /// alias already entered keeps its place; a new one goes to the end.
    pub fn insert(&mut self, key: String, value: String) -> (previous: Option<String>)
        ensures
            final(self).entries() == put(old(self).entries(), key@, value@),
            final(self)@ == old(self)@.insert(key@, value@),
            match previous {
                Some(p) => old(self)@.contains_key(key@) && p@ == old(self)@[key@],
                None => !old(self)@.contains_key(key@),
            },
    {
        let found = self.position(key.as_str());
        proof {
            lemma_put(self.entries(), key@, value@);
        }
        let mut entries: Vec<(String, String)> = Vec::new();
        std::mem::swap(&mut entries, &mut self.entries);
        let previous = match found {
            Some(i) => {
                let before = entries[i].1.clone();
                entries.set(i, (key, value));
                Some(before)
            },
            None => {
                entries.push((key, value));
                None
            },
        };
        assert(entries_view(entries@) =~= put(old(self).entries(), key@, value@));
        self.entries = entries;
        previous
    }

    /// Takes the entry of `key` out and returns its fingerprint.  The other
    /// entries keep their order.
    pub fn remove(&mut self, key: &str) -> (previous: Option<String>)
        ensures
            final(self).entries() == without(old(self).entries(), key@),
            final(self)@ == old(self)@.remove(key@),
            match previous {
                Some(p) => old(self)@.contains_key(key@) && p@ == old(self)@[key@],
                None => !old(self)@.contains_key(key@),
            },
    {
        let found = self.position(key);
        proof {
            lemma_without(self.entries(), key@);
        }
        match found {
            Some(i) => {
                let mut entries: Vec<(String, String)> = Vec::new();
                std::mem::swap(&mut entries, &mut self.entries);
                let taken = entries.remove(i);
                assert(entries_view(entries@) =~= without(old(self).entries(), key@));
                self.entries = entries;
                Some(taken.1)
            },
            None => None,
        }
    }

    /// The table that holds `pairs`, put in turn: of two pairs with one
    /// alias the later gives the fingerprint, the earlier the place.
    pub fn from_pairs(pairs: Vec<(String, String)>) -> (table: Self)
        ensures
            table.entries() == put_all(Seq::empty(), entries_view(pairs@)),
    {
        let mut table = FingerprintMap::new();
        let mut i: usize = 0;
        while i < pairs.len()
            invariant
                i <= pairs.len(),
                table.entries() == put_all(Seq::empty(), entries_view(pairs@).take(i as int)),
            decreases pairs.len() - i,
        {
            let key = pairs[i].0.clone();
            let value = pairs[i].1.clone();
            proof {
                let now = entries_view(pairs@).take(i + 1);
                assert(now.drop_last() =~= entries_view(pairs@).take(i as int));
                assert(now.last() == (key@, value@));
            }
            table.insert(key, value);
            i += 1;
        }
        assert(entries_view(pairs@).take(pairs.len() as int) =~= entries_view(pairs@));
        table
    }

    /// The entries in order.
    pub fn pairs(&self) -> (pairs: &Vec<(String, String)>)
        ensures
            entries_view(pairs@) == self.entries(),
    {
        &self.entries
    }

    /// The alias of the first entry whose fingerprint is `value`.
    pub fn find_by_value(&self, value: &str) -> (r: Option<&String>)
        ensures
            match r {
                Some(key) => {
                    let i = first_with_value(self.entries(), value@);
                    &&& i < self.entries().len()
                    &&& self.entries()[i] == (key@, value@)
                },
                None => first_with_value(self.entries(), value@) == self.entries().len(),
            },
    {
        let mut i: usize = 0;
        assert(self.entries().skip(0) =~= self.entries());
        while i < self.entries.len()
            invariant
                i <= self.entries.len(),
                first_with_value(self.entries(), value@) == i + first_with_value(
                    self.entries().skip(i as int),
                    value@,
                ),
            decreases self.entries.len() - i,
        {
            proof {
                let rest = self.entries().skip(i as int);
                assert(rest.first() == self.entries()[i as int]);
                assert(rest.drop_first() =~= self.entries().skip(i + 1));
            }
            if str_eq(self.entries[i].1.as_str(), value) {
                return Some(&self.entries[i].0);
            }
            i += 1;
        }
        None
    }
}

impl Clone for FingerprintMap {
    /// A table with the same entries in the same order.
    fn clone(&self) -> (copy: Self)
        ensures
            copy.entries() == self.entries(),
            copy@ == self@,
    {
        proof {
            use_type_invariant(self);
        }
        let mut entries: Vec<(String, String)> = Vec::new();
        let mut i: usize = 0;
        while i < self.entries.len()
            invariant
                i <= self.entries.len(),
                entries_view(entries@) == self.entries().take(i as int),
            decreases self.entries.len() - i,
        {
            let ghost before = entries_view(entries@);
            entries.push((self.entries[i].0.clone(), self.entries[i].1.clone()));
            assert(entries_view(entries@) =~= before.push(self.entries()[i as int]));
            assert(self.entries().take(i + 1) =~= before.push(self.entries()[i as int]));
            i += 1;
        }
        assert(self.entries().take(self.entries.len() as int) =~= self.entries());
        FingerprintMap { entries }
    }
}

impl Default for FingerprintMap {
    fn default() -> (table: Self)
        ensures
            table.entries() == Seq::<(Seq<char>, Seq<char>)>::empty(),
    {
        FingerprintMap::new()
    }
}

} // verus!
