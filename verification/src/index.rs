//! The in-memory index: for each live key, where its latest record lies.

use crate::position::EntryPosition;
use vstd::hash_map::StringHashMap;
use vstd::prelude::*;

verus! {

/// No key occurs twice among the entries.
pub open spec fn keys_distinct(entries: Seq<(Seq<char>, EntryPosition)>) -> bool {
    forall|i: int, j: int|
        0 <= i < j < entries.len() ==> (#[trigger] entries[i]).0 != (#[trigger] entries[j]).0
}

/// Whether an entry for `key` is among the entries.
pub open spec fn has_key(entries: Seq<(Seq<char>, EntryPosition)>, key: Seq<char>) -> bool {
    exists|i: int| 0 <= i < entries.len() && (#[trigger] entries[i]).0 == key
}

/// The place of the entry for `key` among the entries.
pub open spec fn place_of(entries: Seq<(Seq<char>, EntryPosition)>, key: Seq<char>) -> int {
    choose|i: int| 0 <= i < entries.len() && (#[trigger] entries[i]).0 == key
}

/// The entries as a map from key to position.
pub open spec fn as_map(entries: Seq<(Seq<char>, EntryPosition)>) -> Map<
    Seq<char>,
    EntryPosition,
> {
    Map::new(
        |key: Seq<char>| has_key(entries, key),
        |key: Seq<char>| entries[place_of(entries, key)].1,
    )
}

/// The size of the record that the entries hold for `key`; 0 where they hold
/// none.
pub open spec fn covered(entries: Seq<(Seq<char>, EntryPosition)>, key: Seq<char>) -> nat {
    if has_key(entries, key) {
        entries[place_of(entries, key)].1.size as nat
    } else {
        0
    }
}

/// The entries with `position` for `key`: in the place of the key's entry
/// where there is one, behind all others where there is none.
pub open spec fn put_entry(
    entries: Seq<(Seq<char>, EntryPosition)>,
    key: Seq<char>,
    position: EntryPosition,
) -> Seq<(Seq<char>, EntryPosition)> {
    if has_key(entries, key) {
        entries.update(place_of(entries, key), (key, position))
    } else {
        entries.push((key, position))
    }
}

/// The entries without the one for `key`: the last entry takes its place.
pub open spec fn drop_entry(entries: Seq<(Seq<char>, EntryPosition)>, key: Seq<char>) -> Seq<
    (Seq<char>, EntryPosition),
> {
    if has_key(entries, key) {
        entries.update(place_of(entries, key), entries.last()).drop_last()
    } else {
        entries
    }
}

/// The sizes of the records that the entries point to, added up.
pub open spec fn total_size(entries: Seq<(Seq<char>, EntryPosition)>) -> nat
    decreases entries.len(),
{
    if entries.len() == 0 {
        0
    } else {
        total_size(entries.drop_last()) + entries.last().1.size as nat
    }
}

/// Each entry is what the map holds for its key.
pub proof fn lemma_entry_in_map(entries: Seq<(Seq<char>, EntryPosition)>, i: int)
    requires
        keys_distinct(entries),
        0 <= i < entries.len(),
    ensures
        as_map(entries).contains_key(entries[i].0),
        as_map(entries)[entries[i].0] == entries[i].1,
        place_of(entries, entries[i].0) == i,
{
    let key = entries[i].0;
    assert(has_key(entries, key));
    let j = place_of(entries, key);
    if j < i {
        assert(entries[j].0 != entries[i].0);
    } else if i < j {
        assert(entries[i].0 != entries[j].0);
    }
}

/// A new key behind the others: the map gains it and the sizes add up.
pub proof fn lemma_push(
    entries: Seq<(Seq<char>, EntryPosition)>,
    key: Seq<char>,
    position: EntryPosition,
)
    requires
        keys_distinct(entries),
        !has_key(entries, key),
    ensures
        keys_distinct(entries.push((key, position))),
        as_map(entries.push((key, position))) == as_map(entries).insert(key, position),
        total_size(entries.push((key, position))) == total_size(entries) + position.size,
{
    let grown = entries.push((key, position));
    assert forall|i: int, j: int| 0 <= i < j < grown.len() implies (#[trigger] grown[i]).0 != (
    #[trigger] grown[j]).0 by {
        if j == entries.len() {
            assert(grown[i] == entries[i]);
            assert(entries[i].0 != key);
        } else {
            assert(grown[i] == entries[i] && grown[j] == entries[j]);
        }
    }
    assert(grown.drop_last() =~= entries);
    assert forall|k: Seq<char>| has_key(grown, k) == (k == key || has_key(entries, k)) by {
        if has_key(entries, k) {
            let i = place_of(entries, k);
            assert(grown[i] == entries[i]);
        }
        if k == key {
            assert(grown[entries.len() as int].0 == key);
        }
        if has_key(grown, k) {
            let i = place_of(grown, k);
            if i < entries.len() {
                assert(grown[i] == entries[i]);
            }
        }
    }
    assert forall|k: Seq<char>| has_key(grown, k) implies as_map(grown)[k] == as_map(
        entries,
    ).insert(key, position)[k] by {
        let i = place_of(grown, k);
        lemma_entry_in_map(grown, i);
        if i < entries.len() {
            assert(grown[i] == entries[i]);
            lemma_entry_in_map(entries, i);
        }
    }
    assert(as_map(grown) =~= as_map(entries).insert(key, position));
}

/// Another entry at place `i` changes the sizes by the difference.
pub proof fn lemma_total_update(
    entries: Seq<(Seq<char>, EntryPosition)>,
    i: int,
    entry: (Seq<char>, EntryPosition),
)
    requires
        0 <= i < entries.len(),
    ensures
        total_size(entries.update(i, entry)) == total_size(entries) - entries[i].1.size
            + entry.1.size,
    decreases entries.len(),
{
    let changed = entries.update(i, entry);
    if i == entries.len() - 1 {
        assert(changed.drop_last() =~= entries.drop_last());
    } else {
        lemma_total_update(entries.drop_last(), i, entry);
        assert(changed.drop_last() =~= entries.drop_last().update(i, entry));
    }
}

/// Another position for the key at `i`: the map is updated there and the sizes
/// change by the difference.
pub proof fn lemma_update(entries: Seq<(Seq<char>, EntryPosition)>, i: int, position: EntryPosition)
    requires
        keys_distinct(entries),
        0 <= i < entries.len(),
    ensures
        keys_distinct(entries.update(i, (entries[i].0, position))),
        as_map(entries.update(i, (entries[i].0, position))) == as_map(entries).insert(
            entries[i].0,
            position,
        ),
        total_size(entries.update(i, (entries[i].0, position))) == total_size(entries)
            - entries[i].1.size + position.size,
{
    let key = entries[i].0;
    let changed = entries.update(i, (key, position));
    assert forall|a: int, b: int| 0 <= a < b < changed.len() implies (#[trigger] changed[a]).0 != (
    #[trigger] changed[b]).0 by {
        assert(changed[a].0 == entries[a].0 && changed[b].0 == entries[b].0);
    }
    assert forall|k: Seq<char>| has_key(changed, k) == has_key(entries, k) by {
        if has_key(entries, k) {
            let j = place_of(entries, k);
            assert(changed[j].0 == entries[j].0);
        }
        if has_key(changed, k) {
            let j = place_of(changed, k);
            assert(changed[j].0 == entries[j].0);
        }
    }
    lemma_entry_in_map(entries, i);
    assert forall|k: Seq<char>| has_key(changed, k) implies as_map(changed)[k] == as_map(
        entries,
    ).insert(key, position)[k] by {
        let j = place_of(changed, k);
        lemma_entry_in_map(changed, j);
        if j != i {
            assert(changed[j] == entries[j]);
            lemma_entry_in_map(entries, j);
        }
    }
    assert(as_map(changed) =~= as_map(entries).insert(key, position));
    lemma_total_update(entries, i, (key, position));
}

/// Without the entry at `i`, whose place the last entry takes: the map loses
/// its key and the sizes its size.
pub proof fn lemma_remove(entries: Seq<(Seq<char>, EntryPosition)>, i: int)
    requires
        keys_distinct(entries),
        0 <= i < entries.len(),
    ensures
        keys_distinct(entries.update(i, entries.last()).drop_last()),
        as_map(entries.update(i, entries.last()).drop_last()) == as_map(entries).remove(
            entries[i].0,
        ),
        total_size(entries.update(i, entries.last()).drop_last()) == total_size(entries)
            - entries[i].1.size,
{
    let key = entries[i].0;
    let last = entries.len() - 1;
    let rest = entries.update(i, entries.last()).drop_last();
    assert forall|a: int| 0 <= a < rest.len() implies #[trigger] rest[a] == entries[if a == i {
        last
    } else {
        a
    }] by {}
    assert forall|a: int, b: int| 0 <= a < b < rest.len() implies (#[trigger] rest[a]).0 != (
    #[trigger] rest[b]).0 by {
        let a0 = if a == i { last } else { a };
        let b0 = if b == i { last } else { b };
        assert(rest[a] == entries[a0] && rest[b] == entries[b0]);
        if a0 < b0 {
            assert(entries[a0].0 != entries[b0].0);
        } else {
            assert(entries[b0].0 != entries[a0].0);
        }
    }
    assert forall|k: Seq<char>| has_key(rest, k) == (k != key && has_key(entries, k)) by {
        if has_key(entries, k) && k != key {
            let j = place_of(entries, k);
            let j1 = if j == last { i } else { j };
            assert(rest[j1] == entries[j]);
        }
        if has_key(rest, k) {
            let j = place_of(rest, k);
            let j0 = if j == i { last } else { j };
            assert(rest[j] == entries[j0]);
            if k == key {
                if j0 < i {
                    assert(entries[j0].0 != entries[i].0);
                } else {
                    assert(entries[i].0 != entries[j0].0);
                }
            }
        }
    }
    assert forall|k: Seq<char>| has_key(rest, k) implies as_map(rest)[k] == as_map(entries).remove(
        key,
    )[k] by {
        let j = place_of(rest, k);
        let j0 = if j == i { last } else { j };
        assert(rest[j] == entries[j0]);
        lemma_entry_in_map(rest, j);
        lemma_entry_in_map(entries, j0);
    }
    assert(as_map(rest) =~= as_map(entries).remove(key));
    lemma_total_update(entries, i, entries.last());
}

/// Putting an entry keeps the keys distinct, updates the map, and changes the
/// sizes by what the key's record gains over the one it had.
pub proof fn lemma_put_entry(
    entries: Seq<(Seq<char>, EntryPosition)>,
    key: Seq<char>,
    position: EntryPosition,
)
    requires
        keys_distinct(entries),
    ensures
        keys_distinct(put_entry(entries, key, position)),
        as_map(put_entry(entries, key, position)) == as_map(entries).insert(key, position),
        total_size(put_entry(entries, key, position)) + covered(entries, key) == total_size(
            entries,
        ) + position.size,
        covered(entries, key) <= total_size(entries),
{
    if has_key(entries, key) {
        let i = place_of(entries, key);
        lemma_update(entries, i, position);
        lemma_size_of_entry(entries, i);
    } else {
        lemma_push(entries, key, position);
    }
}

/// Dropping an entry keeps the keys distinct, takes the key out of the map,
/// and takes the size of its record off the sizes.
pub proof fn lemma_drop_entry(entries: Seq<(Seq<char>, EntryPosition)>, key: Seq<char>)
    requires
        keys_distinct(entries),
    ensures
        keys_distinct(drop_entry(entries, key)),
        as_map(drop_entry(entries, key)) == as_map(entries).remove(key),
        total_size(drop_entry(entries, key)) + covered(entries, key) == total_size(entries),
{
    if has_key(entries, key) {
        let i = place_of(entries, key);
        lemma_remove(entries, i);
    } else {
        assert(as_map(entries).remove(key) =~= as_map(entries));
    }
}

/// No record is larger than all records together.
pub proof fn lemma_size_of_entry(entries: Seq<(Seq<char>, EntryPosition)>, i: int)
    requires
        0 <= i < entries.len(),
    ensures
        entries[i].1.size <= total_size(entries),
    decreases entries.len(),
{
    if i < entries.len() - 1 {
        lemma_size_of_entry(entries.drop_last(), i);
    }
}

/// One key with the position of its record.
struct IndexEntry {
    key: String,
    position: EntryPosition,
}

/// The list of entries, and for each key its place in the list.
struct Parts {
    entries: Vec<IndexEntry>,
    places: StringHashMap<usize>,
}

/// A map from key to record position: a list of entries in which no key
/// occurs twice, with a hash map from each key to its place in the list. A
/// key that is set again keeps its place; when a key is dropped, the last
/// entry takes its place.
pub struct Index {
    parts: Parts,
}

/// The entries of a list as plain values.
spec fn plain(entries: Seq<IndexEntry>) -> Seq<(Seq<char>, EntryPosition)> {
    entries.map_values(|e: IndexEntry| (e.key@, e.position))
}

/// The hash map holds the place of every key, and of nothing else.
spec fn places_match(entries: Seq<(Seq<char>, EntryPosition)>, places: Map<Seq<char>, usize>) -> bool {
    &&& forall|i: int|
        0 <= i < entries.len() ==> places.contains_key((#[trigger] entries[i]).0)
            && places[entries[i].0] == i
    &&& forall|key: Seq<char>| #[trigger]
        places.contains_key(key) ==> places[key] < entries.len() && entries[places[key] as int].0
            == key
}

impl View for Index {
    type V = Map<Seq<char>, EntryPosition>;

    open spec fn view(&self) -> Map<Seq<char>, EntryPosition> {
        as_map(self.entries())
    }
}

impl Index {
    #[verifier::type_invariant]
    spec fn inv(&self) -> bool {
        keys_distinct(self.entries()) && places_match(self.entries(), self.parts.places@)
    }

    /// The keys and positions in the order in which the index holds them.
    pub closed spec fn entries(&self) -> Seq<(Seq<char>, EntryPosition)> {
        plain(self.parts.entries@)
    }

    /// What every index satisfies: no key occurs twice.
    pub open spec fn wf(&self) -> bool {
        keys_distinct(self.entries())
    }

    /// The sizes of all indexed records, added up.
    pub open spec fn live_bytes(&self) -> nat {
        total_size(self.entries())
    }

    /// An index without keys.
    pub fn new() -> (index: Index)
        ensures
            index.entries() == Seq::<(Seq<char>, EntryPosition)>::empty(),
            index@ == Map::<Seq<char>, EntryPosition>::empty(),
            index.wf(),
    {
        let index = Index { parts: Parts { entries: Vec::new(), places: StringHashMap::new() } };
        assert(index.entries() =~= Seq::empty());
        assert(index@ =~= Map::empty());
        index
    }

    /// The number of keys.
    pub fn len(&self) -> (n: usize)
        ensures
            n == self.entries().len(),
            self.wf(),
    {
        proof {
            use_type_invariant(self);
        }
        self.parts.entries.len()
    }

    /// The key at place `i`.
    pub fn key_at(&self, i: usize) -> (key: &String)
        requires
            i < self.entries().len(),
        ensures
            key@ == self.entries()[i as int].0,
    {
        &self.parts.entries[i].key
    }

    /// The position at place `i`.
    pub fn position_at(&self, i: usize) -> (position: EntryPosition)
        requires
            i < self.entries().len(),
        ensures
            position == self.entries()[i as int].1,
    {
        self.parts.entries[i].position
    }

    /// Moves the parts out of the index, which is left without keys.
    fn take(&mut self) -> (parts: Parts)
        ensures
            parts == old(self).parts,
    {
        let mut parts = Parts { entries: Vec::new(), places: StringHashMap::new() };
        assert(plain(parts.entries@) =~= Seq::empty());
        core::mem::swap(&mut self.parts, &mut parts);
        parts
    }

    /// The place of `key` in the list.
    fn find(&self, key: &String) -> (place: Option<usize>)
        ensures
            self.wf(),
            places_match(self.entries(), self.parts.places@),
            match place {
                Some(i) => i < self.entries().len() && self.entries()[i as int].0 == key@,
                None => !has_key(self.entries(), key@),
            },
    {
        proof {
            use_type_invariant(self);
        }
        match self.parts.places.get(key.as_str()) {
            Some(place) => Some(*place),
            None => None,
        }
    }

    /// The position recorded for `key`, if any.
    pub fn get(&self, key: &String) -> (position: Option<EntryPosition>)
        ensures
            self.wf(),
            position == if self@.contains_key(key@) {
                Some(self@[key@])
            } else {
                None
            },
    {
        match self.find(key) {
            Some(i) => {
                proof {
                    lemma_entry_in_map(self.entries(), i as int);
                }
                Some(self.parts.entries[i].position)
            },
            None => None,
        }
    }

    /// Records `position` for `key` and returns the position that was
    /// recorded before, if any.
    pub fn insert(&mut self, key: String, position: EntryPosition) -> (prior: Option<
        EntryPosition,
    >)
        ensures
            final(self).wf(),
            final(self)@ == old(self)@.insert(key@, position),
            prior == if old(self)@.contains_key(key@) {
                Some(old(self)@[key@])
            } else {
                None
            },
            prior is Some <==> has_key(old(self).entries(), key@),
            prior matches Some(p) ==> p.size == covered(old(self).entries(), key@),
            final(self).entries() == put_entry(old(self).entries(), key@, position),
    {
        let place = self.find(&key);
        let ghost before = self.entries();
        let mut parts = self.take();
        proof {
            lemma_put_entry(before, key@, position);
        }
        match place {
            Some(i) => {
                let prior = parts.entries[i].position;
                parts.entries[i].position = position;
                proof {
                    lemma_entry_in_map(before, i as int);
                    assert(plain(parts.entries@) =~= before.update(i as int, (key@, position)));
                }
                self.parts = parts;
                Some(prior)
            },
            None => {
                let place = parts.entries.len();
                proof {
                    assert(plain(parts.entries@.push(IndexEntry { key, position }))
                        =~= before.push((key@, position)));
                }
                parts.places.insert(key.clone(), place);
                parts.entries.push(IndexEntry { key, position });
                self.parts = parts;
                None
            },
        }
    }

    /// Forgets `key` and returns the position that was recorded for it, if
    /// any. The last entry of the list takes the place of the one for `key`.
    pub fn remove(&mut self, key: &String) -> (prior: Option<EntryPosition>)
        ensures
            final(self).wf(),
            final(self)@ == old(self)@.remove(key@),
            prior == if old(self)@.contains_key(key@) {
                Some(old(self)@[key@])
            } else {
                None
            },
            prior is Some <==> has_key(old(self).entries(), key@),
            prior matches Some(p) ==> p.size == covered(old(self).entries(), key@),
            final(self).entries() == drop_entry(old(self).entries(), key@),
    {
        let ghost before = self.entries();
        let place = self.find(key);
        proof {
            lemma_drop_entry(before, key@);
        }
        match place {
            Some(i) => {
                let mut parts = self.take();
                let last = parts.entries.len() - 1;
                proof {
                    lemma_entry_in_map(before, i as int);
                    assert(plain(parts.entries@.update(i as int, parts.entries@.last()).drop_last())
                        =~= before.update(i as int, before.last()).drop_last());
                }
                if i != last {
                    let moved = parts.entries[last].key.clone();
                    assert(before[last as int].0 != before[i as int].0);
                    parts.places.insert(moved, i);
                }
                parts.places.remove(key.as_str());
                let entry = parts.entries.swap_remove(i);
                self.parts = parts;
                Some(entry.position)
            },
            None => None,
        }
    }

    /// Records another position for the key at place `i`.
    pub fn relocate(&mut self, i: usize, position: EntryPosition)
        requires
            i < old(self).entries().len(),
        ensures
            final(self).wf(),
            final(self).entries() == old(self).entries().update(
                i as int,
                (old(self).entries()[i as int].0, position),
            ),
    {
        let ghost before = self.entries();
        proof {
            use_type_invariant(&*self);
            lemma_update(before, i as int, position);
        }
        let mut parts = self.take();
        parts.entries[i].position = position;
        assert(plain(parts.entries@) =~= before.update(i as int, (before[i as int].0, position)));
        self.parts = parts;
    }
}

} // verus!
