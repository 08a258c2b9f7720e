//! The store as a value, and what each operation does to it.
//!
//! A store is its fragments, the list of index entries, the counter of
//! unreclaimed bytes and the compaction threshold. The key state is read off
//! the fragments alone; a well-formed store is one whose index and counter
//! say the same as its fragments.

use crate::compaction::{
    compacted_image, compacted_records, lemma_compacted_log, lemma_compaction,
    lemma_entries_point, lemma_replay_compacted, moved,
};
use crate::image::{
    agrees, all_logs, all_records, appended, ascending, clipped, contents_of,
    disk_size, fits, lemma_append_record, points_to,
};
use crate::index::{
    as_map, covered, drop_entry, has_key, keys_distinct, lemma_drop_entry, lemma_put_entry,
    put_entry, total_size,
};
use crate::position::EntryPosition;
use crate::record::{is_record, Record};
use vstd::prelude::*;

verus! {

/// A store as a mathematical value.
pub struct StoreModel {
    /// The fragments in ascending order, each with its number and bytes. The
    /// last one is the active fragment.
    pub image: Seq<(u64, Seq<u8>)>,
    /// The index: the live keys with the positions of their records, in the
    /// order in which compaction copies them.
    pub entries: Seq<(Seq<char>, EntryPosition)>,
    /// The counter of unreclaimed bytes.
    pub unreclaimed: usize,
    /// More unreclaimed bytes than this set off a compaction.
    pub threshold: usize,
}

impl StoreModel {
    /// The key state: what the records of the fragments lead to.
    pub open spec fn contents(self) -> Map<Seq<char>, Seq<char>> {
        contents_of(self.image)
    }

    /// The index as a map.
    pub open spec fn index(self) -> Map<Seq<char>, EntryPosition> {
        as_map(self.entries)
    }

    /// The number of the active fragment.
    pub open spec fn active(self) -> u64 {
        self.image.last().0
    }

    /// The length of the active fragment: where the next record starts.
    pub open spec fn end(self) -> nat {
        self.image.last().1.len()
    }

    /// The bytes of all fragments, counted.
    pub open spec fn disk_size(self) -> nat {
        disk_size(self.image)
    }

    /// The bytes of the records that the index points at, counted.
    pub open spec fn live(self) -> nat {
        total_size(self.entries)
    }

    /// The bytes of the fragments that belong to no record of the index.
    pub open spec fn stale(self) -> int {
        self.disk_size() - self.live()
    }

    /// The index and the counter say what the fragments say: the fragments
    /// are logs in ascending order, the index has the keys of the key state,
    /// each with the position of an encoding of the `Put` record that gives
    /// the key its value, and the counter is the number of stale bytes as far
    /// as it can count.
    pub open spec fn wf(self) -> bool {
        &&& self.image.len() >= 1
        &&& ascending(self.image)
        &&& all_logs(self.image)
        &&& fits(self.image)
        &&& keys_distinct(self.entries)
        &&& agrees(self.image, self.index(), self.contents())
        &&& self.live() <= self.disk_size()
        &&& self.unreclaimed == clipped(self.stale())
    }

    /// Where a record of `size` bytes lies once it is appended.
    pub open spec fn next_position(self, size: nat) -> EntryPosition {
        EntryPosition { fragment: self.active(), pos: self.end() as u64, size: size as usize }
    }

    /// The store after `segment`, an encoding of a `Put` record for `key`, is
    /// appended and the index is pointed at it.
    pub open spec fn put(self, key: Seq<char>, segment: Seq<u8>) -> StoreModel {
        StoreModel {
            image: appended(self.image, segment),
            entries: put_entry(self.entries, key, self.next_position(segment.len())),
            unreclaimed: clipped(self.unreclaimed + covered(self.entries, key)),
            threshold: self.threshold,
        }
    }

    /// The store after `segment`, an encoding of an `Rm` record for `key`, is
    /// appended and the key is taken out of the index.
    pub open spec fn rm(self, key: Seq<char>, segment: Seq<u8>) -> StoreModel {
        StoreModel {
            image: appended(self.image, segment),
            entries: drop_entry(self.entries, key),
            unreclaimed: clipped(self.unreclaimed + covered(self.entries, key) + segment.len()),
            threshold: self.threshold,
        }
    }

    /// Whether compaction is due: more bytes are unreclaimed than the
    /// threshold allows, and a fragment number is left for the new fragment.
    pub open spec fn due(self) -> bool {
        self.unreclaimed > self.threshold && self.active() < u64::MAX
    }

    /// The store after an attempt at compaction. Where compaction is due, the
    /// records that the index points at are copied, in the order of the
    /// index, into a fragment with the next number, which replaces all
    /// others. Where it is not, nothing changes.
    pub open spec fn compact(self) -> StoreModel {
        if self.due() {
            let fragment = (self.active() + 1) as u64;
            StoreModel {
                image: compacted_image(self.image, self.entries, fragment),
                entries: moved(self.image, self.entries, fragment),
                unreclaimed: 0,
                threshold: self.threshold,
            }
        } else {
            self
        }
    }
}

/// Counting on from a clipped count is as good as counting on from the count.
pub proof fn lemma_clipped_add(count: int, more: int)
    requires
        0 <= count,
        0 <= more,
    ensures
        clipped(clipped(count) + more) == clipped(count + more),
{
}

/// A `Put` keeps the store well-formed and gives the key its value.
pub proof fn lemma_put(store: StoreModel, key: Seq<char>, value: Seq<char>, segment: Seq<u8>)
    requires
        store.wf(),
        is_record(segment, Record::Put { key, value }),
        store.end() + segment.len() <= usize::MAX,
    ensures
        store.put(key, segment).wf(),
        store.put(key, segment).contents() == store.contents().insert(key, value),
        store.put(key, segment).stale() == store.stale() + covered(store.entries, key),
{
    let after = store.put(key, segment);
    let r = Record::Put { key, value };
    let position = store.next_position(segment.len());
    lemma_append_record(store.image, segment, r);
    lemma_put_entry(store.entries, key, position);
    lemma_clipped_add(store.stale(), covered(store.entries, key) as int);
    let before = store.contents();
    assert forall|j: int| 0 <= j < after.image.len() implies (#[trigger] after.image[j]).1.len()
        <= usize::MAX by {
        if j < store.image.len() - 1 {
            assert(after.image[j] == store.image[j]);
        }
    }
    assert forall|k: Seq<char>| #[trigger] after.index().contains_key(k) implies points_to(
        after.image,
        after.index()[k],
        Record::Put { key: k, value: after.contents()[k] },
    ) by {
        if k != key {
            assert(store.index().contains_key(k));
            assert(points_to(store.image, store.index()[k], Record::Put { key: k, value: before[k] }));
        }
    }
}

/// An `Rm` keeps the store well-formed and takes the key out.
pub proof fn lemma_rm(store: StoreModel, key: Seq<char>, segment: Seq<u8>)
    requires
        store.wf(),
        is_record(segment, Record::Rm { key }),
        store.end() + segment.len() <= usize::MAX,
    ensures
        store.rm(key, segment).wf(),
        store.rm(key, segment).contents() == store.contents().remove(key),
        store.rm(key, segment).stale() == store.stale() + covered(store.entries, key)
            + segment.len(),
{
    let after = store.rm(key, segment);
    let r = Record::Rm { key };
    lemma_append_record(store.image, segment, r);
    lemma_drop_entry(store.entries, key);
    lemma_clipped_add(store.stale(), (covered(store.entries, key) + segment.len()) as int);
    let before = store.contents();
    assert forall|j: int| 0 <= j < after.image.len() implies (#[trigger] after.image[j]).1.len()
        <= usize::MAX by {
        if j < store.image.len() - 1 {
            assert(after.image[j] == store.image[j]);
        }
    }
    assert forall|k: Seq<char>| #[trigger] after.index().contains_key(k) implies points_to(
        after.image,
        after.index()[k],
        Record::Put { key: k, value: after.contents()[k] },
    ) by {
        assert(store.index().contains_key(k));
        assert(points_to(store.image, store.index()[k], Record::Put { key: k, value: before[k] }));
    }
}

/// Compaction leaves the key state as it is.
pub proof fn lemma_compact_contents(store: StoreModel)
    requires
        store.wf(),
    ensures
        store.compact().contents() == store.contents(),
{
    if store.due() {
        let fragment = (store.active() + 1) as u64;
        let state = store.contents();
        let after = compacted_image(store.image, store.entries, fragment);
        lemma_entries_point(store.image, store.entries, state);
        lemma_compacted_log(store.image, store.entries, state);
        lemma_replay_compacted(store.entries, state);
        assert(after.drop_last() =~= Seq::<(u64, Seq<u8>)>::empty());
        assert(all_records(after.drop_last()) =~= Seq::<(Record, nat)>::empty());
        assert(all_records(after) =~= compacted_records(store.entries, state));
        assert forall|key: Seq<char>| has_key(store.entries, key) == state.contains_key(key) by {
            assert(store.index().dom().contains(key) == state.dom().contains(key));
        }
        assert(contents_of(after) =~= state);
    }
}

/// Compaction keeps the store well-formed, where the live records fit into
/// one fragment, and leaves no compaction due.
pub proof fn lemma_compact(store: StoreModel)
    requires
        store.wf(),
        store.live() <= usize::MAX,
    ensures
        store.compact().wf(),
        !store.compact().due(),
        store.due() ==> store.compact().stale() == 0,
{
    if store.due() {
        let fragment = (store.active() + 1) as u64;
        lemma_compaction(store.image, store.entries, fragment);
        lemma_moved_size(store.image, store.entries, fragment, store.entries.len() as int);
        let after = store.compact();
        assert(moved(store.image, store.entries, fragment).take(store.entries.len() as int)
            =~= moved(store.image, store.entries, fragment));
        assert(store.entries.take(store.entries.len() as int) =~= store.entries);
        lemma_entries_point(store.image, store.entries, store.contents());
        lemma_compacted_log(store.image, store.entries, store.contents());
        assert(after.image[0].1.len() <= usize::MAX);
    }
}

/// The moved entries point at records of the sizes of the entries.
pub proof fn lemma_moved_size(
    image: Seq<(u64, Seq<u8>)>,
    entries: Seq<(Seq<char>, EntryPosition)>,
    fragment: u64,
    n: int,
)
    requires
        0 <= n <= entries.len(),
    ensures
        total_size(moved(image, entries, fragment).take(n)) == total_size(entries.take(n)),
    decreases n,
{
    let shifted = moved(image, entries, fragment);
    if n > 0 {
        lemma_moved_size(image, entries, fragment, n - 1);
        assert(shifted.take(n).drop_last() =~= shifted.take(n - 1));
        assert(entries.take(n).drop_last() =~= entries.take(n - 1));
    }
}

} // verus!
