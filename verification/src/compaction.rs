//! What compaction writes: one record for each key of the index, copied from
//! where the index points, in the order of the index.

use crate::image::{
    agrees, all_logs, all_records, ascending, bytes_at, contents_of, disk_size, in_bounds,
    lemma_fragment_place, points_to, replay, };
use crate::index::{as_map, has_key, keys_distinct, lemma_entry_in_map, place_of, total_size};
use crate::position::EntryPosition;
use crate::record::{is_log, lemma_log_append, log_records, Record};
use vstd::prelude::*;

verus! {

/// Every entry points at an encoding of the `Put` record that gives its key
/// the value it has in `state`.
pub open spec fn entries_point(
    image: Seq<(u64, Seq<u8>)>,
    entries: Seq<(Seq<char>, EntryPosition)>,
    state: Map<Seq<char>, Seq<char>>,
) -> bool {
    forall|i: int|
        0 <= i < entries.len() ==> points_to(
            image,
            (#[trigger] entries[i]).1,
            Record::Put { key: entries[i].0, value: state[entries[i].0] },
        )
}

/// The bytes that the entries point at, one run after another.
pub open spec fn compacted(image: Seq<(u64, Seq<u8>)>, entries: Seq<(Seq<char>, EntryPosition)>) -> Seq<
    u8,
>
    decreases entries.len(),
{
    if entries.len() == 0 {
        Seq::empty()
    } else {
        compacted(image, entries.drop_last()) + bytes_at(image, entries.last().1)
    }
}

/// The records that the compacted bytes hold: for each entry the `Put` of
/// its key and the key's value in `state`.
pub open spec fn compacted_records(
    entries: Seq<(Seq<char>, EntryPosition)>,
    state: Map<Seq<char>, Seq<char>>,
) -> Seq<(Record, nat)> {
    Seq::new(
        entries.len(),
        |i: int|
            (Record::Put { key: entries[i].0, value: state[entries[i].0] }, entries[i].1.size as nat),
    )
}

/// Where the record of the `i`-th entry lies in the compacted fragment.
pub open spec fn moved_position(
    image: Seq<(u64, Seq<u8>)>,
    entries: Seq<(Seq<char>, EntryPosition)>,
    fragment: u64,
    i: int,
) -> EntryPosition {
    EntryPosition {
        fragment,
        pos: compacted(image, entries.take(i)).len() as u64,
        size: entries[i].1.size,
    }
}

/// The entries after compaction into `fragment`: the same keys in the same
/// order, each with the position of its copy.
pub open spec fn moved(
    image: Seq<(u64, Seq<u8>)>,
    entries: Seq<(Seq<char>, EntryPosition)>,
    fragment: u64,
) -> Seq<(Seq<char>, EntryPosition)> {
    Seq::new(entries.len(), |i: int| (entries[i].0, moved_position(image, entries, fragment, i)))
}

/// The image after compaction into `fragment`: that fragment alone.
pub open spec fn compacted_image(
    image: Seq<(u64, Seq<u8>)>,
    entries: Seq<(Seq<char>, EntryPosition)>,
    fragment: u64,
) -> Seq<(u64, Seq<u8>)> {
    seq![(fragment, compacted(image, entries))]
}

/// An index that agrees with the state points at each key's record.
pub proof fn lemma_entries_point(
    image: Seq<(u64, Seq<u8>)>,
    entries: Seq<(Seq<char>, EntryPosition)>,
    state: Map<Seq<char>, Seq<char>>,
)
    requires
        keys_distinct(entries),
        agrees(image, as_map(entries), state),
    ensures
        entries_point(image, entries, state),
{
    assert forall|i: int| 0 <= i < entries.len() implies points_to(
        image,
        (#[trigger] entries[i]).1,
        Record::Put { key: entries[i].0, value: state[entries[i].0] },
    ) by {
        lemma_entry_in_map(entries, i);
        assert(as_map(entries).contains_key(entries[i].0));
    }
}

/// The compacted bytes are a log of the compacted records, as long as the
/// records that the entries point at.
pub proof fn lemma_compacted_log(
    image: Seq<(u64, Seq<u8>)>,
    entries: Seq<(Seq<char>, EntryPosition)>,
    state: Map<Seq<char>, Seq<char>>,
)
    requires
        entries_point(image, entries, state),
    ensures
        is_log(compacted(image, entries)),
        log_records(compacted(image, entries)) == Some(compacted_records(entries, state)),
        compacted(image, entries).len() == total_size(entries),
    decreases entries.len(),
{
    if entries.len() == 0 {
        assert(compacted_records(entries, state) =~= Seq::empty());
    } else {
        let front = entries.drop_last();
        assert forall|i: int| 0 <= i < front.len() implies points_to(
            image,
            (#[trigger] front[i]).1,
            Record::Put { key: front[i].0, value: state[front[i].0] },
        ) by {
            assert(front[i] == entries[i]);
        }
        lemma_compacted_log(image, front, state);
        let last = entries.last();
        let r = Record::Put { key: last.0, value: state[last.0] };
        assert(points_to(image, last.1, r));
        lemma_log_append(compacted(image, front), bytes_at(image, last.1), r);
        assert(compacted_records(front, state).push((r, last.1.size as nat))
            =~= compacted_records(entries, state));
    }
}

/// The compacted bytes of the first entries stand at the front of the
/// compacted bytes of all.
pub proof fn lemma_compacted_take(
    image: Seq<(u64, Seq<u8>)>,
    entries: Seq<(Seq<char>, EntryPosition)>,
    i: int,
)
    requires
        0 <= i <= entries.len(),
    ensures
        compacted(image, entries.take(i)).len() <= compacted(image, entries).len(),
        compacted(image, entries).take(compacted(image, entries.take(i)).len() as int)
            == compacted(image, entries.take(i)),
    decreases entries.len() - i,
{
    let whole = compacted(image, entries);
    if i == entries.len() {
        assert(entries.take(i) =~= entries);
        assert(whole.take(whole.len() as int) =~= whole);
    } else {
        lemma_compacted_take(image, entries, i + 1);
        let longer = compacted(image, entries.take(i + 1));
        let shorter = compacted(image, entries.take(i));
        assert(entries.take(i + 1).drop_last() =~= entries.take(i));
        assert(longer == shorter + bytes_at(image, entries[i].1));
        assert(whole.take(shorter.len() as int) =~= longer.take(shorter.len() as int));
        assert(longer.take(shorter.len() as int) =~= shorter);
    }
}

/// The copy of each record lies in the compacted bytes at its moved
/// position.
pub proof fn lemma_compacted_slice(
    image: Seq<(u64, Seq<u8>)>,
    entries: Seq<(Seq<char>, EntryPosition)>,
    i: int,
)
    requires
        0 <= i < entries.len(),
        forall|j: int| 0 <= j < entries.len() ==> in_bounds(image, (#[trigger] entries[j]).1),
    ensures
        compacted(image, entries.take(i)).len() + entries[i].1.size <= compacted(
            image,
            entries,
        ).len(),
        compacted(image, entries).subrange(
            compacted(image, entries.take(i)).len() as int,
            compacted(image, entries.take(i)).len() + entries[i].1.size,
        ) == bytes_at(image, entries[i].1),
{
    let whole = compacted(image, entries);
    let shorter = compacted(image, entries.take(i));
    let longer = compacted(image, entries.take(i + 1));
    lemma_compacted_take(image, entries, i + 1);
    assert(entries.take(i + 1).drop_last() =~= entries.take(i));
    assert(entries.take(i + 1).last() == entries[i]);
    let piece = bytes_at(image, entries[i].1);
    assert(in_bounds(image, entries[i].1));
    assert(piece.len() == entries[i].1.size);
    assert(longer == shorter + piece);
    let from = shorter.len() as int;
    let to = from + piece.len();
    assert(whole.subrange(from, to) =~= whole.take(longer.len() as int).subrange(from, to));
    assert(longer.subrange(from, to) =~= piece);
}

/// Replaying the compacted records gives each key of the entries its value
/// in `state`.
pub proof fn lemma_replay_compacted(
    entries: Seq<(Seq<char>, EntryPosition)>,
    state: Map<Seq<char>, Seq<char>>,
)
    ensures
        replay(compacted_records(entries, state)) == Map::new(
            |key: Seq<char>| has_key(entries, key),
            |key: Seq<char>| state[key],
        ),
    decreases entries.len(),
{
    let records = compacted_records(entries, state);
    let target = Map::new(|key: Seq<char>| has_key(entries, key), |key: Seq<char>| state[key]);
    if entries.len() == 0 {
        assert(replay(records) =~= target);
    } else {
        let front = entries.drop_last();
        lemma_replay_compacted(front, state);
        assert(records.drop_last() =~= compacted_records(front, state));
        let last = entries.last();
        assert forall|key: Seq<char>| has_key(entries, key) == (key == last.0 || has_key(
            front,
            key,
        )) by {
            if has_key(front, key) {
                let i = place_of(front, key);
                assert(entries[i] == front[i]);
            }
            if key == last.0 {
                assert(entries[entries.len() - 1].0 == key);
            }
            if has_key(entries, key) {
                let i = place_of(entries, key);
                if i < front.len() {
                    assert(front[i] == entries[i]);
                }
            }
        }
        assert(replay(records) =~= target);
    }
}

/// After compaction the image is one log, the moved entries agree with the
/// contents, the contents are what they were, and no byte is stale.
pub proof fn lemma_compaction(
    image: Seq<(u64, Seq<u8>)>,
    entries: Seq<(Seq<char>, EntryPosition)>,
    fragment: u64,
)
    requires
        keys_distinct(entries),
        agrees(image, as_map(entries), contents_of(image)),
        total_size(entries) <= usize::MAX,
    ensures
        ascending(compacted_image(image, entries, fragment)),
        all_logs(compacted_image(image, entries, fragment)),
        keys_distinct(moved(image, entries, fragment)),
        contents_of(compacted_image(image, entries, fragment)) == contents_of(image),
        agrees(
            compacted_image(image, entries, fragment),
            as_map(moved(image, entries, fragment)),
            contents_of(image),
        ),
        disk_size(compacted_image(image, entries, fragment)) == total_size(entries),
{
    let state = contents_of(image);
    let after = compacted_image(image, entries, fragment);
    let data = compacted(image, entries);
    let shifted = moved(image, entries, fragment);
    lemma_entries_point(image, entries, state);
    lemma_compacted_log(image, entries, state);
    lemma_replay_compacted(entries, state);
    // One fragment, and its records are the compacted ones.
    assert(after.drop_last() =~= Seq::<(u64, Seq<u8>)>::empty());
    assert(all_records(after.drop_last()) =~= Seq::<(Record, nat)>::empty());
    assert(all_records(after) =~= compacted_records(entries, state));
    assert(disk_size(after.drop_last()) == 0);
    // The keys of the entries are the keys of the state.
    assert forall|key: Seq<char>| has_key(entries, key) == state.contains_key(key) by {
        assert(as_map(entries).dom().contains(key) == state.dom().contains(key));
    }
    assert(contents_of(after) =~= state);
    assert forall|i: int, j: int| 0 <= i < j < shifted.len() implies (#[trigger] shifted[i]).0 != (
    #[trigger] shifted[j]).0 by {
        assert(entries[i].0 != entries[j].0);
    }
    assert forall|key: Seq<char>| has_key(shifted, key) == has_key(entries, key) by {
        if has_key(shifted, key) {
            let i = place_of(shifted, key);
            assert(entries[i].0 == shifted[i].0);
        }
        if has_key(entries, key) {
            let i = place_of(entries, key);
            assert(entries[i].0 == shifted[i].0);
        }
    }
    assert(as_map(shifted).dom() =~= state.dom());
    lemma_fragment_place(after, 0);
    assert forall|key: Seq<char>| #[trigger] as_map(shifted).contains_key(key) implies points_to(
        after,
        as_map(shifted)[key],
        Record::Put { key, value: state[key] },
    ) by {
        let i = place_of(shifted, key);
        lemma_entry_in_map(shifted, i);
        assert(entries[i].0 == key);
        assert(points_to(image, entries[i].1, Record::Put { key, value: state[key] }));
        assert forall|j: int| 0 <= j < entries.len() implies in_bounds(
            image,
            (#[trigger] entries[j]).1,
        ) by {
            assert(points_to(
                image,
                entries[j].1,
                Record::Put { key: entries[j].0, value: state[entries[j].0] },
            ));
        }
        lemma_compacted_slice(image, entries, i);
    }
}

} // verus!
