//! Recovery: rebuilding the index from the fragments of a directory.

use crate::error::StoreError;
use crate::image::{
    agrees, all_logs, all_records, apply_record, ascending, bytes_at, clipped, contents_of,
    disk_size, fits, lemma_fragment_place, lemma_log_size, lemma_replay_concat, points_to,
    records_of, records_size, replay_onto,
};
use crate::index::{
    as_map, covered, drop_entry, keys_distinct, lemma_drop_entry, lemma_put_entry, put_entry,
    total_size, Index,
};
use crate::model::StoreModel;
use crate::position::EntryPosition;
use crate::record::{
    decode_stream, entries_fit, entry_records, entry_start, first_record, is_log,
    is_record, log_records, LogEntry, Record,
};
use vstd::prelude::*;

verus! {

/// The entries after one more record of the fragment, which starts at
/// `offset` and is `size` bytes long: a `Put` points its key there, an `Rm`
/// takes its key out.
pub open spec fn entries_step(
    entries: Seq<(Seq<char>, EntryPosition)>,
    fragment: u64,
    offset: nat,
    r: Record,
    size: nat,
) -> Seq<(Seq<char>, EntryPosition)> {
    match r {
        Record::Put { key, .. } => put_entry(
            entries,
            key,
            EntryPosition { fragment, pos: offset as u64, size: size as usize },
        ),
        Record::Rm { key } => drop_entry(entries, key),
    }
}

/// The bytes that one more record makes stale: the record that the entries
/// held for its key, and the record itself where it is an `Rm`.
pub open spec fn stale_step(entries: Seq<(Seq<char>, EntryPosition)>, r: Record, size: nat) -> nat {
    match r {
        Record::Put { key, .. } => covered(entries, key),
        Record::Rm { key } => covered(entries, key) + size,
    }
}

/// The entries after the records of a fragment, replayed in order from its
/// start.
pub open spec fn loaded_entries(
    entries: Seq<(Seq<char>, EntryPosition)>,
    fragment: u64,
    records: Seq<(Record, nat)>,
) -> Seq<(Seq<char>, EntryPosition)>
    decreases records.len(),
{
    if records.len() == 0 {
        entries
    } else {
        entries_step(
            loaded_entries(entries, fragment, records.drop_last()),
            fragment,
            records_size(records.drop_last()),
            records.last().0,
            records.last().1,
        )
    }
}

/// The bytes that the records of a fragment make stale, replayed in order.
pub open spec fn loaded_stale(
    entries: Seq<(Seq<char>, EntryPosition)>,
    fragment: u64,
    records: Seq<(Record, nat)>,
) -> nat
    decreases records.len(),
{
    if records.len() == 0 {
        0
    } else {
        loaded_stale(entries, fragment, records.drop_last()) + stale_step(
            loaded_entries(entries, fragment, records.drop_last()),
            records.last().0,
            records.last().1,
        )
    }
}

/// The entries after the records of all fragments, replayed fragment after
/// fragment.
pub open spec fn recovered_entries(image: Seq<(u64, Seq<u8>)>) -> Seq<(Seq<char>, EntryPosition)>
    decreases image.len(),
{
    if image.len() == 0 {
        Seq::empty()
    } else {
        loaded_entries(
            recovered_entries(image.drop_last()),
            image.last().0,
            records_of(image.last().1),
        )
    }
}

/// The bytes that the records of all fragments make stale.
pub open spec fn recovered_stale(image: Seq<(u64, Seq<u8>)>) -> nat
    decreases image.len(),
{
    if image.len() == 0 {
        0
    } else {
        recovered_stale(image.drop_last()) + loaded_stale(
            recovered_entries(image.drop_last()),
            image.last().0,
            records_of(image.last().1),
        )
    }
}

/// The store that recovery makes of the fragments.
pub open spec fn recovered(image: Seq<(u64, Seq<u8>)>, threshold: usize) -> StoreModel {
    StoreModel {
        image,
        entries: recovered_entries(image),
        unreclaimed: clipped(recovered_stale(image) as int),
        threshold,
    }
}

/// What one more record adds to the entries, the stale bytes and the offset.
proof fn lemma_load_step(
    entries: Seq<(Seq<char>, EntryPosition)>,
    fragment: u64,
    records: Seq<(Record, nat)>,
    i: int,
)
    requires
        0 <= i < records.len(),
    ensures
        loaded_entries(entries, fragment, records.take(i + 1)) == entries_step(
            loaded_entries(entries, fragment, records.take(i)),
            fragment,
            records_size(records.take(i)),
            records[i].0,
            records[i].1,
        ),
        loaded_stale(entries, fragment, records.take(i + 1)) == loaded_stale(
            entries,
            fragment,
            records.take(i),
        ) + stale_step(loaded_entries(entries, fragment, records.take(i)), records[i].0, records[i].1),
        records_size(records.take(i + 1)) == records_size(records.take(i)) + records[i].1,
{
    assert(records.take(i + 1).drop_last() =~= records.take(i));
    assert(records.take(i + 1).last() == records[i]);
}

/// Loads the log of one fragment into the index.
///
/// Fails with `Serde`, and leaves the index as it is, exactly where `data` is
/// no sequence of records. Otherwise replays the records in order: a `Put`
/// points its key at the record, an `Rm` takes its key out. Returns the
/// number of bytes that the records made stale, as far as a `usize` can
/// count them.
pub fn load_fragment(fragment: u64, data: &[u8], index: &mut Index) -> (r: Result<
    usize,
    StoreError,
>)
    ensures
        final(index).wf(),
        r is Ok <==> log_records(data@) is Some,
        match r {
            Ok(stale) => {
                &&& is_log(data@)
                &&& final(index).entries() == loaded_entries(
                    old(index).entries(),
                    fragment,
                    records_of(data@),
                )
                &&& stale == clipped(
                    loaded_stale(old(index).entries(), fragment, records_of(data@)) as int,
                )
            },
            Err(e) => e is Serde && *final(index) == *old(index),
        },
{
    // Asking for the length brings the invariant of the index into view.
    let _ = index.len();
    let entries = match decode_stream(data) {
        Ok(entries) => entries,
        Err(e) => { return Err(e); },
    };
    let ghost records = entry_records(entries@);
    let ghost start_entries = index.entries();
    let mut stale: usize = 0;
    let mut start: usize = 0;
    let mut i: usize = 0;
    proof {
        assert(records.take(0) =~= Seq::<(Record, nat)>::empty());
    }
    while i < entries.len()
        invariant
            i <= entries@.len(),
            records == entry_records(entries@),
            entries_fit(data@, entries@),
            index.wf(),
            start == entry_start(entries@, i as int),
            start == records_size(records.take(i as int)),
            index.entries() == loaded_entries(start_entries, fragment, records.take(i as int)),
            stale == clipped(loaded_stale(start_entries, fragment, records.take(i as int)) as int),
        decreases entries@.len() - i,
    {
        let end = entries[i].1;
        assert(entry_start(entries@, i as int) < entries@[i as int].1);
        let size = end - start;
        let position = EntryPosition { fragment, pos: start as u64, size };
        proof {
            lemma_load_step(start_entries, fragment, records, i as int);
            assert(records[i as int] == (entries@[i as int].0@, size as nat));
        }
        let prior = match &entries[i].0 {
            LogEntry::Put { key, value: _ } => index.insert(key.clone(), position),
            LogEntry::Rm { key } => {
                stale = stale.saturating_add(size);
                index.remove(key)
            },
        };
        if let Some(lost) = prior {
            stale = stale.saturating_add(lost.size);
        }
        start = end;
        i += 1;
    }
    proof {
        assert(records.take(entries@.len() as int) =~= records);
    }
    Ok(stale)
}

/// Each record of a log is encoded by the bytes from where the records
/// before it end to where it ends.
pub proof fn lemma_log_segments(data: Seq<u8>, t: int)
    requires
        is_log(data),
        0 <= t < records_of(data).len(),
    ensures
        records_size(records_of(data).take(t)) + records_of(data)[t].1 <= data.len(),
        is_record(
            data.subrange(
                records_size(records_of(data).take(t)) as int,
                (records_size(records_of(data).take(t)) + records_of(data)[t].1) as int,
            ),
            records_of(data)[t].0,
        ),
    decreases data.len(),
{
    let records = records_of(data);
    let (r, n) = first_record(data).unwrap();
    let rest = data.skip(n);
    lemma_log_size(rest);
    let tail = records_of(rest);
    let one = seq![(r, n as nat)];
    assert(records == one + tail);
    if t == 0 {
        assert(records.take(0) =~= Seq::<(Record, nat)>::empty());
        assert(data.subrange(0, n) =~= data.take(n));
    } else {
        lemma_log_segments(rest, t - 1);
        assert(records.take(t) =~= one + tail.take(t - 1));
        lemma_replay_concat(Map::empty(), one, tail.take(t - 1));
        assert(one.drop_last() =~= Seq::<(Record, nat)>::empty());
        assert(records_size(one.drop_last()) == 0);
        assert(records_size(one) == n);
        assert(records[t] == tail[t - 1]);
        let from = records_size(tail.take(t - 1)) as int;
        let to = from + tail[t - 1].1;
        assert(data.subrange(n + from, n + to) =~= rest.subrange(from, to));
    }
}

/// Loading the first `t` records of a fragment of the image into entries
/// that agree with a state gives entries that agree with the state after
/// those records, and every byte of the records is live or counted stale.
pub proof fn lemma_loaded_agrees(
    image: Seq<(u64, Seq<u8>)>,
    j: int,
    entries: Seq<(Seq<char>, EntryPosition)>,
    state: Map<Seq<char>, Seq<char>>,
    t: int,
)
    requires
        ascending(image),
        0 <= j < image.len(),
        is_log(image[j].1),
        image[j].1.len() <= usize::MAX,
        keys_distinct(entries),
        agrees(image, as_map(entries), state),
        0 <= t <= records_of(image[j].1).len(),
    ensures
        keys_distinct(loaded_entries(entries, image[j].0, records_of(image[j].1).take(t))),
        agrees(
            image,
            as_map(loaded_entries(entries, image[j].0, records_of(image[j].1).take(t))),
            replay_onto(state, records_of(image[j].1).take(t)),
        ),
        total_size(loaded_entries(entries, image[j].0, records_of(image[j].1).take(t)))
            + loaded_stale(entries, image[j].0, records_of(image[j].1).take(t)) == total_size(
            entries,
        ) + records_size(records_of(image[j].1).take(t)),
    decreases t,
{
    let data = image[j].1;
    let records = records_of(data);
    if t == 0 {
        assert(records.take(0) =~= Seq::<(Record, nat)>::empty());
    } else {
        lemma_loaded_agrees(image, j, entries, state, t - 1);
        let done = records.take(t - 1);
        assert(records.take(t).drop_last() =~= done);
        assert(records.take(t).last() == records[t - 1]);
        let (r, size) = records[t - 1];
        let offset = records_size(done);
        let before = loaded_entries(entries, image[j].0, done);
        let state_before = replay_onto(state, done);
        let after = entries_step(before, image[j].0, offset, r, size);
        let state_after = apply_record(state_before, r);
        let position = EntryPosition { fragment: image[j].0, pos: offset as u64, size: size as usize };
        lemma_log_segments(data, t - 1);
        lemma_fragment_place(image, j);
        lemma_put_entry(before, r.key(), position);
        lemma_drop_entry(before, r.key());
        assert(as_map(after).dom() =~= state_after.dom());
        assert forall|key: Seq<char>| #[trigger] as_map(after).contains_key(key) implies points_to(
            image,
            as_map(after)[key],
            Record::Put { key, value: state_after[key] },
        ) by {
            if key == r.key() {
                assert(bytes_at(image, position) == data.subrange(
                    offset as int,
                    (offset + size) as int,
                ));
            } else {
                assert(as_map(before).contains_key(key));
            }
        }
    }
}

/// Recovery of the first `j` fragments of an image of logs gives entries
/// that agree with the key state of those fragments, and every byte of them
/// is live or counted stale.
pub proof fn lemma_recovered_prefix(image: Seq<(u64, Seq<u8>)>, j: int)
    requires
        ascending(image),
        all_logs(image),
        fits(image),
        0 <= j <= image.len(),
    ensures
        keys_distinct(recovered_entries(image.take(j))),
        agrees(image, as_map(recovered_entries(image.take(j))), contents_of(image.take(j))),
        total_size(recovered_entries(image.take(j))) + recovered_stale(image.take(j))
            == disk_size(image.take(j)),
    decreases j,
{
    if j == 0 {
        assert(image.take(0) =~= Seq::<(u64, Seq<u8>)>::empty());
        assert(as_map(Seq::<(Seq<char>, EntryPosition)>::empty()).dom() =~= Map::<
            Seq<char>,
            Seq<char>,
        >::empty().dom());
    } else {
        lemma_recovered_prefix(image, j - 1);
        let done = image.take(j - 1);
        assert(image.take(j).drop_last() =~= done);
        assert(image.take(j).last() == image[j - 1]);
        let records = records_of(image[j - 1].1);
        lemma_loaded_agrees(
            image,
            j - 1,
            recovered_entries(done),
            contents_of(done),
            records.len() as int,
        );
        assert(records.take(records.len() as int) =~= records);
        lemma_replay_concat(Map::empty(), all_records(done), records);
        lemma_log_size(image[j - 1].1);
    }
}

/// Recovery of an image of logs gives a well-formed store.
pub proof fn lemma_recovered(image: Seq<(u64, Seq<u8>)>, threshold: usize)
    requires
        image.len() >= 1,
        ascending(image),
        all_logs(image),
        fits(image),
    ensures
        recovered(image, threshold).wf(),
        recovered(image, threshold).stale() == recovered_stale(image),
{
    lemma_recovered_prefix(image, image.len() as int);
    assert(image.take(image.len() as int) =~= image);
}

} // verus!
