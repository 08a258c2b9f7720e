//! The store's directory as a value: the fragments in ascending order, each
//! with the bytes of its file, and what such a directory means.

use crate::position::EntryPosition;
use crate::record::{first_record, is_log, is_record, lemma_log_append, lemma_record_reads_back, log_records, Record};
use vstd::prelude::*;

verus! {

/// One fragment: its number and the bytes of its file.
pub struct Fragment {
    pub id: u64,
    pub data: Vec<u8>,
}

impl View for Fragment {
    type V = (u64, Seq<u8>);

    open spec fn view(&self) -> (u64, Seq<u8>) {
        (self.id, self.data@)
    }
}

/// The fragments as plain values.
pub open spec fn image_of(fragments: Seq<Fragment>) -> Seq<(u64, Seq<u8>)> {
    fragments.map_values(|f: Fragment| f@)
}

/// The fragment numbers grow along the image.
pub open spec fn ascending(image: Seq<(u64, Seq<u8>)>) -> bool {
    forall|i: int, j: int| 0 <= i < j < image.len() ==> (#[trigger] image[i]).0 < (#[trigger] image[j]).0
}

/// Every fragment of the image is a log.
pub open spec fn all_logs(image: Seq<(u64, Seq<u8>)>) -> bool {
    forall|j: int| 0 <= j < image.len() ==> is_log((#[trigger] image[j]).1)
}

/// Whether the image has a fragment of this number.
pub open spec fn has_fragment(image: Seq<(u64, Seq<u8>)>, id: u64) -> bool {
    exists|j: int| 0 <= j < image.len() && (#[trigger] image[j]).0 == id
}

/// The place of the fragment of this number in the image.
pub open spec fn fragment_place(image: Seq<(u64, Seq<u8>)>, id: u64) -> int {
    choose|j: int| 0 <= j < image.len() && (#[trigger] image[j]).0 == id
}

/// The bytes of the fragment of this number.
pub open spec fn fragment_data(image: Seq<(u64, Seq<u8>)>, id: u64) -> Seq<u8> {
    image[fragment_place(image, id)].1
}

/// The position lies within a fragment of the image.
pub open spec fn in_bounds(image: Seq<(u64, Seq<u8>)>, position: EntryPosition) -> bool {
    has_fragment(image, position.fragment) && position.end() <= fragment_data(
        image,
        position.fragment,
    ).len()
}

/// The bytes that the position covers.
pub open spec fn bytes_at(image: Seq<(u64, Seq<u8>)>, position: EntryPosition) -> Seq<u8> {
    fragment_data(image, position.fragment).subrange(position.pos as int, position.end())
}

/// The position covers an encoding of the record `r`.
pub open spec fn points_to(image: Seq<(u64, Seq<u8>)>, position: EntryPosition, r: Record) -> bool {
    in_bounds(image, position) && is_record(bytes_at(image, position), r)
}

/// What a record does to the key state.
pub open spec fn apply_record(state: Map<Seq<char>, Seq<char>>, r: Record) -> Map<
    Seq<char>,
    Seq<char>,
> {
    match r {
        Record::Put { key, value } => state.insert(key, value),
        Record::Rm { key } => state.remove(key),
    }
}

/// The key state after the records, applied in order to `state`.
pub open spec fn replay_onto(state: Map<Seq<char>, Seq<char>>, records: Seq<(Record, nat)>) -> Map<
    Seq<char>,
    Seq<char>,
>
    decreases records.len(),
{
    if records.len() == 0 {
        state
    } else {
        apply_record(replay_onto(state, records.drop_last()), records.last().0)
    }
}

/// The key state that the records lead to from nothing.
pub open spec fn replay(records: Seq<(Record, nat)>) -> Map<Seq<char>, Seq<char>> {
    replay_onto(Map::empty(), records)
}

/// The lengths of the records, added up.
pub open spec fn records_size(records: Seq<(Record, nat)>) -> nat
    decreases records.len(),
{
    if records.len() == 0 {
        0
    } else {
        records_size(records.drop_last()) + records.last().1
    }
}

/// The records of a log; none where the bytes are no log.
pub open spec fn records_of(data: Seq<u8>) -> Seq<(Record, nat)> {
    match log_records(data) {
        Some(records) => records,
        None => Seq::empty(),
    }
}

/// The records of all fragments, in the order of the image.
pub open spec fn all_records(image: Seq<(u64, Seq<u8>)>) -> Seq<(Record, nat)>
    decreases image.len(),
{
    if image.len() == 0 {
        Seq::empty()
    } else {
        all_records(image.drop_last()) + records_of(image.last().1)
    }
}

/// The key state that the image holds: what its records lead to, fragment
/// after fragment.
pub open spec fn contents_of(image: Seq<(u64, Seq<u8>)>) -> Map<Seq<char>, Seq<char>> {
    replay(all_records(image))
}

/// The bytes of all fragments, counted.
pub open spec fn disk_size(image: Seq<(u64, Seq<u8>)>) -> nat
    decreases image.len(),
{
    if image.len() == 0 {
        0
    } else {
        disk_size(image.drop_last()) + image.last().1.len()
    }
}

/// The index has the keys of `state`, and for each of them the position of
/// an encoding of the `Put` record that gives the key its value in `state`.
pub open spec fn agrees(
    image: Seq<(u64, Seq<u8>)>,
    index: Map<Seq<char>, EntryPosition>,
    state: Map<Seq<char>, Seq<char>>,
) -> bool {
    &&& index.dom() =~= state.dom()
    &&& forall|key: Seq<char>| #[trigger]
        index.contains_key(key) ==> points_to(
            image,
            index[key],
            Record::Put { key, value: state[key] },
        )
}

/// Every fragment of the image is small enough to be held in memory.
pub open spec fn fits(image: Seq<(u64, Seq<u8>)>) -> bool {
    forall|j: int| 0 <= j < image.len() ==> (#[trigger] image[j]).1.len() <= usize::MAX
}

/// A count of bytes as far as a `usize` can hold it.
pub open spec fn clipped(count: int) -> usize {
    if count <= usize::MAX {
        count as usize
    } else {
        usize::MAX
    }
}

/// In an ascending image each fragment is found at its place.
pub proof fn lemma_fragment_place(image: Seq<(u64, Seq<u8>)>, j: int)
    requires
        ascending(image),
        0 <= j < image.len(),
    ensures
        has_fragment(image, image[j].0),
        fragment_place(image, image[j].0) == j,
        fragment_data(image, image[j].0) == image[j].1,
{
    let id = image[j].0;
    let found = fragment_place(image, id);
    if found < j {
        assert(image[found].0 < image[j].0);
    } else if j < found {
        assert(image[j].0 < image[found].0);
    }
}

/// The bytes at a position that covers a record are read as that record.
pub proof fn lemma_points_to_reads(image: Seq<(u64, Seq<u8>)>, position: EntryPosition, r: Record)
    requires
        points_to(image, position, r),
    ensures
        first_record(bytes_at(image, position)) == Some((r, position.size as int)),
        position.size > 0,
{
    let bytes = bytes_at(image, position);
    lemma_record_reads_back(bytes, r, Seq::empty());
    assert(bytes + Seq::<u8>::empty() =~= bytes);
}

/// Replaying two runs of records one after the other is replaying them as
/// one run.
pub proof fn lemma_replay_concat(
    state: Map<Seq<char>, Seq<char>>,
    first: Seq<(Record, nat)>,
    second: Seq<(Record, nat)>,
)
    ensures
        replay_onto(state, first + second) == replay_onto(replay_onto(state, first), second),
        records_size(first + second) == records_size(first) + records_size(second),
    decreases second.len(),
{
    if second.len() == 0 {
        assert(first + second =~= first);
    } else {
        lemma_replay_concat(state, first, second.drop_last());
        assert((first + second).drop_last() =~= first + second.drop_last());
    }
}

/// The records of a log are as long as the log.
pub proof fn lemma_log_size(data: Seq<u8>)
    requires
        is_log(data),
    ensures
        log_records(data) is Some,
        records_size(records_of(data)) == data.len(),
    decreases data.len(),
{
    if data.len() > 0 {
        let (r, n) = first_record(data).unwrap();
        let rest = data.skip(n);
        lemma_log_size(rest);
        let tail = records_of(rest);
        lemma_replay_concat(Map::empty(), seq![(r, n as nat)], tail);
        let one = seq![(r, n as nat)];
        assert(one.drop_last() =~= Seq::<(Record, nat)>::empty());
        assert(records_size(one.drop_last()) == 0);
    }
}

/// The image with `segment` appended to its last fragment.
pub open spec fn appended(image: Seq<(u64, Seq<u8>)>, segment: Seq<u8>) -> Seq<(u64, Seq<u8>)> {
    image.update(image.len() - 1, (image.last().0, image.last().1 + segment))
}

/// Appending an encoded record to the last fragment appends it to the
/// records of the image, and leaves what positions covered untouched.
pub proof fn lemma_append_record(image: Seq<(u64, Seq<u8>)>, segment: Seq<u8>, r: Record)
    requires
        image.len() >= 1,
        ascending(image),
        all_logs(image),
        is_record(segment, r),
    ensures
        ascending(appended(image, segment)),
        all_logs(appended(image, segment)),
        all_records(appended(image, segment)) == all_records(image).push((r, segment.len())),
        contents_of(appended(image, segment)) == apply_record(contents_of(image), r),
        disk_size(appended(image, segment)) == disk_size(image) + segment.len(),
        forall|position: EntryPosition, other: Record| #[trigger]
            points_to(image, position, other) ==> points_to(
                appended(image, segment),
                position,
                other,
            ),
        points_to(
            appended(image, segment),
            EntryPosition {
                fragment: image.last().0,
                pos: image.last().1.len() as u64,
                size: segment.len() as usize,
            },
            r,
        ) || image.last().1.len() + segment.len() > usize::MAX,
{
    let last = image.len() - 1;
    let grown = appended(image, segment);
    let data = image.last().1;
    lemma_log_append(data, segment, r);
    assert forall|i: int, j: int| 0 <= i < j < grown.len() implies (#[trigger] grown[i]).0 < (
    #[trigger] grown[j]).0 by {
        assert(grown[i].0 == image[i].0 && grown[j].0 == image[j].0);
    }
    assert forall|j: int| 0 <= j < grown.len() implies is_log((#[trigger] grown[j]).1) by {
        if j != last {
            assert(grown[j] == image[j]);
        }
    }
    assert(grown.drop_last() =~= image.drop_last());
    assert(all_records(image.drop_last()) + records_of(data).push((r, segment.len()))
        =~= all_records(image).push((r, segment.len())));
    assert(all_records(grown).drop_last() =~= all_records(image));
    assert forall|position: EntryPosition, other: Record| #[trigger]
        points_to(image, position, other) implies points_to(grown, position, other) by {
        let j = fragment_place(image, position.fragment);
        lemma_fragment_place(image, j);
        assert(grown[j].0 == image[j].0);
        lemma_fragment_place(grown, j);
        if j == last {
            assert((data + segment).subrange(position.pos as int, position.end())
                =~= data.subrange(position.pos as int, position.end()));
        } else {
            assert(grown[j] == image[j]);
        }
    }
    if data.len() + segment.len() <= usize::MAX {
        let position = EntryPosition {
            fragment: image.last().0,
            pos: data.len() as u64,
            size: segment.len() as usize,
        };
        lemma_fragment_place(grown, last);
        assert((data + segment).subrange(position.pos as int, position.end()) =~= segment);
    }
}

} // verus!
