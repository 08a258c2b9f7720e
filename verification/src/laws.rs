//! What holds of the store across its operations.
//!
//! The operations of [`KvStore`](crate::store::KvStore) are stated over the
//! store as a value: `set` is [`StoreModel::put`] followed by
//! [`StoreModel::compact`], `remove` is [`StoreModel::rm`] followed by
//! [`StoreModel::compact`], `get` reads [`StoreModel::contents`], `files` gives
//! [`files_of`] the image and `open` is [`recovered`] followed by
//! [`StoreModel::compact`]. The laws below are stated over the same functions.
//!
//! A law that speaks of a written record takes the record's bytes as
//! `segment` and asks that they are an encoding of the record, which is what
//! the encoder ensures of its result, and that they fit into the active
//! fragment, which is what a vector in memory forces.

use crate::directory::{files_of, lemma_files_of_image, malformed};
use crate::model::{lemma_compact_contents, lemma_put, lemma_rm, StoreModel};
use crate::record::{is_record, lemma_log_has_records, log_records, Record};
use crate::recovery::{lemma_recovered, recovered};
use crate::store::{corrupt, start_image};
use vstd::prelude::*;

verus! {

/// A key that was set has the value it was set to: after a `Put` record for
/// `key` and `value` is written and compaction is attempted, the key state
/// holds `value` for `key`, and all other keys are as they were.
pub proof fn law_get_after_set(store: StoreModel, key: Seq<char>, value: Seq<char>, segment: Seq<u8>)
    requires
        store.wf(),
        is_record(segment, Record::Put { key, value }),
        store.end() + segment.len() <= usize::MAX,
    ensures
        store.put(key, segment).compact().contents().contains_key(key),
        store.put(key, segment).compact().contents()[key] == value,
        store.put(key, segment).compact().contents() == store.contents().insert(key, value),
{
    lemma_put(store, key, value, segment);
    lemma_compact_contents(store.put(key, segment));
}

/// A key that was removed has no value: after an `Rm` record for `key` is
/// written and compaction is attempted, the key state holds nothing for
/// `key`, and all other keys are as they were.
pub proof fn law_get_after_remove(store: StoreModel, key: Seq<char>, segment: Seq<u8>)
    requires
        store.wf(),
        is_record(segment, Record::Rm { key }),
        store.end() + segment.len() <= usize::MAX,
    ensures
        !store.rm(key, segment).compact().contents().contains_key(key),
        store.rm(key, segment).compact().contents() == store.contents().remove(key),
{
    lemma_rm(store, key, segment);
    lemma_compact_contents(store.rm(key, segment));
}

/// Compaction preserves the key state: every key has the same value, or
/// none, before and after.
pub proof fn law_compaction_preserves_contents(store: StoreModel)
    requires
        store.wf(),
    ensures
        store.compact().contents() == store.contents(),
{
    lemma_compact_contents(store);
}

/// Reopening restores the key state: the files of a well-formed store are a
/// well-formed directory of logs, whose fragments are those of the store, and
/// the store that is recovered from them, with whatever threshold, has the key
/// state of the store.
pub proof fn law_reopen_restores_contents(store: StoreModel, threshold: usize)
    requires
        store.wf(),
    ensures
        !malformed(files_of(store.image)),
        start_image(files_of(store.image)) == store.image,
        !corrupt(store.image),
        recovered(store.image, threshold).compact().contents() == store.contents(),
{
    lemma_files_of_image(store.image);
    assert forall|j: int| 0 <= j < store.image.len() implies log_records(
        (#[trigger] store.image[j]).1,
    ) is Some by {
        lemma_log_has_records(store.image[j].1);
    }
    lemma_recovered(store.image, threshold);
    lemma_compact_contents(recovered(store.image, threshold));
}

/// The counter of unreclaimed bytes does not fall when a record is written.
pub proof fn law_counter_grows(store: StoreModel, key: Seq<char>, segment: Seq<u8>)
    ensures
        store.put(key, segment).unreclaimed >= store.unreclaimed,
        store.rm(key, segment).unreclaimed >= store.unreclaimed,
{
}

/// The directory stays within the live records and the threshold: in a
/// well-formed store in which no compaction is due, as every operation leaves
/// it, the fragments hold no more bytes than the records of the live keys
/// and the threshold together. This needs a fragment number to be left for
/// compaction, and a threshold that the counter can pass.
pub proof fn law_space_is_bounded(store: StoreModel)
    requires
        store.wf(),
        !store.due(),
        store.active() < u64::MAX,
        store.threshold < usize::MAX,
    ensures
        store.disk_size() <= store.live() + store.threshold,
{
}

} // verus!
