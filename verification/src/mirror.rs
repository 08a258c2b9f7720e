//! Keeping the files of a directory up to the store.
//!
//! The store changes its fragments in two ways only: it appends to the active
//! fragment, or it replaces all fragments by a new one. Whoever keeps the
//! fragments in files remembers which fragment's file takes the appends and
//! how many bytes that file holds, asks the store what is to be done, and
//! does it.

use crate::image::{appended, fits};
use crate::model::StoreModel;
use crate::recovery::recovered;
use vstd::prelude::*;

verus! {

/// What is to be done to the files of the directory.
#[derive(Debug)]
pub enum DiskUpdate {
    /// Nothing: the files hold what the store holds.
    Nothing,
    /// The bytes are to be appended to the file of the fragment.
    Append { fragment: u64, bytes: Vec<u8> },
    /// A file with the bytes is to be put in place for the fragment, and the
    /// files of all other fragments are to be deleted.
    Install { fragment: u64, bytes: Vec<u8> },
}

/// A disk update as a mathematical value.
pub enum Update {
    Nothing,
    Append { fragment: u64, bytes: Seq<u8> },
    Install { fragment: u64, bytes: Seq<u8> },
}

impl View for DiskUpdate {
    type V = Update;

    open spec fn view(&self) -> Update {
        match self {
            DiskUpdate::Nothing => Update::Nothing,
            DiskUpdate::Append { fragment, bytes } => Update::Append {
                fragment: *fragment,
                bytes: bytes@,
            },
            DiskUpdate::Install { fragment, bytes } => Update::Install {
                fragment: *fragment,
                bytes: bytes@,
            },
        }
    }
}

/// Whether the file that takes the appends is that of the store's active
/// fragment and holds no more bytes than the fragment.
pub open spec fn follows(store: StoreModel, written: Option<(u64, usize)>) -> bool {
    written matches Some((fragment, len)) && fragment == store.active() && len <= store.end()
}

/// What is to be done where the file of the fragment `written.0` takes the
/// appends and holds `written.1` bytes, or where no file does: the tail of
/// the active fragment is appended where that file is the active fragment's,
/// and the active fragment is installed where it is not.
pub open spec fn update_for(store: StoreModel, written: Option<(u64, usize)>) -> Update {
    if follows(store, written) {
        if written.unwrap().1 == store.end() {
            Update::Nothing
        } else {
            Update::Append {
                fragment: store.active(),
                bytes: store.image.last().1.skip(written.unwrap().1 as int),
            }
        }
    } else {
        Update::Install { fragment: store.active(), bytes: store.image.last().1 }
    }
}

/// The fragments in the files after the update is done to them.
pub open spec fn apply_update(disk: Seq<(u64, Seq<u8>)>, update: Update) -> Seq<(u64, Seq<u8>)> {
    match update {
        Update::Nothing => disk,
        Update::Append { fragment, bytes } => appended(disk, bytes),
        Update::Install { fragment, bytes } => seq![(fragment, bytes)],
    }
}

/// The files are behind the store by appends alone, or the store has one
/// fragment only: the files hold the fragments of the store, but for bytes at
/// the end of the active fragment, where the file that takes the appends is
/// the active fragment's.
pub open spec fn is_behind(
    disk: Seq<(u64, Seq<u8>)>,
    written: Option<(u64, usize)>,
    store: StoreModel,
) -> bool {
    if follows(store, written) {
        disk == store.image.update(
            store.image.len() - 1,
            (store.active(), store.image.last().1.take(written.unwrap().1 as int)),
        )
    } else {
        store.image.len() == 1
    }
}

/// The update brings the files up to the store: files that are behind the
/// store hold the store's fragments once the update is done.
pub proof fn law_update_mirrors_store(
    disk: Seq<(u64, Seq<u8>)>,
    written: Option<(u64, usize)>,
    store: StoreModel,
)
    requires
        store.image.len() >= 1,
        is_behind(disk, written, store),
    ensures
        apply_update(disk, update_for(store, written)) == store.image,
{
    let last = store.image.len() - 1;
    let data = store.image.last().1;
    if follows(store, written) {
        let len = written.unwrap().1 as int;
        if len == store.end() {
            assert(data.take(len) =~= data);
            assert(disk =~= store.image);
        } else {
            assert(data.take(len) + data.skip(len) =~= data);
            assert(appended(disk, data.skip(len)) =~= store.image);
        }
    } else {
        assert(store.image =~= seq![(store.active(), data)]);
    }
}

/// Files that hold the fragments of a store are behind what the store becomes
/// when `segment` is appended, whatever becomes of the index and the counter,
/// and compaction is attempted.
proof fn lemma_behind_after_append(store: StoreModel, next: StoreModel, segment: Seq<u8>)
    requires
        store.image.len() >= 1,
        store.end() <= usize::MAX,
        next.image == appended(store.image, segment),
    ensures
        is_behind(store.image, Some((store.active(), store.end() as usize)), next.compact()),
{
    let written = Some((store.active(), store.end() as usize));
    let data = store.image.last().1;
    if !next.due() {
        assert((data + segment).take(data.len() as int) =~= data);
        assert(store.image =~= next.image.update(
            next.image.len() - 1,
            (next.active(), next.image.last().1.take(data.len() as int)),
        ));
    }
}

/// The files follow a `set`: files that hold the fragments of a store are
/// behind the store after a `Put` record is written and compaction is
/// attempted.
pub proof fn law_files_follow_set(store: StoreModel, key: Seq<char>, segment: Seq<u8>)
    requires
        store.image.len() >= 1,
        store.end() <= usize::MAX,
    ensures
        is_behind(
            store.image,
            Some((store.active(), store.end() as usize)),
            store.put(key, segment).compact(),
        ),
{
    lemma_behind_after_append(store, store.put(key, segment), segment);
}

/// The files follow a `remove`: files that hold the fragments of a store are
/// behind the store after an `Rm` record is written and compaction is
/// attempted.
pub proof fn law_files_follow_remove(store: StoreModel, key: Seq<char>, segment: Seq<u8>)
    requires
        store.image.len() >= 1,
        store.end() <= usize::MAX,
    ensures
        is_behind(
            store.image,
            Some((store.active(), store.end() as usize)),
            store.rm(key, segment).compact(),
        ),
{
    lemma_behind_after_append(store, store.rm(key, segment), segment);
}

/// The files follow `open`: the files that a store was recovered from are
/// behind the store, where the file of the highest fragment among them takes
/// the appends, or none where there is no fragment.
pub proof fn law_files_follow_open(image: Seq<(u64, Seq<u8>)>, threshold: usize)
    requires
        fits(image),
    ensures
        is_behind(
            image,
            if image.len() == 0 {
                None
            } else {
                Some((image.last().0, image.last().1.len() as usize))
            },
            recovered(
                if image.len() == 0 {
                    seq![(0u64, Seq::<u8>::empty())]
                } else {
                    image
                },
                threshold,
            ).compact(),
        ),
{
    if image.len() > 0 {
        let data = image.last().1;
        assert(data.take(data.len() as int) =~= data);
        assert(image =~= image.update(image.len() - 1, (image.last().0, data)));
    }
}

} // verus!
