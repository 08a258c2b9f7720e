//! The store: the fragments, the index over them, and the operations.

use crate::compaction::{
    compacted, compacted_image, entries_point, lemma_compacted_log, lemma_entries_point, moved,
};
use crate::directory::{
    directory_image, files_of, listing, malformed, read_directory, write_directory,
};
use crate::error::StoreError;
use crate::image::{
    appended, ascending, bytes_at, clipped, contents_of, has_fragment, image_of,
    in_bounds, lemma_fragment_place, lemma_points_to_reads, points_to, records_of, Fragment,
};
use crate::index::Index;
use crate::mirror::{update_for, DiskUpdate};
use crate::model::{lemma_compact, lemma_compact_contents, lemma_put, lemma_rm, StoreModel};
use crate::position::EntryPosition;
use crate::record::{
    append_bytes, decode_entry, encode_entry, is_log, lemma_log_has_records, log_records,
    record_bytes, LogEntry, Record,
};
use crate::recovery::{
    lemma_recovered, load_fragment, recovered, recovered_entries, recovered_stale,
};
use vstd::pervasive::unreached;
use vstd::prelude::*;
use vstd::slice::{slice_subrange, slice_to_vec};

verus! {

/// Byte threshold of unreclaimed space that triggers compaction.
pub const COMPACTION_THRESHOLD: usize = 1_000_000;

/// The image that a store starts from: the fragments of the listing, or an
/// empty fragment 0 where the listing has none.
pub open spec fn start_image(files: Seq<(Seq<char>, Seq<u8>)>) -> Seq<(u64, Seq<u8>)> {
    let image = directory_image(files);
    if image.len() == 0 {
        seq![(0u64, Seq::<u8>::empty())]
    } else {
        image
    }
}

/// Some fragment of the image is no sequence of records.
pub open spec fn corrupt(image: Seq<(u64, Seq<u8>)>) -> bool {
    exists|j: int| 0 <= j < image.len() && log_records((#[trigger] image[j]).1) is None
}

/// The parts of a store.
struct State {
    /// The fragments in ascending order; the last one takes the appends.
    fragments: Vec<Fragment>,
    /// Where the latest record of each live key lies.
    index: Index,
    /// How many bytes of the fragments no position of the index covers,
    /// as far as a `usize` can count them.
    unreclaimed: usize,
    /// More unreclaimed bytes than this set off a compaction.
    threshold: usize,
}

impl View for State {
    type V = StoreModel;

    closed spec fn view(&self) -> StoreModel {
        StoreModel {
            image: image_of(self.fragments@),
            entries: self.index.entries(),
            unreclaimed: self.unreclaimed,
            threshold: self.threshold,
        }
    }
}

impl State {
    /// A store of one empty fragment, without keys.
    fn empty() -> (state: State)
        ensures
            state@.wf(),
    {
        let mut fragments: Vec<Fragment> = Vec::new();
        fragments.push(Fragment { id: 0, data: Vec::new() });
        let state = State { fragments, index: Index::new(), unreclaimed: 0, threshold: 0 };
        proof {
            assert(state@.image =~= seq![(0u64, Seq::<u8>::empty())]);
            let image = state@.image;
            assert(is_log(image[0].1));
            lemma_recovered(image, 0);
            assert(image.drop_last() =~= Seq::<(u64, Seq<u8>)>::empty());
            assert(recovered_entries(image.drop_last()) =~= Seq::empty());
            assert(recovered_stale(image.drop_last()) == 0);
            assert(records_of(image.last().1) =~= Seq::empty());
            assert(recovered_entries(image) =~= Seq::empty());
            assert(recovered_stale(image) == 0);
            assert(state@ == recovered(image, 0));
        }
        state
    }

    /// The number of the fragment that takes the appends.
    fn active(&self) -> (id: u64)
        requires
            self@.image.len() >= 1,
        ensures
            id == self@.active(),
    {
        self.fragments[self.fragments.len() - 1].id
    }

    /// Appends `bytes` to the active fragment and returns the offset at
    /// which they start.
    fn append_to_active(&mut self, bytes: &Vec<u8>) -> (offset: usize)
        requires
            old(self)@.image.len() >= 1,
        ensures
            final(self)@.image == appended(old(self)@.image, bytes@),
            offset == old(self)@.end(),
            offset + bytes@.len() <= usize::MAX,
            final(self).index == old(self).index,
            final(self).unreclaimed == old(self).unreclaimed,
            final(self).threshold == old(self).threshold,
    {
        let last = self.fragments.len() - 1;
        let offset = self.fragments[last].data.len();
        append_bytes(&mut self.fragments[last].data, bytes.as_slice());
        assert(self@.image =~= appended(old(self)@.image, bytes@));
        offset
    }

    /// The place of the fragment with this number.
    fn locate(&self, id: u64) -> (place: Option<usize>)
        ensures
            match place {
                Some(j) => j < self@.image.len() && self@.image[j as int].0 == id,
                None => !has_fragment(self@.image, id),
            },
    {
        let mut j: usize = 0;
        while j < self.fragments.len()
            invariant
                j <= self.fragments@.len(),
                forall|i: int| 0 <= i < j ==> (#[trigger] self@.image[i]).0 != id,
            decreases self.fragments@.len() - j,
        {
            if self.fragments[j].id == id {
                return Some(j);
            }
            j += 1;
        }
        None
    }

    /// The bytes that a position within the fragments covers.
    fn slice_at(&self, position: EntryPosition) -> (bytes: &[u8])
        requires
            ascending(self@.image),
            in_bounds(self@.image, position),
        ensures
            bytes@ == bytes_at(self@.image, position),
    {
        let place = match self.locate(position.fragment) {
            Some(place) => place,
            None => unreached(),
        };
        let data = self.fragments[place].data.as_slice();
        proof {
            lemma_fragment_place(self@.image, place as int);
            assert(self@.image[place as int].1 == data@);
            assert(data@.len() == data.len());
        }
        let start = position.pos as usize;
        slice_subrange(data, start, start + position.size)
    }

    /// Writes a `Put` record for the key and points the index at it.
    fn put(&mut self, key: String, value: String) -> (r: Result<(), StoreError>)
        requires
            old(self)@.wf(),
        ensures
            r is Ok,
            final(self)@.wf(),
            final(self)@ == old(self)@.put(
                key@,
                record_bytes(Record::Put { key: key@, value: value@ }),
            ),
            final(self)@.contents() == old(self)@.contents().insert(key@, value@),
    {
        let entry = LogEntry::Put { key: key.clone(), value };
        let bytes = match encode_entry(&entry) {
            Ok(bytes) => bytes,
            Err(e) => { return Err(e); },
        };
        let fragment = self.active();
        let offset = self.append_to_active(&bytes);
        let position = EntryPosition { fragment, pos: offset as u64, size: bytes.len() };
        let prior = self.index.insert(key, position);
        if let Some(lost) = prior {
            self.unreclaimed = self.unreclaimed.saturating_add(lost.size);
        }
        proof {
            lemma_put(old(self)@, key@, value@, bytes@);
        }
        Ok(())
    }

    /// Reads the value of the key from the record that the index points at.
    fn lookup(&self, key: &String) -> (r: Result<Option<String>, StoreError>)
        requires
            self@.wf(),
        ensures
            r matches Ok(found) && match found {
                Some(value) => self@.contents().contains_key(key@) && value@
                    == self@.contents()[key@],
                None => !self@.contents().contains_key(key@),
            },
    {
        let position = match self.index.get(key) {
            Some(position) => position,
            None => { return Ok(None); },
        };
        proof {
            let r = Record::Put { key: key@, value: self@.contents()[key@] };
            assert(self@.index().contains_key(key@));
            assert(points_to(self@.image, position, r));
            lemma_points_to_reads(self@.image, position, r);
        }
        let bytes = self.slice_at(position);
        match decode_entry(bytes) {
            Ok((LogEntry::Put { key: _, value }, _)) => Ok(Some(value)),
            Ok((LogEntry::Rm { .. }, _)) => unreached(),
            Err(e) => Err(e),
        }
    }

    /// Writes an `Rm` record for the key, if the index has it, and takes the
    /// key out of the index.
    fn delete(&mut self, key: &String) -> (r: Result<(), StoreError>)
        requires
            old(self)@.wf(),
        ensures
            final(self)@.wf(),
            r is Ok <==> old(self)@.contents().contains_key(key@),
            match r {
                Ok(_) => {
                    &&& final(self)@ == old(self)@.rm(key@, record_bytes(Record::Rm { key: key@ }))
                    &&& final(self)@.contents() == old(self)@.contents().remove(key@)
                },
                Err(e) => e is NotFound && *final(self) == *old(self),
            },
    {
        if self.index.get(key).is_none() {
            return Err(StoreError::NotFound);
        }
        let entry = LogEntry::Rm { key: key.clone() };
        let bytes = match encode_entry(&entry) {
            Ok(bytes) => bytes,
            Err(e) => { return Err(e); },
        };
        let _ = self.append_to_active(&bytes);
        let prior = self.index.remove(key);
        if let Some(lost) = prior {
            self.unreclaimed = self.unreclaimed.saturating_add(lost.size).saturating_add(
                bytes.len(),
            );
        }
        proof {
            lemma_rm(old(self)@, key@, bytes@);
        }
        Ok(())
    }

    /// Rewrites the live records into a new fragment, which replaces all
    /// others, where compaction is due; does nothing where it is not.
    fn compact(&mut self) -> (r: Result<(), StoreError>)
        requires
            old(self)@.wf(),
        ensures
            r is Ok,
            final(self)@.wf(),
            final(self)@ == old(self)@.compact(),
            final(self)@.contents() == old(self)@.contents(),
            !final(self)@.due(),
            !old(self)@.due() ==> *final(self) == *old(self),
    {
        if self.unreclaimed <= self.threshold {
            return Ok(());
        }
        let active = self.active();
        if active == u64::MAX {
            return Ok(());
        }
        let fragment = active + 1;
        let count = self.index.len();
        let ghost image = self@.image;
        let ghost entries = self@.entries;
        proof {
            lemma_entries_point(image, entries, contents_of(image));
        }
        let mut data: Vec<u8> = Vec::new();
        let mut i: usize = 0;
        while i < count
            invariant
                i <= count == entries.len(),
                image == self@.image,
                ascending(image),
                entries_point(image, entries, contents_of(image)),
                self.unreclaimed == old(self).unreclaimed,
                self.threshold == old(self).threshold,
                data@ == compacted(image, entries.take(i as int)),
                self.index.entries().len() == count,
                forall|j: int|
                    0 <= j < count ==> #[trigger] self.index.entries()[j] == (if j < i {
                        moved(image, entries, fragment)[j]
                    } else {
                        entries[j]
                    }),
            decreases count - i,
        {
            let position = self.index.position_at(i);
            assert(in_bounds(image, entries[i as int].1));
            let bytes = self.slice_at(position);
            let offset = data.len();
            append_bytes(&mut data, bytes);
            self.index.relocate(
                i,
                EntryPosition { fragment, pos: offset as u64, size: position.size },
            );
            proof {
                assert(entries.take(i + 1).drop_last() =~= entries.take(i as int));
                assert(entries.take(i + 1).last() == entries[i as int]);
            }
            i += 1;
        }
        proof {
            assert(data@.len() == data.len());
            assert(entries.take(count as int) =~= entries);
            lemma_compacted_log(image, entries, contents_of(image));
            lemma_compact(old(self)@);
            lemma_compact_contents(old(self)@);
        }
        assert(self.index.entries() =~= moved(image, entries, fragment));
        let mut fragments: Vec<Fragment> = Vec::new();
        fragments.push(Fragment { id: fragment, data });
        self.fragments = fragments;
        self.unreclaimed = 0;
        assert(self@.image =~= compacted_image(image, entries, fragment));
        Ok(())
    }

    /// Rebuilds the index from the fragments.
    fn recover(fragments: Vec<Fragment>, threshold: usize) -> (r: Result<State, StoreError>)
        requires
            fragments@.len() >= 1,
            ascending(image_of(fragments@)),
        ensures
            r is Err <==> corrupt(image_of(fragments@)),
            match r {
                Ok(state) => state@ == recovered(image_of(fragments@), threshold) && state@.wf(),
                Err(e) => e is Serde,
            },
    {
        let ghost image = image_of(fragments@);
        let mut index = Index::new();
        let mut unreclaimed: usize = 0;
        let mut j: usize = 0;
        proof {
            assert(image.take(0) =~= Seq::<(u64, Seq<u8>)>::empty());
        }
        while j < fragments.len()
            invariant
                image == image_of(fragments@),
                j <= fragments@.len(),
                index.wf(),
                index.entries() == recovered_entries(image.take(j as int)),
                unreclaimed == clipped(recovered_stale(image.take(j as int)) as int),
                forall|i: int|
                    0 <= i < j ==> is_log((#[trigger] image[i]).1) && image[i].1.len()
                        <= usize::MAX,
            decreases fragments@.len() - j,
        {
            let data = fragments[j].data.as_slice();
            assert(data@.len() == data.len());
            match load_fragment(fragments[j].id, data, &mut index) {
                Ok(stale) => {
                    unreclaimed = unreclaimed.saturating_add(stale);
                },
                Err(e) => {
                    assert(log_records(image[j as int].1) is None);
                    return Err(e);
                },
            }
            proof {
                assert(image.take(j + 1).drop_last() =~= image.take(j as int));
                assert(image.take(j + 1).last() == image[j as int]);
            }
            j += 1;
        }
        proof {
            assert(image.take(j as int) =~= image);
            assert forall|i: int| 0 <= i < image.len() implies log_records(
                (#[trigger] image[i]).1,
            ) is Some by {
                lemma_log_has_records(image[i].1);
            }
            lemma_recovered(image, threshold);
        }
        Ok(State { fragments, index, unreclaimed, threshold })
    }

    /// Opens the store that a directory listing holds.
    fn open(files: Vec<(String, Vec<u8>)>, threshold: usize) -> (r: Result<State, StoreError>)
        ensures
            r is Err <==> malformed(listing(files@)) || corrupt(start_image(listing(files@))),
            match r {
                Ok(state) => {
                    &&& state@.wf()
                    &&& state@ == recovered(start_image(listing(files@)), threshold).compact()
                    &&& state@.contents() == contents_of(start_image(listing(files@)))
                },
                Err(e) => if malformed(listing(files@)) {
                    e is Fragment
                } else {
                    e is Serde
                },
            },
    {
        let mut fragments = match read_directory(files) {
            Ok(fragments) => fragments,
            Err(e) => { return Err(e); },
        };
        if fragments.len() == 0 {
            fragments.push(Fragment { id: 0, data: Vec::new() });
            assert(image_of(fragments@) =~= seq![(0u64, Seq::<u8>::empty())]);
        }
        assert(image_of(fragments@) == start_image(listing(files@)));
        let mut state = match State::recover(fragments, threshold) {
            Ok(state) => state,
            Err(e) => { return Err(e); },
        };
        match state.compact() {
            Ok(_) => Ok(state),
            Err(e) => Err(e),
        }
    }

    /// The files that hold the fragments.
    fn files(&self) -> (files: Vec<(String, Vec<u8>)>)
        ensures
            listing(files@) == files_of(self@.image),
    {
        write_directory(&self.fragments)
    }
}

/// Represents a key-value store.
///
/// The store holds its fragments in memory. [`KvStore::files`] gives them as
/// the files of the store's directory, and [`KvStore::open`] takes such files
/// back.
pub struct KvStore {
    state: State,
}

impl View for KvStore {
    type V = StoreModel;

    closed spec fn view(&self) -> StoreModel {
        self.state@
    }
}

impl KvStore {
    #[verifier::type_invariant]
    spec fn inv(&self) -> bool {
        self.state@.wf()
    }

    /// What holds of every store: its index and its counter say what its
    /// fragments say.
    pub open spec fn wf(&self) -> bool {
        self@.wf()
    }

    /// The key state of the store.
    pub open spec fn contents(&self) -> Map<Seq<char>, Seq<char>> {
        self@.contents()
    }

    /// Moves the parts out of the store, which is left empty.
    fn take(&mut self) -> (state: State)
        ensures
            state == old(self).state,
    {
        let mut state = State::empty();
        core::mem::swap(&mut self.state, &mut state);
        state
    }

    /// Opens the key-value store that the files of a directory hold, with
    /// the default compaction threshold.
    ///
    /// Files without the extension `kv` are passed over. The others are the
    /// fragments; they are replayed in the order of their numbers, and the
    /// one with the highest number becomes the active fragment. Where there
    /// is none, the store starts with an empty fragment 0. One compaction is
    /// attempted before the store is handed out.
    ///
    /// Fails with `Fragment` where the listing is malformed, and with `Serde`
    /// where it is not but a fragment is no sequence of records.
    pub fn open(files: Vec<(String, Vec<u8>)>) -> (r: Result<KvStore, StoreError>)
        ensures
            r is Err <==> malformed(listing(files@)) || corrupt(start_image(listing(files@))),
            match r {
                Ok(store) => {
                    &&& store.wf()
                    &&& store@ == recovered(
                        start_image(listing(files@)),
                        COMPACTION_THRESHOLD,
                    ).compact()
                    &&& store.contents() == contents_of(start_image(listing(files@)))
                },
                Err(e) => if malformed(listing(files@)) {
                    e is Fragment
                } else {
                    e is Serde
                },
            },
    {
        KvStore::open_with_threshold(files, COMPACTION_THRESHOLD)
    }

    /// Opens the key-value store that the files of a directory hold, as
    /// [`KvStore::open`] does, with the given compaction threshold.
    pub fn open_with_threshold(files: Vec<(String, Vec<u8>)>, threshold: usize) -> (r: Result<
        KvStore,
        StoreError,
    >)
        ensures
            r is Err <==> malformed(listing(files@)) || corrupt(start_image(listing(files@))),
            match r {
                Ok(store) => {
                    &&& store.wf()
                    &&& store@ == recovered(start_image(listing(files@)), threshold).compact()
                    &&& store.contents() == contents_of(start_image(listing(files@)))
                },
                Err(e) => if malformed(listing(files@)) {
                    e is Fragment
                } else {
                    e is Serde
                },
            },
    {
        match State::open(files, threshold) {
            Ok(state) => Ok(KvStore { state }),
            Err(e) => Err(e),
        }
    }

    /// Set value for a key. Overrides stored value if any.
    ///
    /// Appends a `Put` record to the active fragment, points the index at it,
    /// counts the record that the key had before as unreclaimed, and attempts
    /// a compaction.
    pub fn set(&mut self, key: String, value: String) -> (r: Result<(), StoreError>)
        ensures
            r is Ok,
            final(self).wf(),
            final(self)@ == old(self)@.put(
                key@,
                record_bytes(Record::Put { key: key@, value: value@ }),
            ).compact(),
            final(self).contents() == old(self).contents().insert(key@, value@),
            !final(self)@.due(),
    {
        proof {
            use_type_invariant(&*self);
        }
        let mut state = self.take();
        let r = match state.put(key, value) {
            Ok(_) => state.compact(),
            Err(e) => Err(e),
        };
        self.state = state;
        r
    }

    /// Get the value of a key: `None` where the key has none.
    ///
    /// Reads the record that the index points at. The store is left as it
    /// is.
    pub fn get(&mut self, key: String) -> (r: Result<Option<String>, StoreError>)
        ensures
            final(self)@ == old(self)@,
            r matches Ok(found) && match found {
                Some(value) => old(self).contents().contains_key(key@) && value@ == old(
                    self,
                ).contents()[key@],
                None => !old(self).contents().contains_key(key@),
            },
    {
        proof {
            use_type_invariant(&*self);
        }
        self.state.lookup(&key)
    }

    /// Remove the value of a key from the store, if it exists.
    ///
    /// Fails with `NotFound`, and leaves the store as it is, where the key
    /// has no value. Otherwise appends an `Rm` record to the active fragment,
    /// takes the key out of the index, counts the record that the key had and
    /// the `Rm` record as unreclaimed, and attempts a compaction.
    pub fn remove(&mut self, key: String) -> (r: Result<(), StoreError>)
        ensures
            final(self).wf(),
            r is Ok <==> old(self).contents().contains_key(key@),
            match r {
                Ok(_) => {
                    &&& final(self)@ == old(self)@.rm(
                        key@,
                        record_bytes(Record::Rm { key: key@ }),
                    ).compact()
                    &&& final(self).contents() == old(self).contents().remove(key@)
                    &&& !final(self)@.due()
                },
                Err(e) => e is NotFound && final(self)@ == old(self)@,
            },
    {
        proof {
            use_type_invariant(&*self);
        }
        let mut state = self.take();
        let r = match state.delete(&key) {
            Ok(_) => state.compact(),
            Err(e) => Err(e),
        };
        self.state = state;
        r
    }

    /// Compacts the log, where compaction is due.
    ///
    /// Compaction is due where more bytes are unreclaimed than the threshold
    /// allows and the active fragment does not have the highest number there
    /// is. It copies the record of each live key, in the order of the index,
    /// into a new fragment with the next number, which replaces all other
    /// fragments. The key state stays as it is.
    pub fn compact(&mut self) -> (r: Result<(), StoreError>)
        ensures
            r is Ok,
            final(self).wf(),
            final(self)@ == old(self)@.compact(),
            final(self).contents() == old(self).contents(),
            !final(self)@.due(),
    {
        proof {
            use_type_invariant(&*self);
        }
        let mut state = self.take();
        let r = state.compact();
        self.state = state;
        r
    }

    /// The files of the store's directory: each fragment under the name of
    /// its number, in ascending order.
    pub fn files(&self) -> (files: Vec<(String, Vec<u8>)>)
        ensures
            self.wf(),
            listing(files@) == files_of(self@.image),
    {
        proof {
            use_type_invariant(self);
        }
        self.state.files()
    }

    /// What is to be done to the files of the directory to bring them up to
    /// the store, where the file of the fragment `written.0` takes the appends
    /// and holds `written.1` bytes, or where no file does.
    pub fn disk_update(&self, written: Option<(u64, usize)>) -> (update: DiskUpdate)
        ensures
            self.wf(),
            update@ == update_for(self@, written),
    {
        proof {
            use_type_invariant(self);
        }
        let active = self.state.active();
        let data = self.state.fragments[self.state.fragments.len() - 1].data.as_slice();
        match written {
            Some((fragment, len)) => {
                if fragment == active && len <= data.len() {
                    if len == data.len() {
                        DiskUpdate::Nothing
                    } else {
                        DiskUpdate::Append {
                            fragment: active,
                            bytes: slice_to_vec(slice_subrange(data, len, data.len())),
                        }
                    }
                } else {
                    DiskUpdate::Install { fragment: active, bytes: slice_to_vec(data) }
                }
            },
            None => DiskUpdate::Install { fragment: active, bytes: slice_to_vec(data) },
        }
    }

    /// The number of the fragment that takes the appends.
    pub fn active_fragment(&self) -> (id: u64)
        ensures
            self.wf(),
            id == self@.active(),
    {
        proof {
            use_type_invariant(self);
        }
        self.state.active()
    }

    /// The counter of unreclaimed bytes: the bytes of the fragments that
    /// belong to no record of the index, as far as a `usize` can count them.
    pub fn unreclaimed_space(&self) -> (count: usize)
        ensures
            self.wf(),
            count == self@.unreclaimed,
            count == clipped(self@.stale()),
    {
        proof {
            use_type_invariant(self);
        }
        self.state.unreclaimed
    }

    /// The compaction threshold.
    pub fn threshold(&self) -> (threshold: usize)
        ensures
            threshold == self@.threshold,
    {
        self.state.threshold
    }

    /// The number of live keys.
    pub fn len(&self) -> (count: usize)
        ensures
            self.wf(),
            count == self@.entries.len(),
    {
        proof {
            use_type_invariant(self);
        }
        self.state.index.len()
    }

    /// Where the record of a key lies, if the key has a value.
    pub fn position(&self, key: &String) -> (position: Option<EntryPosition>)
        ensures
            self.wf(),
            position == if self.contents().contains_key(key@) {
                Some(self@.index()[key@])
            } else {
                None
            },
    {
        proof {
            use_type_invariant(self);
        }
        self.state.index.get(key)
    }
}

} // verus!
