//! Storage engines.
//!
//! A storage engine decides how the data is stored, read and represented.

use crate::error::StoreError;
use crate::store::KvStore;
use vstd::prelude::*;

verus! {

/// Key-value storage engine.
///
/// Defines the interface used to interact with storage engines. An engine
/// holds a key state; the operations say what they do to it where they
/// succeed. When they fail is up to the engine, but for the removal of a key
/// that has no value.
pub trait KvEngine {
    /// The key state that the engine holds.
    spec fn state(&self) -> Map<Seq<char>, Seq<char>>;

    /// Set the value of a key.
    fn set(&mut self, key: String, value: String) -> (r: Result<(), StoreError>)
        ensures
            r is Ok ==> final(self).state() == old(self).state().insert(key@, value@),
    ;

    /// Get the value of a key.
    fn get(&mut self, key: String) -> (r: Result<Option<String>, StoreError>)
        ensures
            final(self).state() == old(self).state(),
            r matches Ok(found) ==> match found {
                Some(value) => old(self).state().contains_key(key@) && value@ == old(
                    self,
                ).state()[key@],
                None => !old(self).state().contains_key(key@),
            },
    ;

    /// Remove a given key.
    ///
    /// # Errors
    ///
    /// An error is returned if the key does not exist.
    fn remove(&mut self, key: String) -> (r: Result<(), StoreError>)
        ensures
            !old(self).state().contains_key(key@) ==> r is Err,
            r is Ok ==> final(self).state() == old(self).state().remove(key@),
    ;
}

impl KvEngine for KvStore {
    open spec fn state(&self) -> Map<Seq<char>, Seq<char>> {
        self.contents()
    }

    fn set(&mut self, key: String, value: String) -> (r: Result<(), StoreError>)
        ensures
            r is Ok,
    {
        KvStore::set(self, key, value)
    }

    fn get(&mut self, key: String) -> (r: Result<Option<String>, StoreError>)
        ensures
            r is Ok,
    {
        KvStore::get(self, key)
    }

    fn remove(&mut self, key: String) -> (r: Result<(), StoreError>)
        ensures
            r is Ok <==> old(self).state().contains_key(key@),
            r matches Err(e) ==> e is NotFound && final(self).state() == old(self).state(),
    {
        KvStore::remove(self, key)
    }
}

} // verus!
