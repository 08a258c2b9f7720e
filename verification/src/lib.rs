//! A log-structured key-value store for string keys and values.
//!
//! Every write is appended as one record to a numbered fragment; an index
//! maps each live key to the bytes of its latest record, and compaction
//! rewrites the live records into a fresh fragment once enough of the log
//! has gone stale.
//!
//! The store holds its fragments in memory and touches no file. It is opened
//! from the files of a directory, given as names and bytes, and it says after
//! each operation what is to be done to those files to bring them up to it
//! ([`KvStore::disk_update`]); reading and writing them is the caller's.
//!
//! - [`record`]: the log records and their bytes; [`json`]: the calls into
//!   `serde_json` that write and read the strings in them.
//! - [`naming`], [`directory`]: the names of the fragment files, and the
//!   fragments that a directory holds.
//! - [`index`], [`position`]: the in-memory index.
//! - [`image`], [`model`]: the fragments and the store as values, and what
//!   the operations do to them; [`compaction`], [`recovery`]: the same for
//!   compaction and for opening.
//! - [`store`], [`engine`]: the store and the interface of storage engines.
//! - [`mirror`]: what is to be done to the files.
//! - [`laws`]: what holds across the operations.

pub mod compaction;
pub mod directory;
pub mod engine;
pub mod error;
pub mod image;
pub mod index;
pub mod json;
pub mod laws;
pub mod mirror;
pub mod model;
pub mod naming;
pub mod position;
pub mod record;
pub mod recovery;
pub mod store;

pub use engine::KvEngine;
pub use error::{Result, StoreError};
pub use mirror::DiskUpdate;
pub use naming::{fragment_filename, LOG_EXTENSION};
pub use position::EntryPosition;
pub use store::{KvStore, COMPACTION_THRESHOLD};
