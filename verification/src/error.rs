//! Errors of the store.

use vstd::prelude::*;
use vstd::string::StringExecFns;

verus! {

/// Custom `Result` type that represents a success or error of the store.
pub type Result<T> = core::result::Result<T, StoreError>;

/// The error type for store operations.
#[derive(Debug)]
pub enum StoreError {
    /// An I/O error occurred while accessing the underlying files. The store
    /// itself touches no file: this variant is for the layer that keeps the
    /// fragments on disk.
    Io(String),
    /// A record could not be serialized or deserialized.
    Serde(String),
    /// An operation failed due to a missing key. Often occurs when trying to
    /// remove a key that does not exist.
    NotFound,
    /// An error occurred while accessing a log fragment.
    Fragment(String),
}

impl StoreError {
    /// What introduces the description of an error of this variant.
    pub open spec fn label(self) -> Seq<char> {
        match self {
            StoreError::Io(_) => "IO error: "@,
            StoreError::Serde(_) => "Serde error: "@,
            StoreError::NotFound => "Key not found"@,
            StoreError::Fragment(_) => "Fragment error: "@,
        }
    }

    /// The description that the error carries; empty for `NotFound`.
    pub open spec fn detail(self) -> Seq<char> {
        match self {
            StoreError::Io(text) => text@,
            StoreError::Serde(text) => text@,
            StoreError::NotFound => Seq::empty(),
            StoreError::Fragment(text) => text@,
        }
    }

    /// The error as a line of text: the variant's label, then its description.
    pub fn to_string(&self) -> (text: String)
        ensures
            text@ == self.label() + self.detail(),
    {
        match self {
            StoreError::Io(detail) => String::from_str("IO error: ").concat(detail.as_str()),
            StoreError::Serde(detail) => String::from_str("Serde error: ").concat(detail.as_str()),
            StoreError::NotFound => String::from_str("Key not found"),
            StoreError::Fragment(detail) => String::from_str("Fragment error: ").concat(
                detail.as_str(),
            ),
        }
    }
}

} // verus!
