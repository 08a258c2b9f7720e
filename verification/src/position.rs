//! Where a record lies in the log.

use std::ops::Range;
use vstd::prelude::*;

verus! {

/// The location of one serialized record: the fragment that holds it, the
/// byte offset at which it starts there, and its length in bytes.
#[derive(Debug, Clone, Copy, PartialEq, Eq, Structural)]
pub struct EntryPosition {
    /// Fragment the entry is currently located in.
    pub fragment: u64,
    /// Position of the entry in the fragment.
    pub pos: u64,
    /// Size of the entry.
    pub size: usize,
}

impl EntryPosition {
    /// The offset just past the last byte of the record.
    pub open spec fn end(self) -> int {
        self.pos + self.size
    }

    /// The position of the record that fills the byte range `value.1` of
    /// fragment `value.0`.
    pub fn from(value: (u64, Range<u64>)) -> (position: Self)
        requires
            value.1.start <= value.1.end,
            value.1.end - value.1.start <= usize::MAX,
        ensures
            position.fragment == value.0,
            position.pos == value.1.start,
            position.size == value.1.end - value.1.start,
            position.end() == value.1.end,
    {
        Self {
            fragment: value.0,
            pos: value.1.start,
            size: (value.1.end - value.1.start) as usize,
        }
    }
}

} // verus!
