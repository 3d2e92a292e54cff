//! Byte ranges and the bounds that request headers give them.
use vstd::prelude::*;

verus! {

/// One end of a range of positions.
#[derive(Debug, Clone, PartialEq, Eq)]
pub enum Bound<T> {
    /// The range reaches up to this position and holds it.
    Included(T),
    /// The range reaches up to this position and does not hold it.
    Excluded(T),
    /// The range has no end here.
    Unbounded,
}

/// Represents a single byte range with start and end positions (exclusive end).
#[derive(Debug, Clone, Copy, PartialEq, Eq)]
pub struct ByteRange {
    pub start: u64,
    pub end_exclusive: u64,
}

impl ByteRange {
    /// Whether the range lies in a body of `size` bytes and holds at least one of them.
    pub open spec fn within(self, size: int) -> bool {
        self.start < self.end_exclusive <= size
    }

    /// Whether the range holds the byte at `position`.
    pub open spec fn holds(self, position: int) -> bool {
        self.start <= position < self.end_exclusive
    }

    /// The number of bytes in the range.
    pub open spec fn spec_len(self) -> int {
        self.end_exclusive - self.start
    }

    /// Create a new byte range with inclusive start and exclusive end.
    pub fn new(start: u64, end_exclusive: u64) -> (range: Self)
        ensures
            range.start == start,
            range.end_exclusive == end_exclusive,
    {
        ByteRange { start, end_exclusive }
    }

    /// The number of bytes in the range.
    pub fn len(&self) -> (n: u64)
        requires
            self.start <= self.end_exclusive,
        ensures
            n == self.end_exclusive - self.start,
    {
        self.end_exclusive - self.start
    }
}

} // verus!
