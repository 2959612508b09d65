//! The slice view: a contiguous range of the tracker's address space,
//! described by its start address and length.

use vstd::prelude::*;

verus! {

/// A contiguous byte range: start address and length.
///
/// Addresses are synthetic stable keys into the tracker's address space;
/// they play the role that raw pointer values play for real slices.
#[derive(Clone, Copy, Debug, PartialEq, Eq, Structural)]
pub struct Span {
    pub start: usize,
    pub len: usize,
}

impl Span {
    /// The address one past the last byte of the range.
    pub open spec fn end(self) -> int {
        self.start + self.len
    }

    pub fn new(start: usize, len: usize) -> (r: Span)
        ensures
            r.start == start,
            r.len == len,
    {
        Span { start, len }
    }

    /// Start address of the range.
    pub fn start_ptr(&self) -> (r: usize)
        ensures
            r == self.start,
    {
        self.start
    }

    /// Length of the range in bytes.
    pub fn len(&self) -> (r: usize)
        ensures
            r == self.len,
    {
        self.len
    }

    /// Whether the range is empty.
    pub fn is_empty(&self) -> (r: bool)
        ensures
            r == (self.len == 0),
    {
        self.len == 0
    }

    /// End address of the range (one past the last byte).
    pub fn end_ptr(&self) -> (r: usize)
        requires
            self.start + self.len <= usize::MAX,
        ensures
            r == self.end(),
    {
        self.start + self.len
    }
}

} // verus!
