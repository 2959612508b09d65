//! Coarse classification of where a tracked range's data came from.

use vstd::prelude::*;

verus! {

use crate::slice::Span;

/// Where a slice of data originated, without line/column resolution.
///
/// The provenance of a tracked range degrades gracefully: a precise file
/// path, the range it was expanded from, or nothing at all.
#[derive(Clone, Debug, PartialEq, Eq)]
pub enum SourceLocation {
    /// The source of the data is unknown.
    Unknown,
    /// The data was expanded from another tracked range.
    ExpandedFrom(Span),
    /// The data came from the file at this path.
    File(String),
}

} // verus!
