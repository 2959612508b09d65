//! Tracks where byte ranges of in-memory data originally came from.
//!
//! A tracker records non-overlapping, non-empty ranges of a synthetic
//! address space together with attached metadata, answers containment
//! queries for arbitrary sub-ranges, and resolves file-backed ranges to
//! 1-based line/column positions.

pub mod file_tracker;
pub mod slice;
pub mod slice_tracker;
pub mod source_location;
pub mod stable_borrow;
pub mod string_tracker;

pub use slice::Span;
pub use slice_tracker::InsertError;
pub use slice_tracker::SliceTracker;
pub use source_location::SourceLocation;
pub use string_tracker::StringTracker;
