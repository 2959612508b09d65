//! Tracker for strings with source information attached.
//!
//! Each tracked string carries a [`Source`] telling where it came from;
//! the information can later be retrieved with any sub-range of a
//! tracked string.

use vstd::prelude::*;

verus! {

use crate::slice::Span;
use crate::slice_tracker::{
    contains_range,
    owner_addr,
    owner_exists,
    pool_inv,
    InsertError,
    SliceTracker,
};

/// Source of a tracked string.
#[derive(Clone, Debug, PartialEq, Eq)]
pub enum Source {
    /// No particular source.
    Other,
    /// The string was expanded from another tracked range.
    ExpandedFrom(Span),
    /// The string was read from the file at this path.
    File(String),
}

/// One tracked string: its start address, its bytes, and its source.
pub type Entry = crate::slice_tracker::Entry<Source>;

/// Tracker for strings with source information.
///
/// The tracker records mutually disjoint, non-empty ranges of its
/// address space, each carrying the source the string came from. This
/// information can later be retrieved with any (partial) sub-range of a
/// tracked string.
///
/// The tracker can not track empty strings, and it can not look up
/// information for empty ranges.
pub struct StringTracker {
    inner: SliceTracker<Source>,
}

impl StringTracker {
    /// The abstract contents of the tracker: a map from start address to
    /// the bytes and source tracked there.
    pub closed spec fn ranges(self) -> Map<int, (Seq<u8>, Source)> {
        self.inner.ranges()
    }

    /// The lowest address at or above every tracked range; fresh owned
    /// insertions are placed here.
    pub closed spec fn next_start(self) -> int {
        self.inner.next_start()
    }

    /// Well-formedness of the underlying pool.
    pub closed spec fn wf(self) -> bool {
        self.inner.wf()
    }

    /// Law: a well-formed string tracker's abstract contents satisfy the
    /// pool invariant.
    pub proof fn lemma_wf_pool_inv(self)
        requires
            self.wf(),
        ensures
            pool_inv(self.ranges()),
    {
        self.inner.lemma_wf_pool_inv();
    }

    /// Create a new string tracker.
    pub fn new() -> (r: Self)
        ensures
            r.wf(),
            r.ranges() == Map::<int, (Seq<u8>, Source)>::empty(),
            r.next_start() == 0,
    {
        StringTracker { inner: SliceTracker::new() }
    }

    /// Insert a borrowed string at a caller-chosen start address.
    ///
    /// Fails if the string is empty or if (parts of) it are already
    /// tracked; a failed insert leaves the tracker unchanged.
    pub fn insert_borrow(&mut self, start: usize, data: Vec<u8>, source: Source) -> (r: Result<
        Span,
        InsertError,
    >)
        requires
            old(self).wf(),
            start + data@.len() <= usize::MAX,
        ensures
            final(self).wf(),
            match r {
                Ok(s) => {
                    &&& data@.len() > 0
                    &&& !crate::slice_tracker::overlaps_any(
                        old(self).ranges(),
                        start as int,
                        start + data@.len(),
                    )
                    &&& s.start == start
                    &&& s.len == data@.len()
                    &&& final(self).ranges() == old(self).ranges().insert(
                        start as int,
                        (data@, source),
                    )
                    &&& final(self).next_start() == if start + data@.len() > old(
                        self,
                    ).next_start() {
                        start + data@.len()
                    } else {
                        old(self).next_start()
                    }
                },
                Err(InsertError::EmptyInput) => {
                    &&& data@.len() == 0
                    &&& final(self).ranges() == old(self).ranges()
                    &&& final(self).next_start() == old(self).next_start()
                },
                Err(InsertError::Conflict) => {
                    &&& data@.len() > 0
                    &&& crate::slice_tracker::overlaps_any(
                        old(self).ranges(),
                        start as int,
                        start + data@.len(),
                    )
                    &&& final(self).ranges() == old(self).ranges()
                    &&& final(self).next_start() == old(self).next_start()
                },
            },
    {
        self.inner.insert_borrow(start, data, source)
    }

    /// Move an owned string into the tracker at a fresh address.
    ///
    /// Fails if the string is empty.
    pub fn insert_move(&mut self, data: Vec<u8>, source: Source) -> (r: Result<Span, InsertError>)
        requires
            old(self).wf(),
            old(self).next_start() + data@.len() <= usize::MAX,
        ensures
            final(self).wf(),
            match r {
                Ok(s) => {
                    &&& data@.len() > 0
                    &&& s.start as int == old(self).next_start()
                    &&& s.len == data@.len()
                    &&& final(self).ranges() == old(self).ranges().insert(
                        s.start as int,
                        (data@, source),
                    )
                    &&& final(self).next_start() == old(self).next_start() + data@.len()
                },
                Err(er) => {
                    &&& er == InsertError::EmptyInput
                    &&& data@.len() == 0
                    &&& final(self).ranges() == old(self).ranges()
                    &&& final(self).next_start() == old(self).next_start()
                },
            },
    {
        self.inner.insert_move(data, source)
    }

    /// Read a file's contents into the tracker at a fresh address with a
    /// `Source::File` source.
    ///
    /// The caller reads the file and hands over its contents; this fails
    /// exactly when the contents are empty.
    pub fn insert_file(&mut self, path: String, content: Vec<u8>) -> (r: Result<
        Span,
        InsertError,
    >)
        requires
            old(self).wf(),
            old(self).next_start() + content@.len() <= usize::MAX,
        ensures
            final(self).wf(),
            match r {
                Ok(s) => {
                    &&& content@.len() > 0
                    &&& s.start as int == old(self).next_start()
                    &&& s.len == content@.len()
                    &&& final(self).ranges() == old(self).ranges().insert(
                        s.start as int,
                        (content@, Source::File(path)),
                    )
                    &&& final(self).next_start() == old(self).next_start() + content@.len()
                },
                Err(er) => {
                    &&& er == InsertError::EmptyInput
                    &&& content@.len() == 0
                    &&& final(self).ranges() == old(self).ranges()
                    &&& final(self).next_start() == old(self).next_start()
                },
            },
    {
        self.inner.insert_move(content, Source::File(path))
    }

    /// Check if a string range is tracked.
    pub fn is_tracked(&self, span: Span) -> (r: bool)
        requires
            self.wf(),
        ensures
            r == (span.len > 0 && owner_exists(self.ranges(), span.start as int, span.end())),
    {
        self.inner.is_tracked(span)
    }

    /// Get the whole tracked range and source information for a string
    /// range.
    pub fn get(&self, span: Span) -> (r: Option<(Span, &Source)>)
        requires
            self.wf(),
        ensures
            match r {
                Some((whole, source)) => {
                    &&& span.len > 0
                    &&& contains_range(self.ranges(), whole.start as int, span.start as int, span.end())
                    &&& forall|a: int|
                        contains_range(self.ranges(), a, span.start as int, span.end()) ==> a
                            == whole.start
                    &&& whole.len == self.ranges()[whole.start as int].0.len()
                    &&& *source == self.ranges()[whole.start as int].1
                },
                None => span.len == 0 || !owner_exists(
                    self.ranges(),
                    span.start as int,
                    span.end(),
                ),
            },
    {
        self.inner.get(span)
    }

    /// Get the source information for a string range.
    pub fn get_source(&self, span: Span) -> (r: Option<&Source>)
        requires
            self.wf(),
        ensures
            match r {
                Some(source) => span.len > 0 && owner_exists(
                    self.ranges(),
                    span.start as int,
                    span.end(),
                ) && *source == self.ranges()[owner_addr(
                    self.ranges(),
                    span.start as int,
                    span.end(),
                )].1,
                None => span.len == 0 || !owner_exists(
                    self.ranges(),
                    span.start as int,
                    span.end(),
                ),
            },
    {
        self.inner.metadata(span)
    }

    /// Get the whole tracked range for a string range.
    pub fn get_whole_slice(&self, span: Span) -> (r: Option<Span>)
        requires
            self.wf(),
        ensures
            match r {
                Some(whole) => {
                    &&& span.len > 0
                    &&& contains_range(self.ranges(), whole.start as int, span.start as int, span.end())
                    &&& forall|a: int|
                        contains_range(self.ranges(), a, span.start as int, span.end()) ==> a
                            == whole.start
                    &&& whole.len == self.ranges()[whole.start as int].0.len()
                },
                None => span.len == 0 || !owner_exists(
                    self.ranges(),
                    span.start as int,
                    span.end(),
                ),
            },
    {
        self.inner.whole_slice(span)
    }

    /// The lowest address at or above every tracked range; the next owned
    /// insertion is placed here.
    pub fn next_free_start(&self) -> (r: usize)
        ensures
            r as int == self.next_start(),
    {
        self.inner.next_free_start()
    }
}

impl Default for StringTracker {
    fn default() -> (r: Self)
        ensures
            r.wf(),
            r.ranges() == Map::<int, (Seq<u8>, Source)>::empty(),
            r.next_start() == 0,
    {
        Self::new()
    }
}

} // verus!
