//! File-backed tracking: reading a tracked range back to its file path
//! and 1-based line/column position.
//!
//! The resolver scans backward from the queried offset for the nearest
//! preceding newline; cost is proportional to the distance back to that
//! newline, not to the whole entry's length.

use vstd::prelude::*;

verus! {

use vstd::slice::slice_subrange;
use crate::slice::Span;
use crate::slice_tracker::{
    contains_range,
    owner_addr,
    owner_exists,
    InsertError,
    SliceTracker,
};

/// Source of a slice of data.
#[derive(Clone, Debug, PartialEq, Eq)]
pub enum Source {
    /// Unknown source.
    Unknown,
    /// The data was expanded from another tracked range.
    ExpandedFrom(Span),
    /// The data was read from the file at this path.
    File(String),
}

/// File location indicating the source of a slice of data.
#[derive(Clone, Debug, PartialEq, Eq)]
pub struct FileLocation {
    pub path: String,
    pub line: usize,
    pub column: usize,
}

/// The resolved source location of a slice of data.
#[derive(Clone, Debug, PartialEq, Eq)]
pub enum SourceLocation {
    /// The source of the data is unknown.
    Unknown,
    /// The data was expanded from the given tracked range.
    ExpandedFrom(Span),
    /// The data came from a file, at the given 1-based line and column.
    File(FileLocation),
}

/// The newline byte that terminates a line.
pub const NEWLINE: u8 = 10;

/// The number of occurrences of the byte `b` in `s`.
pub open spec fn count_byte(s: Seq<u8>, b: u8) -> nat
    decreases s.len(),
{
    if s.len() == 0 {
        0
    } else {
        count_byte(s.drop_last(), b) + (if s.last() == b {
            1nat
        } else {
            0nat
        })
    }
}

/// The 1-based line number of byte offset `off` in `s`: one more than
/// the number of newline bytes strictly before `off`.
pub open spec fn line_at(s: Seq<u8>, off: int) -> nat {
    count_byte(s.take(off), NEWLINE) + 1
}

/// The 1-based column of byte offset `off` in `s`: the distance back to
/// the nearest preceding newline. A carriage return is an ordinary byte;
/// only a newline terminates a line.
pub open spec fn col_at(s: Seq<u8>, off: int) -> nat
    decreases off,
{
    if off <= 0 {
        1
    } else if s[off - 1] == NEWLINE {
        1
    } else {
        col_at(s, off - 1) + 1
    }
}

proof fn lemma_count_byte_le_len(s: Seq<u8>, b: u8)
    ensures
        count_byte(s, b) <= s.len(),
    decreases s.len(),
{
    if s.len() > 0 {
        lemma_count_byte_le_len(s.drop_last(), b);
    }
}

proof fn lemma_count_byte_absent(s: Seq<u8>, b: u8)
    requires
        forall|j: int| 0 <= j < s.len() ==> s[j] != b,
    ensures
        count_byte(s, b) == 0,
    decreases s.len(),
{
    if s.len() > 0 {
        assert forall|j: int| 0 <= j < s.drop_last().len() implies s.drop_last()[j] != b by {
            assert(s.drop_last()[j] == s[j]);
        }
        lemma_count_byte_absent(s.drop_last(), b);
    }
}

proof fn lemma_col_no_newline(s: Seq<u8>, off: int)
    requires
        0 <= off,
        forall|j: int| 0 <= j < off ==> s[j] != NEWLINE,
    ensures
        col_at(s, off) == off + 1,
    decreases off,
{
    if off > 0 {
        lemma_col_no_newline(s, off - 1);
    }
}

proof fn lemma_col_after_newline(s: Seq<u8>, i: int, off: int)
    requires
        0 <= i < off,
        s[i] == NEWLINE,
        forall|j: int| i < j < off ==> s[j] != NEWLINE,
    ensures
        col_at(s, off) == off - i,
    decreases off,
{
    if off - 1 > i {
        lemma_col_after_newline(s, i, off - 1);
    }
}

/// Relies on memchr::memrchr: returns the index of the last occurrence
/// of `needle` in `hay`, or `None` if there is none.
#[verifier::external_body]
fn rfind_byte(needle: u8, hay: &[u8]) -> (r: Option<usize>)
    ensures
        match r {
            Some(i) => i < hay@.len() && hay@[i as int] == needle && forall|j: int|
                i < j < hay@.len() ==> (#[trigger] hay@[j]) != needle,
            None => forall|j: int| 0 <= j < hay@.len() ==> (#[trigger] hay@[j]) != needle,
        },
{
    memchr::memrchr(needle, hay)
}

/// Relies on memchr::memrchr_iter: it yields the index of each
/// occurrence of `needle` in `hay` exactly once, so the number of items
/// it yields is the number of occurrences.
#[verifier::external_body]
fn count_byte_occurrences(needle: u8, hay: &[u8]) -> (r: usize)
    ensures
        r == count_byte(hay@, needle),
{
    memchr::memrchr_iter(needle, hay).count()
}

/// Search backward from byte offset `offset` in `data` for the nearest
/// preceding newline, and compute the 1-based (line, column) of `offset`.
pub fn compute_location(data: &[u8], offset: usize) -> (r: (usize, usize))
    requires
        offset < data@.len(),
    ensures
        r.0 == line_at(data@, offset as int),
        r.1 == col_at(data@, offset as int),
{
    // Binding the length brings its usize bound into scope.
    let n = data.len();
    let prefix = slice_subrange(data, 0, offset);
    proof {
        assert(prefix@ == data@.take(offset as int));
    }
    match rfind_byte(NEWLINE, prefix) {
        None => {
            proof {
                assert forall|j: int| 0 <= j < offset implies data@[j] != NEWLINE by {
                    assert(prefix@[j] == data@[j]);
                }
                lemma_count_byte_absent(prefix@, NEWLINE);
                lemma_col_no_newline(data@, offset as int);
            }
            (1, offset + 1)
        },
        Some(i) => {
            let cnt = count_byte_occurrences(NEWLINE, prefix);
            proof {
                lemma_count_byte_le_len(prefix@, NEWLINE);
                assert(data@[i as int] == NEWLINE);
                assert forall|j: int| i < j < offset implies data@[j] != NEWLINE by {
                    assert(prefix@[j] == data@[j]);
                }
                lemma_col_after_newline(data@, i as int, offset as int);
            }
            (cnt + 1, offset - i)
        },
    }
}

/// The location that resolving a sub-range at byte offset `off` of an
/// entry with bytes `data` and source `src` must report.
pub open spec fn located(src: Source, data: Seq<u8>, off: int) -> SourceLocation {
    match src {
        Source::Unknown => SourceLocation::Unknown,
        Source::ExpandedFrom(p) => SourceLocation::ExpandedFrom(p),
        Source::File(path) => SourceLocation::File(
            FileLocation {
                path,
                line: line_at(data, off) as usize,
                column: col_at(data, off) as usize,
            },
        ),
    }
}

impl SliceTracker<Source> {
    /// Insert the contents of a file into the tracker at a fresh address.
    ///
    /// The caller reads the file and hands over its contents; this fails
    /// exactly when the contents are empty, since empty ranges are never
    /// trackable.
    pub fn insert_file(&mut self, path: String, content: Vec<u8>) -> (r: Result<
        Span,
        InsertError,
    >)
        requires
            old(self).wf(),
            old(self).next_start() + content@.len() <= usize::MAX,
        ensures
            final(self).wf(),
            match r {
                Ok(s) => {
                    &&& content@.len() > 0
                    &&& s.start as int == old(self).next_start()
                    &&& s.len == content@.len()
                    &&& final(self).ranges() == old(self).ranges().insert(
                        s.start as int,
                        (content@, Source::File(path)),
                    )
                    &&& final(self).next_start() == old(self).next_start() + content@.len()
                },
                Err(er) => {
                    &&& er == InsertError::EmptyInput
                    &&& content@.len() == 0
                    &&& final(self).ranges() == old(self).ranges()
                    &&& final(self).next_start() == old(self).next_start()
                },
            },
    {
        self.insert_move(content, Source::File(path))
    }

    /// Get the resolved source location for a (partial) range: the file
    /// path with 1-based line and column for a file-backed entry, the
    /// parent range for an expanded entry, and unknown otherwise.
    ///
    /// An `ExpandedFrom` result is not flattened: the caller may resolve
    /// the reported parent range in turn to walk the provenance chain one
    /// hop at a time.
    pub fn get_source_location(&self, span: Span) -> (r: Option<SourceLocation>)
        requires
            self.wf(),
        ensures
            match r {
                Some(loc) => {
                    &&& span.len > 0
                    &&& owner_exists(self.ranges(), span.start as int, span.end())
                    &&& loc == located(
                        self.ranges()[owner_addr(self.ranges(), span.start as int, span.end())].1,
                        self.ranges()[owner_addr(self.ranges(), span.start as int, span.end())].0,
                        span.start - owner_addr(self.ranges(), span.start as int, span.end()),
                    )
                },
                None => span.len == 0 || !owner_exists(
                    self.ranges(),
                    span.start as int,
                    span.end(),
                ),
            },
    {
        let ghost m = self.ranges();
        let ghost qs = span.start as int;
        let ghost qe = span.end();
        match self.lookup_entry(span) {
            None => None,
            Some((whole, data, meta)) => {
                proof {
                    assert(contains_range(m, whole.start as int, qs, qe));
                    assert(owner_exists(m, qs, qe));
                    assert(contains_range(m, owner_addr(m, qs, qe), qs, qe));
                    assert(owner_addr(m, qs, qe) == whole.start as int);
                }
                let res = match meta {
                    Source::Unknown => SourceLocation::Unknown,
                    Source::ExpandedFrom(p) => SourceLocation::ExpandedFrom(*p),
                    Source::File(path) => {
                        let offset = span.start - whole.start;
                        let (line, column) = compute_location(data.as_slice(), offset);
                        SourceLocation::File(FileLocation { path: path.clone(), line, column })
                    },
                };
                Some(res)
            },
        }
    }
}

} // verus!
