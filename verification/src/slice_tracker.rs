//! The ownership pool: an address-ordered index of registered, mutually
//! disjoint, non-empty byte ranges with attached metadata.
//!
//! Entries are kept in a vector sorted by start address; both overlap
//! detection and containment lookup are predecessor queries on that order.

use vstd::prelude::*;

verus! {

use crate::slice::Span;

/// Why an insertion was rejected.
#[derive(Clone, Copy, Debug, PartialEq, Eq, Structural)]
pub enum InsertError {
    /// The range to insert was empty; empty ranges are never tracked.
    EmptyInput,
    /// The range to insert intersects an already tracked range.
    Conflict,
}

/// One tracked range: its start address, its bytes, and its metadata.
pub struct Entry<M> {
    start: usize,
    data: Vec<u8>,
    meta: M,
}

/// True when the ranges `[a1, a1 + l1)` and `[a2, a2 + l2)` share no byte.
pub open spec fn ranges_disjoint(a1: int, l1: int, a2: int, l2: int) -> bool {
    a1 + l1 <= a2 || a2 + l2 <= a1
}

/// Abstract pool invariant: every tracked range is non-empty, lies within
/// the address space, and no two tracked ranges overlap.
pub open spec fn pool_inv<M>(m: Map<int, (Seq<u8>, M)>) -> bool {
    &&& forall|a: int|
        #[trigger] m.dom().contains(a) ==> 0 <= a && m[a].0.len() > 0 && a + m[a].0.len()
            <= usize::MAX
    &&& forall|a: int, b: int|
        #![trigger m.dom().contains(a), m.dom().contains(b)]
        m.dom().contains(a) && m.dom().contains(b) && a != b ==> ranges_disjoint(
            a,
            m[a].0.len() as int,
            b,
            m[b].0.len() as int,
        )
}

/// The entry at address `a` wholly contains the query range `[qs, qe)`.
pub open spec fn contains_range<M>(m: Map<int, (Seq<u8>, M)>, a: int, qs: int, qe: int) -> bool {
    m.dom().contains(a) && a <= qs && qe <= a + m[a].0.len()
}

/// Some tracked entry wholly contains the query range `[qs, qe)`.
pub open spec fn owner_exists<M>(m: Map<int, (Seq<u8>, M)>, qs: int, qe: int) -> bool {
    exists|a: int| contains_range(m, a, qs, qe)
}

/// The address of an entry that wholly contains `[qs, qe)`; for a
/// non-empty query range it is unique by disjointness.
pub open spec fn owner_addr<M>(m: Map<int, (Seq<u8>, M)>, qs: int, qe: int) -> int {
    choose|a: int| contains_range(m, a, qs, qe)
}

/// The range `[s, e)` shares at least one byte with some tracked entry.
pub open spec fn overlaps_any<M>(m: Map<int, (Seq<u8>, M)>, s: int, e: int) -> bool {
    exists|a: int| #[trigger] m.dom().contains(a) && a < e && s < a + m[a].0.len()
}

/// Law: for a non-empty query range, the containing entry is unique.
pub proof fn lemma_owner_unique<M>(m: Map<int, (Seq<u8>, M)>, qs: int, qe: int, a: int, b: int)
    requires
        pool_inv(m),
        qs < qe,
        contains_range(m, a, qs, qe),
        contains_range(m, b, qs, qe),
    ensures
        a == b,
{
    if a != b {
        assert(ranges_disjoint(a, m[a].0.len() as int, b, m[b].0.len() as int));
    }
}

/// Law: a range identical to an already tracked entry overlaps the pool,
/// so inserting an exact duplicate is always rejected.
pub proof fn lemma_duplicate_insert_conflicts<M>(m: Map<int, (Seq<u8>, M)>, a: int)
    requires
        pool_inv(m),
        m.dom().contains(a),
    ensures
        overlaps_any(m, a, a + m[a].0.len()),
{
    // The tracked entry at `a` itself is the overlap witness.
    assert(m.dom().contains(a) && a < a + m[a].0.len());
}

/// Law: a query range that starts inside a tracked entry but runs past
/// its end is contained in no entry at all, so resolving it fails; this
/// covers both a range straddling two adjacent entries and one straddling
/// tracked and untracked memory.
pub proof fn lemma_straddle_not_found<M>(m: Map<int, (Seq<u8>, M)>, a: int, qs: int, qe: int)
    requires
        pool_inv(m),
        m.dom().contains(a),
        a <= qs < a + m[a].0.len(),
        qe > a + m[a].0.len(),
    ensures
        !owner_exists(m, qs, qe),
{
    assert forall|b: int| !contains_range(m, b, qs, qe) by {
        if contains_range(m, b, qs, qe) {
            if b != a {
                assert(ranges_disjoint(a, m[a].0.len() as int, b, m[b].0.len() as int));
            }
        }
    }
}

/// Tracker for byte ranges with metadata, keyed by synthetic start
/// address.
///
/// The tracker records mutually disjoint, non-empty ranges of its address
/// space. Each range carries metadata that can later be retrieved with
/// any sub-range of a tracked range. Growth is append-only: entries are
/// never removed, replaced or moved once inserted.
///
/// The tracker can not track empty ranges, and it can not look up
/// information for empty ranges.
pub struct SliceTracker<M> {
    entries: Vec<Entry<M>>,
    next_addr: usize,
}

impl<M> SliceTracker<M> {
    /// Internal ordering invariant of an entry sequence: entries are
    /// non-empty, bounded, and sorted by start with pairwise disjoint
    /// ranges.
    spec fn entries_ok(es: Seq<Entry<M>>) -> bool {
        &&& forall|i: int| 0 <= i < es.len() ==> (#[trigger] es[i]).data@.len() > 0
        &&& forall|i: int|
            0 <= i < es.len() ==> (#[trigger] es[i]).start + es[i].data@.len() <= usize::MAX
        &&& forall|i: int, j: int|
            #![trigger es[i], es[j]]
            0 <= i < j < es.len() ==> es[i].start + es[i].data@.len() <= es[j].start
    }

    /// Some entry of `es` starts at address `a`.
    spec fn has_start(es: Seq<Entry<M>>, a: int) -> bool {
        exists|i: int| 0 <= i < es.len() && (#[trigger] es[i]).start == a
    }

    /// The index of the entry of `es` that starts at address `a`.
    spec fn idx_at(es: Seq<Entry<M>>, a: int) -> int {
        choose|i: int| 0 <= i < es.len() && (#[trigger] es[i]).start == a
    }

    /// The bytes and metadata of the entry of `es` that starts at `a`.
    spec fn val_at(es: Seq<Entry<M>>, a: int) -> (Seq<u8>, M) {
        (es[Self::idx_at(es, a)].data@, es[Self::idx_at(es, a)].meta)
    }

    /// The abstract contents of an entry sequence: a map from start
    /// address to the bytes and metadata tracked there.
    spec fn seq_ranges(es: Seq<Entry<M>>) -> Map<int, (Seq<u8>, M)> {
        Map::new(|a: int| Self::has_start(es, a), |a: int| Self::val_at(es, a))
    }

    /// The abstract contents of the tracker: a map from start address to
    /// the bytes and metadata tracked there.
    pub closed spec fn ranges(self) -> Map<int, (Seq<u8>, M)> {
        Self::seq_ranges(self.entries@)
    }

    /// The lowest address at or above every tracked range; fresh owned
    /// insertions are placed here.
    pub closed spec fn next_start(self) -> int {
        self.next_addr as int
    }

    /// Well-formedness: the entry vector is sorted and disjoint, and the
    /// fresh-address cursor lies at or above every entry's end.
    pub closed spec fn wf(self) -> bool {
        &&& Self::entries_ok(self.entries@)
        &&& forall|i: int|
            0 <= i < self.entries@.len() ==> (#[trigger] self.entries@[i]).start
                + self.entries@[i].data@.len() <= self.next_addr
    }

    proof fn lemma_starts_distinct(es: Seq<Entry<M>>, i: int, j: int)
        requires
            Self::entries_ok(es),
            0 <= i < es.len(),
            0 <= j < es.len(),
            i != j,
        ensures
            es[i].start != es[j].start,
    {
        if i < j {
            assert(es[i].start + es[i].data@.len() <= es[j].start);
        } else {
            assert(es[j].start + es[j].data@.len() <= es[i].start);
        }
    }

    /// The entry at index `i` is what the abstract map holds at its start
    /// address.
    proof fn lemma_val_at(es: Seq<Entry<M>>, i: int)
        requires
            Self::entries_ok(es),
            0 <= i < es.len(),
        ensures
            Self::has_start(es, es[i].start as int),
            Self::idx_at(es, es[i].start as int) == i,
            Self::val_at(es, es[i].start as int) == (es[i].data@, es[i].meta),
    {
        let a = es[i].start as int;
        assert(Self::has_start(es, a));
        let j = Self::idx_at(es, a);
        assert(0 <= j < es.len() && es[j].start == a);
        if j != i {
            Self::lemma_starts_distinct(es, i, j);
        }
    }

    /// Every index of the entry vector is reflected in the abstract map.
    proof fn lemma_ranges_entry(self, i: int)
        requires
            self.wf(),
            0 <= i < self.entries@.len(),
        ensures
            self.ranges().dom().contains(self.entries@[i].start as int),
            self.ranges()[self.entries@[i].start as int].0 == self.entries@[i].data@,
            self.ranges()[self.entries@[i].start as int].1 == self.entries@[i].meta,
    {
        Self::lemma_val_at(self.entries@, i);
    }

    /// Every address of the abstract map is backed by an entry.
    proof fn lemma_ranges_dom(self, a: int)
        requires
            self.wf(),
            self.ranges().dom().contains(a),
        ensures
            0 <= Self::idx_at(self.entries@, a) < self.entries@.len(),
            self.entries@[Self::idx_at(self.entries@, a)].start == a,
            self.ranges()[a].0 == self.entries@[Self::idx_at(self.entries@, a)].data@,
            self.ranges()[a].1 == self.entries@[Self::idx_at(self.entries@, a)].meta,
    {
        assert(Self::has_start(self.entries@, a));
    }

    /// Law: a well-formed tracker's abstract contents satisfy the pool
    /// invariant, and every tracked range ends at or before the
    /// fresh-address cursor.
    pub proof fn lemma_wf_pool_inv(self)
        requires
            self.wf(),
        ensures
            pool_inv(self.ranges()),
            forall|a: int|
                #[trigger] self.ranges().dom().contains(a) ==> a + self.ranges()[a].0.len()
                    <= self.next_start(),
    {
        let m = self.ranges();
        let es = self.entries@;
        assert forall|a: int| #[trigger] m.dom().contains(a) implies 0 <= a && m[a].0.len() > 0 && a
            + m[a].0.len() <= usize::MAX && a + m[a].0.len() <= self.next_start() by {
            self.lemma_ranges_dom(a);
        }
        assert forall|a: int, b: int|
            #![trigger m.dom().contains(a), m.dom().contains(b)]
            m.dom().contains(a) && m.dom().contains(b) && a != b implies ranges_disjoint(
            a,
            m[a].0.len() as int,
            b,
            m[b].0.len() as int,
        ) by {
            self.lemma_ranges_dom(a);
            self.lemma_ranges_dom(b);
            let i = Self::idx_at(es, a);
            let j = Self::idx_at(es, b);
            Self::lemma_starts_distinct(es, i, j);
            if i < j {
                assert(es[i].start + es[i].data@.len() <= es[j].start);
            } else {
                assert(es[j].start + es[j].data@.len() <= es[i].start);
            }
        }
    }

    /// Create a new, empty tracker.
    pub fn new() -> (r: Self)
        ensures
            r.wf(),
            r.ranges() == Map::<int, (Seq<u8>, M)>::empty(),
            r.next_start() == 0,
    {
        let r = SliceTracker { entries: Vec::new(), next_addr: 0 };
        proof {
            assert(r.ranges() =~= Map::<int, (Seq<u8>, M)>::empty());
        }
        r
    }

    /// Find the index of the last entry with `start <= bound`.
    fn first_entry_at_or_before(&self, bound: usize) -> (r: Option<usize>)
        requires
            self.wf(),
        ensures
            match r {
                Some(i) => 0 <= i < self.entries@.len() && self.entries@[i as int].start <= bound
                    && forall|j: int|
                    i < j < self.entries@.len() ==> (#[trigger] self.entries@[j]).start > bound,
                None => forall|j: int|
                    0 <= j < self.entries@.len() ==> (#[trigger] self.entries@[j]).start > bound,
            },
    {
        let ghost es = self.entries@;
        let mut lo: usize = 0;
        let mut hi: usize = self.entries.len();
        while lo < hi
            invariant
                self.wf(),
                es == self.entries@,
                0 <= lo <= hi <= es.len(),
                forall|j: int| 0 <= j < lo ==> (#[trigger] es[j]).start <= bound,
                forall|j: int| hi <= j < es.len() ==> (#[trigger] es[j]).start > bound,
            decreases hi - lo,
        {
            let mid = lo + (hi - lo) / 2;
            if self.entries[mid].start <= bound {
                proof {
                    assert forall|j: int| 0 <= j < mid + 1 implies (#[trigger] es[j]).start
                        <= bound by {
                        if j < mid {
                            assert(es[j].start + es[j].data@.len() <= es[mid as int].start);
                        }
                    }
                }
                lo = mid + 1;
            } else {
                proof {
                    assert forall|j: int| mid <= j < es.len() implies (#[trigger] es[j]).start
                        > bound by {
                        if j > mid {
                            assert(es[mid as int].start + es[mid as int].data@.len()
                                <= es[j].start);
                        }
                    }
                }
                hi = mid;
            }
        }
        if lo == 0 {
            None
        } else {
            Some(lo - 1)
        }
    }

    /// Find the index of the last entry with `start < bound`.
    fn first_entry_before(&self, bound: usize) -> (r: Option<usize>)
        requires
            self.wf(),
        ensures
            match r {
                Some(i) => 0 <= i < self.entries@.len() && self.entries@[i as int].start < bound
                    && forall|j: int|
                    i < j < self.entries@.len() ==> (#[trigger] self.entries@[j]).start >= bound,
                None => forall|j: int|
                    0 <= j < self.entries@.len() ==> (#[trigger] self.entries@[j]).start >= bound,
            },
    {
        let ghost es = self.entries@;
        let mut lo: usize = 0;
        let mut hi: usize = self.entries.len();
        while lo < hi
            invariant
                self.wf(),
                es == self.entries@,
                0 <= lo <= hi <= es.len(),
                forall|j: int| 0 <= j < lo ==> (#[trigger] es[j]).start < bound,
                forall|j: int| hi <= j < es.len() ==> (#[trigger] es[j]).start >= bound,
            decreases hi - lo,
        {
            let mid = lo + (hi - lo) / 2;
            if self.entries[mid].start < bound {
                proof {
                    assert forall|j: int| 0 <= j < mid + 1 implies (#[trigger] es[j]).start
                        < bound by {
                        if j < mid {
                            assert(es[j].start + es[j].data@.len() <= es[mid as int].start);
                        }
                    }
                }
                lo = mid + 1;
            } else {
                proof {
                    assert forall|j: int| mid <= j < es.len() implies (#[trigger] es[j]).start
                        >= bound by {
                        if j > mid {
                            assert(es[mid as int].start + es[mid as int].data@.len()
                                <= es[j].start);
                        }
                    }
                }
                hi = mid;
            }
        }
        if lo == 0 {
            None
        } else {
            Some(lo - 1)
        }
    }

    /// Get the index of the entry tracking a range, if any single entry
    /// wholly contains it.
    fn get_entry(&self, span: Span) -> (r: Option<usize>)
        requires
            self.wf(),
        ensures
            match r {
                Some(i) => {
                    &&& span.len > 0
                    &&& 0 <= i < self.entries@.len()
                    &&& self.entries@[i as int].start <= span.start
                    &&& span.end() <= self.entries@[i as int].start + self.entries@[
                        i as int
                    ].data@.len()
                },
                None => span.len == 0 || !owner_exists(
                    self.ranges(),
                    span.start as int,
                    span.end(),
                ),
            },
    {
        let ghost es = self.entries@;
        let ghost m = self.ranges();
        let ghost qs = span.start as int;
        let ghost qe = span.end();
        // Empty ranges are never tracked: they can not be told apart from
        // the empty range at the end of one entry or the start of the
        // next when the two are adjacent in the address space.
        if span.len == 0 {
            return None;
        }
        // A range running past the end of the address space fits in no entry.
        if span.len > usize::MAX - span.start {
            proof {
                assert forall|a: int| !contains_range(m, a, qs, qe) by {
                    if m.dom().contains(a) {
                        self.lemma_ranges_dom(a);
                    }
                }
            }
            return None;
        }
        let qe_exec = span.start + span.len;
        match self.first_entry_at_or_before(span.start) {
            None => {
                proof {
                    assert forall|a: int| !contains_range(m, a, qs, qe) by {
                        if m.dom().contains(a) {
                            self.lemma_ranges_dom(a);
                        }
                    }
                }
                None
            },
            Some(i) => {
                let e_start = self.entries[i].start;
                let e_len = self.entries[i].data.len();
                proof {
                    assert(es[i as int].start + es[i as int].data@.len() <= usize::MAX);
                }
                if qe_exec <= e_start + e_len {
                    Some(i)
                } else {
                    proof {
                        assert forall|a: int| !contains_range(m, a, qs, qe) by {
                            if m.dom().contains(a) {
                                self.lemma_ranges_dom(a);
                                let k = Self::idx_at(es, a);
                                if k < i {
                                    assert(es[k].start + es[k].data@.len() <= es[i as int].start);
                                }
                            }
                        }
                    }
                    None
                }
            },
        }
    }

    /// Get the whole tracked range, its bytes and its metadata for a
    /// (partial) range.
    pub(crate) fn lookup_entry(&self, span: Span) -> (r: Option<(Span, &Vec<u8>, &M)>)
        requires
            self.wf(),
        ensures
            match r {
                Some((whole, data, meta)) => {
                    &&& span.len > 0
                    &&& contains_range(self.ranges(), whole.start as int, span.start as int, span.end())
                    &&& forall|a: int|
                        contains_range(self.ranges(), a, span.start as int, span.end()) ==> a
                            == whole.start
                    &&& self.ranges()[whole.start as int].0 == data@
                    &&& self.ranges()[whole.start as int].1 == *meta
                    &&& whole.len == data@.len()
                    &&& whole.start + whole.len <= usize::MAX
                },
                None => span.len == 0 || !owner_exists(
                    self.ranges(),
                    span.start as int,
                    span.end(),
                ),
            },
    {
        let ghost m = self.ranges();
        let ghost qs = span.start as int;
        let ghost qe = span.end();
        match self.get_entry(span) {
            None => None,
            Some(i) => {
                let e = &self.entries[i];
                proof {
                    self.lemma_ranges_entry(i as int);
                    self.lemma_wf_pool_inv();
                    assert(contains_range(m, e.start as int, qs, qe));
                    assert forall|a: int| contains_range(m, a, qs, qe) implies a
                        == e.start as int by {
                        lemma_owner_unique(m, qs, qe, a, e.start as int);
                    }
                }
                Some((Span { start: e.start, len: e.data.len() }, &e.data, &e.meta))
            },
        }
    }

    /// Check if a range is tracked.
    pub fn is_tracked(&self, span: Span) -> (r: bool)
        requires
            self.wf(),
        ensures
            r == (span.len > 0 && owner_exists(self.ranges(), span.start as int, span.end())),
    {
        self.lookup_entry(span).is_some()
    }

    /// Get the whole tracked range and metadata for a (partial) range.
    pub fn get(&self, span: Span) -> (r: Option<(Span, &M)>)
        requires
            self.wf(),
        ensures
            match r {
                Some((whole, meta)) => {
                    &&& span.len > 0
                    &&& contains_range(self.ranges(), whole.start as int, span.start as int, span.end())
                    &&& forall|a: int|
                        contains_range(self.ranges(), a, span.start as int, span.end()) ==> a
                            == whole.start
                    &&& whole.len == self.ranges()[whole.start as int].0.len()
                    &&& *meta == self.ranges()[whole.start as int].1
                },
                None => span.len == 0 || !owner_exists(
                    self.ranges(),
                    span.start as int,
                    span.end(),
                ),
            },
    {
        match self.lookup_entry(span) {
            None => None,
            Some((whole, _data, meta)) => Some((whole, meta)),
        }
    }

    /// Get the metadata for a (partial) range.
    pub fn metadata(&self, span: Span) -> (r: Option<&M>)
        requires
            self.wf(),
        ensures
            match r {
                Some(meta) => span.len > 0 && owner_exists(
                    self.ranges(),
                    span.start as int,
                    span.end(),
                ) && *meta == self.ranges()[owner_addr(
                    self.ranges(),
                    span.start as int,
                    span.end(),
                )].1,
                None => span.len == 0 || !owner_exists(
                    self.ranges(),
                    span.start as int,
                    span.end(),
                ),
            },
    {
        let ghost m = self.ranges();
        let ghost qs = span.start as int;
        let ghost qe = span.end();
        match self.lookup_entry(span) {
            None => None,
            Some((whole, _data, meta)) => {
                proof {
                    assert(contains_range(m, owner_addr(m, qs, qe), qs, qe));
                }
                Some(meta)
            },
        }
    }

    /// Get the whole tracked range for a (partial) range.
    pub fn whole_slice(&self, span: Span) -> (r: Option<Span>)
        requires
            self.wf(),
        ensures
            match r {
                Some(whole) => {
                    &&& span.len > 0
                    &&& contains_range(self.ranges(), whole.start as int, span.start as int, span.end())
                    &&& forall|a: int|
                        contains_range(self.ranges(), a, span.start as int, span.end()) ==> a
                            == whole.start
                    &&& whole.len == self.ranges()[whole.start as int].0.len()
                },
                None => span.len == 0 || !owner_exists(
                    self.ranges(),
                    span.start as int,
                    span.end(),
                ),
            },
    {
        match self.lookup_entry(span) {
            None => None,
            Some((whole, _data, _meta)) => Some(whole),
        }
    }

    /// Check if the range `[start, start + len)` overlaps anything in the
    /// tracker.
    fn has_overlap(&self, start: usize, len: usize) -> (r: bool)
        requires
            self.wf(),
            start + len <= usize::MAX,
        ensures
            r == (len > 0 && overlaps_any(self.ranges(), start as int, start + len)),
    {
        let ghost es = self.entries@;
        let ghost m = self.ranges();
        let ghost qs = start as int;
        let ghost qe = start + len;
        // Empty ranges overlap nothing, even if their start address is tracked.
        if len == 0 {
            return false;
        }
        let qe_exec = start + len;
        // Last entry with start < the query's end.
        match self.first_entry_before(qe_exec) {
            None => {
                proof {
                    assert forall|a: int|
                        !(#[trigger] m.dom().contains(a) && a < qe && qs < a + m[a].0.len()) by {
                        if m.dom().contains(a) {
                            self.lemma_ranges_dom(a);
                        }
                    }
                }
                false
            },
            Some(i) => {
                // If that entry does not end at or before the query's
                // start, it is a conflict; merely touching end-to-start is
                // not.
                let e_end = self.entries[i].start + self.entries[i].data.len();
                let r = e_end > start;
                proof {
                    if r {
                        self.lemma_ranges_entry(i as int);
                        assert(m.dom().contains(es[i as int].start as int) && es[i as int].start
                            < qe && qs < es[i as int].start as int + m[es[
                            i as int
                        ].start as int].0.len());
                    } else {
                        assert forall|a: int|
                            !(#[trigger] m.dom().contains(a) && a < qe && qs < a
                                + m[a].0.len()) by {
                            if m.dom().contains(a) && a < qe {
                                self.lemma_ranges_dom(a);
                                let k = Self::idx_at(es, a);
                                if k < i {
                                    assert(es[k].start + es[k].data@.len() <= es[i as int].start);
                                }
                            }
                        }
                    }
                }
                r
            },
        }
    }

    /// Inserting an entry at its sorted position adds exactly one address
    /// to the abstract contents and keeps the ordering invariant.
    proof fn lemma_insert_seq(es: Seq<Entry<M>>, e: Entry<M>, pos: int)
        requires
            Self::entries_ok(es),
            0 <= pos <= es.len(),
            e.data@.len() > 0,
            e.start + e.data@.len() <= usize::MAX,
            forall|j: int|
                0 <= j < pos ==> (#[trigger] es[j]).start + es[j].data@.len() <= e.start,
            forall|j: int|
                pos <= j < es.len() ==> e.start + e.data@.len() <= (#[trigger] es[j]).start,
        ensures
            Self::entries_ok(es.insert(pos, e)),
            Self::seq_ranges(es.insert(pos, e)) == Self::seq_ranges(es).insert(
                e.start as int,
                (e.data@, e.meta),
            ),
    {
        let nes = es.insert(pos, e);
        es.insert_ensures(pos, e);
        assert forall|i: int| 0 <= i < nes.len() implies (#[trigger] nes[i]).data@.len() > 0
            && nes[i].start + nes[i].data@.len() <= usize::MAX by {
            if i < pos {
                assert(nes[i] == es[i]);
            } else if i == pos {
                assert(nes[i] == e);
            } else {
                assert(nes[(i - 1) + 1] == es[i - 1]);
            }
        }
        assert forall|i: int, j: int|
            #![trigger nes[i], nes[j]]
            0 <= i < j < nes.len() implies nes[i].start + nes[i].data@.len() <= nes[j].start by {
            if i < pos {
                assert(nes[i] == es[i]);
            } else if i == pos {
                assert(nes[i] == e);
            } else {
                assert(nes[(i - 1) + 1] == es[i - 1]);
            }
            if j < pos {
                assert(nes[j] == es[j]);
            } else if j == pos {
                assert(nes[j] == e);
            } else {
                assert(nes[(j - 1) + 1] == es[j - 1]);
            }
        }
        let m1 = Self::seq_ranges(nes);
        let m2 = Self::seq_ranges(es).insert(e.start as int, (e.data@, e.meta));
        assert forall|a: int| #[trigger] m1.dom().contains(a) implies m2.dom().contains(a) && m1[a]
            == m2[a] by {
            let i = Self::idx_at(nes, a);
            assert(0 <= i < nes.len() && nes[i].start == a);
            Self::lemma_val_at(nes, i);
            if i == pos {
                assert(nes[i] == e);
                assert(m1[a] == (e.data@, e.meta));
            } else {
                let iold: int = if i < pos {
                    i
                } else {
                    i - 1
                };
                assert(nes[i] == es[iold]);
                Self::lemma_val_at(es, iold);
                assert(Self::has_start(es, a));
                if a == e.start as int {
                    // The new entry's address can not collide with an old one.
                    assert(false);
                }
                assert(m2.dom().contains(a));
                assert(m1[a] == (es[iold].data@, es[iold].meta));
            }
        }
        assert forall|a: int| #[trigger] m2.dom().contains(a) implies m1.dom().contains(a) by {
            if a == e.start as int {
                assert(nes[pos] == e);
                assert(Self::has_start(nes, a));
            } else {
                let i = Self::idx_at(es, a);
                assert(0 <= i < es.len() && es[i].start == a);
                if i < pos {
                    assert(nes[i] == es[i]);
                    assert(Self::has_start(nes, a));
                } else {
                    assert(nes[i + 1] == es[i]);
                    assert(Self::has_start(nes, a));
                }
            }
        }
        assert(m1 =~= m2);
    }

    /// Safely insert a range with metadata at a caller-chosen start
    /// address, as when the caller keeps ownership of the underlying
    /// storage and registers a borrowed view of it.
    ///
    /// Fails if the range is empty or if (parts of) it are already
    /// tracked; a failed insert leaves the tracker unchanged.
    pub fn insert_borrow(&mut self, start: usize, data: Vec<u8>, meta: M) -> (r: Result<
        Span,
        InsertError,
    >)
        requires
            old(self).wf(),
            start + data@.len() <= usize::MAX,
        ensures
            final(self).wf(),
            match r {
                Ok(s) => {
                    &&& data@.len() > 0
                    &&& !overlaps_any(old(self).ranges(), start as int, start + data@.len())
                    &&& s.start == start
                    &&& s.len == data@.len()
                    &&& final(self).ranges() == old(self).ranges().insert(start as int, (data@, meta))
                    &&& final(self).next_start() == if start + data@.len() > old(self).next_start() {
                        start + data@.len()
                    } else {
                        old(self).next_start()
                    }
                },
                Err(InsertError::EmptyInput) => {
                    &&& data@.len() == 0
                    &&& final(self).ranges() == old(self).ranges()
                    &&& final(self).next_start() == old(self).next_start()
                },
                Err(InsertError::Conflict) => {
                    &&& data@.len() > 0
                    &&& overlaps_any(old(self).ranges(), start as int, start + data@.len())
                    &&& final(self).ranges() == old(self).ranges()
                    &&& final(self).next_start() == old(self).next_start()
                },
            },
    {
        let ghost es = self.entries@;
        let ghost m = self.ranges();
        let ghost qs = start as int;
        let ghost qe = start as int + data@.len();
        // Reject empty data or data that is already (partially) tracked.
        if data.len() == 0 {
            return Err(InsertError::EmptyInput);
        }
        let len = data.len();
        if self.has_overlap(start, len) {
            return Err(InsertError::Conflict);
        }
        let n = self.entries.len();
        let pos = match self.first_entry_at_or_before(start) {
            None => 0,
            Some(i) => i + 1,
        };
        proof {
            assert(pos <= n);
        }
        proof {
            assert forall|j: int| 0 <= j < pos implies (#[trigger] es[j]).start + es[j].data@.len()
                <= start by {
                if j < pos - 1 {
                    assert(es[j].start + es[j].data@.len() <= es[pos - 1].start);
                }
                assert(es[j].start <= start);
                self.lemma_ranges_entry(j);
                let a = es[j].start as int;
                assert(!(m.dom().contains(a) && a < qe && qs < a + m[a].0.len()));
            }
            assert forall|j: int| pos <= j < es.len() implies start + len
                <= (#[trigger] es[j]).start by {
                assert(es[j].start > start);
                self.lemma_ranges_entry(j);
                let a = es[j].start as int;
                assert(m[a].0.len() > 0);
                assert(!(m.dom().contains(a) && a < qe && qs < a + m[a].0.len()));
            }
        }
        let e = Entry { start, data, meta };
        self.entries.insert(pos, e);
        if start + len > self.next_addr {
            self.next_addr = start + len;
        }
        proof {
            Self::lemma_insert_seq(es, e, pos as int);
            es.insert_ensures(pos as int, e);
            let nes = self.entries@;
            assert(nes == es.insert(pos as int, e));
            assert forall|i: int| 0 <= i < nes.len() implies (#[trigger] nes[i]).start
                + nes[i].data@.len() <= self.next_addr by {
                if i < pos {
                    assert(nes[i] == es[i]);
                } else if i == pos {
                    assert(nes[i] == e);
                } else {
                    assert(nes[(i - 1) + 1] == es[i - 1]);
                }
            }
        }
        Ok(Span { start, len })
    }

    /// No range placed at the fresh-address cursor can overlap a tracked
    /// entry: every entry ends at or before the cursor.
    proof fn lemma_next_start_free(self)
        requires
            self.wf(),
        ensures
            forall|e: int| !overlaps_any(self.ranges(), self.next_start(), e),
    {
        self.lemma_wf_pool_inv();
        assert forall|e: int| !overlaps_any(self.ranges(), self.next_start(), e) by {
            assert forall|a: int|
                !(#[trigger] self.ranges().dom().contains(a) && a < e && self.next_start() < a
                    + self.ranges()[a].0.len()) by {
                if self.ranges().dom().contains(a) {
                    assert(a + self.ranges()[a].0.len() <= self.next_start());
                }
            }
        }
    }

    /// Move an owned range into the tracker. The tracker takes ownership
    /// of the data and places it at a fresh address, so the insert can
    /// never conflict with an existing entry.
    ///
    /// Fails if the range is empty.
    pub fn insert_move(&mut self, data: Vec<u8>, meta: M) -> (r: Result<Span, InsertError>)
        requires
            old(self).wf(),
            old(self).next_start() + data@.len() <= usize::MAX,
        ensures
            final(self).wf(),
            match r {
                Ok(s) => {
                    &&& data@.len() > 0
                    &&& s.start as int == old(self).next_start()
                    &&& s.len == data@.len()
                    &&& final(self).ranges() == old(self).ranges().insert(s.start as int, (data@, meta))
                    &&& final(self).next_start() == old(self).next_start() + data@.len()
                },
                Err(er) => {
                    &&& er == InsertError::EmptyInput
                    &&& data@.len() == 0
                    &&& final(self).ranges() == old(self).ranges()
                    &&& final(self).next_start() == old(self).next_start()
                },
            },
    {
        proof {
            old(self).lemma_next_start_free();
        }
        let start = self.next_addr;
        let r = self.insert_borrow(start, data, meta);
        match r {
            Ok(s) => Ok(s),
            Err(er) => {
                proof {
                    assert(er == InsertError::EmptyInput);
                }
                Err(er)
            },
        }
    }

    /// The lowest address at or above every tracked range; the next owned
    /// insertion is placed here.
    pub fn next_free_start(&self) -> (r: usize)
        ensures
            r as int == self.next_start(),
    {
        self.next_addr
    }
}

impl<M> Default for SliceTracker<M> {
    fn default() -> (r: Self)
        ensures
            r.wf(),
            r.ranges() == Map::<int, (Seq<u8>, M)>::empty(),
            r.next_start() == 0,
    {
        Self::new()
    }
}

/// The pool that holds exactly the two entries `(a, da, ma)` and
/// `(b, db, mb)` and nothing else.
pub open spec fn pool_of_two<M>(a: int, da: Seq<u8>, ma: M, b: int, db: Seq<u8>, mb: M) -> Map<
    int,
    (Seq<u8>, M),
> {
    Map::<int, (Seq<u8>, M)>::empty().insert(a, (da, ma)).insert(b, (db, mb))
}

/// Law: two disjoint non-empty ranges can both be registered into an
/// empty pool, and any non-empty sub-range of the first then resolves to
/// the first entry's full extent and metadata, never the second's.
pub proof fn lemma_two_disjoint_inserts<M>(
    a: int,
    da: Seq<u8>,
    ma: M,
    b: int,
    db: Seq<u8>,
    mb: M,
    qs: int,
    qe: int,
)
    requires
        0 <= a,
        a + da.len() <= usize::MAX,
        da.len() > 0,
        0 <= b,
        b + db.len() <= usize::MAX,
        db.len() > 0,
        ranges_disjoint(a, da.len() as int, b, db.len() as int),
        a <= qs < qe <= a + da.len(),
    ensures
        !overlaps_any(Map::<int, (Seq<u8>, M)>::empty(), a, a + da.len()),
        !overlaps_any(Map::<int, (Seq<u8>, M)>::empty().insert(a, (da, ma)), b, b + db.len()),
        owner_exists(pool_of_two(a, da, ma, b, db, mb), qs, qe),
        forall|c: int| contains_range(pool_of_two(a, da, ma, b, db, mb), c, qs, qe) ==> c == a,
        pool_of_two(a, da, ma, b, db, mb)[a] == (da, ma),
{
    let m0 = Map::<int, (Seq<u8>, M)>::empty();
    let m1 = m0.insert(a, (da, ma));
    let m2 = m1.insert(b, (db, mb));
    assert(a != b);
    assert(m2[a] == (da, ma));
    assert(contains_range(m2, a, qs, qe));
    assert forall|c: int| contains_range(m2, c, qs, qe) implies c == a by {
        if c != a {
            assert(c == b);
        }
    }
}

} // verus!
