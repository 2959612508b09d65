use slice_tracker::file_tracker::compute_location;
use slice_tracker::file_tracker::FileLocation;
use slice_tracker::file_tracker::Source;
use slice_tracker::file_tracker::SourceLocation;
use slice_tracker::SliceTracker;
use slice_tracker::Span;

#[test]
fn test_compute_location() {
    let data = b"hello\nworld";

    assert!(compute_location(data, 0) == (1, 1));
    assert!(compute_location(data, 1) == (1, 2));
    assert!(compute_location(data, 2) == (1, 3));
    assert!(compute_location(data, 3) == (1, 4));
    assert!(compute_location(data, 4) == (1, 5));
    assert!(compute_location(data, 5) == (1, 6));
    assert!(compute_location(data, 6) == (2, 1));
    assert!(compute_location(data, 7) == (2, 2));

    let data = b"a\r\na\n";
    assert!(compute_location(data, 0) == (1, 1));
    assert!(compute_location(data, 1) == (1, 2));
    assert!(compute_location(data, 2) == (1, 3));
    assert!(compute_location(data, 3) == (2, 1));
    assert!(compute_location(data, 4) == (2, 2));
}

#[test]
fn tracked_file_locations() {
    // "hello\nworld" tracked as one file-backed entry: offsets 0, 5, 6, 7
    // resolve to (1,1), (1,6), (2,1), (2,2).
    let mut pool = SliceTracker::<Source>::new();
    let whole = pool
        .insert_file(String::from("greeting.txt"), b"hello\nworld".to_vec())
        .unwrap();
    let expect = [(0, 1, 1), (5, 1, 6), (6, 2, 1), (7, 2, 2)];
    for (off, line, column) in expect {
        let loc = pool.get_source_location(Span::new(whole.start + off, 1)).unwrap();
        assert_eq!(
            loc,
            SourceLocation::File(FileLocation {
                path: String::from("greeting.txt"),
                line,
                column,
            })
        );
    }
}

#[test]
fn ingested_file_subrange_resolves() {
    // Ingest a file "a.txt" containing "foo\nbar"; the sub-range "bar"
    // resolves to path "a.txt", line 2, column 1.
    let mut pool = SliceTracker::<Source>::new();
    let whole = pool
        .insert_file(String::from("a.txt"), b"foo\nbar".to_vec())
        .unwrap();
    let bar = Span::new(whole.start + 4, 3);
    let loc = pool.get_source_location(bar).unwrap();
    assert_eq!(
        loc,
        SourceLocation::File(FileLocation { path: String::from("a.txt"), line: 2, column: 1 })
    );
}

#[test]
fn expanded_from_chain_stays_distinct() {
    // A range registered with ExpandedFrom(parent) provenance, where the
    // parent is itself file-backed: the child resolves to
    // ExpandedFrom(parent), the parent still to its File provenance, and
    // the two entries remain distinct.
    let mut pool = SliceTracker::<Source>::new();
    let parent = pool
        .insert_file(String::from("a.txt"), b"foo\nbar".to_vec())
        .unwrap();
    let child = pool
        .insert_borrow(4000, b"bar".to_vec(), Source::ExpandedFrom(parent))
        .unwrap();
    assert_ne!(parent, child);

    let child_loc = pool.get_source_location(child).unwrap();
    assert_eq!(child_loc, SourceLocation::ExpandedFrom(parent));

    // Walking the chain one hop: the reported parent range resolves to
    // its original File provenance.
    match child_loc {
        SourceLocation::ExpandedFrom(p) => {
            let parent_loc = pool.get_source_location(p).unwrap();
            assert_eq!(
                parent_loc,
                SourceLocation::File(FileLocation {
                    path: String::from("a.txt"),
                    line: 1,
                    column: 1,
                })
            );
        }
        _ => unreachable!(),
    }

    // Both entries are still separately tracked; no implicit merging.
    assert_eq!(pool.whole_slice(Span::new(parent.start + 1, 2)), Some(parent));
    assert_eq!(pool.whole_slice(Span::new(child.start + 1, 2)), Some(child));
}

#[test]
fn unknown_source_resolves_to_unknown() {
    let mut pool = SliceTracker::<Source>::new();
    let s = pool.insert_move(b"mystery".to_vec(), Source::Unknown).unwrap();
    assert_eq!(pool.get_source_location(s), Some(SourceLocation::Unknown));
    assert_eq!(pool.get_source_location(Span::new(s.start, 0)), None);
    assert_eq!(pool.get_source_location(Span::new(s.start + 100, 2)), None);
}

#[test]
fn span_view_methods() {
    let s = Span::new(40, 2);
    assert_eq!(s.start_ptr(), 40);
    assert_eq!(s.len(), 2);
    assert_eq!(s.end_ptr(), 42);
    assert!(!s.is_empty());
    assert!(Span::new(7, 0).is_empty());
}
