use slice_tracker::InsertError;
use slice_tracker::SliceTracker;
use slice_tracker::Span;

#[test]
fn slice_tracker_test_insert_borrow() {
    let mut pool = SliceTracker::<()>::default();
    // The borrowed data "aap noot mies" sits at address 1000 of the pool's
    // address space.
    let data = b"aap noot mies";
    let base: usize = 1000;
    let whole = Span::new(base, data.len());
    let len = data.len();
    assert_eq!(pool.is_tracked(whole), false);

    // Cant insert empty slices.
    assert!(pool.insert_borrow(base, Vec::new(), ()).is_err());
    assert!(pool.insert_borrow(base + 3, Vec::new(), ()).is_err());

    // Can insert a non-empty slice only once.
    let handle = pool.insert_borrow(base, data.to_vec(), ()).unwrap();
    assert!(pool.insert_borrow(base, data.to_vec(), ()).is_err());
    assert!(pool.is_tracked(whole));

    // is_tracked says no to empty sub-ranges.
    assert!(!pool.is_tracked(Span::new(base, 0)));
    assert!(!pool.is_tracked(Span::new(base + 1, 0)));
    assert!(!pool.is_tracked(Span::new(base + len, 0)));

    // non-empty sub-ranges give the whole range back.
    assert_eq!(whole, handle);
    assert_eq!(whole, pool.whole_slice(whole).unwrap());
    assert_eq!(whole, pool.whole_slice(Span::new(base, 1)).unwrap());
    assert_eq!(whole, pool.whole_slice(Span::new(base + 4, 4)).unwrap());
    assert_eq!(whole, pool.whole_slice(Span::new(base + len - 1, 1)).unwrap());
    assert_eq!(whole, pool.whole_slice(Span::new(base, len)).unwrap());
}

#[test]
fn slice_tracker_test_insert_part() {
    let mut pool = SliceTracker::<()>::default();
    // The borrowed data "aap noot mies" sits at address 2000; "noot" is
    // its sub-range at offset 4.
    let data = b"aap noot mies";
    let base: usize = 2000;
    let noot = Span::new(base + 4, 4);
    assert_eq!(&data[4..8], b"noot");

    // Adding the sub-range to the pool doesn't make the whole range tracked.
    let handle = pool.insert_borrow(base + 4, data[4..8].to_vec(), ()).unwrap();
    assert!(pool.is_tracked(noot));
    assert!(pool.is_tracked(Span::new(base + 4, 4)));
    assert!(!pool.is_tracked(Span::new(base, data.len())));
    assert!(!pool.is_tracked(Span::new(base, 4)));
    assert!(!pool.is_tracked(Span::new(base + 8, data.len() - 8)));

    // But we can't track the whole range anymore now.
    assert!(pool.insert_borrow(base, data.to_vec(), ()).is_err());

    // Sub-ranges of the original data in the right range give the whole
    // tracked sub-range.
    assert_eq!(noot, handle);
    assert_eq!(noot, pool.whole_slice(noot).unwrap());
    assert_eq!(noot, pool.whole_slice(Span::new(base + 4, 4)).unwrap());
    assert_eq!(noot, pool.whole_slice(Span::new(base + 4, 3)).unwrap());
    assert_eq!(noot, pool.whole_slice(Span::new(base + 5, 3)).unwrap());
    assert_eq!(noot, pool.whole_slice(Span::new(base + 5, 2)).unwrap());
}

#[test]
fn slice_tracker_test_insert_move() {
    let mut pool = SliceTracker::<()>::default();

    // Can't insert empty data.
    assert!(pool.insert_move(b"".to_vec(), ()).is_err());
    assert!(pool.insert_move(String::new().into_bytes(), ()).is_err());

    let data = pool.insert_move(b"aap noot mies".to_vec(), ()).unwrap();
    let len = data.len;
    assert!(pool.is_tracked(data));
    assert!(!pool.is_tracked(Span::new(data.start, 0)));
    assert!(!pool.is_tracked(Span::new(data.start + 5, 0)));
    assert!(!pool.is_tracked(Span::new(data.start + len, 0)));
    // Data living elsewhere in the address space is not tracked.
    assert!(!pool.is_tracked(Span::new(data.start + len + 100, 3)));

    assert_eq!(data, pool.whole_slice(data).unwrap());
    assert_eq!(data, pool.whole_slice(Span::new(data.start, 1)).unwrap());
    assert_eq!(data, pool.whole_slice(Span::new(data.start + 4, 4)).unwrap());
    assert_eq!(data, pool.whole_slice(Span::new(data.start + len - 1, 1)).unwrap());
    assert_eq!(data, pool.whole_slice(Span::new(data.start, len)).unwrap());
}

#[test]
fn insert_empty_always_fails() {
    // A zero-length insert is rejected regardless of prior state.
    let mut pool = SliceTracker::<u32>::new();
    assert_eq!(pool.insert_borrow(10, Vec::new(), 1), Err(InsertError::EmptyInput));
    assert_eq!(pool.insert_move(Vec::new(), 1), Err(InsertError::EmptyInput));
    pool.insert_borrow(10, vec![1, 2, 3], 1).unwrap();
    assert_eq!(pool.insert_borrow(10, Vec::new(), 2), Err(InsertError::EmptyInput));
    assert_eq!(pool.insert_borrow(11, Vec::new(), 2), Err(InsertError::EmptyInput));
    assert_eq!(pool.insert_move(Vec::new(), 2), Err(InsertError::EmptyInput));
}

#[test]
fn insert_overlap_one_byte_fails_pool_unchanged() {
    // A range overlapping an existing entry by a single byte is rejected
    // and the pre-existing entry stays resolvable exactly as before.
    let mut pool = SliceTracker::<u32>::new();
    let a = pool.insert_borrow(100, vec![7; 10], 1).unwrap();
    assert_eq!(a, Span::new(100, 10));

    // Overlaps the last byte of [100, 110).
    assert_eq!(pool.insert_borrow(109, vec![8; 5], 2), Err(InsertError::Conflict));
    // Overlaps the first byte of [100, 110).
    assert_eq!(pool.insert_borrow(96, vec![8; 5], 2), Err(InsertError::Conflict));
    // Fully inside.
    assert_eq!(pool.insert_borrow(103, vec![8; 2], 2), Err(InsertError::Conflict));
    // Fully covering.
    assert_eq!(pool.insert_borrow(90, vec![8; 40], 2), Err(InsertError::Conflict));

    // The existing entry is unaffected.
    assert_eq!(pool.whole_slice(Span::new(104, 3)), Some(a));
    assert_eq!(pool.metadata(Span::new(104, 3)), Some(&1));

    // Merely touching end-to-start is not a conflict.
    let b = pool.insert_borrow(110, vec![9; 5], 3).unwrap();
    assert_eq!(b, Span::new(110, 5));
    let c = pool.insert_borrow(95, vec![9; 5], 4).unwrap();
    assert_eq!(c, Span::new(95, 5));
}

#[test]
fn insert_exact_duplicate_fails() {
    let mut pool = SliceTracker::<u32>::new();
    pool.insert_borrow(500, b"abcd".to_vec(), 1).unwrap();
    assert_eq!(pool.insert_borrow(500, b"abcd".to_vec(), 1), Err(InsertError::Conflict));
}

#[test]
fn resolve_straddling_ranges_not_found() {
    // Two entries adjacent in the address space: [100, 105) and [105, 110).
    let mut pool = SliceTracker::<u32>::new();
    pool.insert_borrow(100, vec![1; 5], 1).unwrap();
    pool.insert_borrow(105, vec![2; 5], 2).unwrap();

    // A range straddling the boundary between the two entries.
    assert_eq!(pool.get(Span::new(103, 4)), None);
    assert!(!pool.is_tracked(Span::new(103, 4)));
    // A range straddling tracked and untracked memory.
    assert_eq!(pool.get(Span::new(108, 5)), None);
    // A range fully outside all entries.
    assert_eq!(pool.get(Span::new(200, 3)), None);

    // Each side on its own still resolves.
    assert_eq!(pool.whole_slice(Span::new(103, 2)), Some(Span::new(100, 5)));
    assert_eq!(pool.whole_slice(Span::new(105, 2)), Some(Span::new(105, 5)));
}

#[test]
fn resolve_subrange_returns_own_entry() {
    // Two disjoint entries; a sub-range of the first resolves to the
    // first entry's extent and metadata, never the second's.
    let mut pool = SliceTracker::<u32>::new();
    let a = pool.insert_borrow(1000, b"first".to_vec(), 11).unwrap();
    let b = pool.insert_borrow(2000, b"second".to_vec(), 22).unwrap();
    for off in 0..5 {
        let (whole, meta) = pool.get(Span::new(1000 + off, 5 - off)).unwrap();
        assert_eq!(whole, a);
        assert_eq!(*meta, 11);
    }
    let (whole, meta) = pool.get(Span::new(2001, 3)).unwrap();
    assert_eq!(whole, b);
    assert_eq!(*meta, 22);
}

#[test]
fn next_free_start_advances() {
    let mut pool = SliceTracker::<()>::new();
    assert_eq!(pool.next_free_start(), 0);
    let a = pool.insert_move(vec![1, 2, 3], ()).unwrap();
    assert_eq!(a, Span::new(0, 3));
    assert_eq!(pool.next_free_start(), 3);
    pool.insert_borrow(100, vec![4; 10], ()).unwrap();
    assert_eq!(pool.next_free_start(), 110);
    let b = pool.insert_move(vec![5], ()).unwrap();
    assert_eq!(b, Span::new(110, 1));
}
