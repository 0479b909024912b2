use toccata::sizeclass::{
    aligned_class, class_for, class_of, size_of_class, Lookup, CLASS_SIZES, MAX_SMALL, NUM_CLASSES,
};

#[test]
fn classes_sorted_and_bounded() {
    for w in CLASS_SIZES.windows(2).skip(1) {
        assert!(w[0] < w[1], "class sizes must be strictly ascending: {w:?}");
    }
    assert_eq!(*CLASS_SIZES.last().unwrap(), MAX_SMALL);
}

#[test]
fn class_for_rounds_up() {
    assert_eq!(class_for(1), Some(1));
    assert_eq!(size_of_class(class_for(1).unwrap()), 8);
    assert_eq!(size_of_class(class_for(8).unwrap()), 8);
    assert_eq!(size_of_class(class_for(9).unwrap()), 16);
    assert_eq!(size_of_class(class_for(1500).unwrap()), 1536);
    assert_eq!(size_of_class(class_for(2048).unwrap()), 2048);
    assert_eq!(class_for(MAX_SMALL), Some(NUM_CLASSES - 1));
    assert_eq!(class_for(MAX_SMALL + 1), None);
}

#[test]
fn lookup_table_matches_class_for() {
    // The O(1) table must agree with the scan across the full range, not just
    // on spot checks.
    let table = Lookup::build();
    for size in 1..=MAX_SMALL {
        assert_eq!(table.class_of(size), class_for(size), "mismatch at size {size}");
        assert_eq!(class_of(size), class_for(size), "mismatch at size {size}");
    }
    assert_eq!(table.class_of(MAX_SMALL + 1), None);
    assert_eq!(table.class_of(0), None);
    assert_eq!(class_of(MAX_SMALL + 1), None);
    assert_eq!(class_of(0), None);
}

#[test]
fn worst_case_internal_fragmentation_bounded() {
    for c in 2..NUM_CLASSES {
        let prev = CLASS_SIZES[c - 1];
        let this = CLASS_SIZES[c];
        let smallest_in_class = prev + 1;
        let waste = (this - smallest_in_class) as f64 / this as f64;
        assert!(waste < 0.5, "class {c} ({this}B) waste {waste:.2} too high");
    }
}

#[test]
fn aligned_class_skips_sizes_off_the_alignment() {
    // 65 bytes fit class 80, but 80 is no multiple of 64; 128 is.
    assert_eq!(aligned_class(65, 64).map(size_of_class), Some(128));
    assert_eq!(aligned_class(65, 8).map(size_of_class), Some(80));
    assert_eq!(aligned_class(MAX_SMALL, 4096).map(size_of_class), Some(MAX_SMALL));
    assert_eq!(aligned_class(MAX_SMALL + 1, 8), None);
}
