use std::collections::BTreeMap;
use toccata::meta::{SpanBitmaps, SpanTable, NO_SPAN, SPAN_BYTES};
use toccata::spanpool::SpanPool;

fn step(s: &mut u64) -> u64 {
    *s ^= *s << 13;
    *s ^= *s >> 7;
    *s ^= *s << 17;
    *s
}

#[test]
fn assign_and_lookup_roundtrip() {
    // A 1 MiB arena at a page-aligned dummy base.
    let base = 0x1_0000_0000usize;
    let mut table = SpanTable::new(base, 1 << 20);
    // Assign a class-7 span homed on CPU 3 at offset 0.
    table.assign_range(base, SPAN_BYTES, 7, 3);
    assert_eq!(table.lookup(base), Some((7, 3)));
    assert_eq!(table.lookup(base + SPAN_BYTES - 1), Some((7, 3)));
    // The next span is unassigned.
    assert_eq!(table.lookup(base + SPAN_BYTES), None);
    // Out of range.
    assert_eq!(table.lookup(base - 1), None);
}

#[test]
fn multi_span_range() {
    let base = 0x2_0000_0000usize;
    let mut table = SpanTable::new(base, 4 * SPAN_BYTES);
    // A large object spanning 2.5 spans.
    table.assign_range(base, SPAN_BYTES * 2 + 100, 40, 1);
    assert_eq!(table.lookup(base), Some((40, 1)));
    assert_eq!(table.lookup(base + SPAN_BYTES * 2), Some((40, 1)));
    assert_eq!(table.lookup_relaxed(base + SPAN_BYTES * 2), Some((40, 1)));
    assert_eq!(table.home_relaxed(base + SPAN_BYTES), 1);
    assert_eq!(table.lookup(base + SPAN_BYTES * 3), None);
    assert!(table.contains(base + 4 * SPAN_BYTES - 1));
    assert!(!table.contains(base + 4 * SPAN_BYTES));
}

#[test]
fn bitmaps_locate_fold_and_reset() {
    let base = 0x1_0000_0000usize;
    let mut maps = SpanBitmaps::new(base, 4 * SPAN_BYTES);
    // Slot 65 of span 1, for objects of 64 bytes: bit 1 of word 1.
    let addr = base + SPAN_BYTES + 65 * 64;
    assert_eq!(maps.span_of(addr), 1);
    assert_eq!(maps.span_base(1), base + SPAN_BYTES);
    assert_eq!(maps.locate(addr, 64), (1, 1, 1));
    maps.set(1, 65);
    maps.set_mask(1, 1, 0b100);
    assert_eq!(maps.fold_free_word(1, 1), 0b110);
    maps.alloc_clear(1, 1, 0b010);
    assert_eq!(maps.fold_free_word(1, 1), 0b100);
    maps.alloc_set_mask(1, 1, 0b001);
    assert_eq!(maps.fold_free_word(1, 1), 0b101);
    maps.reset_bitmaps(1, 128);
    assert_eq!(maps.fold_free_word(1, 1), 0);
}

#[test]
fn bitmaps_know_a_fully_free_span() {
    let base = 0x1_0000_0000usize;
    let mut maps = SpanBitmaps::new(base, 2 * SPAN_BYTES);
    for slot in 0..69 {
        maps.set(0, slot);
    }
    assert!(!maps.is_fully_free(0, 70));
    maps.set(0, 69);
    assert!(maps.is_fully_free(0, 70));
}

#[test]
fn active_list_links_and_unlinks() {
    let base = 0x1_0000_0000usize;
    let mut maps = SpanBitmaps::new(base, 4 * SPAN_BYTES);
    let mut head = maps.link_front(0, NO_SPAN);
    head = maps.link_front(1, head);
    head = maps.link_front(2, head);
    assert_eq!((head, maps.next(2), maps.next(1), maps.next(0)), (2, 1, 0, NO_SPAN));
    assert!(maps.is_on_list(1));
    head = maps.unlink_active(1, 2, head);
    assert!(!maps.is_on_list(1));
    assert_eq!((head, maps.next(2)), (2, 0));
    head = maps.unlink_active(2, NO_SPAN, head);
    assert_eq!(head, 0);
}

#[test]
fn exact_match_does_not_split() {
    let mut p = SpanPool::new(100);
    p.free(0, 5);
    // An exact request returns the whole run, no remainder re-inserted.
    assert_eq!(p.allocate(5), Some(0));
    assert_eq!(p.allocate(1), None, "pool should be empty after exact take");
}

#[test]
fn inexact_splits_tail() {
    let mut p = SpanPool::new(100);
    p.free(10, 8);
    // Request 3 of an 8-run: get the head, the remainder [13,18) stays.
    assert_eq!(p.allocate(3), Some(10));
    assert_eq!(p.allocate(5), Some(13), "remainder must be reusable");
    assert_eq!(p.allocate(1), None);
}

#[test]
fn coalesce_right_left_and_both() {
    let mut p = SpanPool::new(100);
    // Two adjacent runs coalesce into one on the second free.
    p.free(0, 4);
    p.free(4, 4);
    assert_eq!(p.allocate(8), Some(0), "adjacent frees must merge to 8");

    // Free middle, then left, then right: both-sides coalesce.
    p.free(20, 2);
    p.free(18, 2);
    p.free(22, 2);
    assert_eq!(p.allocate(6), Some(18), "three adjacent frees merge to 6");
}

#[test]
fn no_coalesce_across_gap() {
    let mut p = SpanPool::new(100);
    p.free(0, 2);
    p.free(3, 2);
    assert_eq!(p.allocate(4), None, "non-adjacent runs must not merge");
    assert_eq!(p.allocate(2), Some(3), "LIFO: most recent first");
    assert_eq!(p.allocate(2), Some(0));
}

#[test]
fn find_first_set_spans_word_boundary() {
    // Force buckets past a 64-count word boundary to exercise the summary scan.
    let mut p = SpanPool::new(500);
    p.free(0, 200);
    assert_eq!(p.find_first_set_ge(1), Some(200));
    assert_eq!(p.find_first_set_ge(200), Some(200));
    assert_eq!(p.find_first_set_ge(201), None);
    // Add a smaller bucket in an earlier word.
    p.free(300, 5);
    assert_eq!(p.find_first_set_ge(1), Some(5));
    assert_eq!(p.find_first_set_ge(6), Some(200));
}

/// Across a long random stream, every span is in exactly one of {free, live}: no
/// double hand-out, no lost span, and merging and splitting never overlap runs.
#[test]
fn double_handout_invariant_random_stress() {
    let num_spans = 256u32;
    let mut p = SpanPool::new(num_spans as usize);
    // Seed: the whole arena is one free run.
    p.free(0, num_spans);

    let mut live: BTreeMap<u32, u32> = BTreeMap::new();
    let mut rng: u64 = 0x1234_5678_9abc_def1;

    for _ in 0..200_000 {
        let do_alloc = live.is_empty() || (step(&mut rng) & 1 == 0);
        if do_alloc {
            let n = 1 + (step(&mut rng) % 12) as u32;
            if let Some(head) = p.allocate(n) {
                assert!(head + n <= num_spans, "run out of bounds");
                for (&lh, &lc) in &live {
                    let overlap = head < lh + lc && lh < head + n;
                    assert!(!overlap, "double hand-out: [{head},{}) vs [{lh},{})", head + n, lh + lc);
                }
                live.insert(head, n);
            }
        } else {
            let k = (step(&mut rng) as usize) % live.len();
            let &head = live.keys().nth(k).unwrap();
            let count = live.remove(&head).unwrap();
            p.free(head, count);
        }
    }

    // Free everything live, then the entire arena must reform as one run.
    let live_total: u32 = live.values().sum();
    for (head, count) in std::mem::take(&mut live) {
        p.free(head, count);
    }
    assert_eq!(
        p.allocate(num_spans),
        Some(0),
        "full coalesce back to one run failed (live was {live_total})"
    );
}

#[test]
fn the_smallest_run_that_fits_is_split() {
    let mut pool = SpanPool::new(32);
    pool.free(0, 5);
    pool.free(10, 3);
    pool.free(20, 3);
    // Of two runs that fit equally well, the one filed last.
    assert_eq!(pool.allocate(2), Some(20));
    assert_eq!(pool.allocate(3), Some(10));
    assert_eq!(pool.allocate(6), None);
    assert_eq!(pool.allocate(0), None);
    // What is left of the split run is a run of its own.
    assert_eq!(pool.allocate(1), Some(22));
    assert_eq!(pool.allocate(5), Some(0));
    assert_eq!(pool.allocate(1), None);
}

#[test]
fn fresh_bitmaps_have_no_links() {
    let maps = SpanBitmaps::new(0x1_0000_0000, 8 * SPAN_BYTES);
    for i in 0..8 {
        assert_eq!(maps.next(i), NO_SPAN);
        assert!(!maps.is_on_list(i));
    }
}

#[test]
fn spans_are_a_fixed_distance_apart() {
    let base = 0x1_0000_0000usize;
    let maps = SpanBitmaps::new(base, 4 * SPAN_BYTES);
    assert_eq!(maps.span_base(0), base);
    for idx in 0..4u32 {
        assert_eq!(maps.span_of(maps.span_base(idx) + SPAN_BYTES - 1), idx);
        // One past the last span too.
        assert_eq!(maps.span_base(idx + 1) - maps.span_base(idx), SPAN_BYTES);
    }
}

#[test]
fn the_last_assignment_of_a_span_wins() {
    let base = 0x1_0000_0000usize;
    let mut table = SpanTable::new(base, 4 * SPAN_BYTES);
    table.assign_range(base, 3 * SPAN_BYTES, 5, 1);
    table.assign_range(base + SPAN_BYTES + 7, SPAN_BYTES, 6, 2);
    assert_eq!(table.lookup(base), Some((5, 1)));
    assert_eq!(table.lookup(base + SPAN_BYTES), Some((6, 2)));
    assert_eq!(table.lookup(base + 2 * SPAN_BYTES), Some((6, 2)));
    assert_eq!(table.lookup(base + 3 * SPAN_BYTES), None);
    // No class and no home is no assignment.
    table.assign_range(base, 1, 0, 0);
    assert_eq!(table.lookup(base), None);
}

#[test]
fn a_range_that_meets_no_span_assigns_nothing() {
    let base = 0x1_0000_0000usize;
    let mut table = SpanTable::new(base, 2 * SPAN_BYTES);
    table.assign_range(base - 1, usize::MAX, 7, 3);
    table.assign_range(base + 2 * SPAN_BYTES, 0, 7, 3);
    table.assign_range(base + 100, 0, 7, 3);
    assert_eq!(table.lookup(base), None);
    assert_eq!(table.lookup(base + SPAN_BYTES), None);
    // One that reaches past the table is cut off at its end.
    table.assign_range(base + SPAN_BYTES, usize::MAX, 7, 3);
    assert_eq!(table.lookup(base), None);
    assert_eq!(table.lookup(base + SPAN_BYTES), Some((7, 3)));
}
