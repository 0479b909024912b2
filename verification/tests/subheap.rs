use std::collections::{HashMap, HashSet};
use toccata::meta::SPAN_BYTES;
use toccata::metrics::usage;
use toccata::rseq::abi::ThreadView;
use toccata::sizeclass::{class_for, size_of_class, MAX_SMALL, MIN_ALIGN};
use toccata::subheap::heap::LARGE_CLASS;
use toccata::subheap::tiling::{batch_for, cap_for_class, group_spans, slots_per_span};
use toccata::subheap::{OnExhaust, SubHeap, SubHeapBuilder};
use toccata::sys::reserve::{Reservation, ReserveError};

/// The CPUs of the machine that the tests are run for.
const CPUS: u32 = 4;

const BASE: usize = 0x1_0000_0000;

/// Stands for the memory behind a sub-heap's reservation.
struct Memory {
    bytes: Vec<u8>,
}

impl Memory {
    fn of(sh: &SubHeap) -> Memory {
        Memory { bytes: vec![0; sh.reservation_range().1] }
    }

    fn fill(&mut self, addr: usize, value: u8, len: usize) {
        self.bytes[addr - BASE..addr - BASE + len].fill(value);
    }

    fn at(&self, addr: usize) -> u8 {
        self.bytes[addr - BASE]
    }
}

fn build(b: SubHeapBuilder) -> SubHeap {
    let mapping = Reservation::of_mapping(BASE, b.reserve_bytes(), true, None);
    match b.build_standalone(Ok(mapping)) {
        Ok(sh) => sh,
        Err(e) => panic!("{}", e.message("")),
    }
}

fn test_subheap() -> SubHeap {
    test_subheap_bytes(1024 * 1024)
}

fn test_subheap_bytes(bytes: usize) -> SubHeap {
    build(SubHeapBuilder::new("test", bytes, CPUS).num_cpus(4).cap_per_class(16))
}

fn me() -> ThreadView {
    ThreadView::on_cpu(0, 0x7000, 0)
}

fn other() -> ThreadView {
    ThreadView::on_cpu(1, 0x7040, 1)
}

fn step(s: &mut u64) -> u64 {
    *s ^= *s << 13;
    *s ^= *s >> 7;
    *s ^= *s << 17;
    *s
}

#[test]
fn alloc_dealloc_roundtrip() {
    let mut sh = test_subheap();
    let mut mem = Memory::of(&sh);
    let class = class_for(64).unwrap();
    let p = sh.alloc_class(&me(), class).expect("alloc");
    // Writable within the class size.
    mem.fill(p, 0xAB, size_of_class(class));
    assert_eq!(mem.at(p), 0xAB);
    sh.dealloc_class(&me(), p, class);
}

#[test]
fn allocations_are_distinct_and_aligned() {
    let mut sh = test_subheap();
    let class = class_for(128).unwrap();
    let mut seen: HashSet<usize> = HashSet::new();
    let mut held = Vec::new();
    for _ in 0..1000 {
        let addr = sh.alloc_class(&me(), class).expect("alloc");
        assert_eq!(addr % MIN_ALIGN, 0, "must be 8-aligned");
        assert!(seen.insert(addr), "addresses must be distinct while live: {addr:#x}");
        held.push(addr);
    }
    for p in held {
        sh.dealloc_class(&me(), p, class);
    }
}

#[test]
fn live_bytes_tracks_alloc_and_free() {
    let mut sh = test_subheap();
    let class = class_for(256).unwrap();
    let osz = size_of_class(class);
    assert_eq!(sh.live_bytes(), 0);
    let a = sh.alloc_class(&me(), class).unwrap();
    let b = sh.alloc_class(&me(), class).unwrap();
    assert_eq!(sh.live_bytes(), 2 * osz);
    assert_eq!(sh.live_objects(), 2);
    sh.dealloc_class(&me(), a, class);
    assert_eq!(sh.live_bytes(), osz);
    sh.dealloc_class(&me(), b, class);
    assert_eq!(sh.live_bytes(), 0);
    assert_eq!(sh.live_objects(), 0);
}

#[test]
fn budget_exhaustion_returns_none() {
    // Tiny budget; allocate until None, then confirm freeing lets us alloc again.
    let mut sh = build(
        SubHeapBuilder::new("tiny", 256 * 1024, CPUS)
            .num_cpus(4)
            .cap_per_class(16)
            .on_exhaust(OnExhaust::Report),
    );
    let class = class_for(4096).unwrap();
    let mut held = Vec::new();
    while let Some(p) = sh.alloc_class(&me(), class) {
        held.push(p);
        if held.len() > 100_000 {
            panic!("budget never exhausted");
        }
    }
    assert!(!held.is_empty(), "should have allocated at least some");
    // Free one; a subsequent alloc must now succeed.
    let p = held.pop().unwrap();
    sh.dealloc_class(&me(), p, class);
    let again = sh.alloc_class(&me(), class);
    assert!(again.is_some(), "alloc should succeed after a free");
    if let Some(p) = again {
        held.push(p);
    }
    for p in held {
        sh.dealloc_class(&me(), p, class);
    }
}

#[test]
fn many_classes_independent() {
    let mut sh = test_subheap();
    let mut mem = Memory::of(&sh);
    // One of several classes; each returns a distinct, correctly-sized region we
    // can fully write.
    let sizes = [8usize, 64, 256, 1500, 4096, 16384];
    let mut held: Vec<(usize, usize)> = Vec::new();
    for &s in &sizes {
        let class = class_for(s).unwrap();
        let p = sh.alloc_class(&me(), class).unwrap();
        mem.fill(p, 0xCD, size_of_class(class));
        held.push((p, class));
    }
    for (p, class) in held {
        sh.dealloc_class(&me(), p, class);
    }
}

#[test]
fn large_drift_coalesces_and_caps_carved() {
    // Each generation allocates a run one span longer than the last, and frees it
    // before the next. Freed runs merge, so the high-water mark stays near the
    // largest single generation, not the sum.
    let span = SPAN_BYTES;
    let mut sh = test_subheap_bytes(256 * span);
    let mut mem = Memory::of(&sh);
    let gens = 12usize;
    let mut carved_after_gen = Vec::new();
    let mut sum_no_coalesce = 0usize;
    for g in 0..gens {
        let run_spans = 5 + g;
        let run_bytes = run_spans * span;
        assert!(run_bytes > MAX_SMALL, "must hit the large path");
        sum_no_coalesce += run_spans;
        let p = sh.allocate(&me(), run_bytes).expect("large alloc within budget");
        mem.fill(p, g as u8, run_bytes);
        assert_eq!(mem.at(p), g as u8, "large run not writable end-to-end");
        // Free it back to the pool before the next, larger generation.
        sh.dealloc_by_ptr(&me(), p);
        carved_after_gen.push(sh.carved_bytes() / span);
    }
    let last = *carved_after_gen.last().unwrap();
    let peak_single = 5 + gens - 1;
    assert!(
        last <= peak_single * 2,
        "carved {last} spans should stay within ~2x the peak single gen {peak_single}, not grow \
         toward the sum {sum_no_coalesce}: {carved_after_gen:?}"
    );
    assert!(
        last * 2 < sum_no_coalesce,
        "coalescing ineffective: carved {last} spans vs no-coalesce sum {sum_no_coalesce}"
    );
}

#[test]
fn large_alloc_free_never_overlaps_under_random_churn() {
    let span = SPAN_BYTES;
    let mut sh = test_subheap_bytes(96 * span);
    let mut mem = Memory::of(&sh);
    let mut rng: u64 = 0xDEAD_BEEF_0BAD_F00D;
    let mut live: Vec<(usize, usize)> = Vec::new();
    for _ in 0..20_000 {
        let do_alloc = live.is_empty() || (step(&mut rng) & 1 == 0);
        if do_alloc {
            // 5..20 spans, always more than a small object.
            let run_spans = 5 + (step(&mut rng) % 16) as usize;
            let run_bytes = run_spans * span;
            if let Some(start) = sh.allocate(&me(), run_bytes) {
                for &(ls, ll) in &live {
                    let overlap = start < ls + ll && ls < start + run_bytes;
                    assert!(!overlap, "large double hand-out");
                }
                mem.fill(start, 0x5A, 1);
                live.push((start, run_bytes));
            }
        } else {
            let k = (step(&mut rng) as usize) % live.len();
            let (start, _len) = live.swap_remove(k);
            assert_eq!(mem.at(start), 0x5A, "large run torn by overlap");
            sh.dealloc_by_ptr(&me(), start);
        }
    }
}

#[test]
fn crossclass_reclaim_reuses_spans_and_caps_carved() {
    // Free every object of one class, reclaim its empty spans, then allocate the
    // next class: it reuses the retired spans, so carved bytes plateau.
    let span = SPAN_BYTES;
    let mut sh = test_subheap_bytes(64 * span);
    let mut mem = Memory::of(&sh);
    let classes = [64usize, 256, 1024, 4096, 16384];
    let per_class_bytes = 8 * span;
    let mut carved_after = Vec::new();
    for (step, &size) in classes.iter().enumerate() {
        let class = class_for(size).unwrap();
        let osz = size_of_class(class);
        let count = per_class_bytes / osz;
        let mut held = Vec::with_capacity(count);
        for _ in 0..count {
            if let Some(p) = sh.alloc_class(&me(), class) {
                mem.fill(p, (0x40 + step) as u8, osz);
                held.push(p);
            }
        }
        assert!(!held.is_empty(), "step {step} ({size}B) should allocate");
        for p in &held {
            assert_eq!(mem.at(*p), (0x40 + step) as u8, "step {step}: object torn");
        }
        for p in held {
            sh.dealloc_class(&me(), p, class);
        }
        sh.reclaim_empty_spans(usize::MAX);
        carved_after.push(sh.carved_bytes() / span);
    }
    let last = *carved_after.last().unwrap();
    let max_step_spans = per_class_bytes / span + 2;
    assert!(
        last <= max_step_spans * 2,
        "carved kept climbing across classes (reclaim not reused): {carved_after:?} spans"
    );
}

#[test]
fn crossclass_reclaim_stale_hint_no_double_handout() {
    // A reuse hint that still names a span after that span was reclaimed and tiled
    // for another class must not hand out the other class's slots.
    let span = SPAN_BYTES;
    let mut sh =
        build(SubHeapBuilder::new("stalehint", 64 * span, CPUS).num_cpus(4).cap_per_class(64));
    let mut mem = Memory::of(&sh);
    let class_a = class_for(1024).unwrap();
    let class_b = class_for(4096).unwrap();
    let osz_a = size_of_class(class_a);
    let osz_b = size_of_class(class_b);
    let shard = sh.test_thread_shard(&me());

    // About two spans of the first class, freed from another shard, so that the
    // frees reach the central bitmaps.
    let a_count = (span / osz_a) * 2;
    let a_ptrs: Vec<usize> =
        (0..a_count).filter_map(|_| sh.alloc_class(&me(), class_a)).collect();
    assert!(!a_ptrs.is_empty());
    let s_span = sh.test_span_of(*a_ptrs.iter().min().unwrap());
    for &p in &a_ptrs {
        sh.dealloc_class(&other(), p, class_a);
    }
    let reclaimed = sh.reclaim_empty_spans(usize::MAX);
    assert!(reclaimed > 0, "no spans reclaimed");

    // The other class takes the reclaimed spans. Its objects are held, and marked.
    let b_count = (span / osz_b) * 2;
    let mut b_live: Vec<(usize, u8)> = Vec::new();
    for i in 0..b_count {
        if let Some(p) = sh.alloc_class(&me(), class_b) {
            let sentinel = (0x80 + (i & 0x3f)) as u8;
            mem.fill(p, sentinel, osz_b);
            b_live.push((p, sentinel));
        }
    }
    let b_in_s: Vec<usize> =
        b_live.iter().map(|&(p, _)| p).filter(|&p| sh.test_span_of(p) == s_span).collect();
    assert!(!b_in_s.is_empty(), "the other class did not reuse the reclaimed span");

    // Half of its objects in that span are freed from another shard: the span has
    // free slots that a scan with the wrong class would hand out, next to objects
    // that are live.
    let b_free: Vec<usize> = b_in_s.iter().copied().step_by(2).collect();
    b_live.retain(|&(p, _)| !b_free.contains(&p));
    for &p in &b_free {
        sh.dealloc_class(&other(), p, class_b);
    }

    // The stale hint: the first class's list points at the other class's span.
    sh.test_set_reuse_hint(shard, class_a, s_span);
    let mut a_new = Vec::new();
    for _ in 0..a_count {
        if let Some(p) = sh.alloc_class(&me(), class_a) {
            assert!(
                sh.test_span_of(p) != s_span,
                "object {p:#x} was handed out of the other class's span {s_span}"
            );
            mem.fill(p, 0x11, osz_a);
            a_new.push(p);
        }
    }
    assert!(!a_new.is_empty());
    for &(addr, sentinel) in &b_live {
        assert_eq!(mem.at(addr), sentinel, "object {addr:#x} torn by the other class");
    }
    for p in a_new {
        sh.dealloc_class(&me(), p, class_a);
    }
    for (p, _) in b_live {
        sh.dealloc_class(&me(), p, class_b);
    }
    assert_eq!(sh.live_bytes(), 0);
}

#[test]
fn churn_does_not_leak_or_corrupt() {
    let mut sh = test_subheap();
    let class = class_for(512).unwrap();
    for _round in 0..50 {
        let mut held = Vec::new();
        for _ in 0..200 {
            if let Some(p) = sh.alloc_class(&me(), class) {
                held.push(p);
            }
        }
        let mut seen = HashSet::new();
        for p in &held {
            assert!(seen.insert(*p), "overlap within live set");
        }
        for p in held {
            sh.dealloc_class(&me(), p, class);
        }
        assert_eq!(sh.live_bytes(), 0, "leak after round");
    }
}

#[test]
fn dealloc_by_ptr_recovers_class() {
    let mut sh = test_subheap();
    let sizes = [8usize, 100, 1500, 4096];
    let mut held = Vec::new();
    for &s in &sizes {
        let class = class_for(s).unwrap();
        let p = sh.alloc_class(&me(), class).unwrap();
        assert_eq!(sh.class_of(p), Some(class), "span table must know the class for {s}B");
        assert!(sh.owns(p), "sub-heap must own its own pointer");
        held.push(p);
    }
    let before = sh.live_objects();
    assert_eq!(before, sizes.len() as u64);
    for p in held {
        // Free by address alone.
        assert!(sh.dealloc_by_ptr(&me(), p), "dealloc_by_ptr should succeed for owned ptr");
    }
    assert_eq!(sh.live_objects(), 0);
    assert_eq!(sh.live_bytes(), 0);
}

#[test]
fn does_not_own_foreign_pointer() {
    let mut sh = test_subheap();
    let stack_var = 42u8;
    let foreign = std::ptr::from_ref(&stack_var) as usize;
    assert!(!sh.owns(foreign));
    assert_eq!(sh.class_of(foreign), None);
    assert!(!sh.dealloc_by_ptr(&me(), foreign));
}

/// A request that exceeds the lock limit fails at once, with an error that says
/// how to fix it.
#[test]
fn over_memlock_budget_fails_loudly() {
    let limit: u64 = 8 * 1024 * 1024;
    // Ask for more than the limit.
    let over = (limit as usize).saturating_add(64 * 1024 * 1024);
    let builder = SubHeapBuilder::new("over", over, CPUS);
    let refused = match Reservation::reserve(builder.reserve_bytes(), limit) {
        Err(e) => e,
        Ok(_) => panic!("expected reservation over RLIMIT_MEMLOCK to fail"),
    };
    match builder.build_standalone(Err(refused)) {
        Err(ReserveError::RlimitTooLow { .. }) | Err(ReserveError::Mlock { .. }) => {}
        Err(other) => panic!("expected a memlock-related error, got: {}", other.message("")),
        Ok(_) => panic!("expected reservation over RLIMIT_MEMLOCK to fail"),
    }
    let msg = match builder.build_standalone(Err(refused)) {
        Err(e) => e.message(""),
        Ok(_) => panic!("expected reservation over RLIMIT_MEMLOCK to fail"),
    };
    assert!(msg.contains("RLIMIT_MEMLOCK"), "error must mention RLIMIT_MEMLOCK: {msg}");
}

#[test]
fn cross_shard_frees_are_reusable_for_awkward_sizes() {
    // Sizes that do not tile a span evenly, and sizes larger than a span.
    let mut sh = build(
        SubHeapBuilder::new("awkward", 64 * 1024 * 1024, CPUS).num_cpus(4).cap_per_class(64),
    );
    for &sz in &[1500usize, 49152, 98304, 131072, 196608, 262144] {
        let class = class_for(sz).unwrap();
        let osz = size_of_class(class);
        for _round in 0..4 {
            let n = 24;
            let ptrs: Vec<usize> = (0..n).filter_map(|_| sh.alloc_class(&me(), class)).collect();
            assert_eq!(ptrs.len(), n, "{sz}B: all allocs should succeed within budget");
            let mut sorted = ptrs.clone();
            sorted.sort_unstable();
            for w in sorted.windows(2) {
                assert!(w[1] - w[0] >= osz, "{sz}B: objects overlap");
            }
            for p in ptrs {
                assert!(sh.dealloc_by_ptr(&other(), p));
            }
        }
        let again: Vec<usize> = (0..24).filter_map(|_| sh.alloc_class(&me(), class)).collect();
        assert_eq!(again.len(), 24, "{sz}B: frees must be reusable");
        for p in again {
            sh.dealloc_class(&me(), p, class);
        }
    }
    assert_eq!(sh.live_objects(), 0);
}

#[test]
fn cross_thread_free_returns_to_owner() {
    let mut sh = build(
        SubHeapBuilder::new("xthread", 8 * 1024 * 1024, CPUS).num_cpus(4).cap_per_class(64),
    );
    let class = class_for(256).unwrap();
    for _round in 0..20 {
        let ptrs: Vec<usize> = (0..500).filter_map(|_| sh.alloc_class(&me(), class)).collect();
        assert!(!ptrs.is_empty());
        // Freed by several other threads.
        for (i, chunk) in ptrs.chunks(125).enumerate() {
            let t = ThreadView::on_cpu(i as u32, 0x8000 + 64 * i, 1 + i as u32);
            for &addr in chunk {
                sh.dealloc_by_ptr(&t, addr);
            }
        }
        let reclaimed: Vec<usize> = (0..500).filter_map(|_| sh.alloc_class(&me(), class)).collect();
        assert!(!reclaimed.is_empty(), "should reuse remote-freed memory");
        for p in reclaimed {
            sh.dealloc_class(&me(), p, class);
        }
    }
    // Local rounds drain what other threads have freed meanwhile.
    for _ in 0..10 {
        let v: Vec<usize> = (0..500).filter_map(|_| sh.alloc_class(&me(), class)).collect();
        for p in v {
            sh.dealloc_class(&me(), p, class);
        }
    }
    assert_eq!(sh.live_objects(), 0);
}

#[test]
fn usage_reports_live_then_zero() {
    let mut sh = build(SubHeapBuilder::new("metrics_test", 4 * 1024 * 1024, CPUS).num_cpus(4));
    let class = class_for(1000).unwrap();
    let osz = size_of_class(class);
    let ptrs: Vec<_> = (0..100).filter_map(|_| sh.alloc_class(&me(), class)).collect();
    assert!(!ptrs.is_empty());

    let u = usage(&sh);
    assert_eq!(u.live_bytes, ptrs.len() * osz, "must report live bytes");
    assert_eq!(u.live_objects, ptrs.len() as u64);
    assert_eq!((u.name, u.budget_bytes), ("metrics_test", 4 * 1024 * 1024));
    let utilization = u.live_bytes as f64 / u.budget_bytes as f64;
    assert!(utilization > 0.0 && utilization < 1.0);

    for p in ptrs {
        sh.dealloc_class(&me(), p, class);
    }
    // After freeing, live objects drop back to zero.
    assert_eq!(usage(&sh).live_objects, 0);
}

#[test]
fn batches_go_out_and_come_back() {
    let mut sh = test_subheap();
    let class = class_for(64).unwrap();
    let mut out = [0usize; 32];
    let got = sh.refill_batch(&me(), class, &mut out);
    assert_eq!(got, 32);
    let distinct: HashSet<usize> = out.iter().copied().collect();
    assert_eq!(distinct.len(), 32);
    assert_eq!(sh.live_objects(), 32);
    sh.dealloc_class_batch(&me(), &out, class);
    assert_eq!(sh.live_objects(), 0);
}

#[test]
fn the_object_freed_last_comes_out_first() {
    let mut sh = test_subheap();
    let class = class_for(64).unwrap();
    let a = sh.alloc_class(&me(), class).unwrap();
    let b = sh.alloc_class(&me(), class).unwrap();
    sh.dealloc_class(&me(), a, class);
    sh.dealloc_class(&me(), b, class);
    assert_eq!(sh.alloc_class(&me(), class), Some(b));
    assert_eq!(sh.alloc_class(&me(), class), Some(a));
}

#[test]
fn large_requests_fail_when_they_do_not_fit() {
    let mut sh = test_subheap();
    assert_eq!(sh.alloc_large(&me(), usize::MAX), None);
    assert_eq!(sh.allocate(&me(), 2 * 1024 * 1024), None);
    // An empty request is served from the smallest class.
    let z = sh.allocate(&me(), 0).unwrap();
    assert_eq!(sh.class_of(z), Some(1));
    sh.dealloc_class(&me(), z, 1);
    let p = sh.alloc_large(&me(), 512 * 1024).unwrap();
    assert_eq!(sh.live_bytes(), 512 * 1024);
    assert_eq!(sh.class_of(p), Some(LARGE_CLASS as usize));
    sh.dealloc_large(&me(), p);
    assert_eq!((sh.live_bytes(), sh.live_objects()), (0, 0));
}

#[test]
fn a_group_is_carved_whole_or_not_at_all() {
    // One span is left over after two objects of two spans each.
    let mut sh = test_subheap_bytes(5 * SPAN_BYTES);
    let class = class_for(131072).unwrap();
    assert!(sh.alloc_class(&me(), class).is_some());
    assert!(sh.alloc_class(&me(), class).is_some());
    let carved = sh.carved_bytes();
    assert_eq!(sh.alloc_class(&me(), class), None);
    assert_eq!(sh.carved_bytes(), carved);
    // The span that is left still serves a class that fits it.
    assert!(sh.alloc_class(&me(), class_for(65536).unwrap()).is_some());
}

#[test]
fn a_stopped_cpu_is_served_from_the_central_list() {
    let mut sh = test_subheap();
    let class = class_for(64).unwrap();
    let p = sh.alloc_class(&me(), class).unwrap();
    sh.set_cpu_stopped(0, true);
    let q = sh.alloc_class(&me(), class).unwrap();
    assert_ne!(p, q);
    sh.dealloc_class(&me(), q, class);
    sh.dealloc_class(&me(), p, class);
    sh.set_cpu_stopped(0, false);
    assert_eq!(sh.live_objects(), 0);
    assert_eq!(sh.reclaim_stranded_remote(), 0);
}

#[test]
fn the_builder_is_remembered() {
    let b = SubHeapBuilder::new("named", 1024 * 1024, CPUS)
        .on_exhaust(OnExhaust::Abort)
        .num_shards(7);
    let sh = build(b);
    assert_eq!(sh.name(), "named");
    assert_eq!(sh.on_exhaust(), OnExhaust::Abort);
    assert_eq!(sh.budget_bytes(), 1024 * 1024);
    assert_eq!(sh.carved_bytes(), 0);
    assert_eq!(sh.reservation_range(), (BASE, b.reserve_bytes()));
    assert_eq!(sh.test_thread_shard(&ThreadView::on_cpu(0, 0x7000, 9)), 2);
    assert!(b.reserve_bytes() >= 1024 * 1024);
}

#[test]
fn a_span_is_tiled_by_its_class() {
    let class = |size: usize| class_for(size).unwrap();
    assert_eq!(slots_per_span(class(64)), 1024);
    assert_eq!(slots_per_span(class(1500)), 42);
    assert_eq!(slots_per_span(class(131072)), 1);
    assert_eq!(group_spans(class(64)), 1);
    assert_eq!(group_spans(class(196608)), 3);
    assert_eq!(batch_for(class(8)), 64);
    assert_eq!(batch_for(class(262144)), 4);
    assert_eq!(cap_for_class(class(8), 256), 256);
    assert_eq!(cap_for_class(class(4096), 256), 128);
    assert_eq!(cap_for_class(class(262144), 256), 24);
    assert_eq!(cap_for_class(class(262144), 16), 16);
    assert_eq!(cap_for_class(class(8), 0), 8);
}

#[test]
fn what_does_not_fit_the_machine_cannot_be_built() {
    assert!(SubHeapBuilder::new("fits", 1024 * 1024, CPUS).can_build());
    assert!(!SubHeapBuilder::new("huge", usize::MAX, CPUS).can_build());
    assert!(!SubHeapBuilder::new("deep", 1024 * 1024, CPUS).cap_per_class(u32::MAX).can_build());
}

#[test]
fn what_is_out_never_exceeds_what_was_carved() {
    let mut sh = test_subheap();
    let mut held = Vec::new();
    while let Some(p) = sh.allocate(&me(), 1000) {
        held.push(p);
        assert!(sh.live_objects() as usize <= sh.live_bytes());
        assert!(sh.live_bytes() <= sh.carved_bytes());
        assert!(sh.carved_bytes() <= sh.budget_bytes());
    }
    let carved = sh.carved_bytes();
    assert_eq!(sh.live_objects() as usize, held.len());
    for p in held {
        assert!(sh.dealloc_by_ptr(&me(), p));
    }
    assert_eq!((sh.live_bytes(), sh.carved_bytes()), (0, carved));
}

#[test]
fn a_batch_goes_onto_the_stack_in_order() {
    let mut sh = test_subheap();
    let class = class_for(64).unwrap();
    let mut got = [0usize; 3];
    assert_eq!(sh.refill_batch(&me(), class, &mut got), 3);
    sh.dealloc_class_batch(&me(), &got, class);
    for k in [2, 1, 0] {
        assert_eq!(sh.alloc_class(&me(), class), Some(got[k]));
    }
}

#[test]
fn a_sweep_leaves_nothing_stranded() {
    let mut sh = test_subheap();
    sh.set_cpu_stopped(0, true);
    let mut held = Vec::new();
    for size in [64, 1000, 5000] {
        for _ in 0..40 {
            held.push(sh.allocate(&me(), size).unwrap());
        }
    }
    for p in held {
        assert!(sh.dealloc_by_ptr(&me(), p));
    }
    let carved = sh.carved_bytes();
    assert!(carved >= 3 * SPAN_BYTES);
    assert!(sh.reclaim_empty_spans(1) >= 3);
    assert!(sh.alloc_large(&me(), carved).is_some());
    assert_eq!(sh.carved_bytes(), carved);
}

#[test]
fn a_fresh_span_is_handed_out_from_its_first_object() {
    let mut sh = test_subheap();
    let class = class_for(64).unwrap();
    let (start, len) = sh.reservation_range();
    let arena = start + len - sh.budget_bytes();
    let cached = (batch_for(class) - 1).min(cap_for_class(class, 16) as usize);
    assert_eq!(sh.alloc_class(&me(), class), Some(arena));
    for k in (1..=cached).rev() {
        assert_eq!(sh.alloc_class(&me(), class), Some(arena + 64 * k));
    }
    assert_eq!(sh.alloc_class(&me(), class), Some(arena + 64 * (cached + 1)));
}

#[test]
fn reclaim_takes_exactly_the_free_groups() {
    let mut sh = test_subheap_bytes(64 * SPAN_BYTES);
    let class = class_for(4096).unwrap();
    let mut ptrs: Vec<usize> = (0..80).map(|_| sh.alloc_class(&me(), class).unwrap()).collect();
    let kept = ptrs.pop().unwrap();
    for p in ptrs {
        sh.dealloc_class(&other(), p, class);
    }
    for cpu in 0..4 {
        sh.rebalance_capacity(cpu, class, u32::MAX);
    }
    let spans = sh.carved_bytes() / SPAN_BYTES;
    let live = (sh.live_bytes(), sh.live_objects());
    assert!(spans > 1);
    // All spans but that of the live object go, and a second call finds none.
    assert_eq!(sh.reclaim_empty_spans(1), spans - 1);
    assert_eq!(sh.reclaim_empty_spans(32), 0);
    assert_eq!((sh.live_bytes(), sh.live_objects()), live);
    assert_eq!(sh.carved_bytes() / SPAN_BYTES, spans);
    sh.dealloc_class(&other(), kept, class);
    assert_eq!(sh.reclaim_empty_spans(32), 1);
    // What went serves a run of all of it.
    let run = sh.alloc_large(&me(), spans * SPAN_BYTES).unwrap();
    assert_eq!(sh.test_span_of(run), 0);
    assert_eq!(sh.carved_bytes() / SPAN_BYTES, spans);
}

#[test]
fn a_batch_comes_span_by_span_from_its_start() {
    let mut sh = test_subheap_bytes(64 * SPAN_BYTES);
    let class = class_for(4096).unwrap();
    let mut out = [0usize; 100];
    assert_eq!(sh.refill_batch(&me(), class, &mut out), 100);
    assert_eq!(out.iter().collect::<HashSet<_>>().len(), 100);
    let first = |a: usize| (a - out[0]) % SPAN_BYTES == 0;
    for w in out.windows(2) {
        if sh.test_span_of(w[0]) == sh.test_span_of(w[1]) {
            assert_eq!(w[1], w[0] + 4096);
        } else {
            assert!(first(w[1]));
        }
    }
    // A batch given back from elsewhere comes again before anything else.
    sh.dealloc_class_batch(&other(), &out, class);
    let carved = sh.carved_bytes();
    let mut again = [0usize; 100];
    assert_eq!(sh.refill_batch(&me(), class, &mut again), 100);
    assert_eq!(sh.carved_bytes(), carved);
}

#[test]
fn large_and_nondivisor_classes_roundtrip_cross_thread() {
    let mut sh =
        build(SubHeapBuilder::new("awkward", 64 * 1024 * 1024, CPUS).num_cpus(4).cap_per_class(64));
    let mut mem = Memory::of(&sh);
    // Sizes that do not tile a span evenly, and sizes of several spans.
    for sz in [1500usize, 49152, 98304, 131072, 196608, 262144] {
        let class = class_for(sz).unwrap();
        let osz = size_of_class(class);
        for _round in 0..4 {
            let n = 24;
            let ptrs: Vec<usize> = (0..n).filter_map(|_| sh.alloc_class(&me(), class)).collect();
            for p in &ptrs {
                mem.fill(*p, 0xE7, osz);
            }
            assert_eq!(ptrs.len(), n, "{sz}B: all allocs should succeed within budget");
            let mut sorted = ptrs.clone();
            sorted.sort_unstable();
            for w in sorted.windows(2) {
                assert!(
                    w[1] - w[0] >= osz,
                    "{sz}B: objects overlap (straddle/alias): {:#x}+{osz} > {:#x}",
                    w[0],
                    w[1]
                );
            }
            // Free them all on other threads.
            for (k, chunk) in ptrs.chunks(6).enumerate() {
                let there = ThreadView::on_cpu(k as u32, 0x8000 + 64 * k, 1 + k as u32);
                for addr in chunk {
                    sh.dealloc_by_ptr(&there, *addr);
                }
            }
        }
        let reclaimed: Vec<usize> = (0..24).filter_map(|_| sh.alloc_class(&me(), class)).collect();
        assert!(!reclaimed.is_empty(), "{sz}B: cross-thread frees must be reclaimable");
        for p in reclaimed {
            sh.dealloc_class(&me(), p, class);
        }
    }
}

#[test]
fn crossclass_reclaim_no_double_handout_cross_thread() {
    let mut sh =
        build(SubHeapBuilder::new("xclass", 64 * SPAN_BYTES, CPUS).num_cpus(4).cap_per_class(64));
    let mut mem = Memory::of(&sh);
    let classes = [64usize, 256, 1024, 4096, 16384];
    let per_step = 6 * SPAN_BYTES;
    let mut live: HashMap<usize, (usize, u8)> = HashMap::new();
    for round in 0..40 {
        let class = class_for(classes[round % classes.len()]).unwrap();
        let osz = size_of_class(class);
        let count = per_step / osz;
        let mut batch = Vec::with_capacity(count);
        for _ in 0..count {
            if let Some(addr) = sh.alloc_class(&me(), class) {
                let sentinel = (0x40 + round) as u8;
                assert!(
                    !live.contains_key(&addr),
                    "double hand-out at {addr:#x}: already live as {:?} (now class {class})",
                    live.get(&addr)
                );
                mem.fill(addr, sentinel, osz);
                live.insert(addr, (class, sentinel));
                batch.push(addr);
            }
        }
        for (&addr, &(_c, sentinel)) in &live {
            assert_eq!(mem.at(addr), sentinel, "tear at {addr:#x}");
        }
        // Free the batch on another thread, and reclaim the spans it leaves empty.
        for &addr in &batch {
            live.remove(&addr);
        }
        for addr in batch {
            sh.dealloc_class(&other(), addr, class);
        }
        sh.reclaim_empty_spans(usize::MAX);
    }
    for (&addr, &(_c, sentinel)) in &live {
        assert_eq!(mem.at(addr), sentinel, "final tear at {addr:#x}");
    }
    for (addr, (lclass, _)) in live {
        sh.dealloc_class(&me(), addr, lclass);
    }
}

#[test]
fn a_builder_starts_with_the_cpus_of_the_machine() {
    let blocks = |b: &SubHeapBuilder| b.reserve_bytes() - 1024 * 1024;
    let one = SubHeapBuilder::new("cpus", 1024 * 1024, 1);
    let six = SubHeapBuilder::new("cpus", 1024 * 1024, 6);
    assert_eq!(blocks(&six), 6 * blocks(&one));
    assert_eq!(blocks(&one.num_cpus(6)), blocks(&six));
    assert_eq!(blocks(&SubHeapBuilder::new("cpus", 1024 * 1024, 0)), blocks(&one));
    // The smallest power of two that holds the headers, the locks and the slots.
    assert_eq!(blocks(&one), 65536);
}

#[test]
fn a_block_may_take_up_to_four_gigabytes() {
    let deep = |cap: u32| SubHeapBuilder::new("deep", 1024 * 1024, 1).cap_per_class(cap);
    assert!(deep(12_000_000).can_build());
    assert_eq!(deep(12_000_000).reserve_bytes(), (1 << 32) + 1024 * 1024);
    assert!(!deep(24_000_000).can_build());
}

#[test]
fn objects_of_every_class_are_aligned() {
    let mut sh = build(SubHeapBuilder::new("aligned", 16 * 1024 * 1024, CPUS));
    for class in 1..49 {
        let p = sh.alloc_class(&me(), class).unwrap();
        assert_eq!(p % 8, 0);
    }
    for size in [64usize, 512, 1024, 4096] {
        let p = sh.alloc_class(&me(), class_for(size).unwrap()).unwrap();
        assert_eq!(p % size, 0);
    }
}

#[test]
fn a_long_batch_is_written_straight_through() {
    let mut sh = build(SubHeapBuilder::new("long", 1024 * 1024, CPUS));
    let class = class_for(1024).unwrap();
    let mut out = [7usize; 300];
    let got = sh.refill_batch(&me(), class, &mut out[..200]);
    assert_eq!(got, 200);
    let distinct: HashSet<usize> = out[..200].iter().copied().collect();
    assert_eq!(distinct.len(), 200);
    assert!(out[200..].iter().all(|&p| p == 7));
    assert_eq!(sh.live_objects(), 200);
}
