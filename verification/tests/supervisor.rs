use toccata::meta::SPAN_BYTES;
use toccata::rseq::abi::ThreadView;
use toccata::rseq::membarrier::MembarrierCaps;
use toccata::sizeclass::{class_for, size_of_class};
use toccata::subheap::{SubHeap, SubHeapBuilder};
use toccata::supervisor::{Supervisor, SupervisorBuilder, DEFAULT_INTERVAL_NS, FAST_NS};
use toccata::sys::reserve::Reservation;

/// The CPUs of the machine that the tests are run for.
const CPUS: u32 = 4;

const BASE: usize = 0x1_0000_0000;

/// Stands for the memory behind a sub-heap's reservation.
struct Memory {
    bytes: Vec<u8>,
}

impl Memory {
    fn of(sh: &SubHeap) -> Memory {
        Memory { bytes: vec![0; sh.reservation_range().1] }
    }

    fn fill(&mut self, addr: usize, value: u8, len: usize) {
        self.bytes[addr - BASE..addr - BASE + len].fill(value);
    }

    fn at(&self, addr: usize) -> u8 {
        self.bytes[addr - BASE]
    }
}

fn build(b: SubHeapBuilder) -> SubHeap {
    let mapping = Reservation::of_mapping(BASE, b.reserve_bytes(), true, None);
    match b.build_standalone(Ok(mapping)) {
        Ok(sh) => sh,
        Err(e) => panic!("{}", e.message("")),
    }
}

fn me() -> ThreadView {
    ThreadView::on_cpu(0, 0x7000, 0)
}

fn other() -> ThreadView {
    ThreadView::on_cpu(1, 0x7040, 1)
}

fn barrier() -> MembarrierCaps {
    MembarrierCaps { private_expedited: true, private_expedited_rseq: true }
}

/// A supervisor, and what it manages.
fn started<H>(b: SupervisorBuilder<H>, caps: MembarrierCaps) -> (Supervisor, Vec<H>) {
    b.start(caps)
}

#[test]
fn supervisor_reclaims_stranded_remote_frees() {
    let sh = build(SubHeapBuilder::new("sup", 8 * 1024 * 1024, CPUS).num_cpus(4).cap_per_class(64));
    let class = class_for(256).unwrap();
    let (mut sup, mut managed) = started(Supervisor::builder().manage(sh).interval(5_000_000), barrier());
    assert_eq!(managed.len(), 1);
    let mut sh = managed.remove(0);

    // Allocate here, free from another thread, then sweep: the memory must be
    // reusable.
    for _ in 0..10 {
        let ptrs: Vec<usize> = (0..400).filter_map(|_| sh.alloc_class(&me(), class)).collect();
        for a in ptrs {
            sh.dealloc_by_ptr(&other(), a);
        }
        sup.sweep_one(&mut sh);
        sup.end_sweep();
    }
    assert!(sup.stats().sweeps > 0, "supervisor never swept");
    let v: Vec<_> = (0..400).filter_map(|_| sh.alloc_class(&me(), class)).collect();
    assert!(!v.is_empty());
}

#[test]
fn supervisor_reclaims_empty_spans_cross_class() {
    // A sweep returns fully free spans of one class so that another can use them.
    let span = SPAN_BYTES;
    let mut sh =
        build(SubHeapBuilder::new("sup_xclass", 64 * span, CPUS).num_cpus(4).cap_per_class(64));
    let class_a = class_for(1024).unwrap();
    let class_b = class_for(4096).unwrap();
    let osz_a = size_of_class(class_a);
    let osz_b = size_of_class(class_b);
    let (mut sup, _) = started::<()>(Supervisor::builder().interval(2_000_000), barrier());

    // About six spans of the first class, all freed from another thread.
    let a_count = (span / osz_a) * 6;
    let a: Vec<usize> = (0..a_count).filter_map(|_| sh.alloc_class(&me(), class_a)).collect();
    for p in a {
        sh.dealloc_class(&other(), p, class_a);
    }
    let carved_after_a = sh.carved_bytes();
    sup.sweep_one(&mut sh);
    sup.end_sweep();
    sup.sweep_one(&mut sh);
    sup.end_sweep();
    assert_eq!(sup.stats().sweeps, 2, "supervisor never swept");

    let b_count = (span / osz_b) * 6;
    let mut mem = Memory::of(&sh);
    let mut b: Vec<usize> = Vec::new();
    for _ in 0..b_count {
        if let Some(p) = sh.alloc_class(&me(), class_b) {
            // The whole object: one that overlaps another would tear it.
            mem.fill(p, 0x5B, osz_b);
            b.push(p);
        }
    }
    assert!(!b.is_empty());
    let carved_after_b = sh.carved_bytes();
    assert!(
        carved_after_b < carved_after_a + 6 * span,
        "carved climbed a full class-worth ({} -> {} spans); reclaim not reused",
        carved_after_a / span,
        carved_after_b / span
    );
    for &p in &b {
        assert_eq!(mem.at(p), 0x5B, "object {p:#x} corrupted");
    }
    for p in b {
        sh.dealloc_class(&me(), p, class_b);
    }
}

#[test]
fn seize_and_rebalance_capacity() {
    let nproc = 4;
    let mut sh =
        build(SubHeapBuilder::new("seize", 8 * 1024 * 1024, CPUS).num_cpus(nproc).cap_per_class(64));
    let class = class_for(128).unwrap();
    let (sup, _) = started::<()>(Supervisor::builder(), barrier());
    assert!(sup.can_seize());

    // Warm CPU 0's slab: its stack then holds cached objects.
    let ptrs: Vec<_> = (0..50).filter_map(|_| sh.alloc_class(&me(), class)).collect();
    for p in ptrs {
        sh.dealloc_class(&me(), p, class);
    }

    // Seize every CPU in turn and move its cached objects to the central list.
    let mut moved_total = 0u32;
    for cpu in 0..nproc {
        assert!(sup.seize_cpu(&mut sh, cpu));
        let g = sup.seized(&mut sh, cpu, true).unwrap();
        assert_eq!(g.cpu(), cpu);
        moved_total += g.rebalance_capacity(&mut sh, class, 1000);
        g.release(&mut sh);
    }
    assert!(moved_total > 0);

    // The sub-heap still works: the moved objects are drawn back.
    let after: Vec<_> = (0..50).filter_map(|_| sh.alloc_class(&me(), class)).collect();
    assert!(!after.is_empty(), "alloc must work after seize/rebalance");
    for p in after {
        sh.dealloc_class(&me(), p, class);
    }
    assert_eq!(sh.live_objects(), 0);
}

#[test]
fn nothing_is_seized_without_the_barrier() {
    let mut sh = build(SubHeapBuilder::new("plain", 1024 * 1024, CPUS));
    let (sup, _) = started::<()>(SupervisorBuilder::default(), MembarrierCaps::default());
    assert!(!sup.can_seize());
    assert!(!sup.seize_cpu(&mut sh, 0));
    // A CPU that is stopped but could not be interrupted is let go.
    let (sup, _) = started::<()>(SupervisorBuilder::new(), barrier());
    assert!(sup.seize_cpu(&mut sh, 0));
    assert!(sup.seized(&mut sh, 0, false).is_none());
    assert!(sh.alloc_class(&me(), class_for(64).unwrap()).is_some());
}

#[test]
fn a_sweep_that_found_nothing_naps_longer() {
    let mut sh = build(SubHeapBuilder::new("idle", 1024 * 1024, CPUS));
    let (mut sup, _) = started::<()>(SupervisorBuilder::new(), barrier());
    sup.sweep_one(&mut sh);
    assert_eq!(sup.end_sweep(), DEFAULT_INTERVAL_NS);
    // One that reclaims something comes back soon.
    let class = class_for(4096).unwrap();
    let ptrs: Vec<usize> = (0..64).filter_map(|_| sh.alloc_class(&me(), class)).collect();
    for p in ptrs {
        sh.dealloc_class(&other(), p, class);
    }
    for cpu in 0..4 {
        sh.rebalance_capacity(cpu, class, u32::MAX);
    }
    sup.sweep_one(&mut sh);
    assert_eq!(sup.end_sweep(), FAST_NS);
    assert!(sup.stats().reclaimed_objects > 0);
}

#[test]
fn a_cpu_past_the_last_stands_for_the_last() {
    let class = class_for(64).unwrap();
    let mut sh = build(SubHeapBuilder::new("last", 1024 * 1024, CPUS).num_cpus(4));
    let there = ThreadView::on_cpu(3, 0x7000, 3);
    let p = sh.alloc_class(&there, class).unwrap();
    sh.dealloc_class(&there, p, class);
    let (sup, _) = started::<()>(SupervisorBuilder::new(), barrier());
    assert!(sup.seize_cpu(&mut sh, 99));
    let guard = sup.seized(&mut sh, 99, true).unwrap();
    assert_eq!(guard.cpu(), 99);
    // Its stack is left alone until it is let go.
    assert_ne!(sh.alloc_class(&there, class), Some(p));
    guard.release(&mut sh);
    assert_eq!(sh.alloc_class(&there, class), Some(p));
}

#[test]
fn an_interval_may_be_short() {
    let (mut sup, _) = started::<()>(SupervisorBuilder::new().interval(250_000), barrier());
    assert_eq!(sup.end_sweep(), 250_000);
    assert!(250_000 < FAST_NS);
}
