use toccata::rseq::abi::{Rseq, ThreadView, CPU_UNREGISTERED};
use toccata::rseq::membarrier::{
    expedited, expedited_rseq_cpu, register, registrations, Barrier, MembarrierCaps,
};
use toccata::rseq::restart::{commit_cpu, pop, push, RseqResult};
use toccata::rseq::slab::{fallback_shard, ClassLoc, CpuStack, Fast, SlabLayout};

/// A tiny single-class slab. Geometry of a CPU's block: the header, the lock, and
/// the slots after it.
fn make_slab(num_cpus: u32, capacity: u32) -> SlabLayout {
    let header_off: u32 = 0;
    let lock_off: u32 = 8;
    let slots_off: u32 = 16;
    let stride_bytes = slots_off as usize + (capacity as usize) * 8;
    // Round the stride up to a power of two for the shift-based indexing.
    let shift = usize::BITS - (stride_bytes - 1).leading_zeros();
    let classes = [ClassLoc { header_off, slots_off, lock_off }];
    SlabLayout::new(num_cpus, shift, &classes, &[capacity])
}

fn here() -> ThreadView {
    ThreadView::unregistered(0x7000, 0)
}

#[test]
fn push_then_pop_roundtrip_lifo() {
    let mut layout = make_slab(4, 8);
    let stack = CpuStack::current(&layout, here());

    // Push three distinct addresses.
    let ptrs: Vec<usize> = (1..=3).collect();
    for p in &ptrs {
        assert!(matches!(stack.push_locked(&mut layout, 0, *p), Fast::Done(())));
    }
    // Pop returns LIFO order.
    for expected in ptrs.iter().rev() {
        match stack.pop_locked(&mut layout, 0) {
            Fast::Done(got) => assert_eq!(got, *expected),
            Fast::NeedsSlow => panic!("unexpected empty"),
        }
    }
    // Now empty.
    assert!(matches!(stack.pop_locked(&mut layout, 0), Fast::NeedsSlow));
}

#[test]
fn push_at_capacity_declines() {
    let mut layout = make_slab(2, 2);
    let stack = CpuStack::current(&layout, here());
    let p = 0x1000;
    assert!(matches!(stack.push_locked(&mut layout, 0, p), Fast::Done(())));
    assert!(matches!(stack.push_locked(&mut layout, 0, p), Fast::Done(())));
    // Third push exceeds capacity 2.
    assert!(matches!(stack.push_locked(&mut layout, 0, p), Fast::NeedsSlow));
}

#[test]
fn pop_empty_declines() {
    let mut layout = make_slab(1, 4);
    let stack = CpuStack::current(&layout, here());
    assert!(matches!(stack.pop_locked(&mut layout, 0), Fast::NeedsSlow));
}

#[test]
fn a_registered_thread_works_on_its_own_cpu() {
    let mut layout = make_slab(4, 8);
    let two = CpuStack::current_fast(&layout, ThreadView::on_cpu(2, 0x7000, 0));
    let three = CpuStack::current_fast(&layout, ThreadView::on_cpu(3, 0x7000, 0));
    assert_eq!(two.cpu(&layout), 2);
    assert!(matches!(two.push(&mut layout, 0, 0x4040), Fast::Done(())));
    assert_eq!(layout.header(2, 0).current, 1);
    assert_eq!(layout.slot(2, 0, 0), 0x4040);
    // The neighbour's stack is empty.
    assert!(matches!(three.pop(&mut layout, 0), Fast::NeedsSlow));
    match two.pop_on(&mut layout, 0) {
        (Fast::Done(a), cpu) => assert_eq!((a, cpu), (0x4040, 2)),
        (Fast::NeedsSlow, _) => panic!("empty"),
    }
}

#[test]
fn a_stopped_cpu_declines_both_ways() {
    let mut layout = make_slab(2, 8);
    let stack = CpuStack::current_fast(&layout, ThreadView::on_cpu(1, 0x7000, 0));
    assert!(matches!(stack.push(&mut layout, 0, 0x4040), Fast::Done(())));
    layout.set_stopped(1, true);
    assert!(layout.is_stopped(1));
    assert!(matches!(stack.pop(&mut layout, 0), Fast::NeedsSlow));
    assert!(matches!(stack.push(&mut layout, 0, 0x8080), Fast::NeedsSlow));
    layout.set_stopped(1, false);
    assert!(matches!(stack.pop(&mut layout, 0), Fast::Done(0x4040)));
}

fn record(start: u32, id: u32) -> Rseq {
    Rseq { cpu_id_start: start, cpu_id: id, rseq_cs: 0, flags: 0 }
}

#[test]
fn a_section_restarts_when_the_thread_migrates() {
    // Two migrations, then a quiet attempt on CPU 3.
    let moved = [record(0, 1), record(1, 3), record(3, 3), record(0, 0)];
    assert_eq!(commit_cpu(&moved, 4), Some(3));
    // Migrated every time: give up.
    let never = [record(0, 1), record(1, 2), record(2, 3), record(3, 0)];
    assert_eq!(commit_cpu(&never, 4), None);
    // A hint out of range ends the section, even if a later one is in range.
    let outside = [record(9, 9), record(1, 1), record(1, 1), record(1, 1)];
    assert_eq!(commit_cpu(&outside, 4), None);
    let unregistered = [record(CPU_UNREGISTERED, 0); 4];
    assert_eq!(commit_cpu(&unregistered, 4), None);
}

#[test]
fn a_section_reports_what_it_did() {
    let mut layout = make_slab(4, 1);
    let quiet = [record(2, 2); 4];
    assert!(matches!(pop(&mut layout, &quiet, 0), RseqResult::NeedsSlow));
    assert!(matches!(push(&mut layout, &quiet, 0, 0x50), RseqResult::Done(_, 2)));
    assert!(matches!(push(&mut layout, &quiet, 0, 0x60), RseqResult::NeedsSlow));
    assert!(matches!(pop(&mut layout, &quiet, 0), RseqResult::Done(0x50, 2)));
    layout.set_stopped(2, true);
    assert!(matches!(pop(&mut layout, &quiet, 0), RseqResult::Fallback));
}

#[test]
fn fallback_shard_hashes_the_cache_line() {
    assert_eq!(fallback_shard(0, 4), 0);
    assert_eq!(fallback_shard(64 * 7 + 5, 4), 3);
    assert_eq!(fallback_shard(64 * 7, 0), 0);
}

#[test]
fn an_unregistered_record_has_no_cpu() {
    assert_eq!(Rseq::zeroed().current_cpu(), Some(0));
    assert_eq!(record(CPU_UNREGISTERED, 0).current_cpu(), None);
    assert_eq!(record(3, 1).current_cpu(), Some(3));
}

#[test]
fn no_barrier_is_assumed() {
    let caps = MembarrierCaps::default();
    assert!(!caps.private_expedited && !caps.private_expedited_rseq);
}

#[test]
fn a_barrier_is_had_only_where_the_kernel_agrees() {
    let (ordering, aborting) = registrations();
    assert_eq!((ordering.cmd, aborting.cmd), (16, 256));
    let caps = register(0, -1);
    assert!(caps.private_expedited && !caps.private_expedited_rseq);
    assert!(register(-1, 0).private_expedited_rseq);
    assert_eq!(expedited(), Barrier { cmd: 8, flags: 0, cpu: 0 });
    assert_eq!(expedited_rseq_cpu(3), Barrier { cmd: 128, flags: 1, cpu: 3 });
    assert!(Barrier::succeeded(0) && !Barrier::succeeded(-1));
}
