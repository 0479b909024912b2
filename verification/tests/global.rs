use toccata::global::{Freed, Served, Tls, Toccata, Why};
use toccata::magazine::WarmLines;
use toccata::rseq::abi::ThreadView;
use toccata::rseq::membarrier::MembarrierCaps;
use toccata::subheap::{OnExhaust, SubHeapBuilder};
use toccata::supervisor::Supervisor;
use toccata::sys::reserve::{Reservation, ReserveError};

/// The CPUs of the machine that the tests are run for.
const CPUS: u32 = 4;

const BASE: usize = 0x1_0000_0000;

fn me() -> ThreadView {
    ThreadView::on_cpu(0, 0x7000, 0)
}

/// The allocator as one thread uses it, with the memory behind its pool.
struct Process {
    global: Toccata,
    tls: Tls,
    memory: Vec<u8>,
}

impl Process {
    fn unconfigured() -> Process {
        Process { global: Toccata::new(), tls: Tls::new(), memory: Vec::new() }
    }

    fn with(b: SubHeapBuilder) -> Process {
        let mut p = Process::unconfigured();
        let bytes = b.reserve_bytes();
        let mapping = Reservation::of_mapping(BASE, bytes, true, None);
        assert!(p.global.configure_with(b, Ok(mapping)).is_ok());
        p.memory = vec![0; bytes];
        p
    }

    fn request(&mut self, size: usize, align: usize) -> Served {
        let mut warm = WarmLines::new();
        self.global.allocate(&mut self.tls, &me(), size, align, &mut warm)
    }

    fn take(&mut self, size: usize, align: usize) -> usize {
        match self.request(size, align) {
            Served::Pool(a) => {
                assert_eq!(a % align, 0);
                a
            }
            other => panic!("{other:?}"),
        }
    }

    fn dealloc(&mut self, addr: usize, size: usize, align: usize) {
        assert_eq!(self.global.dealloc(&mut self.tls, &me(), addr, size, align), Freed::Pool);
    }

    fn bytes(&mut self, addr: usize, len: usize) -> &mut [u8] {
        &mut self.memory[addr - BASE..addr - BASE + len]
    }

    fn word(&mut self, addr: usize) -> u64 {
        let mut w = [0u8; 8];
        w.copy_from_slice(self.bytes(addr, 8));
        u64::from_le_bytes(w)
    }

    fn put_word(&mut self, addr: usize, v: u64) {
        self.bytes(addr, 8).copy_from_slice(&v.to_le_bytes());
    }
}

/// A growable run of bytes in the pool.
struct Buffer {
    addr: usize,
    len: usize,
    cap: usize,
}

impl Buffer {
    fn new() -> Buffer {
        Buffer { addr: 0, len: 0, cap: 0 }
    }

    fn append(&mut self, p: &mut Process, data: &[u8]) {
        if self.len + data.len() > self.cap {
            // Grow as a vector does: a larger block, a copy, and the old one freed.
            let cap = std::cmp::max(2 * self.cap, self.len + data.len());
            let addr = p.take(cap, 8);
            if self.cap > 0 {
                let old = p.bytes(self.addr, self.len).to_vec();
                p.bytes(addr, self.len).copy_from_slice(&old);
                p.dealloc(self.addr, self.cap, 8);
            }
            self.addr = addr;
            self.cap = cap;
        }
        p.bytes(self.addr + self.len, data.len()).copy_from_slice(data);
        self.len += data.len();
    }

    fn free(self, p: &mut Process) {
        if self.cap > 0 {
            p.dealloc(self.addr, self.cap, 8);
        }
    }
}

#[test]
fn pre_configure_delegates_to_system() {
    // Before the pool exists, a request goes to the system allocator, and so does
    // the free of what that returned.
    let mut p = Process::unconfigured();
    assert_eq!(p.request(64, 8), Served::System, "pre-configure alloc must come from System");
    let block = Box::new([0xEEu8; 64]);
    let addr = std::ptr::from_ref(&*block) as usize;
    assert!(!p.global.in_pool(addr), "pre-configure alloc must come from System, not the pool");
    assert_eq!(block[0], 0xEE);
    assert_eq!(p.global.dealloc(&mut p.tls, &me(), addr, 64, 8), Freed::System);
    assert!(p.global.stats().is_none());
}

#[test]
fn zero_sized_alloc_is_dangling_aligned() {
    let mut p = Process::unconfigured();
    assert_eq!(p.request(0, 16), Served::Dangling(16), "an empty request returns the alignment");
    assert_eq!(p.global.dealloc(&mut p.tls, &me(), 16, 0, 16), Freed::Nothing);
}

#[test]
fn pre_configure_alloc_is_aligned() {
    let mut p = Process::unconfigured();
    for &align in &[1usize, 8, 16, 64, 4096] {
        // Delegated with the request's own alignment.
        assert_eq!(p.request(align.max(1), align), Served::System);
        assert_eq!(p.global.dealloc(&mut p.tls, &me(), align, align.max(1), align), Freed::System);
    }
}

#[test]
fn std_collections_run_on_toccata() {
    // Configure the heap once, with few shards.
    let mut p = Process::with(
        SubHeapBuilder::new("global", 64 * 1024 * 1024, CPUS)
            .num_cpus(4)
            .on_exhaust(OnExhaust::Abort),
    );

    // A vector that grows.
    let mut v = Buffer::new();
    for i in 0..100_000u64 {
        v.append(&mut p, &i.to_le_bytes());
    }
    let mut sum = 0u64;
    for i in 0..100_000 {
        sum += p.word(v.addr + 8 * i);
    }
    assert_eq!(sum, (0..100_000u64).sum());

    // A box.
    let b = p.take(4096, 1);
    p.bytes(b, 4096).fill(42);
    assert_eq!(p.bytes(b, 4096)[0], 42);
    assert_eq!(p.bytes(b, 4096)[4095], 42);

    // A string.
    let mut s = Buffer::new();
    for _ in 0..10_000 {
        s.append(&mut p, b"toccata");
    }
    assert_eq!(s.len, 70_000);

    // A map: buckets of chained nodes, a small block each.
    let buckets = 65536usize;
    let table = p.take(buckets * 8, 8);
    p.bytes(table, buckets * 8).fill(0);
    let mut len = 0;
    for i in 0..50_000u64 {
        let node = p.take(24, 8);
        let slot = table + 8 * (i as usize * 31 % buckets);
        let head = p.word(slot);
        p.put_word(node, i);
        p.put_word(node + 8, i * 2);
        p.put_word(node + 16, head);
        p.put_word(slot, node as u64);
        len += 1;
    }
    assert_eq!(len, 50_000);
    let mut at = p.word(table + 8 * (12345 * 31 % buckets)) as usize;
    while p.word(at) != 12345 {
        at = p.word(at + 16) as usize;
    }
    assert_eq!(p.word(at + 8), 24690);

    // Churn: free everything, allocate again.
    v.free(&mut p);
    s.free(&mut p);
    for k in 0..buckets {
        let mut node = p.word(table + 8 * k) as usize;
        while node != 0 {
            let next = p.word(node + 16) as usize;
            p.dealloc(node, 24, 8);
            node = next;
        }
    }
    p.dealloc(table, buckets * 8, 8);
    let mut v2: Vec<(usize, usize)> = Vec::new();
    for i in 0..10_000 {
        let text = format!("item-{i}");
        let a = p.take(text.len(), 1);
        p.bytes(a, text.len()).copy_from_slice(text.as_bytes());
        v2.push((a, text.len()));
    }
    assert_eq!(v2.len(), 10_000);
    let (a, n) = v2[42];
    assert_eq!(p.bytes(a, n), b"item-42");

    // Everything goes back once the thread leaves.
    for (a, n) in v2 {
        p.dealloc(a, n, 1);
    }
    p.dealloc(b, 4096, 1);
    p.global.leave(&mut p.tls, &me());
    let stats = p.global.stats().unwrap();
    assert_eq!((stats.live_bytes, stats.live_objects), (0, 0));
    assert_eq!(stats.budget_bytes, 64 * 1024 * 1024);
}

#[test]
fn the_first_configuration_wins() {
    let mut p = Process::with(SubHeapBuilder::new("global", 1024 * 1024, CPUS));
    assert!(p.global.configure(2 * 1024 * 1024, 4, Err(ReserveError::Mmap(12))).is_ok());
    assert_eq!(p.global.stats().unwrap().budget_bytes, 1024 * 1024);
}

#[test]
fn a_failed_reservation_leaves_the_system_allocator_in_charge() {
    let mut p = Process::unconfigured();
    let r = p.global.configure(1024 * 1024, 4, Err(ReserveError::Mmap(12)));
    assert!(matches!(r, Err(ReserveError::Mmap(12))));
    assert_eq!(p.request(64, 8), Served::System);
}

#[test]
fn configure_builds_the_default_pool() {
    let mut g = Toccata::new();
    let b = Toccata::builder(1024 * 1024, 8);
    let mapping = Reservation::of_mapping(BASE, b.reserve_bytes(), true, None);
    assert!(g.configure(1024 * 1024, 8, Ok(mapping)).is_ok());
    assert!(g.in_pool(BASE));
    assert!(g.in_pool(BASE + b.reserve_bytes() - 1));
    assert!(!g.in_pool(BASE + b.reserve_bytes()));
    assert!(!g.in_pool(BASE - 1));
}

#[test]
fn over_aligned_blocks_are_aligned() {
    let mut p = Process::with(SubHeapBuilder::new("global", 16 * 1024 * 1024, CPUS));
    for align in [16usize, 64, 512, 4096] {
        let a = p.take(24, align);
        assert_eq!(a % align, 0, "align {align}");
        p.dealloc(a, 24, align);
        let a = p.take(300_000, align);
        assert_eq!(a % align, 0, "align {align}");
        p.dealloc(a, 300_000, align);
    }
    assert_eq!(p.request(300_000, 131072), Served::Abort(Why::AlignmentTooLarge));
    assert_eq!(Why::AlignmentTooLarge.text(), "alignment exceeds span size");
}

#[test]
fn an_exhausted_budget_aborts() {
    let mut p = Process::with(SubHeapBuilder::new("global", 1024 * 1024, CPUS));
    assert_eq!(p.request(2 * 1024 * 1024, 8), Served::Abort(Why::BudgetExhausted));
    assert_eq!(Why::BudgetExhausted.text(), "global sub-heap budget exhausted");
}

#[test]
fn blocks_in_use_stay_apart() {
    let mut p = Process::with(SubHeapBuilder::new("global", 16 * 1024 * 1024, CPUS));
    let mut blocks: Vec<(usize, usize)> = Vec::new();
    for i in 0..400usize {
        let size = 1 + (i * 37) % 5000;
        blocks.push((p.take(size, 8), size));
    }
    blocks.sort_unstable();
    for w in blocks.windows(2) {
        assert!(w[0].0 + w[0].1 <= w[1].0);
    }
}

#[test]
fn threads_do_not_disturb_each_other() {
    // Two threads with caches of their own: what one allocates the other frees.
    let mut p = Process::with(SubHeapBuilder::new("global", 16 * 1024 * 1024, CPUS));
    let mut other = Tls::new();
    let there = ThreadView::on_cpu(1, 0x7040, 1);
    let mut warm = WarmLines::new();
    let mut live: Vec<usize> = Vec::new();
    for i in 0..2000usize {
        let a = p.take(200, 8);
        assert!(!live.contains(&a));
        live.push(a);
        if i % 3 == 0 {
            let r = p.global.allocate(&mut other, &there, 200, 8, &mut warm);
            match r {
                Served::Pool(b) => {
                    assert!(!live.contains(&b));
                    live.push(b);
                }
                r => panic!("{r:?}"),
            }
        }
        if live.len() > 64 {
            let a = live.swap_remove(i % 64);
            assert_eq!(p.global.dealloc(&mut other, &there, a, 200, 8), Freed::Pool);
        }
    }
    for a in live {
        p.dealloc(a, 200, 8);
    }
    p.global.leave(&mut p.tls, &me());
    p.global.leave(&mut other, &there);
    assert_eq!(p.global.stats().unwrap().live_objects, 0);
}

#[test]
fn a_sweep_of_the_pool_changes_nothing_that_is_live() {
    let mut p = Process::with(SubHeapBuilder::new("global", 16 * 1024 * 1024, CPUS));
    let (mut sup, _) = Supervisor::builder::<()>().start(MembarrierCaps::default());
    let kept = p.take(4000, 8);
    let blocks: Vec<usize> = (0..200).map(|_| p.take(4000, 8)).collect();
    for a in blocks {
        p.dealloc(a, 4000, 8);
    }
    p.global.leave(&mut p.tls, &me());
    p.global.sweep(&mut sup);
    sup.end_sweep();
    assert_eq!(sup.stats().sweeps, 1);
    assert_eq!(p.global.stats().unwrap().live_objects, 1);
    p.dealloc(kept, 4000, 8);
    // Without a pool there is nothing to sweep.
    Process::unconfigured().global.sweep(&mut sup);
}

#[test]
fn a_later_configuration_changes_nothing() {
    let mut p = Process::with(SubHeapBuilder::new("global", 1024 * 1024, CPUS));
    let small = || Ok(Reservation::of_mapping(4096, 1, true, None));
    let huge = SubHeapBuilder::new("huge", usize::MAX, CPUS);
    assert!(p.global.configure_with(huge, small()).is_ok());
    assert!(p.global.configure(usize::MAX, CPUS, small()).is_ok());
    assert_eq!(p.global.stats().unwrap().budget_bytes, 1024 * 1024);
    assert!(!p.global.in_pool(4096));
}
