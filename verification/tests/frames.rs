use std::cell::Cell;
use std::collections::HashSet;
use std::rc::Rc;
use toccata::frame::buf::{BufPool, FrameBuf, FrameMut};
use toccata::frame::cache::FrameCache;
use toccata::frame::handle::{frame_size_for, FrameSource, Owned, Shared, TypedPool};
use toccata::frame::named::{NamedPool, PoolThread};
use toccata::frame::{can_build, Frame, FrameMeta, FramePool, FramePoolError, Reclaim, RefCount};
use toccata::rseq::abi::ThreadView;
use toccata::sys::reserve::{Require, Reservation, ReserveError, ReserveOpts};

const FRAME: usize = 2048;
const N: usize = 4096;
const BASE: usize = 0x1_0000_0000;

/// The calling thread, on one CPU throughout.
fn me() -> ThreadView {
    ThreadView::on_cpu(0, 0x7000, 0)
}

fn region(n: usize, frame_size: usize) -> Result<Reservation, ReserveError> {
    let opts = match FramePool::<()>::reserve_opts(
        n,
        frame_size,
        ReserveOpts::new(0).lock(Require::attempt()),
    ) {
        Ok(o) => o,
        Err(e) => panic!("{}", e.message("")),
    };
    Ok(Reservation::of_mapping(BASE, opts.len, false, None))
}

fn pool<M: FrameMeta>() -> FramePool<M> {
    match FramePool::<M>::with_reservation(region(N, FRAME), FRAME, 4) {
        Ok(p) => p,
        Err(e) => panic!("{}", e.message("")),
    }
}

fn named(n: usize, frame_size: usize) -> NamedPool<RefCount> {
    let mut p = NamedPool::new();
    assert!(p.configure_sized(region(n, frame_size), frame_size, 4).is_ok(), "configure");
    p
}

#[test]
fn alloc_free_roundtrip_and_capacity() {
    let mut p = pool::<()>();
    assert_eq!(p.capacity(), N);
    assert_eq!(p.frame_size(), FRAME);

    let f = p.allocate(&me()).expect("alloc");
    // The frame lies within the region and is frame-aligned.
    let idx = p.frame_index(&f);
    assert!(idx < N);
    assert_eq!(f.as_ptr() % FRAME, 0);
    p.free(&me(), f);
}

#[test]
fn frames_are_distinct_and_indices_unique() {
    let mut p = pool::<()>();
    let mut seen = HashSet::new();
    let mut frames = Vec::new();
    for _ in 0..N {
        let f = p.allocate(&me()).expect("alloc within capacity");
        assert!(seen.insert(p.frame_index(&f)), "duplicate frame index handed out");
        frames.push(f);
    }
    // The pool is now exhausted.
    assert!(p.allocate(&me()).is_none(), "pool must be empty after N allocs");
    for f in frames {
        p.free(&me(), f);
    }
    // And reusable after frees.
    assert!(p.allocate(&me()).is_some(), "pool must refill after frees");
}

#[test]
fn into_from_addr_roundtrip() {
    let mut p = pool::<()>();
    let f = p.allocate(&me()).expect("alloc");
    let idx = p.frame_index(&f);
    let addr = p.into_addr(f);
    assert_eq!(addr as usize % FRAME, 0);
    // Reconstitute from the offset a ring would have returned.
    let f2 = p.from_addr(addr);
    assert_eq!(f2.as_ptr(), f.as_ptr());
    assert_eq!(p.frame_index(&f2), idx);
    p.free(&me(), f2);
}

/// Metadata that carries a tag.
#[derive(Default)]
struct Tag(u64);

impl FrameMeta for Tag {
    fn on_alloc(&mut self) {}

    fn on_free(&mut self) -> Reclaim {
        Reclaim::Free
    }
}

#[test]
fn metadata_survives_body_overwrite() {
    // Metadata is kept out of band: scribbling over the whole frame body does not
    // disturb it.
    let mut p = pool::<Tag>();
    let mut body = vec![0u8; N * FRAME];
    let f = p.allocate(&me()).expect("alloc");
    p.meta_mut(&f).0 = 0xDEAD_BEEF;
    let at = p.into_addr(f) as usize;
    body[at..at + FRAME].fill(0xFF);
    assert_eq!(p.meta(&f).0, 0xDEAD_BEEF, "metadata is out of band");
    p.free(&me(), f);
}

#[test]
fn refcount_reclaims_only_on_last_release() {
    let mut p = pool::<RefCount>();
    let f = p.allocate(&me()).expect("alloc");
    assert_eq!(p.meta(&f).count(), 1, "alloc sets refcount to 1");

    // Two clones: 3 references.
    p.meta_mut(&f).retain();
    p.meta_mut(&f).retain();
    assert_eq!(p.meta(&f).count(), 3);

    // Releasing twice keeps the frame.
    p.free(&me(), f);
    p.free(&me(), f);
    assert_eq!(p.meta(&f).count(), 1, "frame still held after non-last releases");

    // The frame must not have been returned: drain the pool and look for it.
    let held_idx = p.frame_index(&f);
    let mut drained = Vec::new();
    while let Some(g) = p.allocate(&me()) {
        drained.push(g);
    }
    assert!(
        drained.iter().all(|g| p.frame_index(g) != held_idx),
        "a still-referenced frame must not be reallocated"
    );
    for g in drained {
        p.free(&me(), g);
    }
    // The final release reclaims it.
    p.free(&me(), f);
    assert_eq!(p.meta(&f).count(), 0);
}

#[test]
fn cache_roundtrip_and_exhaustion() {
    let mut p = pool::<()>();
    let mut c = FrameCache::new();
    let mut seen = HashSet::new();
    let mut frames = Vec::new();
    for _ in 0..N {
        let f = c.allocate(&mut p, &me()).expect("alloc within capacity");
        assert!(seen.insert(p.frame_index(&f)), "duplicate frame from cache");
        frames.push(f);
    }
    assert!(c.allocate(&mut p, &me()).is_none(), "pool empty after N cache allocs");
    for f in frames {
        c.free(&mut p, &me(), f);
    }
    // Frames flushed back are reusable.
    c.flush(&mut p, &me());
    assert!(p.allocate(&me()).is_some(), "pool refills after cache frees + flush");
}

#[test]
fn cache_drop_flushes_frames_back() {
    let mut p = pool::<()>();
    let mut c = FrameCache::new();
    let f = c.allocate(&mut p, &me()).expect("alloc");
    c.free(&mut p, &me(), f);
    c.flush(&mut p, &me());
    // All N frames must still be allocatable.
    let mut n = 0;
    let mut held = Vec::new();
    while let Some(f) = p.allocate(&me()) {
        held.push(f);
        n += 1;
    }
    assert_eq!(n, N, "a flushed cache must not strand frames (got {n}, want {N})");
    for f in held {
        p.free(&me(), f);
    }
}

#[test]
fn cache_refcount_reclaims_on_last_release() {
    let mut p = pool::<RefCount>();
    let mut c = FrameCache::new();
    let f = c.allocate(&mut p, &me()).expect("alloc");
    assert_eq!(p.meta(&f).count(), 1);
    p.meta_mut(&f).retain();
    c.free(&mut p, &me(), f);
    assert_eq!(p.meta(&f).count(), 1);
    c.free(&mut p, &me(), f);
    assert_eq!(p.meta(&f).count(), 0);
}

#[test]
fn batch_alloc_n_free_n() {
    let mut p = pool::<()>();
    let mut batch = [Frame::dangling(); 64];

    let got = p.alloc_n(&me(), &mut batch);
    assert_eq!(got, 64, "alloc_n fills the whole batch when capacity allows");
    // Indices distinct within the batch.
    let mut seen = HashSet::new();
    for f in &batch[..got] {
        assert!(seen.insert(p.frame_index(f)), "alloc_n handed a duplicate");
    }
    p.free_n(&me(), &batch[..got]);

    // alloc_n caps at availability: drain the pool, then a too-big request returns
    // only what is left.
    let mut all: Vec<Frame> = Vec::new();
    loop {
        let mut chunk = [Frame::dangling(); 256];
        let n = p.alloc_n(&me(), &mut chunk);
        if n == 0 {
            break;
        }
        all.extend_from_slice(&chunk[..n]);
    }
    assert_eq!(all.len(), N, "alloc_n across batches drains exactly N frames");
    p.free_n(&me(), &all);
}

#[test]
fn over_borrowed_region() {
    let len = N * FRAME;
    let mut p = match FramePool::<()>::over(BASE, len, FRAME, 4) {
        Ok(p) => p,
        Err(e) => panic!("over: {}", e.message("")),
    };
    assert_eq!(p.capacity(), N);
    let f = p.allocate(&me()).expect("alloc");
    assert_eq!(p.into_addr(f) as usize % FRAME, 0);
    p.free(&me(), f);
}

#[test]
fn frame_pool_macro_configure_alloc_free() {
    let mut p = named(N, FRAME);
    // Configuring again changes nothing.
    assert!(p.configure_sized(region(N, FRAME), FRAME, 4).is_ok(), "configure again is no-op");

    let mut t = PoolThread::new(me());
    let f = p.allocate(&mut t).expect("alloc");
    assert_eq!(p.refcount(&t, f), 1, "alloc sets refcount via the magazine");
    assert!(p.pool().unwrap().frame_index(&f) < N);

    // The count through the free path.
    p.retain(&t, f);
    p.free(&mut t, f);
    assert_eq!(p.refcount(&t, f), 1);
    p.free(&mut t, f);
    assert_eq!(p.pool().unwrap().meta(&f).count(), 0);

    // Another thread gets its own magazine off the shared pool.
    let mut u = PoolThread::new(ThreadView::on_cpu(1, 0x7040, 1));
    let g = p.allocate(&mut u).expect("alloc on another thread");
    p.free(&mut u, g);
    p.leave(&mut u);
    p.leave(&mut t);
}

/// A value that counts how often it is dropped.
struct Payload {
    tag: u64,
    drops: Rc<Cell<usize>>,
    _pad: [u8; 48],
}

impl Payload {
    fn new(tag: u64, drops: &Rc<Cell<usize>>) -> Self {
        Self { tag, drops: drops.clone(), _pad: [0; 48] }
    }
}

impl Drop for Payload {
    fn drop(&mut self) {
        self.drops.set(self.drops.get() + 1);
    }
}

#[test]
fn typed_owned_and_shared_lifecycle() {
    let size = frame_size_for(std::mem::size_of::<Payload>());
    let mut pool: TypedPool<Payload> = TypedPool::over(named(N, size));
    let mut t = PoolThread::new(me());

    let drops = Rc::new(Cell::new(0));

    // Owned: unique, readable, writable; closing it drops the value once.
    let o = Owned::new(&mut pool, &mut t, Payload::new(7, &drops)).expect("owned");
    assert_eq!(o.get(&pool, &t).tag, 7);
    o.get_mut(&mut pool, &t).tag = 9;
    assert_eq!(o.get(&pool, &t).tag, 9);
    let v = o.close(&mut pool, &mut t);
    assert_eq!(v.as_ref().map(|p| p.tag), Some(9), "closing the owner gives the value back");
    drop(v);
    assert_eq!(drops.get(), 1, "the owner's close runs the destructor once");

    // Shared: the value is dropped once, on the last close.
    drops.set(0);
    let o = Owned::new(&mut pool, &mut t, Payload::new(11, &drops)).expect("owned");
    let s1 = o.into_shared();
    assert_eq!(s1.strong_count(&pool, &t), 1);
    let s2 = s1.share(&mut pool, &t);
    assert_eq!(s1.strong_count(&pool, &t), 2);
    assert_eq!(s2.get(&pool, &t).tag, 11);
    drop(s1.close(&mut pool, &mut t));
    assert_eq!(drops.get(), 0, "not the last ref yet");
    assert_eq!(s2.strong_count(&pool, &t), 1);
    drop(s2.close(&mut pool, &mut t));
    assert_eq!(drops.get(), 1, "the destructor runs once, on the last close");
}

#[test]
fn typed_values_need_a_frame() {
    let mut pool: TypedPool<u64> = TypedPool::over(named(2, 64));
    let mut t = PoolThread::new(me());
    let a = Shared::new(&mut pool, &mut t, 1).unwrap();
    let b = Shared::new(&mut pool, &mut t, 2).unwrap();
    assert_ne!(a.frame(), b.frame());
    assert!(Shared::new(&mut pool, &mut t, 3).is_none());
    assert_eq!(a.close(&mut pool, &mut t), Some(1));
    let c = Owned::new(&mut pool, &mut t, 4).unwrap();
    assert_eq!((*c.get(&pool, &t), *b.get(&pool, &t)), (4, 2));
}

#[test]
fn frame_sizes_are_powers_of_two() {
    assert_eq!(frame_size_for(1), 8);
    assert_eq!(frame_size_for(64), 64);
    assert_eq!(frame_size_for(65), 128);
    assert_eq!(frame_size_for(2048), 2048);
}

fn buf_pool() -> (BufPool, PoolThread) {
    (BufPool::over(named(N, FRAME)), PoolThread::new(me()))
}

fn mut_buf(p: &mut BufPool, t: &mut PoolThread) -> FrameMut {
    FrameMut::new(p.frames(), t).expect("mut_buf")
}

#[test]
fn buf_fill_freeze_and_read() {
    let (mut p, mut t) = buf_pool();
    let w = mut_buf(&mut p, &mut t);
    assert_eq!(w.capacity(), FRAME);
    // Fill the first 4 bytes.
    p.fill(&t, &w, 0, b"abcd");
    let buf = w.freeze(4);
    assert_eq!(p.payload(&t, &buf), b"abcd");
    assert_eq!(buf.len(), 4);
    assert_eq!(buf.ref_count(p.frames(), &t), 1);
}

#[test]
fn buf_split_to_disjoint_mutable_windows() {
    let (mut p, mut t) = buf_pool();
    let w = mut_buf(&mut p, &mut t);
    p.fill(&t, &w, 0, b"0123456789");
    let mut tail = w.freeze(10);
    assert_eq!(tail.ref_count(p.frames(), &t), 1);

    // Split off the head [0,4); the tail keeps [4,10). One frame, two references.
    let mut head = tail.split_to(p.frames(), &t, 4);
    assert_eq!(tail.ref_count(p.frames(), &t), 2);
    assert_eq!(p.payload(&t, &head), b"0123");
    assert_eq!(p.payload(&t, &tail), b"456789");

    // The two windows are disjoint and independently writable.
    p.payload_write(&t, &head, 0, b"WXYZ");
    p.payload_write(&t, &tail, 0, b"UVWXYZ");
    assert_eq!(p.payload(&t, &head), b"WXYZ");
    assert_eq!(p.payload(&t, &tail), b"UVWXYZ");

    // advance and truncate adjust the window without touching the refcount.
    head.advance(1);
    assert_eq!(p.payload(&t, &head), b"XYZ");
    tail.truncate(2);
    assert_eq!(p.payload(&t, &tail), b"UV");
    assert_eq!(tail.ref_count(p.frames(), &t), 2);
}

#[test]
fn buf_frame_frees_only_after_last_window() {
    let (mut p, mut t) = buf_pool();
    let w = mut_buf(&mut p, &mut t);
    let id = p.frames().pool().unwrap().frame_index(&w.frame());
    p.fill(&t, &w, 0, b"deadbeef");
    let mut a = w.freeze(8);
    let b = a.split_to(p.frames(), &t, 4);
    assert_eq!(a.ref_count(p.frames(), &t), 2);

    a.close(p.frames(), &mut t);
    // Drain the pool; the held frame must be absent.
    let still_held = !drain_has(&mut p, &mut t, id);
    assert!(still_held, "frame must stay out while one window lives");

    b.close(p.frames(), &mut t);
    let reappeared = drain_has(&mut p, &mut t, id);
    assert!(reappeared, "frame must return to the pool after the last window drops");
}

/// Whether frame `id` comes out when the pool is drained (and refilled).
fn drain_has(p: &mut BufPool, t: &mut PoolThread, id: usize) -> bool {
    let src = p.frames();
    let mut v = Vec::new();
    while let Some(f) = src.allocate(t) {
        v.push(f);
    }
    let found = v.iter().any(|f| src.pool().unwrap().frame_index(f) == id);
    for f in v {
        src.recycle(t, f);
    }
    found
}

#[test]
fn windows_partition_the_buffer() {
    let (mut p, mut t) = buf_pool();
    for r in 0..64 {
        let n = r % 16 + 1;
        let w = mut_buf(&mut p, &mut t);
        p.fill(&t, &w, 0, &vec![n as u8; n]);
        let mut buf: FrameBuf = w.freeze(n as u16);
        let a = buf.split_to(p.frames(), &t, (n / 3) as u16);
        let b = buf.split_to(p.frames(), &t, (n / 3) as u16);
        assert_eq!(a.len() + b.len() + buf.len(), n);
        assert_eq!(a.is_empty(), n < 3);
        assert_eq!((a.offset(), b.offset(), buf.offset()), (0, n / 3, n / 3 * 2));
        assert_eq!(a.frame(), buf.frame());
        a.close(p.frames(), &mut t);
        b.close(p.frames(), &mut t);
        buf.close(p.frames(), &mut t);
    }
    let w = mut_buf(&mut p, &mut t);
    w.discard(p.frames(), &mut t);
    assert_eq!(p.frames().frame_capacity(), FRAME);
}

#[test]
fn a_window_is_written_without_touching_the_others() {
    let (mut p, mut t) = buf_pool();
    let w = mut_buf(&mut p, &mut t);
    let mut rest = w.freeze(12);
    assert_eq!(p.payload(&t, &rest), [0u8; 12]);
    let a = rest.split_to(p.frames(), &t, 4);
    let b = rest.split_to(p.frames(), &t, 4);
    p.payload_write(&t, &b, 1, &[7, 8]);
    assert_eq!(p.payload(&t, &a), [0, 0, 0, 0]);
    assert_eq!(p.payload(&t, &b), [0, 7, 8, 0]);
    assert_eq!(p.payload(&t, &rest), [0, 0, 0, 0]);
    for w in [a, b, rest] {
        w.close(p.frames(), &mut t);
    }
}

#[test]
fn frame_pool_macro_configure_over_borrowed() {
    let len = N * FRAME;
    let mut p: NamedPool<()> = NamedPool::new();
    assert!(!p.is_configured());
    assert!(p.configure_over(BASE, len, FRAME, 4).is_ok(), "configure_over");
    assert!(p.is_configured());
    let mut t = PoolThread::new(me());
    let f = p.allocate(&mut t).expect("alloc");
    assert_eq!(p.pool().unwrap().into_addr(f) as usize % FRAME, 0);
    p.free(&mut t, f);
    p.leave(&mut t);
}

#[test]
fn cross_thread_alloc_free_no_corruption() {
    // Eight threads take and give back frames in turn: none is ever live twice.
    let mut p = pool::<()>();
    let threads: Vec<ThreadView> =
        (0..8).map(|k| ThreadView::on_cpu(k % 4, 0x7000 + 64 * k as usize, k)).collect();
    let mut live = vec![false; N];
    let mut held: Vec<Vec<Frame>> = vec![Vec::new(); 8];
    for round in 0..8 * 200_000 {
        let k = round % 8;
        if held[k].len() < 32 {
            if let Some(f) = p.allocate(&threads[k]) {
                let i = p.frame_index(&f);
                assert!(!live[i], "frame {i} allocated while already live");
                live[i] = true;
                held[k].push(f);
            }
        } else {
            let middle = held[k].len() / 2;
            let f = held[k].swap_remove(middle);
            live[p.frame_index(&f)] = false;
            p.free(&threads[k], f);
        }
    }
    for (k, frames) in held.into_iter().enumerate() {
        for f in frames {
            live[p.frame_index(&f)] = false;
            p.free(&threads[k], f);
        }
    }
    for (i, l) in live.iter().enumerate() {
        assert!(!l, "frame {i} leaked as live");
    }
}

#[test]
fn a_frame_may_go_back_on_another_thread() {
    let mut p = pool::<()>();
    let there = ThreadView::on_cpu(1, 0x7040, 1);
    let frames: Vec<Frame> = (0..600).map(|_| p.allocate(&me()).unwrap()).collect();
    let seen: HashSet<usize> = frames.iter().map(|f| p.frame_index(f)).collect();
    assert_eq!(seen.len(), 600);
    for f in frames {
        p.free(&there, f);
    }
    let taken: Vec<Frame> = (0..200).map(|_| p.allocate(&there).unwrap()).collect();
    let again: HashSet<usize> = taken.iter().map(|f| p.frame_index(f)).collect();
    assert_eq!(again.len(), 200);
    assert!(again.is_subset(&seen));
}

#[test]
fn bad_regions_are_refused() {
    let e = FramePool::<()>::over(BASE, 4096, 1500, 4).map(|_| ()).unwrap_err();
    assert!(matches!(e, FramePoolError::FrameSizeNotPow2(1500)));
    assert_eq!(e.message(""), "frame_size 1500 must be a power of two");
    let e = FramePool::<()>::over(BASE, 1024, 2048, 4).map(|_| ()).unwrap_err();
    assert!(matches!(e, FramePoolError::RegionTooSmall { len: 1024, frame_size: 2048 }));
    assert_eq!(e.message(""), "region of 1024 bytes holds no 2048-byte frame");
    let e = FramePool::<()>::with_reservation(Err(ReserveError::Mmap(12)), 2048, 4)
        .map(|_| ())
        .unwrap_err();
    assert!(matches!(e, FramePoolError::Reserve(ReserveError::Mmap(12))));
    assert_eq!(
        e.message("no memory"),
        "frame pool reservation failed: toccata reservation mmap failed: no memory"
    );
    assert!(FramePool::<()>::reserve_opts(4, 1500, ReserveOpts::new(0)).is_err());
    let mut p: NamedPool<RefCount> = NamedPool::new();
    assert!(p.configure_sized(Err(ReserveError::Mmap(12)), 2048, 4).is_err());
    assert!(!p.is_configured());
}

#[test]
fn recycling_skips_the_metadata() {
    let mut p = pool::<RefCount>();
    let f = p.allocate(&me()).unwrap();
    assert_eq!(p.meta_mut(&f).release(), Reclaim::Free);
    p.recycle(&me(), f);
    assert_eq!(p.allocate(&me()).unwrap(), f);
    assert_eq!(p.meta(&f).count(), 1);
}

#[test]
fn a_frame_knows_its_address() {
    let mut p = pool::<()>();
    let f = p.allocate(&me()).unwrap();
    assert_eq!(f.as_ptr(), f.as_non_null());
    assert_eq!(p.into_addr(f), (f.as_ptr() - BASE) as u64);
}

#[test]
fn handles_run_out_with_the_frames() {
    let (mut p, mut t) = buf_pool();
    let mut held: Vec<FrameMut> = Vec::new();
    while let Some(w) = FrameMut::new(p.frames(), &mut t) {
        held.push(w);
    }
    assert_eq!(held.len(), N);
    let w = held.pop().unwrap();
    let at = w.frame();
    w.freeze(1).close(p.frames(), &mut t);
    let again = FrameMut::new(p.frames(), &mut t).unwrap();
    assert_eq!(again.frame().as_ptr(), at.as_ptr());
    assert!(FrameMut::new(p.frames(), &mut t).is_none());
}

#[test]
fn windows_of_a_frame_never_overlap() {
    let (mut p, mut t) = buf_pool();
    let w = mut_buf(&mut p, &mut t);
    let data: Vec<u8> = (0..100).collect();
    p.fill(&t, &w, 0, &data);
    let mut rest = w.freeze(100);
    let mut windows: Vec<FrameBuf> = Vec::new();
    for n in [0u16, 7, 30, 1, 20] {
        windows.push(rest.split_to(p.frames(), &t, n));
    }
    windows[2].advance(4);
    windows[4].truncate(3);
    windows.push(rest);
    let mut seen = vec![false; 100];
    for b in &windows {
        let shown = p.payload(&t, b);
        for (k, byte) in shown.iter().enumerate() {
            let at = b.offset() + k;
            assert_eq!(*byte as usize, at);
            assert!(!seen[at]);
            seen[at] = true;
        }
    }
    let total: usize = windows.iter().map(|b| b.len()).sum();
    assert_eq!(total, 100 - 4 - 17);
}

fn helper(k: usize) -> PoolThread {
    PoolThread::new(ThreadView::on_cpu(1 + (k % 3) as u32, 0x8000 + 64 * (k % 3), 1))
}

#[test]
fn typed_shared_cross_thread_drop_is_sound() {
    let size = frame_size_for(std::mem::size_of::<Payload>());
    let mut pool: TypedPool<Payload> = TypedPool::over(named(N, size));
    let mut t = PoolThread::new(me());
    let drops = Rc::new(Cell::new(0));
    // Share on this thread, give the second handle up on another one. The last
    // handle given up returns the frame.
    let n = 2000;
    let mut handles = Vec::new();
    for i in 0..n {
        let s = Shared::new(&mut pool, &mut t, Payload::new(i as u64, &drops)).expect("shared");
        let s2 = s.share(&mut pool, &t);
        handles.push((s, s2));
    }
    for (i, (s, s2)) in handles.into_iter().enumerate() {
        let mut there = helper(i);
        assert_eq!(s2.get(&pool, &there).tag, i as u64);
        assert!(s2.close(&mut pool, &mut there).is_none());
        assert_eq!(drops.get(), i);
        drop(s.close(&mut pool, &mut t));
    }
    assert_eq!(drops.get(), n, "every payload destructor ran exactly once");
    let mut held = Vec::new();
    for i in 0..n {
        match Shared::new(&mut pool, &mut t, Payload::new(i as u64, &drops)) {
            Some(s) => held.push(s),
            None => break,
        }
    }
    assert!(!held.is_empty(), "pool must remain functional after cross-thread Shared drops");
    for s in held {
        drop(s.close(&mut pool, &mut t));
    }
}

#[test]
fn buf_split_windows_cross_thread_drop() {
    let (mut p, mut t) = buf_pool();
    let per_worker = 4000;
    let mut bad = 0;
    for r in 0..per_worker {
        let Some(w) = FrameMut::new(p.frames(), &mut t) else { continue };
        let n = r % 16 + 1;
        p.fill(&t, &w, 0, &vec![n as u8; n]);
        let mut buf = w.freeze(n as u16);
        let a = buf.split_to(p.frames(), &t, (n / 3) as u16);
        let b = buf.split_to(p.frames(), &t, (n / 3) as u16);
        if a.len() + b.len() + buf.len() != n {
            bad += 1;
        }
        // Give the three windows up on three threads.
        for (k, window) in [a, b, buf].into_iter().enumerate() {
            let mut there = helper(k);
            assert!(p.payload(&there, &window).iter().all(|x| *x == n as u8));
            assert_eq!(window.ref_count(p.frames(), &there), 3 - k);
            window.close(p.frames(), &mut there);
            p.frames().leave(&mut there);
        }
    }
    assert_eq!(bad, 0, "split windows must partition the buffer exactly");
}

#[test]
fn a_pool_whose_tables_do_not_fit_is_recognised() {
    assert!(can_build(N * FRAME, FRAME, 4));
    assert!(!can_build(usize::MAX, 8, 4));
    // Nothing is built of a region that is too small, or with an odd frame size.
    assert!(can_build(usize::MAX, 3, 4));
    assert!(can_build(7, 8, u32::MAX));
}

#[test]
fn a_configured_pool_stays_as_it_is() {
    let mut p = named(8, FRAME);
    assert!(p.configure_sized(Ok(Reservation::of_mapping(0, 0, false, None)), 0, 0).is_ok());
    assert!(p.configure_over(0, usize::MAX, 8, u32::MAX).is_ok());
    assert_eq!(p.pool().unwrap().capacity(), 8);
}

#[test]
fn frames_out_and_frames_left_add_up() {
    let mut p = match FramePool::<RefCount>::with_reservation(region(5, FRAME), FRAME, 4) {
        Ok(p) => p,
        Err(e) => panic!("{}", e.message("")),
    };
    for round in 0..3 {
        let held: Vec<Frame> = (0..5).map(|_| p.allocate(&me()).unwrap()).collect();
        assert!(p.allocate(&me()).is_none(), "round {}", round);
        for f in held {
            assert_eq!(p.meta(&f).count(), 1);
            assert_eq!(f.as_ptr(), BASE + p.frame_index(&f) * FRAME);
            p.free(&me(), f);
        }
    }
}
