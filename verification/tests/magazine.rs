use std::collections::HashSet;
use toccata::magazine::{ThreadCache, WarmLines, MAG_CAP, MAG_DRAIN, WARM_MAX};
use toccata::rseq::abi::ThreadView;
use toccata::sizeclass::class_for;
use toccata::subheap::{SubHeap, SubHeapBuilder};
use toccata::sys::reserve::Reservation;

/// The CPUs of the machine that the tests are run for.
const CPUS: u32 = 4;

fn build() -> SubHeap {
    let b = SubHeapBuilder::new("cached", 4 * 1024 * 1024, CPUS).num_cpus(4).cap_per_class(64);
    let mapping = Reservation::of_mapping(0x1_0000_0000, b.reserve_bytes(), true, None);
    match b.build_standalone(Ok(mapping)) {
        Ok(sh) => sh,
        Err(e) => panic!("{}", e.message("")),
    }
}

fn me() -> ThreadView {
    ThreadView::on_cpu(0, 0x7000, 0)
}

#[test]
fn an_empty_cache_serves_nothing_by_itself() {
    let mut tc = ThreadCache::default();
    let class = class_for(64).unwrap();
    assert_eq!(tc.try_pop(class), None);
    let mut warm = WarmLines::new();
    assert_eq!(tc.alloc_prefetch(class, 64, &mut warm), None);
    assert_eq!(warm.len, 0);
}

#[test]
fn refill_fills_the_magazine_and_hands_one_out() {
    let mut sh = build();
    let mut tc = ThreadCache::new();
    let class = class_for(64).unwrap();
    let p = tc.allocate(&mut sh, &me(), class).unwrap();
    // The sub-heap has lent a whole magazine; the rest is served from the cache.
    let lent = sh.live_objects();
    assert!(lent > 1 && lent <= MAG_CAP as u64);
    let mut seen = HashSet::new();
    seen.insert(p);
    for _ in 1..lent {
        assert!(seen.insert(tc.try_pop(class).unwrap()));
    }
    assert_eq!(tc.try_pop(class), None);
    assert_eq!(sh.live_objects(), lent);
}

#[test]
fn the_last_object_pushed_is_popped_first() {
    let mut sh = build();
    let mut tc = ThreadCache::new();
    let class = class_for(64).unwrap();
    let a = tc.allocate(&mut sh, &me(), class).unwrap();
    let b = tc.allocate(&mut sh, &me(), class).unwrap();
    assert!(tc.try_push(a, class));
    assert!(tc.try_push(b, class));
    assert_eq!(tc.try_pop(class), Some(b));
    assert_eq!(tc.try_pop(class), Some(a));
}

#[test]
fn a_full_magazine_drains_a_batch() {
    let mut sh = build();
    let mut tc = ThreadCache::new();
    let class = class_for(4096).unwrap();
    let mut held = Vec::new();
    for _ in 0..2 * MAG_CAP {
        held.push(sh.alloc_class(&me(), class).unwrap());
    }
    let before = sh.live_objects();
    for _ in 0..MAG_CAP {
        assert!(tc.try_push(held.pop().unwrap(), class));
    }
    let extra = held.pop().unwrap();
    assert!(!tc.try_push(extra, class));
    assert_eq!(sh.live_objects(), before);
    tc.free(&mut sh, &me(), extra, class);
    assert_eq!(sh.live_objects(), before - MAG_DRAIN as u64);
}

#[test]
fn flushing_returns_every_cached_object() {
    let mut sh = build();
    let mut tc = ThreadCache::new();
    for size in [8usize, 64, 1500, 16384] {
        let class = class_for(size).unwrap();
        let p = tc.allocate(&mut sh, &me(), class).unwrap();
        tc.free(&mut sh, &me(), p, class);
    }
    assert!(sh.live_objects() > 0);
    tc.flush_all(&mut sh, &me());
    assert_eq!((sh.live_objects(), sh.live_bytes()), (0, 0));
}

#[test]
fn warm_lines_name_the_objects_ahead() {
    let mut sh = build();
    let mut tc = ThreadCache::new();
    let class = class_for(1024).unwrap();
    let _ = tc.allocate(&mut sh, &me(), class).unwrap();
    let mut warm = WarmLines::new();
    let first = tc.alloc_prefetch(class, 1024, &mut warm).unwrap();
    assert_eq!(warm.len, WARM_MAX);
    let near = tc.try_pop(class).unwrap();
    let _ = tc.try_pop(class).unwrap();
    let far = tc.try_pop(class).unwrap();
    assert_ne!(first, near);
    assert_eq!(warm.lines, [far, far + 64, near, near + 64, near + 128, near + 192]);
}

#[test]
fn a_refill_is_handed_out_in_its_order() {
    let class = class_for(64).unwrap();
    let mut sh = build();
    let mut batch = [0usize; MAG_CAP];
    assert_eq!(sh.refill_batch(&me(), class, &mut batch), MAG_CAP);
    // The same heap again, through a cache.
    let mut sh = build();
    let mut tc = ThreadCache::new();
    for want in batch {
        assert_eq!(tc.allocate(&mut sh, &me(), class), Some(want));
    }
    assert_eq!(sh.live_objects(), MAG_CAP as u64);
}

#[test]
fn a_magazine_takes_exactly_its_capacity() {
    let mut tc = ThreadCache::new();
    for class in [0, 1, 48] {
        assert_eq!(tc.try_pop(class), None);
        for k in 0..MAG_CAP {
            assert!(tc.try_push(0x1000 + k, class));
        }
        assert!(!tc.try_push(0x9000, class));
        assert_eq!(tc.try_pop(class), Some(0x1000 + MAG_CAP - 1));
        assert!(tc.try_push(0x9000, class));
    }
    assert_eq!(tc.try_pop(2), None);
}
