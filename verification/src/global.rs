//! The process-wide allocator: one sub-heap behind per-thread caches.
//!
//! Until it is configured every request goes to the system allocator. From then
//! on small requests are served from the calling thread's magazines, others from
//! the sub-heap directly. A free is routed by address alone: what lies in the
//! pool is the pool's, everything else was the system's. When the budget is
//! exhausted the process is to abort: a fast, clean crash at a chosen budget.

use vstd::prelude::*;
use crate::magazine::{
    lemma_warm_lines, mag_ok, warm_lines, ThreadCache, WarmLines, MAG_CAP, MAG_DRAIN,
};
use crate::meta::SPAN_BYTES;
use crate::rseq::abi::ThreadView;
use crate::sizeclass::{
    aligned_class, class_of, class_size, is_class, lemma_aligned_fits, lemma_class_sizes,
    lemma_every_small_size, lemma_smallest_fits, lemma_smallest_unique, size_of_class,
    smallest_aligned, smallest_class, CLASS_SIZES, MAX_SMALL, MIN_ALIGN, NUM_CLASSES,
};
use crate::subheap::heap::{free_groups, fully_free, SpanKind, LARGE_CLASS};
use crate::subheap::laws::lemma_spans_for;
use crate::subheap::{built_as, spans_for, OnExhaust, SubHeap, SubHeapBuilder};
use crate::supervisor::Supervisor;
use crate::sys::reserve::{Reservation, ReserveError};

verus! {

/// Requests from this size on have the next objects' cache lines warmed.
pub const WARM_FROM: usize = 1024;

/// A snapshot of the allocator's accounting.
#[derive(Clone, Copy, Debug)]
pub struct Stats {
    /// Bytes handed out and not freed.
    pub live_bytes: usize,
    /// Objects handed out and not freed.
    pub live_objects: u64,
    /// Bytes ever carved from the arena: the peak footprint.
    pub carved_bytes: usize,
    /// Bytes of the budget.
    pub budget_bytes: usize,
}

/// Why a request is answered by an abort.
#[derive(Clone, Copy, Debug, PartialEq, Eq, Structural)]
pub enum Why {
    /// The budget is exhausted.
    BudgetExhausted,
    /// No span is aligned as asked.
    AlignmentTooLarge,
}

impl Why {
    /// The reason in words.
    pub fn text(&self) -> (s: &'static str)
        ensures
            s@ == (match self {
                Why::BudgetExhausted => "global sub-heap budget exhausted"@,
                Why::AlignmentTooLarge => "alignment exceeds span size"@,
            }),
    {
        match self {
            Why::BudgetExhausted => "global sub-heap budget exhausted",
            Why::AlignmentTooLarge => "alignment exceeds span size",
        }
    }
}

/// The answer to a request.
#[derive(Clone, Copy, Debug, PartialEq, Eq, Structural)]
pub enum Served {
    /// An empty request: any aligned address will do.
    Dangling(usize),
    /// Served from the pool.
    Pool(usize),
    /// To be served by the system allocator.
    System,
    /// Not to be served: report the reason and abort.
    Abort(Why),
}

impl Served {
    /// The address, where it was served from the pool.
    pub open spec fn pooled(&self) -> Option<usize> {
        match *self {
            Served::Pool(a) => Some(a),
            _ => None,
        }
    }
}

/// The answer to a free.
#[derive(Clone, Copy, Debug, PartialEq, Eq, Structural)]
pub enum Freed {
    /// An empty block: nothing to free.
    Nothing,
    /// Freed to the pool.
    Pool,
    /// To be freed by the system allocator.
    System,
}

/// A thread's side of the allocator: its magazines, and whether it has seen the
/// pool yet.
pub struct Tls {
    bound: bool,
    cache: ThreadCache,
}

/// The allocator.
pub struct Toccata {
    main: Option<SubHeap>,
    pool_base: usize,
    pool_end: usize,
}

/// Bytes a block of this size and alignment needs.
pub open spec fn needed(size: int, align: int) -> int {
    if size < align {
        align
    } else {
        size
    }
}

/// Whether `b` builds the allocator's own pool: of this budget, for this many
/// CPUs, with everything else left as it is by default, and an abort on
/// exhaustion.
pub open spec fn default_builder(b: SubHeapBuilder, total: int, num_cpus: int) -> bool {
    &&& b.wf()
    &&& b.label()@ == "global"@
    &&& b.budget() == total
    &&& b.policy() == OnExhaust::Abort
    &&& b.cpus() == if num_cpus > 1 {
        num_cpus
    } else {
        1
    }
    &&& b.shards_set() is None
    &&& b.cap() == 256
}

/// Whether a request is served through the magazines.
pub open spec fn is_small(size: int, align: int) -> bool {
    needed(size, align) <= MAX_SMALL && align <= MIN_ALIGN
}

impl Tls {
    pub closed spec fn is_bound(&self) -> bool {
        self.bound
    }

    pub closed spec fn magazines(&self) -> ThreadCache {
        self.cache
    }

    /// The side of a thread that has not allocated yet.
    pub fn new() -> (t: Tls)
        ensures
            !t.is_bound(),
            t.magazines().wf(),
            t.magazines().is_empty(),
    {
        Tls { bound: false, cache: ThreadCache::new() }
    }

    /// Whether there is a pool, remembered from the first time on.
    fn heap(&mut self, g: &Toccata) -> (b: bool)
        requires
            g.ready(old(self)),
        ensures
            b == g.sub() is Some,
            final(self).is_bound() == b,
            final(self).magazines() == old(self).magazines(),
            g.ready(final(self)),
    {
        if !self.bound && g.main.is_some() {
            self.bound = true;
        }
        self.bound
    }
}

impl Toccata {
    /// The pool, once configured.
    pub closed spec fn sub(&self) -> Option<SubHeap> {
        self.main
    }

    pub closed spec fn base(&self) -> int {
        self.pool_base as int
    }

    pub closed spec fn end(&self) -> int {
        self.pool_end as int
    }

    /// The pool is in order, and the recorded range is that of its reservation,
    /// with the arena inside; empty until there is a pool.
    pub open spec fn wf(&self) -> bool {
        match self.sub() {
            Some(s) => {
                &&& s.wf()
                &&& self.base() <= s.heap().base()
                &&& s.heap().base() + s.heap().size() <= self.end()
                &&& s.reserved() matches Some(res) && self.base() == res.start() && self.end()
                    == res.start() + res.size()
            },
            None => self.base() == 0 && self.end() == 0,
        }
    }

    /// The allocator is in order, and so are the thread's magazines.
    pub open spec fn ready(&self, t: &Tls) -> bool {
        &&& self.wf()
        &&& t.magazines().wf()
        &&& match self.sub() {
            Some(s) => t.magazines().holds(&s),
            None => !t.is_bound(),
        }
        &&& !t.is_bound() ==> t.magazines().is_empty()
    }

    /// Whether `a` is an object of class `c` that was handed out.
    pub open spec fn lent(&self, t: &Tls, a: int, c: int) -> bool {
        self.sub() matches Some(s) && t.magazines().lent(&s, a, c)
    }

    /// An allocator without a pool.
    pub fn new() -> (g: Toccata)
        ensures
            g.sub() is None,
            g.wf(),
    {
        Toccata { main: None, pool_base: 0, pool_end: 0 }
    }

    /// Whether an address lies in the pool.
    pub fn in_pool(&self, addr: usize) -> (b: bool)
        ensures
            b == (self.base() <= addr < self.end()),
    {
        addr >= self.pool_base && addr < self.pool_end
    }

    /// The accounting; nothing until there is a pool.
    pub fn stats(&self) -> (r: Option<Stats>)
        requires
            self.wf(),
        ensures
            match self.sub() {
                None => r is None,
                Some(s) => r matches Some(x) && {
                    &&& x.live_bytes == s.heap().held_bytes()
                    &&& x.live_objects == s.heap().held_objs()
                    &&& x.carved_bytes == s.heap().carved() * SPAN_BYTES
                    &&& x.budget_bytes == s.budget()
                },
            },
    {
        match &self.main {
            Some(s) => Some(
                Stats {
                    live_bytes: s.live_bytes(),
                    live_objects: s.live_objects(),
                    carved_bytes: s.carved_bytes(),
                    budget_bytes: s.budget_bytes(),
                },
            ),
            None => None,
        }
    }

    /// The builder of a pool of `total_bytes` on a machine of `num_cpus` CPUs.
    pub fn builder(total_bytes: usize, num_cpus: u32) -> (b: SubHeapBuilder)
        ensures
            default_builder(b, total_bytes as int, num_cpus as int),
            b.wf(),
            b.label()@ == "global"@,
            b.budget() == total_bytes,
            b.policy() == OnExhaust::Abort,
            b.cpus() >= 1 && b.cpus() >= num_cpus && (b.cpus() == 1 || b.cpus() == num_cpus),
            b.shards_set() is None,
            b.cap() == 256,
    {
        SubHeapBuilder::new("global", total_bytes, num_cpus).on_exhaust(OnExhaust::Abort)
    }

    /// Configure the allocator with a pool of `total_bytes` on a machine of
    /// `num_cpus` CPUs, over what came of reserving memory for it.
    pub fn configure(
        &mut self,
        total_bytes: usize,
        num_cpus: u32,
        reserved: Result<Reservation, ReserveError>,
    ) -> (r: Result<(), ReserveError>)
        requires
            old(self).wf(),
            old(self).sub() is None ==> forall|b: SubHeapBuilder| #[trigger]
                default_builder(b, total_bytes as int, num_cpus as int) ==> b.fits() && (
                reserved matches Ok(res) ==> b.held_by(res)),
        ensures
            final(self).wf(),
            old(self).sub() is Some ==> r is Ok && *final(self) == *old(self),
            old(self).sub() is None ==> match reserved {
                Err(e) => r == Err::<(), ReserveError>(e) && *final(self) == *old(self),
                Ok(res) => r is Ok && (final(self).sub() matches Some(s) && exists|
                    b: SubHeapBuilder,
                | #[trigger]
                    default_builder(b, total_bytes as int, num_cpus as int) && built_as(s, b, res)),
            },
    {
        let builder = Toccata::builder(total_bytes, num_cpus);
        assert(default_builder(builder, total_bytes as int, num_cpus as int));
        self.configure_with(builder, reserved)
    }

    /// Configure the allocator with a pool of a builder's making. The first
    /// configuration wins: a later one changes nothing.
    pub fn configure_with(
        &mut self,
        builder: SubHeapBuilder,
        reserved: Result<Reservation, ReserveError>,
    ) -> (r: Result<(), ReserveError>)
        requires
            old(self).wf(),
            old(self).sub() is None ==> builder.wf() && builder.fits() && (
            reserved matches Ok(res) ==> builder.held_by(res)),
        ensures
            final(self).wf(),
            old(self).sub() is Some ==> r is Ok && *final(self) == *old(self),
            old(self).sub() is None ==> match reserved {
                Err(e) => r == Err::<(), ReserveError>(e) && *final(self) == *old(self),
                Ok(res) => r is Ok && (final(self).sub() matches Some(s) && built_as(
                    s,
                    builder,
                    res,
                )),
            },
    {
        if self.main.is_some() {
            return Ok(());
        }
        match builder.build_standalone(reserved) {
            Err(e) => Err(e),
            Ok(sub) => {
                let (base, len) = sub.reservation_range();
                proof {
                    builder.lemma_arena(&sub, reserved->Ok_0);
                }
                self.pool_base = base;
                self.pool_end = base + len;
                self.main = Some(sub);
                Ok(())
            },
        }
    }
}

impl Toccata {
    /// The pool is configured and laid out as in `other`.
    pub open spec fn same_pool(&self, other: &Toccata) -> bool {
        &&& self.base() == other.base()
        &&& self.end() == other.end()
        &&& match (self.sub(), other.sub()) {
            (Some(s), Some(o)) => s.same_config(&o),
            (None, None) => true,
            _ => false,
        }
    }

    /// Exactly the object of class `c` at `a` has been handed out.
    pub open spec fn lent_gained(&self, t: &Tls, other: &Toccata, u: &Tls, a: int, c: int) -> bool {
        self.sub() matches Some(s) && other.sub() matches Some(o) && t.magazines().lent_gained(
            &s,
            &u.magazines(),
            &o,
            a,
            c,
        ) && s.heap().same_runs(&o.heap())
    }

    /// Nothing has changed hands.
    pub open spec fn lent_same(&self, t: &Tls, other: &Toccata, u: &Tls) -> bool {
        self.sub() matches Some(s) && other.sub() matches Some(o) && t.magazines().lent_same(
            &s,
            &u.magazines(),
            &o,
        ) && s.heap().same_runs(&o.heap())
    }

    /// What a small request of class `c` gives: the top of the thread's magazine,
    /// else the first object of a refill.
    pub open spec fn served_small(
        &self,
        t: &Tls,
        other: &Toccata,
        u: &Tls,
        seen: ThreadView,
        c: int,
        r: Served,
    ) -> bool {
        let m = u.magazines()@[c];
        match other.sub() {
            None => r == Served::System && self.sub() is None && t.magazines() == u.magazines(),
            Some(o) => {
                let order = o.refill_order(seen, c);
                &&& r matches Served::Pool(a) ==> self.lent_gained(t, other, u, a as int, c)
                &&& r !is Pool ==> r == Served::Abort(Why::BudgetExhausted) && self.lent_same(
                    t,
                    other,
                    u,
                )
                &&& r is Abort <==> m.len() == 0 && order.len() == 0 && !o.heap().can_carve(c)
                &&& m.len() > 0 ==> r == Served::Pool(m.last()) && t.magazines()@
                    == u.magazines()@.update(c, m.drop_last()) && self.sub() == other.sub()
                &&& m.len() == 0 ==> self.sub() is Some && t.magazines().refilled(
                    &self.sub()->0,
                    &u.magazines(),
                    &o,
                    seen,
                    c,
                    r.pooled(),
                )
            },
        }
    }

    /// What a request for an object of class `c` straight from the pool gives.
    pub open spec fn served_object(
        &self,
        t: &Tls,
        other: &Toccata,
        u: &Tls,
        seen: ThreadView,
        c: int,
        r: Served,
    ) -> bool {
        let o = other.sub()->0;
        &&& self.sub() matches Some(s) && s.object_served(&o, seen, c, r.pooled())
        &&& r matches Served::Pool(a) ==> self.lent_gained(t, other, u, a as int, c)
        &&& r !is Pool ==> r == Served::Abort(Why::BudgetExhausted) && self.lent_same(t, other, u)
        &&& r is Abort <==> o.cached(seen, c).len() == 0 && o.refill_order(seen, c).len() == 0
            && !o.heap().can_carve(c)
        &&& t.magazines() == u.magazines()
    }

    /// What a request for a run of spans gives.
    pub open spec fn served_run(
        &self,
        t: &Tls,
        other: &Toccata,
        u: &Tls,
        need: int,
        r: Served,
    ) -> bool {
        let o = other.sub()->0;
        let s = self.sub()->0;
        &&& r matches Served::Pool(a) ==> s.run_gained(&o, a as int, spans_for(need))
        &&& r !is Pool ==> r == Served::Abort(Why::BudgetExhausted) && s == o
        &&& r is Pool <==> o.heap().run_available(spans_for(need))
        &&& t.magazines() == u.magazines()
    }

    /// Serve a request for `size` bytes at a multiple of `align`, and list in
    /// `warm` the cache lines that the next requests of its class will write.
    pub fn allocate(
        &mut self,
        t: &mut Tls,
        seen: &ThreadView,
        size: usize,
        align: usize,
        warm: &mut WarmLines,
    ) -> (r: Served)
        requires
            old(self).ready(old(t)),
            align > 0,
        ensures
            final(self).ready(final(t)),
            final(self).same_pool(old(self)),
            size == 0 ==> r == Served::Dangling(align) && *final(self) == *old(self) && *final(t)
                == *old(t),
            size > 0 && is_small(size as int, align as int) ==> forall|c: int| #[trigger]
                smallest_class(needed(size as int, align as int), c) ==> {
                    &&& final(self).served_small(final(t), old(self), old(t), *seen, c, r)
                    &&& final(warm)@ == if r is Pool && needed(size as int, align as int)
                        >= WARM_FROM && old(t).magazines()@[c].len() > 0 {
                        warm_lines(old(t).magazines()@[c].drop_last(), class_size(c))
                    } else {
                        Seq::<usize>::empty()
                    }
                },
            size > 0 && !is_small(size as int, align as int) ==> match old(self).sub() {
                None => r == Served::System && final(self).sub() is None && final(t).magazines()
                    == old(t).magazines(),
                Some(o) => if needed(size as int, align as int) > MAX_SMALL {
                    if align > SPAN_BYTES {
                        &&& r == Served::Abort(Why::AlignmentTooLarge)
                        &&& *final(self) == *old(self)
                        &&& final(t).magazines() == old(t).magazines()
                    } else {
                        final(self).served_run(
                            final(t),
                            old(self),
                            old(t),
                            needed(size as int, align as int),
                            r,
                        )
                    }
                } else {
                    &&& forall|c: int| #[trigger]
                        smallest_aligned(needed(size as int, align as int), align as int, c)
                            ==> final(self).served_object(
                            final(t),
                            old(self),
                            old(t),
                            *seen,
                            c,
                            r,
                        )
                    &&& (!exists|c: int|
                        smallest_aligned(needed(size as int, align as int), align as int, c))
                        ==> final(self).served_run(
                        final(t),
                        old(self),
                        old(t),
                        needed(size as int, align as int),
                        r,
                    )
                },
            },
            size < 1024 && align < 1024 ==> final(warm)@.len() == 0,
            1024 <= size <= 262144 && align <= 8 && r is Pool ==> forall|c: int| #[trigger]
                smallest_class(size as int, c) && old(t).magazines()@[c].len() > 1 ==> final(warm)@.len() > 0,
            size > 0 ==> (r == Served::System <==> old(self).sub() is None),
            size > 0 ==> (r == Served::Abort(Why::AlignmentTooLarge) <==> old(self).sub() is Some
                && align > 65536 && (size > 262144 || align > 262144)),
            r == Served::Abort(Why::BudgetExhausted) && (size > 262144 || align > 262144)
                ==> forall|s: int, n: int|
                n * 65536 >= size && n * 65536 >= align ==> !(
                #[trigger] old(self).sub()->0.heap().loose_row(s, n)) && (
                old(self).sub()->0.heap().carved() + n) * 65536 > old(self).sub()->0.budget(),
            r !is Pool ==> forall|b: int, d: int|
                1 <= d < 49 ==> (#[trigger] final(self).lent(final(t), b, d) <==> old(self).lent(
                    old(t),
                    b,
                    d,
                )),
            forall|b: int, d: int|
                1 <= d < 49 && #[trigger] old(self).lent(old(t), b, d) ==> final(self).lent(
                    final(t),
                    b,
                    d,
                ),
            r matches Served::Pool(a) ==> {
                ||| exists|c: int|
                    {
                        &&& #[trigger] final(self).lent(final(t), a as int, c)
                        &&& !old(self).lent(old(t), a as int, c)
                        &&& 1 <= c < 49
                        &&& CLASS_SIZES@[c] >= size
                        &&& CLASS_SIZES@[c] >= align
                        &&& align > 8 ==> CLASS_SIZES@[c] as int % align as int == 0
                        &&& forall|d: int|
                            1 <= d < c ==> (#[trigger] CLASS_SIZES@[d]) < size || CLASS_SIZES@[d]
                                < align || (align > 8 && CLASS_SIZES@[d] as int % align as int != 0)
                    }
                ||| exists|n: int|
                    {
                        &&& #[trigger] final(self).run(a as int, n)
                        &&& !old(self).run(a as int, n)
                        &&& size > 262144 || align > 8
                        &&& n * 65536 >= size
                        &&& n * 65536 >= align
                        &&& (n - 1) * 65536 < size || (n - 1) * 65536 < align
                    }
            },
    {
        warm.len = 0;
        assert(warm@ =~= Seq::<usize>::empty());
        if size == 0 {
            proof {
                self.lemma_same_pool_refl();
            }
            return Served::Dangling(align);
        }
        let need: usize = if size < align {
            align
        } else {
            size
        };
        if need <= MAX_SMALL && align <= MIN_ALIGN {
            return self.serve_small(t, seen, need, warm);
        }
        let ghost before = *self;
        let ghost u = *t;
        proof {
            self.lemma_same_pool_refl();
        }
        if !t.heap(self) {
            return Served::System;
        }
        if need > MAX_SMALL {
            if align > SPAN_BYTES {
                return Served::Abort(Why::AlignmentTooLarge);
            }
            return self.serve_run(t, seen, need);
        }
        match aligned_class(need, align) {
            Some(c) => {
                proof {
                    assert forall|d: int| #[trigger]
                        smallest_aligned(need as int, align as int, d) implies d == c by {
                        assert(smallest_aligned(need as int, align as int, c as int));
                        if d < c {
                            assert(class_size(d) >= need);
                        }
                        if c < d {
                            assert(class_size(c as int) >= need);
                        }
                    }
                }
                self.serve_object(t, seen, c)
            },
            None => self.serve_run(t, seen, need),
        }
    }

    proof fn lemma_same_pool_refl(&self)
        ensures
            self.same_pool(self),
    {
    }

    fn serve_small(&mut self, t: &mut Tls, seen: &ThreadView, need: usize, warm: &mut WarmLines) -> (r:
        Served)
        requires
            old(self).ready(old(t)),
            0 < need <= MAX_SMALL,
            old(warm)@ == Seq::<usize>::empty(),
        ensures
            final(self).ready(final(t)),
            final(self).same_pool(old(self)),
            forall|c: int| #[trigger]
                smallest_class(need as int, c) ==> {
                    &&& final(self).served_small(final(t), old(self), old(t), *seen, c, r)
                    &&& final(warm)@ == if r is Pool && need >= WARM_FROM
                        && old(t).magazines()@[c].len() > 0 {
                        warm_lines(old(t).magazines()@[c].drop_last(), class_size(c))
                    } else {
                        Seq::<usize>::empty()
                    }
                },
            need < 1024 ==> final(warm)@.len() == 0,
            need >= 1024 && r is Pool ==> forall|c: int| #[trigger]
                smallest_class(need as int, c) && old(t).magazines()@[c].len() > 1 ==> final(warm)@.len() > 0,
            r !is Pool ==> forall|b: int, d: int|
                1 <= d < 49 ==> (#[trigger] final(self).lent(final(t), b, d) <==> old(self).lent(
                    old(t),
                    b,
                    d,
                )),
            forall|b: int, d: int|
                1 <= d < 49 && #[trigger] old(self).lent(old(t), b, d) ==> final(self).lent(
                    final(t),
                    b,
                    d,
                ),
            r is System <==> old(self).sub() is None,
            r is Pool || r is System || r == Served::Abort(Why::BudgetExhausted),
            r matches Served::Pool(a) ==> exists|c: int|
                {
                    &&& #[trigger] final(self).lent(final(t), a as int, c)
                    &&& !old(self).lent(old(t), a as int, c)
                    &&& 1 <= c < 49
                    &&& CLASS_SIZES@[c] >= need
                    &&& forall|d: int| 1 <= d < c ==> (#[trigger] CLASS_SIZES@[d]) < need
                },
    {
        let ghost before = *self;
        let ghost u = *t;
        let ghost cache0 = t.cache;
        let class: usize = match class_of(need) {
            Some(c) => c,
            None => {
                return Served::System;
            },
        };
        proof {
            self.lemma_same_pool_refl();
            t.cache.lemma_len();
            assert forall|c: int| #[trigger] smallest_class(need as int, c) implies c == class by {
                lemma_smallest_unique(need as int, c, class as int);
            }
        }
        let hit: Option<usize> = if need >= WARM_FROM {
            t.cache.alloc_prefetch(class, size_of_class(class), warm)
        } else {
            t.cache.try_pop(class)
        };
        let r = match hit {
            Some(a) => {
                proof {
                    assert(cache0@[class as int].len() > 0);
                    if let Some(s) = before.main {
                        t.cache.lemma_popped(&s, &cache0, class as int);
                    }
                }
                Served::Pool(a)
            },
            None => {
                let ghost missed = t.cache;
                if !t.heap(self) {
                    return Served::System;
                }
                match &mut self.main {
                    Some(sub) => {
                        let r = t.cache.refill(sub, seen, class);
                        proof {
                            t.cache.lemma_refilled(
                                sub,
                                &missed,
                                &before.main->0,
                                class as int,
                                r,
                            );
                        }
                        match r {
                            Some(a) => Served::Pool(a),
                            None => Served::Abort(Why::BudgetExhausted),
                        }
                    },
                    None => Served::System,
                }
            },
        };
        proof {
            assert(self.served_small(t, &before, &u, *seen, class as int, r));
            if need >= 1024 && cache0@[class as int].len() > 1 {
                lemma_warm_lines(cache0@[class as int].drop_last(), class_size(class as int));
            }
            if let Served::Pool(a) = r {
                assert(self.lent(t, a as int, class as int));
            }
            if before.sub() is Some {
                let s = self.sub()->0;
                let o = before.sub()->0;
                assert forall|b: int, d: int|
                    1 <= d < 49 && !(r.pooled() matches Some(a) && b == a && d == class) implies (
                #[trigger] self.lent(t, b, d) <==> before.lent(&u, b, d)) by {
                    assert(is_class(d));
                    assert(t.magazines().lent(&s, b, d) <==> u.magazines().lent(&o, b, d));
                }
            }
        }
        r
    }

    fn serve_object(&mut self, t: &Tls, seen: &ThreadView, class: usize) -> (r: Served)
        requires
            old(self).ready(t),
            old(self).sub() is Some,
            is_class(class as int),
        ensures
            final(self).ready(t),
            final(self).same_pool(old(self)),
            final(self).served_object(t, old(self), t, *seen, class as int, r),
            r is Pool || r == Served::Abort(Why::BudgetExhausted),
            r matches Served::Pool(a) ==> final(self).lent(t, a as int, class as int) && !old(
                self,
            ).lent(t, a as int, class as int),
    {
        let ghost before = *self;
        match &mut self.main {
            Some(sub) => {
                let r = sub.alloc_class(seen, class);
                proof {
                    let o = before.main->0;
                    match r {
                        Some(a) => {
                            t.cache.lemma_direct(sub, &o, a as int, class as int);
                        },
                        None => {
                            assert forall|b: int, d: int| #[trigger] sub.live(b, d) <==> o.live(
                                b,
                                d,
                            ) by {
                                assert(sub.heap().live(b, d) <==> o.heap().live(b, d));
                            }
                            t.cache.lemma_same_live(sub, &o);
                        },
                    }
                }
                match r {
                    Some(a) => Served::Pool(a),
                    None => Served::Abort(Why::BudgetExhausted),
                }
            },
            None => Served::System,
        }
    }

    fn serve_run(&mut self, t: &Tls, seen: &ThreadView, need: usize) -> (r: Served)
        requires
            old(self).ready(t),
            old(self).sub() is Some,
        ensures
            final(self).ready(t),
            final(self).same_pool(old(self)),
            final(self).served_run(t, old(self), t, need as int, r),
            r is Pool || r == Served::Abort(Why::BudgetExhausted),
            r !is Pool ==> forall|s: int, n: int|
                n >= 1 && n * 65536 >= need ==> !(
                #[trigger] old(self).sub()->0.heap().loose_row(s, n)) && (
                old(self).sub()->0.heap().carved() + n) * 65536 > old(self).sub()->0.budget(),
            forall|b: int, d: int| #[trigger] final(self).lent(t, b, d) <==> old(self).lent(t, b, d),
            r matches Served::Pool(a) ==> exists|n: int| final(self).run(a as int, n),
            r matches Served::Pool(a) ==> forall|n: int| #[trigger]
                final(self).run(a as int, n) ==> {
                    &&& !old(self).run(a as int, n)
                    &&& n >= 1
                    &&& n * 65536 >= need
                    &&& (n - 1) * 65536 < need || n == 1
                },
    {
        let ghost before = *self;
        let r = match &mut self.main {
            Some(sub) => {
                let r = sub.alloc_large(seen, need);
                proof {
                    let o = before.main->0;
                    t.cache.lemma_same_live(sub, &o);
                }
                match r {
                    Some(a) => Served::Pool(a),
                    None => Served::Abort(Why::BudgetExhausted),
                }
            },
            None => Served::System,
        };
        proof {
            if let Served::Pool(a) = r {
                lemma_spans_for(need as int);
                assert(self.run(a as int, spans_for(need as int)));
            }
        }
        r
    }
}

impl Toccata {
    /// Whether a block of this size and alignment at `addr` may be freed: it is
    /// empty, or outside the pool, or one that was handed out and not freed.
    pub open spec fn may_free(&self, t: &Tls, addr: int, size: int, align: int) -> bool {
        size > 0 && self.base() <= addr < self.end() ==> if is_small(size, align) {
            forall|c: int| #[trigger]
                smallest_class(needed(size, align), c) ==> self.lent(t, addr, c)
        } else {
            match self.sub()->0.tag_at(addr) {
                None => true,
                Some(k) => if k == LARGE_CLASS {
                    exists|len: int| self.sub()->0.live_run(addr, len)
                } else {
                    self.lent(t, addr, k as int)
                },
            }
        }
    }

    /// Free the block of this size and alignment at `addr`.
    pub fn dealloc(
        &mut self,
        t: &mut Tls,
        seen: &ThreadView,
        addr: usize,
        size: usize,
        align: usize,
    ) -> (r: Freed)
        requires
            old(self).ready(old(t)),
            align > 0,
            old(self).may_free(old(t), addr as int, size as int, align as int),
        ensures
            final(self).ready(final(t)),
            final(self).same_pool(old(self)),
            r == (if size == 0 {
                Freed::Nothing
            } else if old(self).base() <= addr < old(self).end() {
                Freed::Pool
            } else {
                Freed::System
            }),
            r !is Pool ==> *final(self) == *old(self) && *final(t) == *old(t),
            r is Pool && is_small(size as int, align as int) ==> forall|c: int| #[trigger]
                smallest_class(needed(size as int, align as int), c) ==> {
                    let m = old(t).magazines()@[c];
                    &&& old(self).lent_gained(old(t), final(self), final(t), addr as int, c)
                    &&& m.len() < MAG_CAP ==> final(self).sub() == old(self).sub()
                    &&& m.len() == MAG_CAP ==> (old(self).sub() matches Some(o) && final(self).sub() matches Some(
                        s) && s.batch_lost(&o, *seen, m.take(MAG_DRAIN as int), c))
                    &&& final(t).magazines()@ == old(t).magazines()@.update(
                        c,
                        (if m.len() < MAG_CAP {
                            m
                        } else {
                            m.skip(MAG_DRAIN as int)
                        }).push(addr),
                    )
                },
            r is Pool && !is_small(size as int, align as int) ==> (old(self).sub() matches Some(o)
                && final(self).sub() matches Some(s) && final(t).magazines() == old(
                t,
            ).magazines() && match o.tag_at(addr as int) {
                None => s == o,
                Some(k) => if k == LARGE_CLASS {
                    forall|len: int| #[trigger]
                        o.live_run(addr as int, len) ==> s.run_lost(&o, addr as int, len)
                } else {
                    &&& old(self).lent_gained(
                        old(t),
                        final(self),
                        final(t),
                        addr as int,
                        k as int,
                    )
                    &&& s.object_freed(&o, *seen, addr, k as int)
                },
            }),
            forall|b: int, d: int|
                1 <= d < 49 && b != addr ==> (#[trigger] final(self).lent(final(t), b, d) <==> old(
                    self,
                ).lent(old(t), b, d)),
            r is Pool && !(size <= 262144 && align <= 8) ==> forall|c: int| #[trigger]
                old(self).lent(old(t), addr as int, c) ==> !final(self).lent(final(t), addr as int, c),
            r is Pool && !(size <= 262144 && align <= 8) ==> forall|n: int| #[trigger]
                old(self).run(addr as int, n) ==> !final(self).run(addr as int, n),
            r is Pool && size <= 262144 && align <= 8 ==> exists|c: int|
                {
                    &&& #[trigger] old(self).lent(old(t), addr as int, c)
                    &&& !final(self).lent(final(t), addr as int, c)
                    &&& 1 <= c < 49
                    &&& CLASS_SIZES@[c] >= size
                    &&& CLASS_SIZES@[c] >= align
                    &&& forall|d: int|
                        1 <= d < c ==> (#[trigger] CLASS_SIZES@[d]) < size || CLASS_SIZES@[d] < align
                },
    {
        proof {
            self.lemma_same_pool_refl();
        }
        if size == 0 {
            return Freed::Nothing;
        }
        if !self.in_pool(addr) {
            return Freed::System;
        }
        let need: usize = if size < align {
            align
        } else {
            size
        };
        let ghost before = *self;
        let ghost u = *t;
        t.heap(self);
        proof {
            t.cache.lemma_len();
        }
        if need <= MAX_SMALL && align <= MIN_ALIGN {
            match class_of(need) {
                Some(class) => {
                    proof {
                        assert forall|c: int| #[trigger]
                            smallest_class(need as int, c) implies c == class by {
                            lemma_smallest_unique(
                                need as int,
                                c,
                                class as int,
                            );
                        }
                        assert(smallest_class(need as int, class as int));
                        assert(before.lent(&u, addr as int, class as int));
                    }
                    match &mut self.main {
                        Some(sub) => {
                            t.cache.free(sub, seen, addr, class);
                            proof {
                                let o = before.main->0;
                                assert forall|b: int, len: int| #[trigger]
                                    o.heap().live_run(b, len) <==> sub.heap().live_run(b, len) by {
                                    assert(sub.heap().live_run(b, len) <==> o.heap().live_run(
                                        b,
                                        len,
                                    ));
                                }
                            }
                        },
                        None => {},
                    }
                },
                None => {},
            }
            return Freed::Pool;
        }
        match &mut self.main {
            Some(sub) => {
                proof {
                    let o = before.main->0;
                    assert forall|c: int| #[trigger] before.lent(&u, addr as int, c) implies o.tag_at(
                        addr as int,
                    ) == Some(c as u16) && 1 <= c < 49 by {
                        assert(o.live(addr as int, c));
                        o.lemma_live_objects(addr as int, c, addr as int, c);
                    }
                    assert forall|n: int| #[trigger] before.run(addr as int, n) implies o.tag_at(
                        addr as int,
                    ) == Some(LARGE_CLASS) by {
                        o.lemma_live_run(addr as int, n);
                    }
                    if let Some(k) = o.tag_at(addr as int) {
                        if k != LARGE_CLASS {
                            o.lemma_live_objects(addr as int, k as int, addr as int, k as int);
                        }
                    }
                }
                sub.dealloc_by_ptr(seen, addr);
                proof {
                    let o = before.main->0;
                    match o.tag_at(addr as int) {
                        None => {},
                        Some(k) => {
                            if k == LARGE_CLASS {
                                let len = choose|len: int| o.live_run(addr as int, len);
                                assert(sub.run_lost(&o, addr as int, len));
                                t.cache.lemma_same_live(sub, &o);
                            } else {
                                o.lemma_class_of_live(addr as int, k as int);
                                t.cache.lemma_direct_free(sub, &o, addr as int, k as int);
                                assert forall|b: int, len: int| #[trigger]
                                    o.heap().live_run(b, len) <==> sub.heap().live_run(b, len) by {}
                            }
                        },
                    }
                }
            },
            None => {},
        }
        Freed::Pool
    }

    /// A thread that ends gives its cached objects back.
    pub fn leave(&mut self, t: &mut Tls, seen: &ThreadView)
        requires
            old(self).ready(old(t)),
        ensures
            final(self).ready(final(t)),
            final(self).same_pool(old(self)),
            final(t).magazines().is_empty(),
            old(self).sub() matches Some(o) ==> final(self).lent_same(final(t), old(self), old(t))
                && final(self).sub()->0.heap().same_spans(&o.heap()),
            old(self).sub() is None ==> *final(self) == *old(self),
    {
        let ghost before = *self;
        proof {
            self.lemma_same_pool_refl();
            t.cache.lemma_len();
        }
        if t.bound {
            match &mut self.main {
                Some(sub) => {
                    t.cache.flush_all(sub, seen);
                    proof {
                        t.cache.lemma_len();
                        assert forall|d: int| 0 <= d < NUM_CLASSES implies #[trigger] mag_ok(
                            t.cache@[d],
                            sub,
                            d,
                        ) by {
                            assert(t.cache@[d].len() == 0);
                        }
                    }
                },
                None => {},
            }
        }
    }

    /// Have the supervisor sweep the pool, where there is one. Nothing changes
    /// hands.
    pub fn sweep(&mut self, sup: &mut Supervisor)
        requires
            old(self).wf(),
        ensures
            final(self).wf(),
            final(self).same_pool(old(self)),
            match old(self).sub() {
                None => *final(self) == *old(self) && *final(sup) == *old(sup),
                Some(o) => final(self).sub() matches Some(s) && s.heap().reclaimed(&o.heap())
                    && (forall|g: int|
                    0 <= g < s.heap().kind().len() ==> !#[trigger] fully_free(
                        s.heap().kind(),
                        s.heap().place(),
                        g,
                    )) && final(sup).done() == old(sup).done() && final(sup).idle() == old(
                    sup,
                ).idle() && final(sup).seizes() == old(sup).seizes() && final(sup).pending()
                    == old(sup).pending().wrapping_add(
                    free_groups(
                        o.heap().kind(),
                        o.heap().place(),
                        o.heap().kind().len() as int,
                    ) as u64,
                ),
            },
            forall|t: Tls| #[trigger] old(self).ready(&t) ==> final(self).ready(&t),
    {
        let ghost before = *self;
        proof {
            self.lemma_same_pool_refl();
        }
        match &mut self.main {
            Some(sub) => {
                sup.sweep_one(sub);
                proof {
                    let o = before.main->0;
                    assert forall|b: int, d: int| #[trigger] sub.live(b, d) <==> o.live(b, d) by {
                        assert(sub.heap().live(b, d) <==> o.heap().live(b, d));
                    }
                    assert forall|t: Tls| #[trigger] before.ready(&t) implies t.magazines().holds(
                        sub,
                    ) by {
                        t.magazines().lemma_same_live(sub, &o);
                    }
                }
            },
            None => {},
        }
    }

    /// A block that was handed out for a small request lies in the pool, so that
    /// its free will find its way back; it is large enough, and aligned to eight bytes
    /// and to every power of two up to a page that divides its class's size; up to a
    /// span, as far as the arena is.
    pub proof fn lemma_small_block(&self, t: &Tls, a: int, c: int, need: int, align: int)
        requires
            self.ready(t),
            self.lent(t, a, c),
            is_class(c),
            class_size(c) >= need,
            align > 0,
            class_size(c) % align == 0,
            4096int % align == 0 || (SPAN_BYTES as int % align == 0 && self.sub()->0.heap().base()
                % align == 0),
        ensures
            self.base() <= a,
            a + need <= self.end(),
            a % align == 0,
            a % 8 == 0,
    {
        let s = self.sub()->0;
        s.lemma_live_objects(a, c, a, c);
        s.lemma_budget();
        s.lemma_aligned(a, c, align);
    }

    /// A block that was served holds the bytes that were asked for and as many as the
    /// alignment, whatever they are; it is an object of the smallest class that does,
    /// or a run of the fewest spans that do, and it was in nobody's hands before.
    pub proof fn lemma_request_met(
        &self,
        t: &Tls,
        other: &Toccata,
        u: &Tls,
        seen: ThreadView,
        size: int,
        align: int,
        a: usize,
    )
        requires
            other.sub() is Some,
            self.sub() is Some,
            size > 0,
            align > 0,
            is_small(size, align) ==> forall|c: int| #[trigger]
                smallest_class(needed(size, align), c) ==> self.served_small(
                    t,
                    other,
                    u,
                    seen,
                    c,
                    Served::Pool(a),
                ),
            !is_small(size, align) && needed(size, align) <= MAX_SMALL ==> forall|c: int| #[trigger]
                smallest_aligned(needed(size, align), align, c) ==> self.served_object(
                    t,
                    other,
                    u,
                    seen,
                    c,
                    Served::Pool(a),
                ),
            needed(size, align) > MAX_SMALL || !is_small(size, align) && !(exists|c: int|
                smallest_aligned(needed(size, align), align, c)) ==> self.served_run(
                t,
                other,
                u,
                needed(size, align),
                Served::Pool(a),
            ),
        ensures
            ({
                ||| exists|c: int|
                    {
                        &&& #[trigger] self.lent(t, a as int, c)
                        &&& !other.lent(u, a as int, c)
                        &&& 1 <= c < 49
                        &&& CLASS_SIZES@[c] >= size
                        &&& CLASS_SIZES@[c] >= align
                        &&& align > 8 ==> CLASS_SIZES@[c] as int % align == 0
                        &&& forall|d: int|
                            1 <= d < c ==> (#[trigger] CLASS_SIZES@[d]) < size || CLASS_SIZES@[d]
                                < align || (align > 8 && CLASS_SIZES@[d] as int % align != 0)
                    }
                ||| exists|n: int|
                    {
                        &&& #[trigger] self.run(a as int, n)
                        &&& !other.run(a as int, n)
                        &&& size > 262144 || align > 8
                        &&& n * 65536 >= size
                        &&& n * 65536 >= align
                        &&& (n - 1) * 65536 < size || (n - 1) * 65536 < align
                    }
            }),
    {
        let need = needed(size, align);
        if is_small(size, align) {
            lemma_every_small_size(need);
            let c = choose|c: int| smallest_class(need, c);
            lemma_smallest_fits(need, c);
            assert(self.served_small(t, other, u, seen, c, Served::Pool(a)));
            assert(self.lent(t, a as int, c));
        } else if need <= MAX_SMALL && exists|c: int| smallest_aligned(need, align, c) {
            let c = choose|c: int| smallest_aligned(need, align, c);
            lemma_aligned_fits(need, align, c);
            assert(self.served_object(t, other, u, seen, c, Served::Pool(a)));
            assert(self.lent(t, a as int, c));
        } else {
            let n = spans_for(need);
            lemma_spans_for(need);
            assert(self.run(a as int, n));
            assert(!other.run(a as int, n));
        }
    }

    /// A small request of class `c` is answered by an abort only where the thread's
    /// magazine is empty, no place for an object is free in the spans of its shard,
    /// and neither the budget nor the spans that are not in use give a new one.
    pub proof fn lemma_small_refused(
        &self,
        t: &Tls,
        other: &Toccata,
        u: &Tls,
        seen: ThreadView,
        c: int,
        s: int,
        i: int,
    )
        requires
            other.ready(u),
            other.sub() is Some,
            is_class(c),
            self.served_small(t, other, u, seen, c, Served::Abort(Why::BudgetExhausted)),
        ensures
            u.magazines()@[c].len() == 0,
            i >= 1 && i * 65536 >= CLASS_SIZES@[c] ==> (other.sub()->0.heap().carved() + i) * 65536
                > other.sub()->0.budget(),
            0 <= s < other.sub()->0.heap().kind().len() && other.sub()->0.heap().kind()[s] == (
            SpanKind::Tile {
                class: c,
                shard: seen.shard_id as int % other.sub()->0.heap().shards(),
            }) && 0 <= i && (i + 1) * CLASS_SIZES@[c] <= 65536
                ==> other.sub()->0.heap().place()[s][i] !is Free,
    {
        lemma_class_sizes();
        let o = other.sub()->0;
        let z = class_size(c);
        if 0 <= i && (i + 1) * z <= 65536 {
            assert(z <= 65536) by (nonlinear_arith)
                requires
                    0 <= i,
                    0 <= z,
                    (i + 1) * z <= 65536,
            ;
        }
        o.lemma_used_up(seen, c, s, i);
    }

    /// A request for an aligned object of class `c` is answered by an abort only where the
    /// thread's CPU caches none, no place for one is free in the spans of its shard, and
    /// neither the budget nor the spans that are not in use give a new one.
    pub proof fn lemma_object_refused(
        &self,
        t: &Tls,
        other: &Toccata,
        u: &Tls,
        seen: ThreadView,
        c: int,
        s: int,
        i: int,
    )
        requires
            other.ready(u),
            other.sub() is Some,
            is_class(c),
            self.served_object(t, other, u, seen, c, Served::Abort(Why::BudgetExhausted)),
        ensures
            other.sub()->0.cached(seen, c).len() == 0,
            i >= 1 && i * 65536 >= CLASS_SIZES@[c] ==> (other.sub()->0.heap().carved() + i) * 65536
                > other.sub()->0.budget(),
            0 <= s < other.sub()->0.heap().kind().len() && other.sub()->0.heap().kind()[s] == (
            SpanKind::Tile {
                class: c,
                shard: seen.shard_id as int % other.sub()->0.heap().shards(),
            }) ==> other.sub()->0.heap().place()[s][0] !is Free,
    {
        let o = other.sub()->0;
        o.lemma_object_refused(&self.sub()->0, seen, c, s, i);
    }

    /// A request for a run of spans is answered by an abort only where no row of free spans
    /// holds it and the budget that is left does not either.
    pub proof fn lemma_run_refused(&self, t: &Tls, other: &Toccata, u: &Tls, need: int, s: int, n: int)
        requires
            other.ready(u),
            other.sub() is Some,
            0 <= need,
            self.served_run(t, other, u, need, Served::Abort(Why::BudgetExhausted)),
            n >= 1,
            n * 65536 >= need,
        ensures
            !other.sub()->0.heap().loose_row(s, n),
            (other.sub()->0.heap().carved() + n) * 65536 > other.sub()->0.budget(),
    {
        let o = other.sub()->0;
        o.lemma_large_refused(need);
        assert(!o.heap().loose_row(s, n));
    }

    /// What a request was served from the pool may be freed with the same size and
    /// alignment, and its free goes to the pool.
    pub proof fn lemma_served_may_be_freed(
        &self,
        t: &Tls,
        other: &Toccata,
        u: &Tls,
        seen: ThreadView,
        size: int,
        align: int,
        a: usize,
    )
        requires
            self.ready(t),
            other.ready(u),
            other.sub() is Some,
            self.same_pool(other),
            size > 0,
            align > 0,
            is_small(size, align) ==> forall|c: int| #[trigger]
                smallest_class(needed(size, align), c) ==> self.served_small(
                    t,
                    other,
                    u,
                    seen,
                    c,
                    Served::Pool(a),
                ),
            !is_small(size, align) ==> (exists|c: int|
                is_class(c) && #[trigger] self.served_object(
                    t,
                    other,
                    u,
                    seen,
                    c,
                    Served::Pool(a),
                )) || self.served_run(t, other, u, needed(size, align), Served::Pool(a)),
        ensures
            self.may_free(t, a as int, size, align),
            is_small(size, align) && (exists|c: int| smallest_class(needed(size, align), c))
                || !is_small(size, align) ==> self.base() <= a < self.end(),
    {
        let s = self.sub()->0;
        s.lemma_budget();
        if is_small(size, align) {
            if exists|c: int| smallest_class(needed(size, align), c) {
                let c = choose|c: int| smallest_class(needed(size, align), c);
                assert(self.lent(t, a as int, c));
                s.lemma_live_objects(a as int, c, a as int, c);
                lemma_class_sizes();
            }
        } else if self.served_run(t, other, u, needed(size, align), Served::Pool(a)) {
            let n = spans_for(needed(size, align));
            assert(s.live_run(a as int, n));
            s.lemma_live_run(a as int, n);
            assert(n * SPAN_BYTES >= SPAN_BYTES) by (nonlinear_arith)
                requires
                    n >= 1,
            ;
        } else {
            let c = choose|c: int|
                is_class(c) && #[trigger] self.served_object(
                    t,
                    other,
                    u,
                    seen,
                    c,
                    Served::Pool(a),
                );
            assert(self.lent(t, a as int, c));
            s.lemma_live_objects(a as int, c, a as int, c);
            lemma_class_sizes();
        }
    }

    /// What one thread caches is, to another, in the hands of its callers: no
    /// object is cached by both.
    pub open spec fn apart(&self, t: &Tls, w: &Tls) -> bool {
        forall|c: int, k: int|
            0 <= c < NUM_CLASSES && 0 <= k < w.magazines()@[c].len() ==> self.lent(
                t,
                #[trigger] w.magazines()@[c][k] as int,
                c,
            )
    }

    /// Exactly the run of `len` spans at `a` was handed out, or freed.
    pub open spec fn run_moved(&self, t: &Tls, other: &Toccata, u: &Tls, a: int, len: int) -> bool {
        &&& t.magazines() == u.magazines()
        &&& self.sub() matches Some(s)
        &&& other.sub() matches Some(o)
        &&& s.run_gained(&o, a, len) || s.run_lost(&o, a, len)
    }

    /// What one thread does leaves the caches of the others in order, whether it
    /// was handed an object or a run of spans, or freed one that the other does
    /// not cache, or nothing changed hands.
    pub proof fn lemma_others_ready(
        &self,
        t: &Tls,
        other: &Toccata,
        u: &Tls,
        w: &Tls,
        a: int,
        c: int,
        len: int,
    )
        requires
            self.ready(t),
            other.ready(u),
            other.ready(w),
            other.apart(u, w),
            self.same_pool(other),
            self.lent_gained(t, other, u, a, c) || self.lent_same(t, other, u) || (
            other.lent_gained(u, self, t, a, c) && !(0 <= a <= usize::MAX
                && w.magazines()@[c].contains(a as usize))) || self.run_moved(t, other, u, a, len),
        ensures
            self.ready(w),
            self.apart(t, w),
    {
        let s = self.sub()->0;
        let o = other.sub()->0;
        let m = w.magazines();
        assert forall|d: int, k: int| 0 <= d < NUM_CLASSES && 0 <= k < m@[d].len() implies self.lent(
            t,
            #[trigger] m@[d][k] as int,
            d,
        ) by {
            let b = m@[d][k];
            assert(other.lent(u, b as int, d));
            assert(u.magazines().lent(&o, b as int, d));
            assert(m@[d].contains(b));
            assert(is_class(d));
            assert(t.magazines().lent(&s, b as int, d));
        }
        assert forall|d: int| 0 <= d < NUM_CLASSES implies #[trigger] mag_ok(m@[d], &s, d) by {
            assert(mag_ok(m@[d], &o, d));
            assert forall|k: int| 0 <= k < m@[d].len() implies s.live(
                #[trigger] m@[d][k] as int,
                d,
            ) by {
                assert(self.lent(t, m@[d][k] as int, d));
            }
        }
    }

    /// Whether the `n` bytes at `a` were handed out and not freed: an object, or a
    /// run of spans.
    pub open spec fn block(&self, t: &Tls, a: int, n: int) -> bool {
        ||| exists|c: int| #[trigger] self.lent(t, a, c) && n == class_size(c)
        ||| exists|len: int| #[trigger] self.run(a, len) && n == len * SPAN_BYTES
    }

    /// Whether a run of `len` spans at `a` was handed out.
    pub open spec fn run(&self, a: int, len: int) -> bool {
        self.sub() matches Some(s) && s.live_run(a, len)
    }

    /// All that was handed out lies in the pool, and no two blocks overlap,
    /// whatever their sizes.
    pub proof fn lemma_blocks_apart(&self, t: &Tls, a: int, n: int, b: int, m: int)
        requires
            self.ready(t),
            self.block(t, a, n),
            self.block(t, b, m),
            a != b,
        ensures
            self.base() <= a,
            a + n <= self.end(),
            a + n <= b || b + m <= a,
    {
        let s = self.sub()->0;
        s.lemma_budget();
        if let Some(c) = self.object_class(t, a, n) {
            s.lemma_live_objects(a, c, a, c);
            if let Some(d) = self.object_class(t, b, m) {
                s.lemma_live_objects(a, c, b, d);
            } else {
                let len = choose|len: int| #[trigger] self.run(b, len) && m == len * SPAN_BYTES;
                s.lemma_object_and_run(a, c, b, len);
            }
        } else {
            let len = choose|len: int| #[trigger] self.run(a, len) && n == len * SPAN_BYTES;
            s.lemma_live_run(a, len);
            if let Some(d) = self.object_class(t, b, m) {
                s.lemma_object_and_run(b, d, a, len);
            } else {
                let k = choose|k: int| #[trigger] self.run(b, k) && m == k * SPAN_BYTES;
                s.lemma_two_runs(a, len, b, k);
            }
        }
    }

    /// The class of a block that is an object.
    spec fn object_class(&self, t: &Tls, a: int, n: int) -> Option<int> {
        if exists|c: int| #[trigger] self.lent(t, a, c) && n == class_size(c) {
            Some(choose|c: int| #[trigger] self.lent(t, a, c) && n == class_size(c))
        } else {
            None
        }
    }
}

} // verus!
