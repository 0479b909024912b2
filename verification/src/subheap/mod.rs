//! The sub-heap: one budgeted arena served through per-CPU caches.
//!
//! A request of class `c` is served from the current CPU's stack (the fast
//! path). When that is empty, a batch of free objects is taken from the central
//! bitmaps of the thread's shard, carving or recycling spans where those have
//! none left. A free goes back to the CPU's stack if the object's span is homed
//! on the thread's shard, and is otherwise deposited as a bit in its span's
//! bitmap. Requests above the largest class are served as runs of whole spans.

pub mod arena;
pub mod counters;
pub mod flow;
pub mod heap;
pub mod laws;
pub mod meter;
pub mod tiling;

use vstd::prelude::*;
use crate::bits::bit;
use crate::meta::{spans_in, NO_SPAN, SPAN_BYTES};
use crate::rseq::abi::ThreadView;
use crate::rseq::slab::{geometry_ok, serving_cpu, stride_of, ClassLoc, Fast, SlabLayout};
use crate::sizeclass::{
    class_for, class_size, is_class, lemma_class_sizes, size_of_class, smallest_class, CLASS_SIZES,
    MAX_SMALL, NUM_CLASSES,
};
use crate::subheap::counters::PerCpuCounters;
use crate::subheap::flow::freed_onto;
use crate::subheap::heap::{
    free_groups, fully_free, list_index, loosened, run_made, Heap, LARGE_CLASS, SWEEP_MAX,
};
use crate::subheap::tiling::{batch_of, cap_for_class, cap_of, lemma_tiling, span_index};
use crate::sys::reserve::{Reservation, ReserveError};

verus! {

/// What to do when the budget runs out.
#[derive(Clone, Copy, Debug, PartialEq, Eq, Structural)]
pub enum OnExhaust {
    /// Report it to the caller.
    Report,
    /// Abort the process.
    Abort,
}

/// One budgeted heap.
pub struct SubHeap {
    name: &'static str,
    on_exhaust: OnExhaust,
    heap: Heap,
    budget_bytes: usize,
    counters: PerCpuCounters,
    reservation: Option<Reservation>,
}

impl SubHeap {
    /// The shared state.
    pub closed spec fn heap(&self) -> Heap {
        self.heap
    }

    /// Bytes metered as live.
    pub closed spec fn meter_bytes(&self) -> int {
        self.counters.bytes()
    }

    /// Objects metered as live.
    pub closed spec fn meter_objs(&self) -> int {
        self.counters.objs()
    }

    /// Bytes of the arena.
    pub closed spec fn budget(&self) -> int {
        self.budget_bytes as int
    }

    pub closed spec fn label(&self) -> &'static str {
        self.name
    }

    pub closed spec fn policy(&self) -> OnExhaust {
        self.on_exhaust
    }

    pub closed spec fn reserved(&self) -> Option<Reservation> {
        self.reservation
    }

    /// The sub-heap's invariant.
    pub closed spec fn wf(&self) -> bool {
        &&& self.heap.wf()
        &&& self.counters.wf()
        &&& self.budget_bytes == self.heap.size()
        &&& self.budget_bytes <= isize::MAX
        &&& self.heap.base() % 4096 == 0
        &&& self.counters.bytes() == self.heap.held_bytes()
        &&& self.counters.objs() == self.heap.held_objs()
    }

    /// Name, policy, budget and reservation are those of `other`.
    pub open spec fn same_config(&self, other: &SubHeap) -> bool {
        &&& self.label() == other.label()
        &&& self.policy() == other.policy()
        &&& self.budget() == other.budget()
        &&& self.reserved() == other.reserved()
        &&& self.heap().base() == other.heap().base()
        &&& self.heap().size() == other.heap().size()
        &&& self.heap().shards() == other.heap().shards()
        &&& self.heap().slab().cpus() == other.heap().slab().cpus()
    }

    /// The meter moved by `bytes` and `objs`.
    pub open spec fn metered(&self, other: &SubHeap, bytes: int, objs: int) -> bool {
        &&& self.meter_bytes() == other.meter_bytes() + bytes
        &&& self.meter_objs() == other.meter_objs() + objs
    }

    /// Whether `a` is the address of a live object of class `c`.
    pub open spec fn live(&self, a: int, c: int) -> bool {
        self.heap().live(a, c)
    }

    /// Whether `a` is the address of a live large run of `len` spans.
    pub open spec fn live_run(&self, a: int, len: int) -> bool {
        self.heap().live_run(a, len)
    }

    /// Index of the list that serves class `c` for a thread with shard number
    /// `shard_id`.
    pub open spec fn list_for(&self, shard_id: int, c: int) -> int {
        list_index(shard_id % self.heap().shards(), c)
    }

    /// The CPU whose stack an operation of the thread works on.
    pub open spec fn serving(&self, seen: ThreadView) -> int {
        serving_cpu(seen, &self.heap().slab())
    }

    /// The addresses cached for class `c` on the CPU that serves the thread,
    /// bottom first; none while that CPU is stopped.
    pub open spec fn cached(&self, seen: ThreadView, c: int) -> Seq<usize> {
        let cpu = self.serving(seen);
        if self.heap().slab().is_stopped_at(cpu) {
            Seq::empty()
        } else {
            self.heap().slab().stack(cpu, c)
        }
    }

    /// The free objects of class `c` that a refill for the thread may take, in
    /// order.
    pub open spec fn refill_order(&self, seen: ThreadView, c: int) -> Seq<usize> {
        self.heap().take_order(self.list_for(seen.shard_id as int, c), c)
    }

    pub fn name(&self) -> (n: &'static str)
        ensures
            n == self.label(),
    {
        self.name
    }

    pub fn on_exhaust(&self) -> (p: OnExhaust)
        ensures
            p == self.policy(),
    {
        self.on_exhaust
    }

    /// Bytes handed out and not freed: the sizes of all live objects and large
    /// runs, at most the budget.
    pub fn live_bytes(&self) -> (n: usize)
        requires
            self.wf(),
        ensures
            n == self.meter_bytes(),
            n == self.heap().held_bytes(),
            n <= self.budget(),
    {
        proof {
            self.heap.lemma_held_bounded();
        }
        self.counters.total_bytes()
    }

    /// Objects handed out and not freed.
    pub fn live_objects(&self) -> (n: u64)
        requires
            self.wf(),
        ensures
            n == self.meter_objs(),
            n == self.heap().held_objs(),
    {
        proof {
            self.heap.lemma_held_bounded();
        }
        self.counters.total_objs()
    }

    pub fn budget_bytes(&self) -> (n: usize)
        ensures
            n == self.budget(),
    {
        self.budget_bytes
    }

    /// Bytes of whole spans carved from the arena so far. Spans are never given
    /// back to the arena, so this only grows.
    pub fn carved_bytes(&self) -> (n: usize)
        requires
            self.wf(),
        ensures
            n == self.heap().carved() * SPAN_BYTES,
    {
        self.heap.carved_bytes(self.budget_bytes)
    }

    /// The shard a thread's refills work on.
    pub fn test_thread_shard(&self, seen: &ThreadView) -> (s: u32)
        requires
            self.wf(),
        ensures
            s == seen.shard_id as int % self.heap().shards(),
    {
        self.heap.shard_of(seen.shard_id)
    }

    /// The span that holds an address of the arena.
    pub fn test_span_of(&self, addr: usize) -> (s: u32)
        requires
            self.wf(),
            self.heap().base() <= addr < self.heap().base() + self.heap().size(),
        ensures
            s == span_index(self.heap().base(), addr as int),
            self.heap().base() + s * 65536 <= addr < self.heap().base() + (s + 1) * 65536,
    {
        self.heap.span_of(addr)
    }

    /// First address and length of the reservation; zeros if there is none.
    pub fn reservation_range(&self) -> (r: (usize, usize))
        ensures
            match self.reserved() {
                Some(res) => r.0 == res.start() && r.1 == res.size(),
                None => r.0 == 0 && r.1 == 0,
            },
    {
        match &self.reservation {
            Some(r) => (r.as_ptr(), r.len()),
            None => (0, 0),
        }
    }

    /// Whether an address lies in this sub-heap's arena.
    pub fn owns(&self, addr: usize) -> (b: bool)
        requires
            self.wf(),
        ensures
            b == (self.heap().base() <= addr < self.heap().base() + self.heap().size()),
    {
        self.heap.owns(addr)
    }
}

/// Spans of a run that holds `size` bytes: at least one.
pub open spec fn spans_for(size: int) -> int {
    if size == 0 {
        1
    } else {
        spans_in(size)
    }
}

/// An empty request counts as one byte.
pub open spec fn at_least_one(size: int) -> int {
    if size == 0 {
        1
    } else {
        size
    }
}

impl SubHeap {
    /// Allocate an object of class `class`: the top of the current CPU's stack if
    /// it has one, else the first object of a refill. `None` only if nothing is
    /// cached there, no object of the shard's spans is free and no span is to be
    /// had.
    pub fn alloc_class(&mut self, seen: &ThreadView, class: usize) -> (r: Option<usize>)
        requires
            old(self).wf(),
            is_class(class as int),
        ensures
            final(self).wf(),
            final(self).same_config(old(self)),
            final(self).object_served(old(self), *seen, class as int, r),
            r matches Some(a) ==> {
                &&& final(self).live(a as int, class as int)
                &&& !old(self).live(a as int, class as int)
                &&& final(self).meter_bytes() == old(self).meter_bytes() + CLASS_SIZES@[class as int]
                &&& final(self).meter_objs() == old(self).meter_objs() + 1
            },
            r is None ==> final(self).meter_bytes() == old(self).meter_bytes(),
            r is None ==> old(self).cached(*seen, class as int).len() == 0 && old(self).refill_order(
                *seen,
                class as int,
            ).len() == 0 && !old(self).heap().can_carve(class as int),
            forall|b: int, d: int| #[trigger]
                final(self).live(b, d) <==> old(self).live(b, d) || (r matches Some(a) && b == a && d
                    == class),
            forall|b: int, n: int| #[trigger]
                final(self).live_run(b, n) <==> old(self).live_run(b, n),
    {
        let ghost before = *self;
        let ghost c = class as int;
        let obj_size: usize = size_of_class(class);
        proof {
            lemma_tiling(c);
            before.heap.lemma_grown_refl();
            before.heap.slab().lemma_same_shape_refl();
        }
        let stack = self.heap.bind_fast(*seen);
        let (fast, at) = self.heap.take_cached(&stack, class);
        let (addr, cpu) = match fast {
            Fast::Done(a) => (a, at),
            Fast::NeedsSlow => {
                proof {
                    let cpu = stack.serving(&before.heap.slab());
                    if before.heap.slab().stack(cpu, c).len() > 0 {
                        before.heap.lemma_cached_nonzero(cpu, c);
                    }
                }
                let got = self.heap.refill(&stack, class, seen.shard_id);
                match got {
                    Some(a) => {
                        proof {
                            self.heap.slab().lemma_same_shape(&before.heap.slab());
                        }
                        (a, self.heap.cpu_of(&stack))
                    },
                    None => {
                        proof {
                            self.heap.lemma_held_unchanged(&before.heap);
                        }
                        return None;
                    },
                }
            },
        };
        proof {
            self.heap.slab().lemma_same_shape(&before.heap.slab());
            self.heap.lemma_grown_compatible(&before.heap);
            self.heap.lemma_held_gained_one(&before.heap, c, addr);
        }
        self.counters.add_local(cpu, obj_size as i64, 1);
        Some(addr)
    }
}

impl SubHeap {
    /// Which object of class `c` a thread is handed, and what is on its CPU's stack
    /// `after`: the top of the stack; else the first of the refill order, with the
    /// rest of a batch on the stack; else the first of the spans newly put to use,
    /// likewise.
    pub open spec fn handed_out(&self, after: &SubHeap, seen: ThreadView, c: int, a: usize) -> bool {
        let cpu = self.serving(seen);
        let cached = self.cached(seen, c);
        let order = self.refill_order(seen, c);
        if cached.len() > 0 {
            &&& a == cached.last()
            &&& after.heap().slab().stack(cpu, c) == cached.drop_last()
            &&& after.heap().same_spans(&self.heap())
        } else if order.len() > 0 {
            &&& a == order[0]
            &&& after.heap().refilled(&self.heap(), cpu, c, order)
            &&& after.heap().same_spans(&self.heap())
        } else {
            let j = self.list_for(seen.shard_id as int, c);
            let home = (seen.shard_id as int % self.heap().shards()) as u16;
            &&& a == self.heap().base() + self.heap().carve_pick(j, c) * SPAN_BYTES
            &&& after.heap().refilled_fresh(&self.heap(), cpu, c, j, home, a)
        }
    }

    /// What a request for an object of class `c` gives: one that was not live and
    /// now is, and `None` only if none is cached, free in the shard's spans, or to
    /// be carved.
    pub open spec fn object_served(
        &self,
        other: &SubHeap,
        seen: ThreadView,
        c: int,
        r: Option<usize>,
    ) -> bool {
        &&& r is None <==> other.cached(seen, c).len() == 0 && other.refill_order(seen, c).len() == 0
            && !other.heap().can_carve(c)
        &&& r is None ==> self.heap().idle_since(&other.heap()) && self.metered(other, 0, 0)
        &&& r matches Some(a) ==> {
            &&& self.heap().gained(&other.heap(), a as int, c)
            &&& self.heap().same_runs(&other.heap())
            &&& self.heap().grown(&other.heap())
            &&& self.metered(other, class_size(c), 1)
            &&& self.heap().slab_moved(&other.heap(), other.serving(seen), c)
            &&& other.handed_out(self, seen, c, a)
        }
    }

    /// What freeing the object of class `c` at `a` leaves behind: it is no longer
    /// live, and on the stack of the thread's CPU if it is local to the thread and
    /// that CPU is not stopped.
    pub open spec fn object_freed(&self, other: &SubHeap, seen: ThreadView, a: usize, c: int) -> bool {
        let cpu = other.serving(seen);
        let slab = other.heap().slab();
        let st = slab.stack(cpu, c);
        &&& self.metered(other, -class_size(c), -1)
        &&& self.heap().same_spans(&other.heap())
        &&& self.heap().lost(&other.heap(), a as int, c)
        &&& self.heap().slab_moved(&other.heap(), cpu, c)
        &&& self.heap().slab().stack(cpu, c) == (if other.heap().is_local(
            a as int,
            seen.shard_id as int,
        ) && !slab.is_stopped_at(cpu) {
            freed_onto(st, slab.cap(c), batch_of(c), a)
        } else {
            st
        })
    }

    /// Free the live object of class `class` at `addr`.
    pub fn dealloc_class(&mut self, seen: &ThreadView, addr: usize, class: usize)
        requires
            old(self).wf(),
            old(self).live(addr as int, class as int),
        ensures
            final(self).wf(),
            final(self).same_config(old(self)),
            final(self).object_freed(old(self), *seen, addr, class as int),
            !final(self).live(addr as int, class as int),
            final(self).meter_bytes() == old(self).meter_bytes() - CLASS_SIZES@[class as int],
            final(self).meter_objs() == old(self).meter_objs() - 1,
            forall|b: int, d: int| #[trigger]
                final(self).live(b, d) <==> old(self).live(b, d) && !(b == addr && d == class),
            forall|b: int, n: int| #[trigger]
                final(self).live_run(b, n) <==> old(self).live_run(b, n),
    {
        let ghost before = *self;
        proof {
            lemma_tiling(class as int);
        }
        let obj_size: usize = size_of_class(class);
        let stack = self.heap.bind(*seen);
        let cur_cpu: u32 = self.heap.cpu_of(&stack);
        self.heap.release(&stack, class, addr, seen.shard_id);
        proof {
            self.heap.slab().lemma_same_shape(&before.heap.slab());
            before.heap.lemma_held_gained_one(&self.heap, class as int, addr);
        }
        self.counters.add_local(cur_cpu, -(obj_size as i64), -1);
    }

    /// What freeing the objects of class `c` at `addrs` leaves behind: none of them is
    /// live, those local to the thread are on the stack of its CPU if that is not
    /// stopped, and the last one that is not local gives its list's hint. Spans are
    /// used as before.
    pub open spec fn batch_lost(
        &self,
        other: &SubHeap,
        seen: ThreadView,
        addrs: Seq<usize>,
        c: int,
    ) -> bool {
        let cpu = other.serving(seen);
        &&& self.metered(other, -(addrs.len() * class_size(c)), -(addrs.len() as int))
        &&& other.heap().gained_all(&self.heap(), c, addrs)
        &&& self.heap().same_runs(&other.heap())
        &&& self.heap().same_uses(&other.heap())
        &&& self.heap().slab_moved(&other.heap(), cpu, c)
        &&& self.heap().batch_freed(&other.heap(), cpu, c, addrs, seen.shard_id as int)
    }

    /// Free a batch of distinct live objects of class `class`.
    pub fn dealloc_class_batch(&mut self, seen: &ThreadView, addrs: &[usize], class: usize)
        requires
            old(self).wf(),
            is_class(class as int),
            addrs@.no_duplicates(),
            forall|k: int|
                0 <= k < addrs@.len() ==> old(self).live(#[trigger] addrs@[k] as int, class as int),
        ensures
            final(self).wf(),
            final(self).same_config(old(self)),
            final(self).batch_lost(old(self), *seen, addrs@, class as int),
            forall|k: int|
                0 <= k < addrs@.len() ==> !final(self).live(
                    #[trigger] addrs@[k] as int,
                    class as int,
                ),
            final(self).meter_bytes() == old(self).meter_bytes() - addrs@.len()
                * CLASS_SIZES@[class as int],
            final(self).meter_objs() == old(self).meter_objs() - addrs@.len(),
            forall|b: int, d: int| #[trigger]
                final(self).live(b, d) <==> old(self).live(b, d) && !(d == class && 0 <= b <= usize::MAX
                    && addrs@.contains(b as usize)),
            forall|b: int, n: int| #[trigger]
                final(self).live_run(b, n) <==> old(self).live_run(b, n),
    {
        let ghost before = *self;
        proof {
            lemma_tiling(class as int);
        }
        let obj_size: usize = size_of_class(class);
        let stack = self.heap.bind(*seen);
        let cur_cpu: u32 = self.heap.cpu_of(&stack);
        self.heap.release_batch(&stack, class, addrs, seen.shard_id);
        proof {
            self.heap.slab().lemma_same_shape(&before.heap.slab());
            before.heap.lemma_held_gained(&self.heap, class as int, addrs@);
            before.heap.lemma_held_bounded();
            self.heap.lemma_held_bounded();
        }
        let ghost z = class_size(class as int);
        let ghost m = addrs@.len() as int;
        assert(m <= m * z && z * m == m * z && (m == 0 ==> m * z == 0)) by (nonlinear_arith)
            requires
                m >= 0,
                z >= 1,
        ;
        if addrs.len() > 0 {
            let total: i64 = addrs.len() as i64;
            let bytes: i64 = (obj_size as i64) * total;
            self.counters.add_local(cur_cpu, -bytes, -total);
        }
    }

    /// Fill `out` with objects of class `class` from the shard's spans, bypassing
    /// the CPU's stack, and return how many there are. Fewer than `out` holds come
    /// only if no object of the shard's spans is free and no span is to be had.
    pub fn refill_batch(&mut self, seen: &ThreadView, class: usize, out: &mut [usize]) -> (got: usize)
        requires
            old(self).wf(),
            is_class(class as int),
        ensures
            final(self).wf(),
            final(self).same_config(old(self)),
            final(self).metered(old(self), got * class_size(class as int), got as int),
            got <= old(out)@.len(),
            final(out)@.len() == old(out)@.len(),
            forall|k: int| got <= k < old(out)@.len() ==> #[trigger] final(out)@[k] == old(out)@[k],
            final(self).heap().gained_all(
                &old(self).heap(),
                class as int,
                final(out)@.take(got as int),
            ),
            final(self).heap().same_runs(&old(self).heap()),
            final(self).heap().grown(&old(self).heap()),
            final(self).heap().slab() == old(self).heap().slab(),
            got < old(out)@.len() ==> !final(self).heap().can_carve(class as int) && final(
                self).refill_order(*seen, class as int).len() == 0,
            final(self).meter_bytes() == old(self).meter_bytes() + got * CLASS_SIZES@[class as int],
            forall|k: int|
                0 <= k < got ==> final(self).live(#[trigger] final(out)@[k] as int, class as int)
                    && !old(self).live(final(out)@[k] as int, class as int),
            ({
                let order = old(self).refill_order(*seen, class as int);
                if order.len() >= old(out)@.len() {
                    got == old(out)@.len() && final(out)@ == order.take(got as int)
                } else {
                    &&& order.len() <= got
                    &&& final(out)@.take(order.len() as int) == order
                    &&& old(self).heap().from_unused(
                        final(out)@.take(got as int),
                        order.len() as int,
                    )
                }
            }),
            final(self).heap().drawn_up_to(
                &old(self).heap(),
                old(self).list_for(seen.shard_id as int, class as int),
                class as int,
                (seen.shard_id as int % old(self).heap().shards()) as u16,
                final(out)@.take(got as int),
                old(out)@.len() as int,
            ),
            old(out)@.len() > 0 ==> (got == 0 <==> old(self).refill_order(
                *seen,
                class as int,
            ).len() == 0 && !old(self).heap().can_carve(class as int)),
    {
        let ghost before = *self;
        let ghost z = class_size(class as int);
        proof {
            lemma_tiling(class as int);
        }
        let got: usize = self.heap.refill_batch(class, seen.shard_id, out);
        let ghost batch = out@.take(got as int);
        proof {
            self.heap.lemma_grown_compatible(&before.heap);
            self.heap.lemma_held_gained(&before.heap, class as int, batch);
            before.heap.lemma_held_bounded();
            self.heap.lemma_held_bounded();
            assert(0 * z == 0);
        }
        if got > 0 {
            assert(got <= got * z) by (nonlinear_arith)
                requires
                    0 <= got,
                    z >= 1,
            ;
            let stack = self.heap.bind(*seen);
            let cpu: u32 = self.heap.cpu_of(&stack);
            let bytes: i64 = (size_of_class(class) as i64) * (got as i64);
            assert(bytes == got * z) by (nonlinear_arith)
                requires
                    bytes == z * got,
            ;
            self.counters.add_local(cpu, bytes, got as i64);
        }
        proof {
            let order = before.refill_order(*seen, class as int);
            if order.len() >= out@.len() {
                assert(out@ =~= batch);
            } else {
                assert(out@.take(order.len() as int) =~= batch.take(order.len() as int));
            }
            let part = out@.take(got as int);
            assert forall|k: int| 0 <= k < got implies self.live(#[trigger] out@[k] as int, class as int)
                && !before.live(out@[k] as int, class as int) by {
                assert(part[k] == out@[k]);
            }
        }
        got
    }

    /// Stop or resume a CPU: while it is stopped its stacks are left alone.
    pub fn set_cpu_stopped(&mut self, cpu: u32, stopped: bool)
        requires
            old(self).wf(),
        ensures
            final(self).wf(),
            final(self).same_config(old(self)),
            final(self).metered(old(self), 0, 0),
            final(self).heap().same_spans(&old(self).heap()),
            final(self).heap().place() == old(self).heap().place(),
            forall|k: int, c: int|
                #[trigger] final(self).heap().slab().stack(k, c) == old(self).heap().slab().stack(k, c),
            forall|k: int|
                0 <= k < final(self).heap().slab().cpus()
                    ==> #[trigger] final(self).heap().slab().is_stopped_at(k) == (if k == cpu || (cpu
                    >= final(self).heap().slab().cpus() && k == final(self).heap().slab().cpus() - 1) {
                    stopped
                } else {
                    old(self).heap().slab().is_stopped_at(k)
                }),
    {
        let ghost before = *self;
        self.heap.set_stopped(cpu, stopped);
        proof {
            self.heap.lemma_held_unchanged(&before.heap);
        }
    }

    /// Move up to `count` objects from the top of class `class`'s stack on `cpu`
    /// to the central bitmaps. Returns how many moved.
    pub fn rebalance_capacity(&mut self, cpu: u32, class: usize, count: u32) -> (take: u32)
        requires
            old(self).wf(),
            is_class(class as int),
            cpu < old(self).heap().slab().cpus(),
        ensures
            final(self).wf(),
            final(self).same_config(old(self)),
            final(self).metered(old(self), 0, 0),
            final(self).heap().same_spans(&old(self).heap()),
            final(self).heap().same_live(&old(self).heap()),
            final(self).heap().slab_moved(&old(self).heap(), cpu as int, class as int),
            ({
                let st = old(self).heap().slab().stack(cpu as int, class as int);
                &&& take == (if count < st.len() {
                    count as int
                } else {
                    st.len() as int
                })
                &&& final(self).heap().slab().stack(cpu as int, class as int) == st.take(
                    st.len() - take,
                )
                &&& take <= count && take <= st.len() && (take == count || take == st.len())
            }),
    {
        let ghost before = *self;
        let ghost st = before.heap.slab().stack(cpu as int, class as int);
        let mut take: u32 = 0;
        proof {
            before.heap.slab().lemma_same_shape_refl();
            before.heap.lemma_same_spans_refl();
            assert(st.take(st.len() as int) =~= st);
        }
        while take < count
            invariant
                is_class(class as int),
                self.wf(),
                before.wf(),
                take <= count,
                take <= st.len(),
                cpu < self.heap.slab().cpus(),
                st == before.heap.slab().stack(cpu as int, class as int),
                self.same_config(&before),
                self.metered(&before, 0, 0),
                self.heap.same_spans(&before.heap),
                self.heap.same_live(&before.heap),
                self.heap.slab_moved(&before.heap, cpu as int, class as int),
                self.heap.slab().stack(cpu as int, class as int) == st.take(st.len() - take),
            ensures
                take < count ==> take == st.len(),
            decreases count - take,
        {
            let ghost cur = self.heap;
            match self.heap.take_cached_from(cpu, class) {
                Some(a) => {
                    let ghost mid = self.heap;
                    self.heap.central_deposit(a, class);
                    proof {
                        assert(st.take(st.len() - take).drop_last() =~= st.take(st.len() - take - 1));
                        assert(self.heap.slab_moved(&cur, cpu as int, class as int));
                        self.heap.lemma_slab_moved(&cur, &before.heap, cpu as int, class as int);
                        self.heap.lemma_same_spans_trans(&mid, &cur);
                        self.heap.lemma_same_spans_trans(&cur, &before.heap);
                        self.heap.slab().lemma_same_shape(&before.heap.slab());
                        assert forall|b: int, d: int| #[trigger] self.heap.live(b, d)
                            <==> before.heap.live(b, d) by {
                            assert(mid.live(b, d) <==> cur.live(b, d) || (b == a && d == class));
                            assert(cur.live(b, d) <==> before.heap.live(b, d));
                        }
                        assert forall|b: int, len: int| #[trigger] self.heap.live_run(b, len)
                            <==> before.heap.live_run(b, len) by {
                            assert(cur.live_run(b, len) <==> before.heap.live_run(b, len));
                        }
                        self.heap.lemma_held_unchanged(&before.heap);
                    }
                    take = take + 1;
                },
                None => {
                    break;
                },
            }
        }
        take
    }

    /// Objects stranded on remote queues and reclaimed: none ever are, since a
    /// remote free is a bit in its span's bitmap.
    pub fn reclaim_stranded_remote(&self) -> (n: usize)
        ensures
            n == 0,
    {
        0
    }
}

impl SubHeap {
    /// Give the fully free spans of every class back to the pool, so that any class
    /// or large run can use them; all others keep their use. Works on each list in
    /// passes of at most `max_per_lock` spans (at least one, and never more than
    /// [`SWEEP_MAX`]). Returns how many span groups were given back.
    pub fn reclaim_empty_spans(&mut self, max_per_lock: usize) -> (n: usize)
        requires
            old(self).wf(),
        ensures
            final(self).wf(),
            final(self).same_config(old(self)),
            final(self).metered(old(self), 0, 0),
            final(self).heap().reclaimed(&old(self).heap()),
            n == free_groups(
                old(self).heap().kind(),
                old(self).heap().place(),
                old(self).heap().kind().len() as int,
            ),
            forall|s: int|
                0 <= s < final(self).heap().kind().len() ==> !#[trigger] fully_free(
                    final(self).heap().kind(),
                    final(self).heap().place(),
                    s,
                ),
    {
        let cap: usize = if max_per_lock < 1 {
            1
        } else if max_per_lock > SWEEP_MAX {
            SWEEP_MAX
        } else {
            max_per_lock
        };
        let ghost before = *self;
        let n: usize = self.heap.reclaim_all(cap);
        proof {
            assert(self.heap.compatible(&before.heap));
            self.heap.lemma_held_unchanged(&before.heap);
        }
        n
    }

    /// Allocate a large run that holds `size` bytes: whole spans, from the pool
    /// or fresh. `None` only if neither has that many adjacent spans.
    pub fn alloc_large(&mut self, seen: &ThreadView, size: usize) -> (r: Option<usize>)
        requires
            old(self).wf(),
        ensures
            final(self).wf(),
            final(self).same_config(old(self)),
            r is Some <==> old(self).heap().run_available(spans_for(size as int)),
            r matches Some(a) ==> exists|n: int| final(self).live_run(a as int, n),
            r matches Some(a) ==> forall|n: int| #[trigger]
                final(self).live_run(a as int, n) ==> {
                    &&& !old(self).live_run(a as int, n)
                    &&& n >= 1
                    &&& n * 65536 >= size
                    &&& (n - 1) * 65536 < size || n == 1
                    &&& final(self).meter_bytes() == old(self).meter_bytes() + n * 65536
                },
            r is None ==> forall|s: int, n: int|
                n >= 1 && n * 65536 >= size ==> !(#[trigger] old(self).heap().loose_row(s, n)) && (
                old(self).heap().carved() + n) * 65536 > old(self).budget(),
            forall|b: int, d: int| #[trigger] final(self).live(b, d) <==> old(self).live(b, d),
            forall|b: int, n: int| #[trigger]
                old(self).live_run(b, n) ==> final(self).live_run(b, n),
            forall|b: int, n: int| #[trigger]
                final(self).live_run(b, n) ==> old(self).live_run(b, n) || (r matches Some(a) && b
                    == a),
            r is None ==> *final(self) == *old(self),
            r matches Some(a) ==> final(self).run_gained(old(self), a as int, spans_for(size as int)),
    {
        proof {
            laws::lemma_spans_for(size as int);
            if !self.heap().run_available(spans_for(size as int)) {
                self.lemma_large_refused(size as int);
            }
        }
        let ghost before = *self;
        let count: usize = if size == 0 {
            1
        } else if size % SPAN_BYTES == 0 {
            size / SPAN_BYTES
        } else {
            size / SPAN_BYTES + 1
        };
        proof {
            self.heap.lemma_lens();
            self.heap.lemma_too_large(count as int);
        }
        if count > u32::MAX as usize {
            return None;
        }
        let r: Option<usize> = match self.heap.make_run(count as u32) {
            None => None,
            Some(h) => {
                proof {
                    self.heap.lemma_span_addr(h as int);
                    self.heap.lemma_span_addr(h + count - 1);
                    self.heap.lemma_held_run(&before.heap, h as int, count as int);
                    self.heap.slab().lemma_same_shape_refl();
                }
                let addr: usize = self.heap.span_addr(h);
                let run_bytes: usize = count * SPAN_BYTES;
                let cpu: u32 = match seen.cpu {
                    Some(c) => c,
                    None => 0,
                };
                self.counters.add_remote(cpu, run_bytes as i64, 1);
                proof {
                    assert(self.run_gained(&before, addr as int, count as int));
                }
                Some(addr)
            },
        };
        proof {
            if let Some(a) = r {
                assert(self.live_run(a as int, count as int));
            }
        }
        r
    }

    /// A large run of `len` spans at `a` has become live, from spans that were
    /// not in use, and nothing else changed hands.
    pub open spec fn run_gained(&self, other: &SubHeap, a: int, len: int) -> bool {
        let s = span_index(other.heap().base(), a);
        &&& a == other.heap().base() + s * SPAN_BYTES
        &&& 0 <= s
        &&& s == other.heap().run_start(len)
        &&& s + len <= self.heap().carved()
        &&& self.heap().spans_tagged(
            &other.heap(),
            s,
            s + len,
            !other.heap().pooled(len),
            LARGE_CLASS,
            0,
        )
        &&& self.heap().lists() == other.heap().lists()
        &&& forall|j: int| #[trigger] self.heap().hint(j) == other.heap().hint(j)
        &&& self.heap().place() == other.heap().place()
        &&& forall|t: int| s <= t < s + len ==> (#[trigger] other.heap().kind()[t]) is Loose
        &&& self.heap().kind() == run_made(other.heap().kind(), s, len)
        &&& self.heap().slab() == other.heap().slab()
        &&& forall|b: int, d: int| #[trigger] self.live(b, d) <==> other.live(b, d)
        &&& forall|b: int, n: int|
            #[trigger] self.live_run(b, n) <==> other.live_run(b, n) || (b == a && n == len)
        &&& self.metered(other, len * SPAN_BYTES, 1)
    }

    /// Free the large run at `addr`: its spans go to the pool, merged with free
    /// neighbours.
    pub fn dealloc_large(&mut self, seen: &ThreadView, addr: usize)
        requires
            old(self).wf(),
            exists|len: int| old(self).live_run(addr as int, len),
        ensures
            final(self).wf(),
            final(self).same_config(old(self)),
            forall|len: int| #[trigger]
                old(self).live_run(addr as int, len) ==> final(self).run_lost(
                    old(self),
                    addr as int,
                    len,
                ),
            forall|len: int| #[trigger]
                old(self).live_run(addr as int, len) ==> !final(self).live_run(addr as int, len)
                    && final(self).meter_bytes() == old(self).meter_bytes() - len * 65536
                    && final(self).heap().loose_row((addr - old(self).heap().base()) / 65536, len),
            forall|b: int, d: int| #[trigger] final(self).live(b, d) <==> old(self).live(b, d),
            forall|b: int, n: int| #[trigger]
                final(self).live_run(b, n) <==> old(self).live_run(b, n) && b != addr,
    {
        let ghost before = *self;
        let ghost len = choose|len: int| self.live_run(addr as int, len);
        proof {
            self.heap.lemma_lens();
            self.heap.lemma_run_bounds(addr as int, len);
            self.heap.slab().lemma_same_shape_refl();
        }
        let h: u32 = self.heap.span_of(addr);
        let count: u32 = self.heap.release_run(h);
        let run_bytes: usize = (count as usize) * SPAN_BYTES;
        let cpu: u32 = match seen.cpu {
            Some(c) => c,
            None => 0,
        };
        self.counters.add_remote(cpu, -(run_bytes as i64), -1);
        proof {
            assert(len == count);
            before.heap.lemma_release_inverse(&self.heap, h as int, len);
            before.heap.lemma_held_run(&self.heap, h as int, len);
            assert(self.run_lost(&before, addr as int, len));
        }
    }

    /// The large run of `len` spans at `a` is no longer live, its spans are in
    /// the pool, and nothing else changed hands.
    pub open spec fn run_lost(&self, other: &SubHeap, a: int, len: int) -> bool {
        let s = span_index(other.heap().base(), a);
        &&& self.heap().kind() == loosened(other.heap().kind(), s, len)
        &&& self.heap().place() == other.heap().place()
        &&& self.heap().arena() == other.heap().arena()
        &&& self.heap().lists() == other.heap().lists()
        &&& forall|j: int| #[trigger] self.heap().hint(j) == other.heap().hint(j)
        &&& forall|t: int| #[trigger] self.heap().tag(t) == other.heap().tag(t)
        &&& self.heap().pool().stacks() == other.heap().pool().returned(s, len)
        &&& self.heap().slab() == other.heap().slab()
        &&& forall|t: int|
            #[trigger] self.heap().pool().covers(t) <==> other.heap().pool().covers(t) || s <= t < s
                + len
        &&& forall|b: int, d: int| #[trigger] self.live(b, d) <==> other.live(b, d)
        &&& forall|b: int, n: int|
            #[trigger] self.live_run(b, n) <==> other.live_run(b, n) && b != a
        &&& self.metered(other, -(len * SPAN_BYTES), -1)
    }

    /// Allocate `size` bytes: an object of the smallest class that fits, or a
    /// large run above the largest class.
    pub fn allocate(&mut self, seen: &ThreadView, size: usize) -> (r: Option<usize>)
        requires
            old(self).wf(),
        ensures
            final(self).wf(),
            final(self).same_config(old(self)),
            size > MAX_SMALL ==> (r is Some <==> old(self).heap().run_available(
                spans_for(size as int),
            )) && (r is None ==> *final(self) == *old(self)) && (r matches Some(a)
                ==> final(self).run_gained(old(self), a as int, spans_for(size as int))),
            size <= MAX_SMALL ==> forall|c: int| #[trigger]
                smallest_class(at_least_one(size as int), c) ==> final(self).object_served(
                    old(self),
                    *seen,
                    c,
                    r,
                ),
            size <= 262144 ==> (r matches Some(a) ==> exists|c: int|
                {
                    &&& #[trigger] final(self).live(a as int, c)
                    &&& !old(self).live(a as int, c)
                    &&& 1 <= c < 49
                    &&& CLASS_SIZES@[c] >= size
                    &&& forall|d: int| 1 <= d < c ==> (#[trigger] CLASS_SIZES@[d]) < size
                    &&& final(self).meter_bytes() == old(self).meter_bytes() + CLASS_SIZES@[c]
                }),
            size <= 262144 && r is None ==> exists|c: int|
                {
                    &&& 1 <= c < 49
                    &&& #[trigger] CLASS_SIZES@[c] >= size
                    &&& forall|d: int| 1 <= d < c ==> (#[trigger] CLASS_SIZES@[d]) < size
                    &&& old(self).cached(*seen, c).len() == 0
                    &&& old(self).refill_order(*seen, c).len() == 0
                    &&& !old(self).heap().can_carve(c)
                },
            size > 262144 ==> (r matches Some(a) ==> exists|n: int|
                {
                    &&& #[trigger] final(self).live_run(a as int, n)
                    &&& !old(self).live_run(a as int, n)
                    &&& (n - 1) * 65536 < size <= n * 65536
                    &&& final(self).meter_bytes() == old(self).meter_bytes() + n * 65536
                }),
            size > 262144 && r is None ==> forall|s: int, n: int|
                n * 65536 >= size ==> !(#[trigger] old(self).heap().loose_row(s, n)) && (old(
                    self,
                ).heap().carved() + n) * 65536 > old(self).budget(),
    {
        match class_for(size) {
            Some(class) => {
                let r = self.alloc_class(seen, class);
                proof {
                    if let Some(a) = r {
                        assert(self.live(a as int, class as int));
                    }
                    assert forall|c: int| #[trigger]
                        smallest_class(
                            at_least_one(size as int),
                            c,
                        ) implies c == class by {
                        crate::sizeclass::lemma_smallest_unique(
                            at_least_one(size as int),
                            c,
                            class as int,
                        );
                    }
                }
                r
            },
            None => self.alloc_large(seen, size),
        }
    }

    /// Free an object or large run by its address alone. Returns whether the
    /// address was this sub-heap's; one outside the arena, or in a span that was
    /// never carved, is not, and changes nothing.
    pub fn dealloc_by_ptr(&mut self, seen: &ThreadView, addr: usize) -> (owned: bool)
        requires
            old(self).wf(),
            old(self).tag_at(addr as int) matches Some(c) ==> if c == LARGE_CLASS {
                exists|len: int| old(self).live_run(addr as int, len)
            } else {
                old(self).live(addr as int, c as int)
            },
        ensures
            final(self).wf(),
            final(self).same_config(old(self)),
            owned == old(self).tag_at(addr as int).is_some(),
            match old(self).tag_at(addr as int) {
                None => *final(self) == *old(self),
                Some(c) => if c == LARGE_CLASS {
                    forall|len: int| #[trigger]
                        old(self).live_run(addr as int, len) ==> final(self).run_lost(
                            old(self),
                            addr as int,
                            len,
                        )
                } else {
                    final(self).object_freed(old(self), *seen, addr, c as int)
                },
            },
            forall|c: int| #[trigger]
                old(self).live(addr as int, c) ==> owned && !final(self).live(addr as int, c)
                    && final(self).meter_bytes() == old(self).meter_bytes() - CLASS_SIZES@[c],
            forall|n: int| #[trigger]
                old(self).live_run(addr as int, n) ==> owned && !final(self).live_run(addr as int, n)
                    && final(self).meter_bytes() == old(self).meter_bytes() - n * 65536,
            !(old(self).heap().base() <= addr < old(self).heap().base() + old(self).budget())
                ==> !owned,
    {
        proof {
            self.lemma_budget();
            assert forall|c: int| #[trigger] self.live(addr as int, c) implies self.tag_at(
                addr as int,
            ) == Some(c as u16) && 1 <= c < 49 by {
                self.lemma_live_objects(addr as int, c, addr as int, c);
            }
            assert forall|n: int| #[trigger] self.live_run(addr as int, n) implies self.tag_at(
                addr as int,
            ) == Some(LARGE_CLASS) by {
                self.lemma_live_run(addr as int, n);
            }
        }
        match self.heap.lookup(addr) {
            Some(tag) => {
                if tag.0 == LARGE_CLASS {
                    self.dealloc_large(seen, addr);
                } else {
                    self.dealloc_class(seen, addr, tag.0 as usize);
                }
                true
            },
            None => false,
        }
    }

    /// The class tagged on the span that holds an address; nothing outside the
    /// arena or where no span was carved.
    pub open spec fn tag_at(&self, a: int) -> Option<u16> {
        if self.heap().base() <= a < self.heap().base() + self.heap().size() {
            match self.heap().tag(span_index(self.heap().base(), a)) {
                Some(t) => Some(t.0),
                None => None,
            }
        } else {
            None
        }
    }

    /// The class tagged on the span that holds an address.
    pub fn class_of(&self, addr: usize) -> (r: Option<usize>)
        requires
            self.wf(),
        ensures
            r == (match self.tag_at(addr as int) {
                Some(c) => Some(c as usize),
                None => None,
            }),
            forall|c: int| #[trigger] self.live(addr as int, c) ==> r == Some(c as usize),
            !(self.heap().base() <= addr < self.heap().base() + self.heap().size()) ==> r is None,
    {
        proof {
            assert forall|c: int| #[trigger] self.live(addr as int, c) implies self.tag_at(
                addr as int,
            ) == Some(c as u16) && 1 <= c < 49 by {
                self.lemma_live_objects(addr as int, c, addr as int, c);
            }
        }
        match self.heap.lookup(addr) {
            Some(tag) => Some(tag.0 as usize),
            None => None,
        }
    }

    /// Make `span` the first that refills of class `class` scan on a shard.
    pub fn test_set_reuse_hint(&mut self, shard: u32, class: usize, span: u32)
        requires
            old(self).wf(),
            class < NUM_CLASSES,
            span == NO_SPAN || span < old(self).heap().kind().len(),
        ensures
            final(self).wf(),
            final(self).same_config(old(self)),
            final(self).metered(old(self), 0, 0),
            final(self).heap().kind() == old(self).heap().kind(),
            final(self).heap().place() == old(self).heap().place(),
            final(self).heap().lists() == old(self).heap().lists(),
            final(self).heap().slab() == old(self).heap().slab(),
            forall|k: int|
                0 <= k < old(self).heap().lists().len() ==> #[trigger] final(self).heap().hint(k) == (if k
                    == old(self).list_for(shard as int, class as int) {
                    span
                } else {
                    old(self).heap().hint(k)
                }),
    {
        let ghost before = *self;
        let j: usize = self.heap.cell(shard, class);
        self.heap.set_hint(j, span);
        proof {
            self.heap.lemma_held_unchanged(&before.heap);
        }
    }
}

/// Shards per CPU, unless set otherwise.
pub const SHARDS_PER_CPU: u32 = 4;

/// Most shards: a shard number is kept in 16 bits.
pub const MAX_SHARDS: u32 = 65535;

/// Bytes of a block's headers and locks, rounded up to whole words.
pub const BLOCK_HEAD_BYTES: usize = 592;

/// Slot words of the classes below `c` in a block, after its headers and locks.
pub open spec fn slot_words_before(cap: int, c: int) -> int
    decreases c,
{
    if c <= 0 {
        BLOCK_HEAD_BYTES as int / 8
    } else {
        slot_words_before(cap, c - 1) + cap_of(c - 1, cap)
    }
}

/// Bytes of one CPU's block.
pub open spec fn block_bytes(cap: int) -> int {
    8 * slot_words_before(cap, NUM_CLASSES as int)
}

proof fn lemma_slot_words(cap: int, c: int, d: int)
    requires
        0 <= c <= d,
        0 <= cap,
    ensures
        74 <= slot_words_before(cap, c) <= slot_words_before(cap, d),
        c < d ==> slot_words_before(cap, c) + cap_of(c, cap) <= slot_words_before(cap, d),
    decreases d,
{
    if c < d {
        lemma_slot_words(cap, c, d - 1);
    } else if c > 0 {
        lemma_slot_words(cap, c - 1, c - 1);
    }
}

/// Every class has eight slots at least.
proof fn lemma_many_words(cap: int, c: int)
    requires
        0 <= c,
    ensures
        slot_words_before(cap, c) >= 74 + 8 * c,
    decreases c,
{
    if c > 0 {
        lemma_many_words(cap, c - 1);
    }
}

/// What divides a page divides a number of pages.
proof fn lemma_page_divides(n: int, align: int)
    requires
        align > 0,
        4096int % align == 0,
        n % 4096 == 0,
    ensures
        n % align == 0,
{
    let k = n / 4096;
    let j = 4096int / align;
    vstd::arithmetic::div_mod::lemma_fundamental_div_mod(4096, align);
    assert(n == k * j * align) by (nonlinear_arith)
        requires
            n == 4096 * k,
            4096 == align * j,
    ;
    vstd::arithmetic::div_mod::lemma_mod_multiples_basic(k * j, align);
}

/// The first of `p`, `2 * p`, `4 * p` and so on that is at least `n`.
pub open spec fn power_from(p: int, n: int) -> int
    decreases 2 * n - p,
{
    if p >= n || p < 1 {
        p
    } else {
        power_from(2 * p, n)
    }
}

proof fn lemma_power_from(p: int, n: int)
    requires
        1 <= p,
    ensures
        power_from(p, n) >= p,
        power_from(p, n) >= n,
        power_from(p, n) % p == 0,
    decreases 2 * n - p,
{
    if p < n {
        lemma_power_from(2 * p, n);
        let q = power_from(2 * p, n);
        let k = q / (2 * p);
        assert(q % p == 0) by {
            vstd::arithmetic::div_mod::lemma_fundamental_div_mod(q, 2 * p);
            assert(2 * p * k == 2 * k * p) by (nonlinear_arith);
            vstd::arithmetic::div_mod::lemma_mod_multiples_basic(2 * k, p);
        }
    } else {
        vstd::arithmetic::div_mod::lemma_mod_self_0(p);
    }
}

/// The smallest power of two of at least `bytes`, as a shift and a value.
fn power_of_two_for(bytes: usize) -> (r: (u32, usize))
    requires
        power_from(1, bytes as int) <= isize::MAX,
    ensures
        r.0 < usize::BITS,
        r.1 == 1usize << r.0,
        r.1 == power_from(1, bytes as int),
{
    let mut shift: u32 = 0;
    let mut value: usize = 1;
    assert(1usize << 0u32 == 1usize) by (bit_vector);
    while value < bytes
        invariant
            shift < usize::BITS,
            value == 1usize << shift,
            value >= 1,
            power_from(value as int, bytes as int) == power_from(1, bytes as int),
            power_from(1, bytes as int) <= isize::MAX,
        decreases usize::BITS - shift,
    {
        proof {
            lemma_power_from(2 * value, bytes as int);
            let more = (shift + 1) as u32;
            assert(usize::BITS == 32 ==> usize::MAX == 0xffff_ffff);
            assert(usize::BITS == 64 ==> usize::MAX == 0xffff_ffff_ffff_ffff);
            assert(more < usize::BITS && 1usize << more == 2 * (1usize << shift)) by (bit_vector)
                requires
                    value == 1usize << shift,
                    shift < usize::BITS,
                    more == shift + 1,
                    usize::BITS == 32 ==> 2 * value <= 0xffff_ffff,
                    usize::BITS == 64 ==> 2 * value <= 0xffff_ffff_ffff_ffff,
            ;
        }
        shift = shift + 1;
        value = value * 2;
    }
    (shift, value)
}

/// Bytes from one CPU's block to the next: the smallest power of two that holds a
/// block.
pub open spec fn block_stride(cap: int) -> int {
    power_from(1, block_bytes(cap))
}

/// A block holds, per class, a header of eight bytes and a lock of four, and eight bytes for
/// every address that the class's stack takes, in whole words.
pub proof fn lemma_block_bytes(cap: int, n: nat)
    requires
        n <= 49,
    ensures
        8 * slot_words_before(cap, n as int) == BLOCK_HEAD_BYTES + 8 * Seq::new(
            n,
            |c: int| cap_of(c, cap),
        ).fold_left(0int, |x: int, y: int| x + y),
        49 * (8 + 4) <= BLOCK_HEAD_BYTES < 49 * (8 + 4) + 8,
        BLOCK_HEAD_BYTES % 8 == 0,
        block_bytes(cap) == 8 * slot_words_before(cap, 49),
    decreases n,
{
    if n > 0 {
        let m = (n - 1) as nat;
        lemma_block_bytes(cap, m);
        assert(Seq::new(n, |c: int| cap_of(c, cap)).drop_last() =~= Seq::new(
            m,
            |c: int| cap_of(c, cap),
        ));
    }
}

proof fn lemma_power_tight(p: int, n: int, k: nat)
    requires
        1 <= p,
        p == vstd::arithmetic::power2::pow2(k),
        p < 2 * n || p == 1,
    ensures
        crate::bits::is_pow2(power_from(p, n)),
        power_from(p, n) < 2 * n || power_from(p, n) == 1,
    decreases 2 * n - p,
{
    if p < n {
        vstd::arithmetic::power2::lemma_pow2_unfold(k + 1);
        lemma_power_tight(2 * p, n, k + 1);
    }
}

/// Blocks are a power of two apart, as near as they can be without one reaching into the
/// next.
pub proof fn lemma_block_stride(cap: int)
    requires
        0 <= cap,
    ensures
        crate::bits::is_pow2(block_stride(cap)),
        block_bytes(cap) <= block_stride(cap) < 2 * block_bytes(cap),
{
    lemma_many_words(cap, NUM_CLASSES as int);
    vstd::arithmetic::power2::lemma2_to64();
    lemma_power_from(1, block_bytes(cap));
    lemma_power_tight(1, block_bytes(cap), 0);
}

proof fn lemma_words_at_most(cap: int, c: int)
    requires
        8 <= cap,
        0 <= c <= 49,
    ensures
        slot_words_before(cap, c) <= 74 + cap * c,
    decreases c,
{
    if c > 0 {
        lemma_words_at_most(cap, c - 1);
        assert(cap * (c - 1) + cap == cap * c) by (nonlinear_arith);
    }
}

/// A sub-heap whose blocks and budget are well within the address space, and whose spans
/// can be numbered, can be laid out; and one that cannot fit there, cannot.
pub proof fn lemma_layout_fits(cpus: int, shards: int, cap: int, budget: int)
    requires
        1 <= cpus,
        0 <= shards <= 65535,
        8 <= cap,
        0 <= budget,
    ensures
        592 + 392 * cap <= u32::MAX && 2 * (cpus * (592 + 392 * cap)) <= isize::MAX / 2 - 8 && 2 * (
        cpus * (592 + 392 * cap)) + budget <= isize::MAX && budget <= 65536 * (u32::MAX - 1)
            ==> layout_fits(cpus, shards, cap, budget),
        layout_fits(cpus, shards, cap, budget) ==> budget <= isize::MAX && budget <= 65536 * (
        u32::MAX - 1) && cpus * 3728 + budget <= isize::MAX,
{
    lemma_block_stride(cap);
    lemma_words_at_most(cap, 49);
    lemma_words_at_most(cap, 48);
    lemma_many_words(cap, 49);
    crate::meta::lemma_spans_in(budget);
    let b = 592 + 392 * cap;
    let w = block_stride(cap);
    assert(3728 <= w <= 2 * b);
    assert(cpus * 3728 <= cpus * w <= 2 * (cpus * b) && cpus * 3728 <= cpus * b) by (nonlinear_arith)
        requires
            1 <= cpus,
            3728 <= w <= 2 * b,
            3728 <= b,
    ;
    assert(isize::MAX >= 0x7fff_ffff);
}

/// Whether a sub-heap can be laid out on this machine: the offsets in a block fit
/// 32 bits, all tables fit the address space, and span indices fit 32 bits.
pub open spec fn layout_fits(cpus: int, shards: int, cap: int, budget: int) -> bool {
    &&& 8 * slot_words_before(cap, NUM_CLASSES - 1) <= u32::MAX
    &&& cpus * block_stride(cap) <= 8 * crate::sys::max_elements()
    &&& cpus * block_stride(cap) + budget <= isize::MAX
    &&& 4 * cpus + 4 <= crate::sys::max_elements()
    &&& shards * NUM_CLASSES <= crate::sys::max_elements()
    &&& spans_in(budget) < NO_SPAN
}

/// A sub-heap of a builder's making over a reservation: the CPUs' blocks lie in
/// front, the arena of the budget's size behind them, and nothing is in use.
pub open spec fn built_as(sub: SubHeap, b: SubHeapBuilder, res: Reservation) -> bool {
    &&& sub.wf()
    &&& sub.label() == b.label()
    &&& sub.policy() == b.policy()
    &&& sub.budget() == b.budget()
    &&& sub.reserved() == Some(res)
    &&& sub.meter_bytes() == 0
    &&& sub.meter_objs() == 0
    &&& sub.heap().base() == res.start() + b.cpus() * b.stride()
    &&& sub.heap().base() % 4096 == 0
    &&& sub.heap().size() == b.budget()
    &&& sub.heap().carved() == 0
    &&& sub.heap().shards() == b.shards()
    &&& sub.heap().slab().cpus() == b.cpus()
    &&& forall|c: int|
        0 <= c < NUM_CLASSES ==> #[trigger] sub.heap().slab().cap(c) == cap_of(c, b.cap())
    &&& forall|cpu: int, c: int|
        0 <= cpu < b.cpus() && 0 <= c < NUM_CLASSES ==> #[trigger] sub.heap().slab().stack(cpu, c)
            == Seq::<usize>::empty()
    &&& forall|cpu: int| 0 <= cpu < b.cpus() ==> !#[trigger] sub.heap().slab().is_stopped_at(cpu)
    &&& sub.heap().kind().len() == spans_in(b.budget())
    &&& sub.heap().lists().len() == b.shards() * NUM_CLASSES
    &&& forall|s: int|
        0 <= s < sub.heap().kind().len() ==> (#[trigger] sub.heap().kind()[s]) is Loose
    &&& forall|s: int| 0 <= s < sub.heap().kind().len() ==> (#[trigger] sub.heap().tag(s)) is None
    &&& forall|s: int| !(#[trigger] sub.heap().pool().covers(s))
    &&& forall|n: int|
        0 <= n < sub.heap().pool().stacks().len() ==> (#[trigger] sub.heap().pool().stacks()[n]).len()
            == 0
    &&& forall|j: int|
        0 <= j < sub.heap().lists().len() ==> (#[trigger] sub.heap().lists()[j]).len() == 0
    &&& forall|j: int|
        0 <= j < sub.heap().lists().len() ==> #[trigger] sub.heap().hint(j) == NO_SPAN
    &&& forall|a: int, c: int| !#[trigger] sub.live(a, c)
    &&& forall|a: int, len: int| !#[trigger] sub.live_run(a, len)
}

/// Configures and builds a [`SubHeap`].
#[derive(Clone, Copy, Debug)]
pub struct SubHeapBuilder {
    name: &'static str,
    on_exhaust: OnExhaust,
    budget_bytes: usize,
    num_cpus: u32,
    num_shards: Option<u32>,
    cap_per_class: u32,
}

impl SubHeapBuilder {
    pub closed spec fn label(&self) -> &'static str {
        self.name
    }

    pub closed spec fn policy(&self) -> OnExhaust {
        self.on_exhaust
    }

    pub closed spec fn budget(&self) -> int {
        self.budget_bytes as int
    }

    pub closed spec fn cpus(&self) -> int {
        self.num_cpus as int
    }

    pub closed spec fn shards_set(&self) -> Option<u32> {
        self.num_shards
    }

    pub closed spec fn cap(&self) -> int {
        self.cap_per_class as int
    }

    /// The number of shards the sub-heap gets: the number set, or four per CPU,
    /// within bounds.
    pub open spec fn shards(&self) -> int {
        match self.shards_set() {
            Some(n) => n as int,
            None => if self.cpus() * SHARDS_PER_CPU < MAX_SHARDS {
                self.cpus() * SHARDS_PER_CPU
            } else {
                MAX_SHARDS as int
            },
        }
    }

    /// At least one CPU, and a shard number in range.
    pub closed spec fn wf(&self) -> bool {
        &&& self.num_cpus >= 1
        &&& self.num_shards matches Some(n) ==> 1 <= n <= MAX_SHARDS
    }

    /// Whether the sub-heap can be laid out on this machine.
    pub open spec fn fits(&self) -> bool {
        layout_fits(self.cpus(), self.shards(), self.cap(), self.budget())
    }

    /// A builder for a sub-heap of `budget_bytes` on a machine of `machine_cpus` CPUs
    /// (at least one), with four shards per CPU and a base stack capacity of 256.
    pub fn new(name: &'static str, budget_bytes: usize, machine_cpus: u32) -> (b: SubHeapBuilder)
        ensures
            b.wf(),
            b.label() == name,
            b.policy() == OnExhaust::Report,
            b.budget() == budget_bytes,
            b.cpus() == if machine_cpus > 1 {
                machine_cpus as int
            } else {
                1
            },
            b.shards_set() is None,
            b.cap() == 256,
    {
        let num_cpus: u32 = if machine_cpus > 1 {
            machine_cpus
        } else {
            1
        };
        SubHeapBuilder {
            name,
            on_exhaust: OnExhaust::Report,
            budget_bytes,
            num_cpus,
            num_shards: None,
            cap_per_class: 256,
        }
    }

    pub fn on_exhaust(self, p: OnExhaust) -> (b: SubHeapBuilder)
        ensures
            self.wf() ==> b.wf(),
            b.policy() == p,
            b.label() == self.label(),
            b.budget() == self.budget(),
            b.cpus() == self.cpus(),
            b.shards_set() == self.shards_set(),
            b.cap() == self.cap(),
    {
        SubHeapBuilder { on_exhaust: p, ..self }
    }

    pub fn cap_per_class(self, c: u32) -> (b: SubHeapBuilder)
        ensures
            self.wf() ==> b.wf(),
            b.cap() == c,
            b.label() == self.label(),
            b.policy() == self.policy(),
            b.budget() == self.budget(),
            b.cpus() == self.cpus(),
            b.shards_set() == self.shards_set(),
    {
        SubHeapBuilder { cap_per_class: c, ..self }
    }

    /// Set the number of CPUs (at least one).
    pub fn num_cpus(self, n: u32) -> (b: SubHeapBuilder)
        ensures
            self.wf() ==> b.wf(),
            b.cpus() == if n > 1 {
                n as int
            } else {
                1
            },
            b.label() == self.label(),
            b.policy() == self.policy(),
            b.budget() == self.budget(),
            b.shards_set() == self.shards_set(),
            b.cap() == self.cap(),
    {
        let n: u32 = if n > 1 {
            n
        } else {
            1
        };
        SubHeapBuilder { num_cpus: n, ..self }
    }

    /// Set the number of shards (between one and [`MAX_SHARDS`]).
    pub fn num_shards(self, n: u32) -> (b: SubHeapBuilder)
        ensures
            self.wf() ==> b.wf(),
            b.shards_set() == Some(
                if n < 1 {
                    1u32
                } else if n > MAX_SHARDS {
                    MAX_SHARDS
                } else {
                    n
                },
            ),
            b.label() == self.label(),
            b.policy() == self.policy(),
            b.budget() == self.budget(),
            b.cpus() == self.cpus(),
            b.cap() == self.cap(),
    {
        let n: u32 = if n < 1 {
            1
        } else if n > MAX_SHARDS {
            MAX_SHARDS
        } else {
            n
        };
        SubHeapBuilder { num_shards: Some(n), ..self }
    }

    /// Bytes from one CPU's block to the next.
    pub open spec fn stride(&self) -> int {
        block_stride(self.cap())
    }

    /// Whether a reservation holds the CPUs' blocks and the budget.
    pub open spec fn held_by(&self, res: Reservation) -> bool {
        res.wf() && res.size() >= self.cpus() * self.stride() + self.budget()
    }

    /// The classes' locations in a block, their capacities, and the distance
    /// between blocks as a shift and in bytes.
    fn block_layout(&self) -> (r: ([ClassLoc; 49], [u32; 49], u32, usize))
        requires
            self.wf(),
            self.fits(),
        ensures
            r.2 < usize::BITS,
            r.3 == 1usize << r.2,
            r.3 == self.stride(),
            r.3 >= 592,
            geometry_ok(r.0@, r.1@, stride_of(r.2)),
            forall|c: int|
                0 <= c < NUM_CLASSES ==> #[trigger] r.1@[c] == cap_of(c, self.cap()),
    {
        let nowhere = ClassLoc { header_off: 0, slots_off: 0, lock_off: 0 };
        let mut classes: [ClassLoc; 49] = [nowhere; 49];
        let mut caps: [u32; 49] = [0; 49];
        let mut off: usize = BLOCK_HEAD_BYTES;
        let mut c: usize = 0;
        let ghost cap = self.cap();
        proof {
            self.lemma_stride();
            lemma_power_from(1, block_bytes(cap));
            let n = self.cpus();
            let w = self.stride();
            assert(w <= n * w) by (nonlinear_arith)
                requires
                    n >= 1,
                    w >= 0,
            ;
        }
        while c < NUM_CLASSES
            invariant
                self.wf(),
                self.fits(),
                cap == self.cap(),
                block_bytes(cap) <= self.stride() <= isize::MAX,
                c <= NUM_CLASSES,
                off == 8 * slot_words_before(cap, c as int),
                forall|d: int| 0 <= d < c ==> #[trigger] caps@[d] == cap_of(d, cap),
                forall|d: int|
                    0 <= d < c ==> (#[trigger] classes@[d]).header_off == 8 * d
                        && classes@[d].slots_off == 8 * slot_words_before(cap, d),
            decreases NUM_CLASSES - c,
        {
            proof {
                lemma_slot_words(cap, c as int, NUM_CLASSES as int);
                lemma_slot_words(cap, c as int, NUM_CLASSES - 1);
                lemma_slot_words(cap, c + 1, NUM_CLASSES as int);
            }
            classes[c] = ClassLoc {
                header_off: (c * 8) as u32,
                slots_off: off as u32,
                lock_off: (NUM_CLASSES * 8 + c * 4) as u32,
            };
            let k: u32 = cap_for_class(c, self.cap_per_class);
            caps[c] = k;
            off = off + (k as usize) * 8;
            c = c + 1;
        }
        let (shift, stride) = power_of_two_for(off);
        proof {
            lemma_slot_words(cap, 0, NUM_CLASSES as int);
            assert forall|a: int, b: int|
                0 <= a < NUM_CLASSES && 0 <= b < NUM_CLASSES && a != b implies #[trigger] crate::rseq::slab::slot_word(
                classes@,
                a,
            ) + caps@[a] <= #[trigger] crate::rseq::slab::slot_word(classes@, b)
                || crate::rseq::slab::slot_word(classes@, b) + caps@[b]
                <= crate::rseq::slab::slot_word(classes@, a) by {
                if a < b {
                    lemma_slot_words(cap, a, b);
                } else {
                    lemma_slot_words(cap, b, a);
                }
            }
            assert forall|a: int| 0 <= a < NUM_CLASSES implies {
                &&& #[trigger] crate::rseq::slab::head_word(classes@, a) < stride_of(shift)
                &&& crate::rseq::slab::slot_word(classes@, a) + caps@[a] <= stride_of(shift)
                &&& crate::rseq::slab::slot_word(classes@, a) >= 74
                &&& crate::rseq::slab::head_word(classes@, a) == a
            } by {
                lemma_slot_words(cap, a, NUM_CLASSES as int);
            }
            assert forall|a: int, b: int|
                #![trigger crate::rseq::slab::head_word(classes@, a), crate::rseq::slab::slot_word(classes@, b)]
                0 <= a < NUM_CLASSES && 0 <= b < NUM_CLASSES implies !crate::rseq::slab::is_slot(
                classes@,
                caps@,
                b,
                crate::rseq::slab::head_word(classes@, a),
            ) by {
                assert(crate::rseq::slab::head_word(classes@, b) == b);
            }
        }
        (classes, caps, shift, stride)
    }

    fn shard_count(&self) -> (n: u32)
        requires
            self.wf(),
        ensures
            n == self.shards(),
            1 <= n <= MAX_SHARDS,
            self.shards_set() matches Some(m) ==> n == m,
            self.shards_set() is None ==> n <= 4 * self.cpus() && (n == 4 * self.cpus() || n == 65535),
    {
        match self.num_shards {
            Some(n) => n,
            None => if self.num_cpus < MAX_SHARDS / SHARDS_PER_CPU + 1 {
                self.num_cpus * SHARDS_PER_CPU
            } else {
                MAX_SHARDS
            },
        }
    }

    /// Whether the sub-heap can be laid out on this machine.
    pub fn can_build(&self) -> (b: bool)
        requires
            self.wf(),
        ensures
            b == self.fits(),
    {
        let ghost cap = self.cap();
        let mut words: u64 = 74;
        let mut c: usize = 0;
        while c < NUM_CLASSES
            invariant
                cap == self.cap_per_class,
                c <= NUM_CLASSES,
                words == slot_words_before(cap, c as int),
                words <= 74 + c * 0x1_0000_0000,
            decreases NUM_CLASSES - c,
        {
            words = words + cap_for_class(c, self.cap_per_class) as u64;
            c = c + 1;
        }
        let ghost bytes = block_bytes(cap);
        let last: u64 = cap_for_class(NUM_CLASSES - 1, self.cap_per_class) as u64;
        let block: u128 = words as u128 * 8;
        let budget: u128 = self.budget_bytes as u128;
        let limit: u128 = isize::MAX as u128;
        let elements: u128 = limit / 16;
        proof {
            lemma_slot_words(cap, 0, NUM_CLASSES - 1);
            assert(words == slot_words_before(cap, NUM_CLASSES - 1) + last);
        }
        if (words - last) as u128 * 8 > 0xffff_ffff {
            return false;
        }
        let mut stride: u128 = 1;
        while stride < block
            invariant
                block == bytes,
                block <= 8 * (74 + 49 * 0x1_0000_0000),
                1 <= stride,
                stride < 2 * block || stride == 1,
                power_from(stride as int, bytes) == power_from(1, bytes),
            decreases 2 * block - stride,
        {
            stride = stride * 2;
        }
        proof {
            assert(self.num_cpus * stride <= 0xffff_ffff * 0x1000_0000_0000) by (nonlinear_arith)
                requires
                    self.num_cpus <= 0xffff_ffff,
                    stride <= 0x1000_0000_0000,
            ;
        }
        let blocks: u128 = self.num_cpus as u128 * stride;
        blocks <= 8 * elements && blocks + budget <= limit && 4 * self.num_cpus as u128 + 4
            <= elements && self.shard_count() as u128 * 49 <= elements && (budget + 65535) / 65536
            < 0xffff_ffff
    }

    /// Bytes to reserve: the CPUs' blocks, and the budget behind them.
    pub fn reserve_bytes(&self) -> (n: usize)
        requires
            self.wf(),
            self.fits(),
        ensures
            n == self.cpus() * self.stride() + self.budget(),
    {
        let (_, _, _, stride) = self.block_layout();
        (self.num_cpus as usize) * stride + self.budget_bytes
    }

    /// A block takes a page at least, and so the blocks are a number of pages apart.
    proof fn lemma_stride(&self)
        ensures
            self.stride() >= 4096,
            self.stride() % 4096 == 0,
            (self.cpus() * self.stride()) % 4096 == 0,
    {
        let n = block_bytes(self.cap());
        lemma_many_words(self.cap(), NUM_CLASSES as int);
        reveal_with_fuel(power_from, 14);
        assert(power_from(1, n) == power_from(4096, n));
        lemma_power_from(4096, n);
        let w = self.stride();
        let k = w / 4096;
        let m = self.cpus();
        assert(m * w == m * k * 4096) by (nonlinear_arith)
            requires
                w == 4096 * k,
        ;
        vstd::arithmetic::div_mod::lemma_mod_multiples_basic(m * k, 4096);
    }

    /// The arena of a sub-heap that was built lies inside its reservation.
    pub proof fn lemma_arena(&self, sub: &SubHeap, res: Reservation)
        requires
            self.wf(),
            self.held_by(res),
            built_as(*sub, *self, res),
        ensures
            res.start() <= sub.heap().base(),
            sub.heap().base() + sub.heap().size() <= res.start() + res.size(),
    {
        self.lemma_stride();
        let n = self.cpus();
        let w = self.stride();
        assert(0 <= n * w) by (nonlinear_arith)
            requires
                n >= 1,
                w >= 0,
        ;
    }

    /// Build the sub-heap over what came of reserving
    /// [`reserve_bytes`](Self::reserve_bytes) bytes: the arena is the budget's
    /// bytes behind the blocks. A failed reservation is passed on.
    pub fn build_standalone(self, reserved: Result<Reservation, ReserveError>) -> (r: Result<
        SubHeap,
        ReserveError,
    >)
        requires
            self.wf(),
            self.fits(),
            reserved matches Ok(res) ==> self.held_by(res),
        ensures
            match reserved {
                Err(e) => r == Err::<SubHeap, ReserveError>(e),
                Ok(res) => r matches Ok(sub) && built_as(sub, self, res),
            },
            r matches Ok(sub) ==> {
                &&& sub.label() == self.label()
                &&& sub.policy() == self.policy()
                &&& sub.budget() == self.budget()
                &&& sub.heap().size() == self.budget()
                &&& sub.heap().carved() == 0
                &&& sub.meter_bytes() == 0 && sub.meter_objs() == 0
                &&& sub.heap().slab().cpus() == self.cpus()
                &&& sub.heap().shards() == self.shards()
                &&& reserved matches Ok(res) ==> res.start() + self.cpus() * self.stride()
                    == sub.heap().base() && sub.heap().base() + self.budget() <= res.start()
                    + res.size() && sub.reserved() == Some(res)
                &&& forall|a: int, c: int| !#[trigger] sub.live(a, c)
            },
    {
        let res = match reserved {
            Ok(res) => res,
            Err(e) => {
                return Err(e);
            },
        };
        let num_shards: u32 = self.shard_count();
        let (classes, caps, shift, stride) = self.block_layout();
        proof {
            self.lemma_stride();
            let n = self.cpus();
            let w = stride_of(shift);
            assert(n * w <= crate::sys::max_elements()) by (nonlinear_arith)
                requires
                    8 * w <= stride,
                    n * stride <= 8 * crate::sys::max_elements(),
                    n >= 1,
            ;
        }
        let slab_bytes: usize = (self.num_cpus as usize) * stride;
        let slab = SlabLayout::new(self.num_cpus, shift, &classes, &caps);
        let arena_base: usize = res.base() + slab_bytes;
        let heap = Heap::new(arena_base, self.budget_bytes, num_shards, slab);
        let sub = SubHeap {
            name: self.name,
            on_exhaust: self.on_exhaust,
            heap,
            budget_bytes: self.budget_bytes,
            counters: PerCpuCounters::new(self.num_cpus),
            reservation: Some(res),
        };
        proof {
            sub.heap.lemma_lens();
            sub.heap.lemma_held_nothing(sub.heap.kind().len() as int);
            assert forall|a: int, c: int| !#[trigger] sub.live(a, c) by {}
            assert forall|a: int, len: int| !#[trigger] sub.live_run(a, len) by {}
        }
        Ok(sub)
    }
}

impl SubHeap {
    /// The last object a thread freed locally is the next one of its class that
    /// it is handed, as long as its CPU is not stopped and its stack can hold an
    /// object at all. In particular a free makes the next allocation of that
    /// class succeed, however exhausted the budget is.
    pub proof fn lemma_free_then_alloc(&self, freed: &SubHeap, seen: ThreadView, addr: usize, c: int)
        requires
            self.wf(),
            is_class(c),
            self.heap().is_local(addr as int, seen.shard_id as int),
            !self.heap().slab().is_stopped_at(self.serving(seen)),
            self.heap().slab().cap(c) >= 1,
            freed.heap().slab_moved(&self.heap(), self.serving(seen), c),
            freed.heap().slab().stack(self.serving(seen), c) == freed_onto(
                self.heap().slab().stack(self.serving(seen), c),
                self.heap().slab().cap(c),
                batch_of(c),
                addr,
            ),
        ensures
            freed.cached(seen, c).len() > 0,
            freed.cached(seen, c).last() == addr,
    {
        freed.heap().slab().lemma_same_shape(&self.heap().slab());
        assert(freed.serving(seen) == self.serving(seen));
        self.heap.lemma_serving_range(seen);
        self.heap.lemma_stack_bound(self.serving(seen), c);
    }

    /// A live object's class is one.
    pub(crate) proof fn lemma_class_of_live(&self, a: int, c: int)
        requires
            self.live(a, c),
        ensures
            is_class(c),
    {
    }

    pub(crate) proof fn lemma_budget(&self)
        requires
            self.wf(),
        ensures
            self.budget() == self.heap().size(),
    {
    }

    /// What is handed out never exceeds what was carved, nor that the budget.
    pub proof fn lemma_within_budget(&self)
        requires
            self.wf(),
        ensures
            0 <= self.meter_objs() <= self.meter_bytes(),
            self.meter_bytes() <= self.heap().carved() * SPAN_BYTES <= self.budget(),
    {
        self.heap.lemma_held_bounded();
        self.heap.lemma_carved_bounded();
    }

    /// Nothing is stranded: once everything was freed and no CPU caches an object,
    /// a sweep brings every carved span back to the pool, where any class and any
    /// large run can have it.
    pub proof fn lemma_nothing_stranded(&self, s: int)
        requires
            self.wf(),
            forall|t: int|
                0 <= t < self.heap().kind().len() ==> !#[trigger] fully_free(
                    self.heap().kind(),
                    self.heap().place(),
                    t,
                ),
            forall|a: int, c: int| !#[trigger] self.live(a, c),
            forall|a: int, len: int| !#[trigger] self.live_run(a, len),
            forall|cpu: int, c: int|
                0 <= cpu < self.heap().slab().cpus() && 0 <= c < NUM_CLASSES ==> (
                #[trigger] self.heap().slab().stack(cpu, c)).len() == 0,
            0 <= s < self.heap().carved(),
        ensures
            self.heap().pool().covers(s),
    {
        assert forall|a: int, c: int| !#[trigger] self.heap.live(a, c) by {
            assert(!self.live(a, c));
        }
        assert forall|a: int, len: int| !#[trigger] self.heap.live_run(a, len) by {
            assert(!self.live_run(a, len));
        }
        self.heap.lemma_swept_clean(s);
    }

    /// The shared state of a sub-heap keeps its own invariant, and the arena starts
    /// at a page.
    pub proof fn lemma_parts(&self)
        requires
            self.wf(),
        ensures
            self.heap().wf(),
            self.heap().size() == self.budget(),
            self.heap().base() % 4096 == 0,
    {
    }

    /// Once the fully free groups were given back, an immediate second call finds
    /// none: it would return 0.
    pub proof fn lemma_reclaim_twice(&self, after: &SubHeap)
        requires
            after.heap().reclaimed(&self.heap()),
        ensures
            free_groups(
                after.heap().kind(),
                after.heap().place(),
                after.heap().kind().len() as int,
            ) == 0,
    {
        let kind = after.heap().kind();
        assert forall|s: int| 0 <= s < kind.len() implies !#[trigger] fully_free(
            kind,
            after.heap().place(),
            s,
        ) by {
            assert(kind[s] == (if crate::subheap::heap::in_free_group(
                self.heap().kind(),
                self.heap().place(),
                s,
            ) {
                crate::subheap::heap::SpanKind::Loose
            } else {
                self.heap().kind()[s]
            }));
        }
        crate::subheap::heap::lemma_no_free_groups(kind, after.heap().place(), kind.len() as int);
    }

    /// A live large run is inside the arena, and a free by address finds it.
    pub proof fn lemma_live_run(&self, a: int, len: int)
        requires
            self.wf(),
            self.live_run(a, len),
        ensures
            1 <= len,
            self.heap().base() <= a,
            a + len * SPAN_BYTES <= self.heap().base() + self.budget(),
            (a - self.heap().base()) % (SPAN_BYTES as int) == 0,
            self.tag_at(a) == Some(LARGE_CLASS),
    {
        self.heap.lemma_run_bounds(a, len);
        self.heap.lemma_tag_recovers(a, 0);
        assert(len * SPAN_BYTES >= SPAN_BYTES) by (nonlinear_arith)
            requires
                len >= 1,
        ;
        let s = span_index(self.heap().base(), a);
        vstd::arithmetic::div_mod::lemma_mod_multiples_basic(s, SPAN_BYTES as int);
    }

    /// A live object and a live large run are apart.
    pub proof fn lemma_object_and_run(&self, a: int, c: int, b: int, len: int)
        requires
            self.wf(),
            self.live(a, c),
            self.live_run(b, len),
        ensures
            a + class_size(c) <= b || b + len * SPAN_BYTES <= a,
    {
        self.heap.lemma_object_run_disjoint(a, c, b, len);
    }

    /// Two live large runs are apart.
    pub proof fn lemma_two_runs(&self, a: int, m: int, b: int, n: int)
        requires
            self.wf(),
            self.live_run(a, m),
            self.live_run(b, n),
            a != b,
        ensures
            a + m * SPAN_BYTES <= b || b + n * SPAN_BYTES <= a,
    {
        self.heap.lemma_runs_disjoint(a, m, b, n);
    }

    /// Every live object is aligned to eight bytes, and to every power of two up to
    /// a page that divides its class's size; up to a span, as far as the arena's base
    /// is.
    pub proof fn lemma_aligned(&self, a: int, c: int, align: int)
        requires
            self.wf(),
            self.live(a, c),
            align > 0,
            class_size(c) % align == 0,
            4096int % align == 0 || (SPAN_BYTES as int % align == 0 && self.heap().base() % align
                == 0),
        ensures
            a % align == 0,
            a % 8 == 0,
    {
        if 4096int % align == 0 {
            lemma_page_divides(SPAN_BYTES as int, align);
            lemma_page_divides(self.heap().base(), align);
        }
        self.heap.lemma_object_aligned(a, c, align);
        lemma_class_sizes();
        assert(class_size(c) % 8 == 0);
        self.heap.lemma_object_aligned(a, c, 8);
    }

    /// Every live object of the sub-heap is inside its arena, apart from every
    /// other, and a free by address finds its class.
    pub proof fn lemma_live_objects(&self, a: int, c: int, b: int, d: int)
        requires
            self.wf(),
            self.live(a, c),
            self.live(b, d),
        ensures
            self.heap().base() <= a,
            a + class_size(c) <= self.heap().base() + self.budget(),
            a == b ==> c == d,
            a != b ==> a + class_size(c) <= b || b + class_size(d) <= a,
            self.tag_at(a) == Some(c as u16),
    {
        lemma_tiling(c);
        lemma_tiling(d);
        self.heap.lemma_object_bounds(a, c);
        self.heap.lemma_tag_recovers(a, c);
        if !(a == b && c == d) {
            self.heap.lemma_objects_disjoint(a, c, b, d);
        }
    }
}

} // verus!
