//! Background management of sub-heaps: reclaiming empty spans, and moving cached
//! objects off a CPU that has been seized.
//!
//! One thread sweeps all managed sub-heaps and then naps. A sweep that reclaimed
//! something is followed by a short nap, one that did not by the full interval.
//! Seizing a CPU raises its stop flag and then has the kernel abort the
//! restartable sections that run on it; only then may its stacks be changed from
//! elsewhere.

use vstd::prelude::*;
use crate::rseq::membarrier::MembarrierCaps;
use crate::sizeclass::is_class;
use crate::subheap::heap::{free_groups, fully_free};
use crate::subheap::SubHeap;

verus! {

/// Spans that a sweep retires per pass over a list.
pub const RECLAIM_CAP_PER_CELL: usize = 32;

/// Nanoseconds between sweeps, unless set otherwise: 50 milliseconds.
pub const DEFAULT_INTERVAL_NS: u128 = 50_000_000;

/// Nanoseconds to the next sweep when the last one reclaimed something: one
/// millisecond.
pub const FAST_NS: u128 = 1_000_000;

/// What the supervisor has done so far.
#[derive(Clone, Copy, Debug)]
pub struct Stats {
    pub sweeps: u64,
    pub reclaimed_objects: u64,
}

impl Default for Stats {
    fn default() -> (s: Self)
        ensures
            s.sweeps == 0,
            s.reclaimed_objects == 0,
    {
        Stats { sweeps: 0, reclaimed_objects: 0 }
    }
}

/// Configures a [`Supervisor`] over sub-heaps held as `H`.
pub struct SupervisorBuilder<H> {
    subheaps: Vec<H>,
    interval_ns: u128,
}

impl<H> SupervisorBuilder<H> {
    pub closed spec fn managed(&self) -> Seq<H> {
        self.subheaps@
    }

    pub closed spec fn every(&self) -> u128 {
        self.interval_ns
    }

    /// No sub-heaps, and the default interval.
    pub fn new() -> (b: SupervisorBuilder<H>)
        ensures
            b.managed() == Seq::<H>::empty(),
            b.every() == DEFAULT_INTERVAL_NS,
            b.every() == 50_000_000,
    {
        SupervisorBuilder { subheaps: Vec::new(), interval_ns: DEFAULT_INTERVAL_NS }
    }

    /// Manage one more sub-heap.
    pub fn manage(self, sh: H) -> (b: SupervisorBuilder<H>)
        ensures
            b.managed() == self.managed().push(sh),
            b.every() == self.every(),
    {
        let mut b = self;
        b.subheaps.push(sh);
        b
    }

    /// Sweep every `ns` nanoseconds.
    pub fn interval(self, ns: u128) -> (b: SupervisorBuilder<H>)
        ensures
            b.managed() == self.managed(),
            b.every() == ns,
    {
        SupervisorBuilder { subheaps: self.subheaps, interval_ns: ns }
    }

    /// The supervisor, and the sub-heaps it is to sweep, on a system with these
    /// capabilities.
    pub fn start(self, caps: MembarrierCaps) -> (r: (Supervisor, Vec<H>))
        ensures
            r.1@ == self.managed(),
            r.0.idle() == self.every(),
            r.0.done() == (Stats { sweeps: 0, reclaimed_objects: 0 }),
            r.0.pending() == 0,
            r.0.seizes() == caps.private_expedited_rseq,
    {
        (
            Supervisor {
                stats: Stats { sweeps: 0, reclaimed_objects: 0 },
                current: 0,
                interval_ns: self.interval_ns,
                caps,
            },
            self.subheaps,
        )
    }
}

impl<H> Default for SupervisorBuilder<H> {
    fn default() -> (b: Self)
        ensures
            b.managed() == Seq::<H>::empty(),
            b.every() == DEFAULT_INTERVAL_NS,
    {
        SupervisorBuilder::new()
    }
}

/// The supervisor's state.
pub struct Supervisor {
    stats: Stats,
    current: u64,
    interval_ns: u128,
    caps: MembarrierCaps,
}

impl Supervisor {
    pub closed spec fn done(&self) -> Stats {
        self.stats
    }

    /// Span groups reclaimed in the sweep that is under way.
    pub closed spec fn pending(&self) -> u64 {
        self.current
    }

    pub closed spec fn idle(&self) -> u128 {
        self.interval_ns
    }

    pub closed spec fn seizes(&self) -> bool {
        self.caps.private_expedited_rseq
    }

    pub fn builder<H>() -> (b: SupervisorBuilder<H>)
        ensures
            b.managed() == Seq::<H>::empty(),
            b.every() == DEFAULT_INTERVAL_NS,
    {
        SupervisorBuilder::new()
    }

    pub fn stats(&self) -> (s: Stats)
        ensures
            s == self.done(),
    {
        self.stats
    }

    /// Whether CPUs can be seized.
    pub fn can_seize(&self) -> (b: bool)
        ensures
            b == self.seizes(),
    {
        self.caps.private_expedited_rseq
    }

    /// Sweep one sub-heap: its fully free span groups go to the pool, and what is
    /// live is live still. Each of them is counted.
    pub fn sweep_one(&mut self, sh: &mut SubHeap)
        requires
            old(sh).wf(),
        ensures
            final(sh).wf(),
            final(sh).same_config(old(sh)),
            final(sh).metered(old(sh), 0, 0),
            final(sh).heap().reclaimed(&old(sh).heap()),
            forall|s: int|
                0 <= s < final(sh).heap().kind().len() ==> !#[trigger] fully_free(
                    final(sh).heap().kind(),
                    final(sh).heap().place(),
                    s,
                ),
            final(self).done() == old(self).done(),
            final(self).idle() == old(self).idle(),
            final(self).seizes() == old(self).seizes(),
            final(self).pending() == old(self).pending().wrapping_add(
                free_groups(
                    old(sh).heap().kind(),
                    old(sh).heap().place(),
                    old(sh).heap().kind().len() as int,
                ) as u64,
            ),
    {
        let stranded: usize = sh.reclaim_stranded_remote();
        let emptied: usize = sh.reclaim_empty_spans(RECLAIM_CAP_PER_CELL);
        self.current = self.current.wrapping_add(stranded as u64).wrapping_add(emptied as u64);
    }

    /// Finish a sweep: record it, and say how many nanoseconds to nap.
    pub fn end_sweep(&mut self) -> (nap_ns: u128)
        ensures
            final(self).idle() == old(self).idle(),
            final(self).seizes() == old(self).seizes(),
            final(self).pending() == 0,
            final(self).done().sweeps == old(self).done().sweeps.wrapping_add(1),
            final(self).done().reclaimed_objects == old(self).done().reclaimed_objects.wrapping_add(
                old(self).pending(),
            ),
            nap_ns == if old(self).pending() > 0 && FAST_NS < old(self).idle() {
                FAST_NS
            } else {
                old(self).idle()
            },
            nap_ns <= old(self).idle(),
            old(self).pending() == 0 ==> nap_ns == old(self).idle(),
            old(self).pending() > 0 ==> nap_ns <= 1_000_000 && (nap_ns == FAST_NS || nap_ns
                == old(self).idle()),
    {
        let reclaimed: u64 = self.current;
        self.stats = Stats {
            sweeps: self.stats.sweeps.wrapping_add(1),
            reclaimed_objects: self.stats.reclaimed_objects.wrapping_add(reclaimed),
        };
        self.current = 0;
        let fast: u128 = if FAST_NS < self.interval_ns {
            FAST_NS
        } else {
            self.interval_ns
        };
        if reclaimed > 0 {
            fast
        } else {
            self.interval_ns
        }
    }

    /// Begin to seize a CPU: raise its stop flag. A number past the last CPU stands
    /// for the last one. `false`, and nothing happens, if
    /// CPUs cannot be seized here. On `true` the restartable sections on that CPU
    /// are to be aborted, and [`seized`](Self::seized) told how that went.
    pub fn seize_cpu(&self, sh: &mut SubHeap, cpu: u32) -> (begun: bool)
        requires
            old(sh).wf(),
        ensures
            final(sh).wf(),
            final(sh).same_config(old(sh)),
            begun == self.seizes(),
            !begun ==> *final(sh) == *old(sh),
            begun ==> stop_flag_set(final(sh), old(sh), cpu as int, true),
            begun ==> forall|k: int|
                0 <= k < final(sh).heap().slab().cpus() && (k == cpu || old(sh).heap().slab().is_stopped_at(k)) ==> #[trigger] final(sh).heap().slab().is_stopped_at(
                    k,
                ),
    {
        if !self.caps.private_expedited_rseq {
            return false;
        }
        sh.set_cpu_stopped(cpu, true);
        true
    }

    /// The CPU is seized if its restartable sections were aborted; else its stop
    /// flag is lowered again.
    pub fn seized(&self, sh: &mut SubHeap, cpu: u32, aborted: bool) -> (g: Option<SeizeGuard>)
        requires
            old(sh).wf(),
        ensures
            final(sh).wf(),
            final(sh).same_config(old(sh)),
            match g {
                Some(g) => aborted && g.at() == cpu && *final(sh) == *old(sh),
                None => !aborted && stop_flag_set(final(sh), old(sh), cpu as int, false),
            },
    {
        if !aborted {
            sh.set_cpu_stopped(cpu, false);
            return None;
        }
        Some(SeizeGuard { cpu })
    }
}

/// Only the stop flag of `cpu` may have changed, to `stopped`; a number past the
/// last CPU stands for the last one.
pub open spec fn stop_flag_set(now: &SubHeap, before: &SubHeap, cpu: int, stopped: bool) -> bool {
    &&& now.heap().same_spans(&before.heap())
    &&& now.heap().place() == before.heap().place()
    &&& forall|k: int, c: int|
        #[trigger] now.heap().slab().stack(k, c) == before.heap().slab().stack(k, c)
    &&& forall|k: int|
        0 <= k < now.heap().slab().cpus() ==> #[trigger] now.heap().slab().is_stopped_at(k) == (if k
            == cpu || (cpu >= now.heap().slab().cpus() && k == now.heap().slab().cpus() - 1) {
            stopped
        } else {
            before.heap().slab().is_stopped_at(k)
        })
}

/// A seized CPU.
#[derive(Debug)]
pub struct SeizeGuard {
    cpu: u32,
}

impl SeizeGuard {
    pub closed spec fn at(&self) -> u32 {
        self.cpu
    }

    pub fn cpu(&self) -> (c: u32)
        ensures
            c == self.at(),
    {
        self.cpu
    }

    /// Move up to `count` objects of class `class` off the seized CPU's stack.
    /// Returns how many moved.
    pub fn rebalance_capacity(&self, sh: &mut SubHeap, class: usize, count: u32) -> (n: u32)
        requires
            old(sh).wf(),
            is_class(class as int),
            self.at() < old(sh).heap().slab().cpus(),
        ensures
            final(sh).wf(),
            final(sh).same_config(old(sh)),
            final(sh).heap().same_spans(&old(sh).heap()),
            final(sh).heap().same_live(&old(sh).heap()),
            final(sh).heap().slab_moved(&old(sh).heap(), self.at() as int, class as int),
            ({
                let st = old(sh).heap().slab().stack(self.at() as int, class as int);
                &&& n == (if count < st.len() {
                    count as int
                } else {
                    st.len() as int
                })
                &&& final(sh).heap().slab().stack(self.at() as int, class as int) == st.take(
                    st.len() - n,
                )
            }),
    {
        sh.rebalance_capacity(self.cpu, class, count)
    }

    /// Give the CPU back: lower its stop flag.
    pub fn release(self, sh: &mut SubHeap)
        requires
            old(sh).wf(),
        ensures
            final(sh).wf(),
            final(sh).same_config(old(sh)),
            stop_flag_set(final(sh), old(sh), self.at() as int, false),
            self.at() < final(sh).heap().slab().cpus() ==> !final(sh).heap().slab().is_stopped_at(
                self.at() as int,
            ),
            forall|k: int|
                0 <= k < final(sh).heap().slab().cpus() && #[trigger] final(sh).heap().slab().is_stopped_at(k) ==> old(sh).heap().slab().is_stopped_at(k),
    {
        sh.set_cpu_stopped(self.cpu, false);
    }
}

/// Seizing a CPU that was running, and giving it back, leaves every stop flag and
/// every stack as they were, and what is live is live still.
pub proof fn lemma_seize_release(before: &SubHeap, seized: &SubHeap, after: &SubHeap, cpu: int)
    requires
        0 <= cpu < before.heap().slab().cpus(),
        !before.heap().slab().is_stopped_at(cpu),
        seized.same_config(before),
        after.same_config(seized),
        stop_flag_set(seized, before, cpu, true),
        stop_flag_set(after, seized, cpu, false),
    ensures
        forall|k: int|
            0 <= k < before.heap().slab().cpus() ==> #[trigger] after.heap().slab().is_stopped_at(k)
                == before.heap().slab().is_stopped_at(k),
        forall|k: int, c: int|
            #[trigger] after.heap().slab().stack(k, c) == before.heap().slab().stack(k, c),
        forall|a: int, c: int| #[trigger] after.live(a, c) <==> before.live(a, c),
        forall|a: int, len: int| #[trigger] after.live_run(a, len) <==> before.live_run(a, len),
{
    assert forall|k: int| 0 <= k < before.heap().slab().cpus() implies #[trigger] after.heap().slab().is_stopped_at(
    k) == before.heap().slab().is_stopped_at(k) by {
        assert(seized.heap().slab().is_stopped_at(k) == if k == cpu {
            true
        } else {
            before.heap().slab().is_stopped_at(k)
        });
    }
    assert forall|k: int, c: int| #[trigger] after.heap().slab().stack(k, c)
        == before.heap().slab().stack(k, c) by {
        assert(seized.heap().slab().stack(k, c) == before.heap().slab().stack(k, c));
    }
    assert(after.heap().place() == before.heap().place());
    assert(after.heap().kind() == before.heap().kind());
}

} // verus!
