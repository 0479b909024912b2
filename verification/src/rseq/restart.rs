//! The commit protocol of a restartable section.

use vstd::prelude::*;
use crate::rseq::abi::{Rseq, MAX_ATTEMPTS};
use crate::rseq::slab::SlabLayout;

verus! {

/// Outcome of a restartable section.
#[derive(Clone, Copy, Debug)]
pub enum RseqResult {
    /// Committed: the popped address (0 for a push) and the CPU it happened on.
    Done(usize, u32),
    /// Stack empty (pop) or full (push).
    NeedsSlow,
    /// Not registered, stopped, or aborted too often: use the locked path.
    Fallback,
}

/// The CPU a section that starts at attempt `k` commits on. An attempt whose hint
/// is out of range ends the section; one whose hint and committed CPU agree
/// commits; otherwise the thread has migrated and the section restarts.
pub open spec fn committed_cpu(attempts: Seq<Rseq>, num_cpus: int, k: int) -> Option<u32>
    decreases attempts.len() - k,
{
    if k >= attempts.len() || attempts[k].cpu_id_start >= num_cpus {
        None
    } else if attempts[k].cpu_id_start == attempts[k].cpu_id {
        Some(attempts[k].cpu_id_start)
    } else {
        committed_cpu(attempts, num_cpus, k + 1)
    }
}

/// A section commits on a CPU that is in range.
pub proof fn lemma_committed_in_range(attempts: Seq<Rseq>, num_cpus: int, k: int)
    ensures
        committed_cpu(attempts, num_cpus, k) matches Some(cpu) ==> cpu < num_cpus,
    decreases attempts.len() - k,
{
    if k < attempts.len() {
        lemma_committed_in_range(attempts, num_cpus, k + 1);
    }
}

/// A section commits on the CPU of the first attempt that ran where it was to; every
/// attempt before that one was moved. It gives up exactly where no attempt did, or one
/// before it was to run where there is no CPU.
pub proof fn lemma_first_commit(attempts: Seq<Rseq>, num_cpus: int, from: int, k: int)
    requires
        0 <= from <= k < attempts.len(),
        forall|j: int|
            from <= j < k ==> (#[trigger] attempts[j]).cpu_id_start < num_cpus
                && attempts[j].cpu_id_start != attempts[j].cpu_id,
    ensures
        attempts[k].cpu_id_start == attempts[k].cpu_id && attempts[k].cpu_id < num_cpus
            ==> committed_cpu(attempts, num_cpus, from) == Some(attempts[k].cpu_id),
        attempts[k].cpu_id_start >= num_cpus ==> committed_cpu(attempts, num_cpus, from) is None,
        k == attempts.len() - 1 && attempts[k].cpu_id_start != attempts[k].cpu_id
            ==> committed_cpu(attempts, num_cpus, from) is None,
    decreases k - from,
{
    if from < k {
        assert(attempts[from].cpu_id_start < num_cpus);
        lemma_first_commit(attempts, num_cpus, from + 1, k);
    } else if k == attempts.len() - 1 {
        assert(committed_cpu(attempts, num_cpus, k + 1) is None);
    }
}

/// The CPU on which the section commits, given the thread's record as read at
/// each attempt; `None` if it gives up.
pub fn commit_cpu(attempts: &[Rseq; 4], num_cpus: u32) -> (r: Option<u32>)
    ensures
        r == committed_cpu(attempts@, num_cpus as int, 0),
        r matches Some(cpu) ==> cpu < num_cpus,
        r matches Some(cpu) ==> exists|k: int|
            0 <= k < 4 && (#[trigger] attempts@[k]).cpu_id_start == cpu && attempts@[k].cpu_id == cpu
                && forall|j: int|
                0 <= j < k ==> (#[trigger] attempts@[j]).cpu_id_start != attempts@[j].cpu_id
                    && attempts@[j].cpu_id_start < num_cpus,
        r is None ==> (exists|k: int| 0 <= k < 4 && (#[trigger] attempts@[k]).cpu_id_start >= num_cpus)
            || forall|j: int|
            0 <= j < 4 ==> (#[trigger] attempts@[j]).cpu_id_start != attempts@[j].cpu_id,
{
    let mut k: usize = 0;
    while k < MAX_ATTEMPTS
        invariant
            k <= MAX_ATTEMPTS,
            forall|j: int|
                0 <= j < k ==> (#[trigger] attempts@[j]).cpu_id_start != attempts@[j].cpu_id
                    && attempts@[j].cpu_id_start < num_cpus,
            committed_cpu(attempts@, num_cpus as int, k as int) == committed_cpu(
                attempts@,
                num_cpus as int,
                0,
            ),
        decreases MAX_ATTEMPTS - k,
    {
        let seen: Rseq = attempts[k];
        if seen.cpu_id_start >= num_cpus {
            return None;
        }
        if seen.cpu_id_start == seen.cpu_id {
            return Some(seen.cpu_id_start);
        }
        k = k + 1;
    }
    None
}

/// Pop the top address of class `class` from the stack of the CPU the section
/// commits on, as one restartable section: either nothing changes, or exactly
/// one address leaves that stack.
pub fn pop(layout: &mut SlabLayout, attempts: &[Rseq; 4], class: usize) -> (r: RseqResult)
    requires
        old(layout).wf(),
        class < old(layout).class_count(),
    ensures
        final(layout).wf(),
        final(layout).same_shape(old(layout)),
        r matches RseqResult::Done(_, cpu) ==> cpu < old(layout).cpus(),
        match committed_cpu(attempts@, old(layout).cpus(), 0) {
            Some(cpu) => {
                let stack = old(layout).stack(cpu as int, class as int);
                if old(layout).is_stopped_at(cpu as int) {
                    r is Fallback && *final(layout) == *old(layout)
                } else if stack.len() == 0 {
                    r is NeedsSlow && *final(layout) == *old(layout)
                } else {
                    &&& r == RseqResult::Done(stack.last(), cpu)
                    &&& final(layout).stack(cpu as int, class as int) == stack.drop_last()
                    &&& final(layout).same_stacks_but(old(layout), cpu as int, class as int)
                }
            },
            None => r is Fallback && *final(layout) == *old(layout),
        },
{
    proof {
        layout.lemma_same_shape_refl();
    }
    match commit_cpu(attempts, layout.num_cpus()) {
        None => RseqResult::Fallback,
        Some(cpu) => {
            if layout.is_stopped(cpu) {
                return RseqResult::Fallback;
            }
            match layout.pop_slot(cpu, class) {
                Some(addr) => RseqResult::Done(addr, cpu),
                None => RseqResult::NeedsSlow,
            }
        },
    }
}

/// Push `addr` onto class `class`'s stack of the CPU the section commits on, as
/// one restartable section: either nothing changes, or exactly one address is
/// added to that stack.
pub fn push(layout: &mut SlabLayout, attempts: &[Rseq; 4], class: usize, addr: usize) -> (r:
    RseqResult)
    requires
        old(layout).wf(),
        class < old(layout).class_count(),
    ensures
        final(layout).wf(),
        final(layout).same_shape(old(layout)),
        r matches RseqResult::Done(_, cpu) ==> cpu < old(layout).cpus(),
        match committed_cpu(attempts@, old(layout).cpus(), 0) {
            Some(cpu) => {
                let stack = old(layout).stack(cpu as int, class as int);
                if old(layout).is_stopped_at(cpu as int) {
                    r is Fallback && *final(layout) == *old(layout)
                } else if stack.len() >= old(layout).cap(class as int) {
                    r is NeedsSlow && *final(layout) == *old(layout)
                } else {
                    &&& r == RseqResult::Done(0, cpu)
                    &&& final(layout).stack(cpu as int, class as int) == stack.push(addr)
                    &&& final(layout).same_stacks_but(old(layout), cpu as int, class as int)
                }
            },
            None => r is Fallback && *final(layout) == *old(layout),
        },
{
    proof {
        layout.lemma_same_shape_refl();
    }
    match commit_cpu(attempts, layout.num_cpus()) {
        None => RseqResult::Fallback,
        Some(cpu) => {
            if layout.is_stopped(cpu) {
                return RseqResult::Fallback;
            }
            if layout.push_slot(cpu, class, addr) {
                RseqResult::Done(0, cpu)
            } else {
                RseqResult::NeedsSlow
            }
        },
    }
}

} // verus!
