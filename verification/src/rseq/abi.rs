//! The per-thread CPU record kept by the kernel, and what a thread sees of it.

use vstd::prelude::*;

verus! {

/// The kernel's per-thread restartable-sequence record, as plain data.
#[derive(Clone, Copy, Debug, PartialEq, Eq, Structural)]
pub struct Rseq {
    /// Optimistic CPU hint, always a valid CPU id once registered.
    pub cpu_id_start: u32,
    /// The committed CPU id.
    pub cpu_id: u32,
    /// The active critical-section descriptor; 0 while none is armed.
    pub rseq_cs: u64,
    /// Per-thread flags.
    pub flags: u32,
}

impl Rseq {
    /// A record with every field zero.
    pub fn zeroed() -> (r: Rseq)
        ensures
            r.cpu_id_start == 0,
            r.cpu_id == 0,
            r.rseq_cs == 0,
            r.flags == 0,
    {
        Rseq { cpu_id_start: 0, cpu_id: 0, rseq_cs: 0, flags: 0 }
    }

    /// The CPU id the record shows, or `None` if the thread is not registered.
    pub fn current_cpu(&self) -> (r: Option<u32>)
        ensures
            r == if self.cpu_id_start != CPU_UNREGISTERED {
                Some(self.cpu_id_start)
            } else {
                None
            },
    {
        if self.cpu_id_start != CPU_UNREGISTERED {
            Some(self.cpu_id_start)
        } else {
            None
        }
    }
}

/// The signature that precedes an abort landing pad on x86_64.
pub const RSEQ_SIG_X86_64: u32 = 0x5305_3053;

/// The signature that precedes an abort landing pad on aarch64.
pub const RSEQ_SIG_AARCH64: u32 = 0xd428_bc00;

/// Sentinel in `cpu_id_start` when registration failed, so that the bounds check
/// of a restartable section bails to the fallback.
pub const CPU_UNREGISTERED: u32 = 0xffff_ffff;

/// How often a restartable section is entered before it gives up.
pub const MAX_ATTEMPTS: usize = 4;

/// What one operation's thread sees of the machine: its CPU record at each
/// attempt at a restartable section, its CPU outside of one, and the thread's
/// own fixed address and shard number.
#[derive(Clone, Copy, Debug)]
pub struct ThreadView {
    /// The CPU the thread runs on, where the kernel reports one.
    pub cpu: Option<u32>,
    /// An address particular to this thread.
    pub anchor: usize,
    /// This thread's shard number.
    pub shard_id: u32,
    /// The record as read at each attempt.
    pub attempts: [Rseq; 4],
}

impl ThreadView {
    /// The view of a thread that sees no restartable sequences: every attempt
    /// finds an unregistered record.
    pub fn unregistered(anchor: usize, shard_id: u32) -> (v: ThreadView)
        ensures
            v.cpu is None,
            v.anchor == anchor,
            v.shard_id == shard_id,
            forall|k: int|
                0 <= k < MAX_ATTEMPTS ==> (#[trigger] v.attempts@[k]).cpu_id_start == CPU_UNREGISTERED,
    {
        let r = Rseq { cpu_id_start: CPU_UNREGISTERED, cpu_id: 0, rseq_cs: 0, flags: 0 };
        ThreadView { cpu: None, anchor, shard_id, attempts: [r, r, r, r] }
    }

    /// The view of a registered thread that stays on `cpu` throughout.
    pub fn on_cpu(cpu: u32, anchor: usize, shard_id: u32) -> (v: ThreadView)
        ensures
            v.cpu == Some(cpu),
            v.anchor == anchor,
            v.shard_id == shard_id,
            forall|k: int|
                0 <= k < MAX_ATTEMPTS ==> (#[trigger] v.attempts@[k]).cpu_id_start == cpu
                    && v.attempts@[k].cpu_id == cpu,
    {
        let r = Rseq { cpu_id_start: cpu, cpu_id: cpu, rseq_cs: 0, flags: 0 };
        ThreadView { cpu: Some(cpu), anchor, shard_id, attempts: [r, r, r, r] }
    }
}

} // verus!
