//! What the kernel's memory barriers can do for the supervisor.

use vstd::prelude::*;

verus! {

/// Capabilities detected once at startup. Ordering alone
/// (`private_expedited`) does not abort a restartable section in flight, so
/// seizing a live slab needs `private_expedited_rseq`.
#[derive(Clone, Copy, Debug, PartialEq, Eq, Structural)]
pub struct MembarrierCaps {
    pub private_expedited: bool,
    pub private_expedited_rseq: bool,
}

impl Default for MembarrierCaps {
    /// No capability.
    fn default() -> (caps: Self)
        ensures
            !caps.private_expedited,
            !caps.private_expedited_rseq,
    {
        MembarrierCaps { private_expedited: false, private_expedited_rseq: false }
    }
}

/// Barrier command: order memory across the process's threads.
pub const CMD_PRIVATE_EXPEDITED: i32 = 8;

/// Barrier command: register for [`CMD_PRIVATE_EXPEDITED`].
pub const CMD_REGISTER_PRIVATE_EXPEDITED: i32 = 16;

/// Barrier command: abort restartable sections as well.
pub const CMD_PRIVATE_EXPEDITED_RSEQ: i32 = 128;

/// Barrier command: register for [`CMD_PRIVATE_EXPEDITED_RSEQ`].
pub const CMD_REGISTER_PRIVATE_EXPEDITED_RSEQ: i32 = 256;

/// Barrier flag: one CPU only.
pub const CMD_FLAG_CPU: i32 = 1;

/// One call of the kernel's barrier.
#[derive(Clone, Copy, Debug, PartialEq, Eq, Structural)]
pub struct Barrier {
    pub cmd: i32,
    pub flags: i32,
    pub cpu: u32,
}

impl Barrier {
    /// Whether the kernel's reply says that the call succeeded.
    pub fn succeeded(reply: i64) -> (b: bool)
        ensures
            b == (reply == 0),
    {
        reply == 0
    }
}

/// The calls that register for both barriers, to be made once before any other.
pub fn registrations() -> (calls: (Barrier, Barrier))
    ensures
        calls.0 == (Barrier { cmd: CMD_REGISTER_PRIVATE_EXPEDITED, flags: 0, cpu: 0 }),
        calls.1 == (Barrier { cmd: CMD_REGISTER_PRIVATE_EXPEDITED_RSEQ, flags: 0, cpu: 0 }),
{
    (
        Barrier { cmd: CMD_REGISTER_PRIVATE_EXPEDITED, flags: 0, cpu: 0 },
        Barrier { cmd: CMD_REGISTER_PRIVATE_EXPEDITED_RSEQ, flags: 0, cpu: 0 },
    )
}

/// The capabilities that the replies to [`registrations`] give.
pub fn register(ordering: i64, aborting: i64) -> (caps: MembarrierCaps)
    ensures
        caps.private_expedited == (ordering == 0),
        caps.private_expedited_rseq == (aborting == 0),
{
    MembarrierCaps {
        private_expedited: Barrier::succeeded(ordering),
        private_expedited_rseq: Barrier::succeeded(aborting),
    }
}

/// The call that orders memory across the process's threads. It aborts no
/// restartable section.
pub fn expedited() -> (call: Barrier)
    ensures
        call == (Barrier { cmd: CMD_PRIVATE_EXPEDITED, flags: 0, cpu: 0 }),
{
    Barrier { cmd: CMD_PRIVATE_EXPEDITED, flags: 0, cpu: 0 }
}

/// The call that aborts the restartable section in flight on `cpu`, if any, and
/// orders that CPU's memory.
pub fn expedited_rseq_cpu(cpu: u32) -> (call: Barrier)
    ensures
        call == (Barrier { cmd: CMD_PRIVATE_EXPEDITED_RSEQ, flags: CMD_FLAG_CPU, cpu }),
{
    Barrier { cmd: CMD_PRIVATE_EXPEDITED_RSEQ, flags: CMD_FLAG_CPU, cpu }
}

} // verus!
