//! Per-CPU primitives: the lowest layer of the allocator.
//!
//! * [`abi`]: the per-thread CPU record and what a thread sees of it.
//! * [`membarrier`]: the memory-barrier capabilities the supervisor works with.
//! * [`slab`]: the per-CPU pointer-stack slab.
//! * [`restart`]: the bounded-retry commit protocol of a restartable section.

pub mod abi;
pub mod membarrier;
pub mod restart;
pub mod slab;
