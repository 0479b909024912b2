//! A real-time, fallible, per-CPU-aware memory allocator.
//!
//! Memory is reserved once and never asked for again: a request is served from
//! what is there, or refused at once. Layers, low to high:
//!
//! * [`sys`]: tables served by the system allocator, the reservation of memory,
//!   and diagnostics that allocate nothing.
//! * [`rseq`]: the stacks of object addresses that each CPU owns.
//! * [`bits`], [`sizeclass`], [`meta`], [`spanpool`]: bit words, size classes, what
//!   is known of each span, and the index of free span runs.
//! * [`subheap`]: an independently budgeted heap over one reservation.
//! * [`magazine`]: a thread's own cache in front of a sub-heap.
//! * [`global`], [`registry`], [`supervisor`], [`metrics`]: the process-wide
//!   allocator, named sub-heaps, background reclaim, and usage.
//! * [`frame`]: pools of fixed-size frames and the handles on them.
//! * [`bench`]: the decisions of the benchmark workloads.
//!
//! Addresses are plain integers here. What a thread sees of the machine (its CPU,
//! its shard) is handed in as a [`ThreadView`](rseq::abi::ThreadView), and an
//! operation takes what it works on by `&mut`: whoever calls it holds the lock, or
//! runs inside the CPU's restartable section. Every operation states which objects
//! and runs are live afterwards, and that no two of them overlap is proved of every
//! state that the operations can reach.

#![allow(unused_imports)]

pub mod bench;
pub mod bits;
pub mod frame;
pub mod global;
pub mod magazine;
pub mod meta;
pub mod metrics;
pub mod registry;
pub mod rseq;
pub mod sizeclass;
pub mod spanpool;
pub mod subheap;
pub mod supervisor;
pub mod sys;
