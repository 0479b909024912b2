//! Live usage of a sub-heap.

use vstd::prelude::*;
use crate::subheap::SubHeap;

verus! {

/// Live usage of one sub-heap.
#[derive(Clone, Copy, Debug)]
pub struct SubHeapUsage {
    pub name: &'static str,
    pub live_bytes: usize,
    pub live_objects: u64,
    pub budget_bytes: usize,
}

/// Read a sub-heap's live usage.
pub fn usage(sh: &SubHeap) -> (u: SubHeapUsage)
    requires
        sh.wf(),
    ensures
        u.name == sh.label(),
        u.live_bytes == sh.heap().held_bytes(),
        u.live_objects == sh.heap().held_objs(),
        u.budget_bytes == sh.budget(),
        u.live_bytes <= u.budget_bytes,
{
    SubHeapUsage {
        name: sh.name(),
        live_bytes: sh.live_bytes(),
        live_objects: sh.live_objects(),
        budget_bytes: sh.budget_bytes(),
    }
}

} // verus!
