//! Pools that are configured once and then shared by all threads, each with a
//! cache of its own.

use vstd::prelude::*;
use crate::bits::is_pow2;
use crate::frame::cache::FrameCache;
use crate::frame::{
    built, tables_fit, Frame, FrameMeta, FramePool, FramePoolError, Reclaim, RefCount, Region,
};
use crate::rseq::abi::ThreadView;
use crate::sys::reserve::{Reservation, ReserveError};

verus! {

/// A thread's side of a pool: its cache, and what it sees of the machine.
pub struct PoolThread {
    pub cache: FrameCache,
    pub seen: ThreadView,
}

impl PoolThread {
    pub fn new(seen: ThreadView) -> (t: PoolThread)
        ensures
            t.cache.wf(),
            t.cache@ == Seq::<usize>::empty(),
            t.seen == seen,
    {
        PoolThread { cache: FrameCache::new(), seen }
    }
}

/// A pool that may not be configured yet.
pub struct NamedPool<M> {
    pool: Option<FramePool<M>>,
}

impl<M: FrameMeta> NamedPool<M> {
    /// The pool, once configured.
    pub closed spec fn inner(&self) -> Option<FramePool<M>> {
        self.pool
    }

    /// The pool is in order, and so is the thread's cache with respect to it.
    pub open spec fn ready_for(&self, t: &PoolThread) -> bool {
        &&& t.cache.wf()
        &&& match self.inner() {
            Some(p) => p.wf() && t.cache.holds(&p),
            None => t.cache@.len() == 0,
        }
    }

    /// Whether the frame is out and not cached by the thread.
    pub open spec fn lent_to(&self, t: &PoolThread, f: Frame) -> bool {
        self.inner() matches Some(p) && t.cache.lent(&p, f.addr())
    }

    /// Configured alike, over the same region and division.
    pub open spec fn same_source(&self, other: &NamedPool<M>) -> bool {
        match (self.inner(), other.inner()) {
            (Some(p), Some(q)) => p.same_pool(&q),
            (None, None) => true,
            _ => false,
        }
    }

    /// A pool that is not configured.
    pub fn new() -> (n: NamedPool<M>)
        ensures
            n.inner() is None,
    {
        NamedPool { pool: None }
    }

    /// The pool, once configured.
    pub fn pool(&self) -> (r: Option<&FramePool<M>>)
        ensures
            match r {
                Some(p) => self.inner() == Some(*p),
                None => self.inner() is None,
            },
    {
        match &self.pool {
            Some(p) => Some(p),
            None => None,
        }
    }

    pub fn is_configured(&self) -> (b: bool)
        ensures
            b == self.inner() is Some,
    {
        self.pool.is_some()
    }

    /// Configure the pool over what came of reserving memory for it. Does nothing
    /// if it is configured already.
    pub fn configure_sized(
        &mut self,
        reserved: Result<Reservation, ReserveError>,
        frame_size: usize,
        num_cpus: u32,
    ) -> (r: Result<(), FramePoolError>)
        requires
            old(self).inner() is None ==> (reserved matches Ok(res) ==> res.wf() && tables_fit(
                res.size(),
                frame_size as int,
                num_cpus as int,
            )),
        ensures
            old(self).inner() is Some ==> r is Ok && *final(self) == *old(self),
            old(self).inner() is None ==> match r {
                Err(e) => final(self).inner() is None && (if !is_pow2(frame_size as int) {
                    e == FramePoolError::FrameSizeNotPow2(frame_size)
                } else {
                    match reserved {
                        Err(x) => e == FramePoolError::Reserve(x),
                        Ok(res) => built::<M>(
                            Region::Owned(res),
                            frame_size as int,
                            num_cpus as int,
                            Err(e),
                        ),
                    }
                }),
                Ok(_) => final(self).inner() matches Some(p) && reserved matches Ok(res) && built(
                    Region::Owned(res),
                    frame_size as int,
                    num_cpus as int,
                    Ok(p),
                ),
            },
    {
        if self.pool.is_some() {
            return Ok(());
        }
        match FramePool::with_reservation(reserved, frame_size, num_cpus) {
            Ok(p) => {
                self.pool = Some(p);
                Ok(())
            },
            Err(e) => Err(e),
        }
    }

    /// Configure the pool over memory of the caller's. Does nothing if it is
    /// configured already.
    pub fn configure_over(&mut self, base: usize, len: usize, frame_size: usize, num_cpus: u32) -> (r:
        Result<(), FramePoolError>)
        requires
            old(self).inner() is None ==> 0 < base && base + len <= usize::MAX && tables_fit(
                len as int,
                frame_size as int,
                num_cpus as int,
            ),
        ensures
            old(self).inner() is Some ==> r is Ok && *final(self) == *old(self),
            old(self).inner() is None ==> match r {
                Err(e) => final(self).inner() is None && built::<M>(
                    Region::Borrowed { base, len },
                    frame_size as int,
                    num_cpus as int,
                    Err(e),
                ),
                Ok(_) => final(self).inner() matches Some(p) && built(
                    Region::Borrowed { base, len },
                    frame_size as int,
                    num_cpus as int,
                    Ok(p),
                ),
            },
    {
        if self.pool.is_some() {
            return Ok(());
        }
        match FramePool::over(base, len, frame_size, num_cpus) {
            Ok(p) => {
                self.pool = Some(p);
                Ok(())
            },
            Err(e) => Err(e),
        }
    }

    /// Hand out a frame through the thread's cache. `None` before the pool is
    /// configured, or when it has none for the thread.
    pub fn allocate(&mut self, t: &mut PoolThread) -> (r: Option<Frame>)
        requires
            old(self).ready_for(old(t)),
        ensures
            final(self).ready_for(final(t)),
            final(t).seen == old(t).seen,
            match old(self).inner() {
                None => r is None && *final(self) == *old(self) && *final(t) == *old(t),
                Some(p) => final(self).inner() matches Some(q) && {
                    &&& q.same_pool(&p)
                    &&& r is None <==> old(t).cache@.len() == 0 && p.available(old(t).seen) == 0
                    &&& match r {
                        None => q == p && final(t).cache@ == old(t).cache@,
                        Some(f) => {
                            &&& final(t).cache.lent_gained(&q, &old(t).cache, &p, f.addr())
                            &&& final(t).cache.gave(&old(t).cache, &q, &p, old(t).seen, f)
                            &&& q.meta_moved(&p, p.number(f))
                            &&& p.metas()[p.number(f)].allocated(&q.metas()[p.number(f)])
                        },
                    }
                },
            },
    {
        match &mut self.pool {
            Some(p) => t.cache.allocate(p, &t.seen),
            None => None,
        }
    }

    /// Release one reference to a frame through the thread's cache.
    pub fn free(&mut self, t: &mut PoolThread, f: Frame)
        requires
            old(self).ready_for(old(t)),
            old(self).inner() is Some ==> old(self).lent_to(old(t), f),
        ensures
            final(self).ready_for(final(t)),
            final(t).seen == old(t).seen,
            match old(self).inner() {
                None => *final(self) == *old(self) && *final(t) == *old(t),
                Some(p) => final(self).inner() matches Some(q) && {
                    let was = p.metas()[p.number(f)];
                    let now = q.metas()[p.number(f)];
                    &&& q.same_pool(&p)
                    &&& q.meta_moved(&p, p.number(f))
                    &&& {
                        ||| was.released(&now, Reclaim::Keep) && final(t).cache == old(t).cache
                            && q.frames() == p.frames()
                        ||| was.released(&now, Reclaim::Free) && old(t).cache.lent_gained(
                            &p,
                            &final(t).cache,
                            &q,
                            f.addr(),
                        ) && final(t).cache.took(&old(t).cache, &q, &p, old(t).seen, f)
                    }
                },
            },
    {
        match &mut self.pool {
            Some(p) => {
                t.cache.free(p, &t.seen, f);
            },
            None => {},
        }
    }

    /// Put a frame that nothing refers to on the thread's cache.
    pub fn recycle(&mut self, t: &mut PoolThread, f: Frame)
        requires
            old(self).ready_for(old(t)),
            old(self).inner() is Some ==> old(self).lent_to(old(t), f),
        ensures
            final(self).ready_for(final(t)),
            final(t).seen == old(t).seen,
            match old(self).inner() {
                None => *final(self) == *old(self) && *final(t) == *old(t),
                Some(p) => final(self).inner() matches Some(q) && {
                    &&& q.same_pool(&p)
                    &&& q.metas() == p.metas()
                    &&& old(t).cache.lent_gained(&p, &final(t).cache, &q, f.addr())
                    &&& final(t).cache.took(&old(t).cache, &q, &p, old(t).seen, f)
                },
            },
    {
        match &mut self.pool {
            Some(p) => {
                t.cache.recycle(p, &t.seen, f);
            },
            None => {},
        }
    }

    /// Give the thread's cached frames back to the pool.
    pub fn leave(&mut self, t: &mut PoolThread)
        requires
            old(self).ready_for(old(t)),
        ensures
            final(self).ready_for(final(t)),
            final(t).seen == old(t).seen,
            final(t).cache@.len() == 0,
            match old(self).inner() {
                None => final(self).inner() is None,
                Some(p) => final(self).inner() matches Some(q) && q.same_pool(&p) && q.metas()
                    == p.metas() && final(t).cache.lent_same(&q, &old(t).cache, &p)
                    && q.available(old(t).seen) == p.available(old(t).seen) + old(t).cache@.len()
                    && q.frames().pushed_all(
                    &p.frames(),
                    p.serving(old(t).seen),
                    old(t).cache@.reverse(),
                ),
            },
    {
        match &mut self.pool {
            Some(p) => {
                t.cache.flush(p, &t.seen);
            },
            None => {},
        }
    }
}

impl NamedPool<RefCount> {
    /// Take or release one reference to a frame.
    pub(crate) fn bump(&mut self, f: Frame, up: bool) -> (r: Reclaim)
        requires
            old(self).inner() matches Some(p) && p.wf() && p.frames().is_frame(f.addr()),
        ensures
            old(self).inner() matches Some(p) && final(self).inner() matches Some(q) && {
                let was = p.metas()[p.number(f)].strong();
                let now = q.metas()[p.number(f)].strong();
                &&& q.wf()
                &&& q.frames() == p.frames()
                &&& q.region() == p.region()
                &&& q.metas().len() == p.metas().len()
                &&& q.meta_moved(&p, p.number(f))
                &&& now == (if up {
                    was.wrapping_add(1)
                } else {
                    was.wrapping_sub(1)
                })
                &&& r is Free <==> !up && was == 1
            },
    {
        match &mut self.pool {
            Some(p) => {
                proof {
                    p.lemma_number(f);
                }
                let m = p.meta_mut(&f);
                if up {
                    m.retain();
                    Reclaim::Keep
                } else {
                    m.release()
                }
            },
            None => Reclaim::Keep,
        }
    }
}

} // verus!
