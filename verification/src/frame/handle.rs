//! Handles on pooled frames: single values with one or many owners, and byte
//! buffers that split into disjoint windows.
//!
//! A handle names its frame; the pool, and the calling thread's side of it, are
//! passed to each operation. Giving a handle up is an operation of its own, which
//! consumes it. The reference count is kept out of band, in the frame's metadata.

use vstd::prelude::*;
use vstd::arithmetic::power2::pow2;
use crate::bits::is_pow2;
use crate::frame::named::{NamedPool, PoolThread};
use crate::frame::{Frame, Reclaim, RefCount};

verus! {

/// What handles need of a pool: frames with a reference count.
pub trait FrameSource: Sized {
    /// The pool and the thread's side of it are in order.
    spec fn ready(&self, t: &PoolThread) -> bool;

    /// The frames that handles hold, each with its reference count.
    spec fn held(&self, t: &PoolThread) -> Map<Frame, usize>;

    /// Bytes of a frame.
    spec fn frame_bytes(&self) -> int;

    /// How many frames the thread can be handed.
    spec fn spare(&self, t: &PoolThread) -> int;

    /// The frames lie as in `other`.
    spec fn same_layout(&self, other: &Self) -> bool;

    /// Frames that lie as before twice in a row lie as before.
    proof fn lemma_layout_kept(&self, mid: &Self, first: &Self)
        requires
            self.same_layout(mid),
            mid.same_layout(first),
        ensures
            self.same_layout(first),
    ;

    /// Take a frame, with a count of one; `None` if there is none for the thread.
    fn alloc_frame(&mut self, t: &mut PoolThread) -> (r: Option<Frame>)
        requires
            old(self).ready(old(t)),
        ensures
            final(self).ready(final(t)),
            final(self).frame_bytes() == old(self).frame_bytes(),
            final(self).same_layout(old(self)),
            final(t).seen == old(t).seen,
            r is None <==> old(self).spare(old(t)) == 0,
            final(self).spare(final(t)) == old(self).spare(old(t)) - if r is Some {
                1int
            } else {
                0int
            },
            match r {
                Some(f) => {
                    &&& !old(self).held(old(t)).contains_key(f)
                    &&& final(self).held(final(t)) == old(self).held(old(t)).insert(f, 1)
                },
                None => final(self).held(final(t)) == old(self).held(old(t)),
            },
    ;

    /// Give a frame back that no handle holds any more.
    fn recycle_frame(&mut self, t: &mut PoolThread, f: Frame)
        requires
            old(self).ready(old(t)),
            old(self).held(old(t)).contains_key(f),
        ensures
            final(self).ready(final(t)),
            final(self).frame_bytes() == old(self).frame_bytes(),
            final(self).same_layout(old(self)),
            final(t).seen == old(t).seen,
            final(self).spare(final(t)) == old(self).spare(old(t)) + 1,
            final(self).held(final(t)) == old(self).held(old(t)).remove(f),
    ;

    /// The frame's reference count.
    fn refcount(&self, t: &PoolThread, f: Frame) -> (n: usize)
        requires
            self.ready(t),
            self.held(t).contains_key(f),
        ensures
            n == self.held(t)[f],
    ;

    /// Take one more reference to the frame.
    fn retain(&mut self, t: &PoolThread, f: Frame)
        requires
            old(self).ready(t),
            old(self).held(t).contains_key(f),
        ensures
            final(self).ready(t),
            final(self).frame_bytes() == old(self).frame_bytes(),
            final(self).same_layout(old(self)),
            final(self).spare(t) == old(self).spare(t),
            final(self).held(t) == old(self).held(t).insert(f, old(self).held(t)[f].wrapping_add(1)),
    ;

    /// Release one reference to the frame: `Free` if it was the last one.
    fn release(&mut self, t: &PoolThread, f: Frame) -> (r: Reclaim)
        requires
            old(self).ready(t),
            old(self).held(t).contains_key(f),
        ensures
            final(self).ready(t),
            final(self).frame_bytes() == old(self).frame_bytes(),
            final(self).same_layout(old(self)),
            final(self).spare(t) == old(self).spare(t),
            r is Free <==> old(self).held(t)[f] == 1,
            final(self).held(t) == old(self).held(t).insert(f, old(self).held(t)[f].wrapping_sub(1)),
    ;

    /// Bytes of a frame; zero before the pool is configured.
    fn frame_capacity(&self) -> (n: usize)
        ensures
            n == self.frame_bytes(),
    ;
}

impl FrameSource for NamedPool<RefCount> {
    open spec fn ready(&self, t: &PoolThread) -> bool {
        self.ready_for(t)
    }

    open spec fn held(&self, t: &PoolThread) -> Map<Frame, usize> {
        Map::new(
            |f: Frame| self.lent_to(t, f),
            |f: Frame| self.inner()->0.metas()[self.inner()->0.number(f)].strong(),
        )
    }

    open spec fn frame_bytes(&self) -> int {
        match self.inner() {
            Some(p) => p.frames().size(),
            None => 0,
        }
    }

    open spec fn spare(&self, t: &PoolThread) -> int {
        match self.inner() {
            Some(p) => t.cache@.len() + p.available(t.seen),
            None => 0,
        }
    }

    open spec fn same_layout(&self, other: &Self) -> bool {
        self.same_source(other)
    }

    proof fn lemma_layout_kept(&self, mid: &Self, first: &Self) {
        if let (Some(p), Some(m), Some(q)) = (self.inner(), mid.inner(), first.inner()) {
            p.frames().slab().lemma_same_shape_trans(&m.frames().slab(), &q.frames().slab());
        }
    }

    fn alloc_frame(&mut self, t: &mut PoolThread) -> (r: Option<Frame>) {
        let ghost before = *self;
        let ghost u = *t;
        let r = self.allocate(t);
        proof {
            match r {
                Some(f) => {
                    let p = before.inner()->0;
                    let q = self.inner()->0;
                    assert(self.held(t) =~= before.held(&u).insert(f, 1)) by {
                        assert(t.cache.lent(&q, f.addr()));
                        assert forall|g: Frame| #[trigger] self.lent_to(t, g) <==> before.lent_to(
                            &u,
                            g,
                        ) || g == f by {
                            Frame::lemma_addr(f, g);
                            assert(g != f ==> (t.cache.lent(&q, g.addr()) <==> u.cache.lent(
                                &p,
                                g.addr(),
                            )));
                        }
                        assert forall|g: Frame| g != f && before.lent_to(&u, g) implies q.metas()[q.number(
                        g)] == p.metas()[p.number(g)] by {
                            Frame::lemma_addr(f, g);
                            p.frames().lemma_frame(f.addr(), g.addr());
                            p.lemma_metas();
                        }
                    }
                },
                None => {
                    assert(self.held(t) =~= before.held(&u));
                    if let Some(p) = before.inner() {
                        p.frames().slab().lemma_same_shape_refl();
                    }
                },
            }
        }
        r
    }

    fn recycle_frame(&mut self, t: &mut PoolThread, f: Frame) {
        let ghost before = *self;
        let ghost u = *t;
        self.recycle(t, f);
        proof {
            let p = before.inner()->0;
            let q = self.inner()->0;
            assert forall|g: Frame| #[trigger] self.lent_to(t, g) <==> before.lent_to(&u, g) && g
                != f by {
                Frame::lemma_addr(f, g);
                assert(g != f ==> (u.cache.lent(&p, g.addr()) <==> t.cache.lent(&q, g.addr())));
            }
            assert(self.held(t) =~= before.held(&u).remove(f));
        }
    }

    fn refcount(&self, t: &PoolThread, f: Frame) -> (n: usize) {
        match self.pool() {
            Some(p) => p.meta(&f).count(),
            None => 0,
        }
    }

    fn retain(&mut self, t: &PoolThread, f: Frame) {
        let ghost before = *self;
        self.bump(f, true);
        proof {
            lemma_bumped(&before, self, t, f);
        }
    }

    fn release(&mut self, t: &PoolThread, f: Frame) -> (r: Reclaim) {
        let ghost before = *self;
        let r = self.bump(f, false);
        proof {
            lemma_bumped(&before, self, t, f);
        }
        r
    }

    fn frame_capacity(&self) -> (n: usize) {
        match self.pool() {
            Some(p) => p.frame_size(),
            None => 0,
        }
    }
}

/// Changing one frame's count changes nothing else.
proof fn lemma_bumped(before: &NamedPool<RefCount>, now: &NamedPool<RefCount>, t: &PoolThread, f: Frame)
    requires
        before.ready_for(t),
        before.lent_to(t, f),
        before.inner() matches Some(p) && now.inner() matches Some(q) && q.wf() && q.frames()
            == p.frames() && q.meta_moved(&p, p.number(f)) && q.metas().len() == p.metas().len()
            && q.region() == p.region(),
    ensures
        now.ready_for(t),
        now.same_source(before),
        now.frame_bytes() == before.frame_bytes(),
        now.held(t) == before.held(t).insert(
            f,
            now.inner()->0.metas()[before.inner()->0.number(f)].strong(),
        ),
{
    let p = before.inner()->0;
    let q = now.inner()->0;
    p.frames().slab().lemma_same_shape_refl();
    assert forall|g: Frame| g != f && before.lent_to(t, g) implies q.metas()[q.number(g)]
        == p.metas()[p.number(g)] by {
        Frame::lemma_addr(f, g);
        p.frames().lemma_frame(f.addr(), g.addr());
        p.lemma_metas();
    }
    assert forall|g: Frame| #[trigger] now.lent_to(t, g) <==> before.lent_to(t, g) by {}
    assert(now.held(t) =~= before.held(t).insert(f, q.metas()[p.number(f)].strong()));
}

/// A pool whose frames each hold one value.
pub struct TypedPool<T> {
    src: NamedPool<RefCount>,
    bodies: Vec<Option<T>>,
}

/// Bytes of a frame that holds a value of `size` bytes: the next power of two, at
/// least eight.
pub fn frame_size_for(size: usize) -> (n: usize)
    requires
        size <= usize::MAX / 2,
    ensures
        is_pow2(n as int),
        n >= size,
        n >= 8,
        n == 8 || n < 2 * size,
{
    let mut n: usize = 8;
    let ghost mut k: nat = 3;
    proof {
        vstd::arithmetic::power2::lemma2_to64();
    }
    while n < size
        invariant
            n == pow2(k),
            n >= 8,
            n == 8 || n < 2 * size,
            size <= usize::MAX / 2,
        decreases usize::MAX - n,
    {
        proof {
            vstd::arithmetic::power2::lemma_pow2_unfold(k + 1);
            k = k + 1;
        }
        n = n * 2;
    }
    n
}

impl<T> TypedPool<T> {
    pub closed spec fn source(&self) -> NamedPool<RefCount> {
        self.src
    }

    /// How many frames have room for a value.
    pub closed spec fn slots(&self) -> int {
        self.bodies@.len() as int
    }

    /// The pool and the thread's side of it are in order, and every frame has room
    /// for a value.
    pub open spec fn ready(&self, t: &PoolThread) -> bool {
        &&& self.source().ready(t)
        &&& match self.source().inner() {
            Some(p) => self.slots() == p.frames().count(),
            None => self.slots() == 0,
        }
    }

    /// The frames that handles hold, each with its reference count.
    pub open spec fn held(&self, t: &PoolThread) -> Map<Frame, usize> {
        self.source().held(t)
    }

    /// The value in a frame.
    pub closed spec fn body(&self, f: Frame) -> Option<T> {
        self.bodies@[self.src.inner()->0.number(f)]
    }

    /// The held frames other than `f` have their values still.
    pub open spec fn bodies_kept(&self, other: &TypedPool<T>, t: &PoolThread, f: Frame) -> bool {
        forall|g: Frame|
            g != f && other.held(t).contains_key(g) ==> #[trigger] self.body(g) == other.body(g)
    }

    /// A typed pool over a configured or unconfigured pool, with no values yet.
    pub fn over(src: NamedPool<RefCount>) -> (p: TypedPool<T>)
        requires
            src.inner() matches Some(q) ==> q.wf(),
        ensures
            p.source() == src,
            forall|t: &PoolThread| src.ready(t) ==> #[trigger] p.ready(t),
            src.inner() matches Some(q) ==> forall|f: Frame|
                q.frames().is_frame(f.addr()) ==> (#[trigger] p.body(f)) is None,
    {
        let n: usize = match src.pool() {
            Some(q) => q.capacity(),
            None => 0,
        };
        let mut bodies: Vec<Option<T>> = Vec::new();
        let mut i: usize = 0;
        while i < n
            invariant
                i <= n,
                bodies@.len() == i,
                forall|j: int| 0 <= j < i ==> (#[trigger] bodies@[j]) is None,
            decreases n - i,
        {
            bodies.push(None);
            i = i + 1;
        }
        let p = TypedPool { src, bodies };
        proof {
            if let Some(q) = src.inner() {
                assert forall|f: Frame| q.frames().is_frame(f.addr()) implies (
                #[trigger] p.body(f)) is None by {
                    q.lemma_pool();
                    q.frames().lemma_frame(f.addr(), f.addr());
                }
            }
        }
        p
    }

    fn index(&self, f: Frame) -> (i: usize)
        requires
            self.src.inner() matches Some(p) && p.wf() && p.frames().is_frame(f.addr())
                && self.bodies@.len() == p.frames().count(),
        ensures
            i == self.src.inner()->0.number(f),
            i < self.bodies@.len(),
    {
        match self.src.pool() {
            Some(p) => p.frame_index(&f),
            None => 0,
        }
    }

    proof fn lemma_held(&self, t: &PoolThread, f: Frame)
        requires
            self.ready(t),
            self.held(t).contains_key(f),
        ensures
            self.src.inner() matches Some(p) && p.wf() && p.frames().is_frame(f.addr())
                && self.bodies@.len() == p.frames().count(),
    {
        assert(self.src.lent_to(t, f));
    }

    /// Two held frames have different slots.
    proof fn lemma_apart(&self, t: &PoolThread, f: Frame, g: Frame)
        requires
            self.ready(t),
            self.held(t).contains_key(f),
            self.held(t).contains_key(g),
            f != g,
        ensures
            self.src.inner()->0.number(f) != self.src.inner()->0.number(g),
    {
        self.lemma_held(t, f);
        self.lemma_held(t, g);
        Frame::lemma_addr(f, g);
        self.src.inner()->0.frames().lemma_frame(f.addr(), g.addr());
    }
}

/// The only handle on a pooled value.
#[derive(Debug)]
pub struct Owned {
    frame: Frame,
}

impl Owned {
    pub closed spec fn at(&self) -> Frame {
        self.frame
    }

    /// Take a frame and move `value` into it. `None`, and the value is dropped, if
    /// there is no frame for the thread.
    pub fn new<T>(pool: &mut TypedPool<T>, t: &mut PoolThread, value: T) -> (r: Option<Owned>)
        requires
            old(pool).ready(old(t)),
        ensures
            final(pool).ready(final(t)),
            final(pool).source().same_layout(&old(pool).source()),
            r is None <==> old(pool).source().spare(old(t)) == 0,
            final(t).seen == old(t).seen,
            final(pool).source().spare(final(t)) == old(pool).source().spare(old(t)) - if r is Some {
                1int
            } else {
                0int
            },
            match r {
                Some(o) => {
                    &&& !old(pool).held(old(t)).contains_key(o.at())
                    &&& final(pool).held(final(t)) == old(pool).held(old(t)).insert(o.at(), 1)
                    &&& final(pool).body(o.at()) == Some(value)
                    &&& final(pool).bodies_kept(old(pool), old(t), o.at())
                },
                None => final(pool).held(final(t)) == old(pool).held(old(t)) && forall|g: Frame| #[trigger]
                    final(pool).body(g) == old(pool).body(g),
            },
    {
        let ghost before = *pool;
        let ghost u = *t;
        let r = pool.src.alloc_frame(t);
        proof {
            pool.lemma_same_slots(&before, t, &u);
        }
        match r {
            Some(f) => {
                proof {
                    pool.lemma_held(t, f);
                }
                let ghost mid = *pool;
                let i: usize = pool.index(f);
                pool.bodies[i] = Some(value);
                proof {
                    assert forall|g: Frame|
                        g != f && before.held(&u).contains_key(g) implies #[trigger] pool.body(g)
                        == before.body(g) by {
                        mid.lemma_apart(t, f, g);
                    }
                }
                Some(Owned { frame: f })
            },
            None => None,
        }
    }

    /// Make the handle one of many.
    pub fn into_shared(self) -> (s: Shared)
        ensures
            s.at() == self.at(),
    {
        Shared { frame: self.frame }
    }

    /// The frame that holds the value.
    pub fn frame(&self) -> (f: Frame)
        ensures
            f == self.at(),
    {
        self.frame
    }

    /// The value.
    pub fn get<'a, T>(&self, pool: &'a TypedPool<T>, t: &PoolThread) -> (v: &'a T)
        requires
            pool.ready(t),
            pool.held(t).contains_key(self.at()),
            pool.body(self.at()) is Some,
        ensures
            pool.body(self.at()) == Some(*v),
    {
        pool.value_at(t, self.frame)
    }

    /// The value, to change it.
    pub fn get_mut<'a, T>(&self, pool: &'a mut TypedPool<T>, t: &PoolThread) -> (v: &'a mut T)
        requires
            old(pool).ready(t),
            old(pool).held(t).contains_key(self.at()),
            old(pool).body(self.at()) is Some,
        ensures
            old(pool).body(self.at()) == Some(*v),
            final(pool).ready(t),
            final(pool).source() == old(pool).source(),
            final(pool).body(self.at()) == Some(*final(v)),
            final(pool).bodies_kept(old(pool), t, self.at()),
    {
        proof {
            pool.lemma_held(t, self.frame);
            assert forall|g: Frame|
                g != self.frame && pool.held(t).contains_key(g) implies pool.src.inner()->0.number(
                self.frame,
            ) != #[trigger] pool.src.inner()->0.number(g) by {
                pool.lemma_apart(t, self.frame, g);
            }
            assert forall|g: Frame| #[trigger] pool.held(t).contains_key(g) implies 0
                <= pool.src.inner()->0.number(g) < pool.bodies@.len() by {
                pool.lemma_held(t, g);
            }
        }
        let i: usize = pool.index(self.frame);
        match &mut pool.bodies[i] {
            Some(v) => v,
            None => vstd::pervasive::unreached(),
        }
    }

    /// Give the handle up: the frame goes back to the pool, and the value comes
    /// out of it, to be dropped once.
    pub fn close<T>(self, pool: &mut TypedPool<T>, t: &mut PoolThread) -> (v: Option<T>)
        requires
            old(pool).ready(old(t)),
            old(pool).held(old(t)).contains_key(self.at()),
        ensures
            final(pool).ready(final(t)),
            final(pool).source().same_layout(&old(pool).source()),
            v == old(pool).body(self.at()),
            final(t).seen == old(t).seen,
            final(pool).source().spare(final(t)) == old(pool).source().spare(old(t)) + 1,
            final(pool).held(final(t)) == old(pool).held(old(t)).remove(self.at()),
            final(pool).bodies_kept(old(pool), old(t), self.at()),
    {
        let ghost before = *pool;
        let ghost u = *t;
        let v = pool.take_at(t, self.frame);
        let ghost mid = *pool;
        pool.src.release(t, self.frame);
        let ghost told = *pool;
        pool.src.recycle_frame(t, self.frame);
        proof {
            told.lemma_same_slots(&mid, &u, &u);
            pool.lemma_same_slots(&told, t, &u);
            pool.src.lemma_layout_kept(&told.src, &before.src);
            assert(before.held(&u).insert(
                self.frame,
                before.held(&u)[self.frame].wrapping_sub(1),
            ).remove(self.frame) =~= before.held(&u).remove(self.frame));
        }
        v
    }
}

impl<T> TypedPool<T> {
    /// Operations on the frames leave the values where they are.
    proof fn lemma_same_slots(&self, other: &TypedPool<T>, t: &PoolThread, u: &PoolThread)
        requires
            other.ready(u),
            self.src.ready(t),
            self.bodies == other.bodies,
            self.src.same_source(&other.src),
        ensures
            self.ready(t),
            forall|g: Frame| #[trigger] self.body(g) == other.body(g),
    {
    }

    fn value_at(&self, t: &PoolThread, f: Frame) -> (v: &T)
        requires
            self.ready(t),
            self.held(t).contains_key(f),
            self.body(f) is Some,
        ensures
            self.body(f) == Some(*v),
    {
        proof {
            self.lemma_held(t, f);
        }
        let i: usize = self.index(f);
        match &self.bodies[i] {
            Some(v) => v,
            None => vstd::pervasive::unreached(),
        }
    }

    fn take_at(&mut self, t: &PoolThread, f: Frame) -> (v: Option<T>)
        requires
            old(self).ready(t),
            old(self).held(t).contains_key(f),
        ensures
            final(self).ready(t),
            final(self).source() == old(self).source(),
            v == old(self).body(f),
            final(self).body(f) is None,
            final(self).bodies_kept(old(self), t, f),
    {
        let ghost before = *self;
        proof {
            self.lemma_held(t, f);
        }
        let i: usize = self.index(f);
        let mut v: Option<T> = None;
        std::mem::swap(&mut v, &mut self.bodies[i]);
        proof {
            assert forall|g: Frame|
                g != f && before.held(t).contains_key(g) implies #[trigger] self.body(g)
                == before.body(g) by {
                before.lemma_apart(t, f, g);
            }
        }
        v
    }
}

/// One of many handles on a pooled value.
#[derive(Debug)]
pub struct Shared {
    frame: Frame,
}

impl Shared {
    pub closed spec fn at(&self) -> Frame {
        self.frame
    }

    /// Take a frame and move `value` into it, as a handle with a count of one.
    pub fn new<T>(pool: &mut TypedPool<T>, t: &mut PoolThread, value: T) -> (r: Option<Shared>)
        requires
            old(pool).ready(old(t)),
        ensures
            final(pool).ready(final(t)),
            final(pool).source().same_layout(&old(pool).source()),
            r is None <==> old(pool).source().spare(old(t)) == 0,
            final(t).seen == old(t).seen,
            final(pool).source().spare(final(t)) == old(pool).source().spare(old(t)) - if r is Some {
                1int
            } else {
                0int
            },
            match r {
                Some(s) => {
                    &&& !old(pool).held(old(t)).contains_key(s.at())
                    &&& final(pool).held(final(t)) == old(pool).held(old(t)).insert(s.at(), 1)
                    &&& final(pool).body(s.at()) == Some(value)
                    &&& final(pool).bodies_kept(old(pool), old(t), s.at())
                },
                None => final(pool).held(final(t)) == old(pool).held(old(t)) && forall|g: Frame| #[trigger]
                    final(pool).body(g) == old(pool).body(g),
            },
    {
        match Owned::new(pool, t, value) {
            Some(o) => Some(o.into_shared()),
            None => None,
        }
    }

    /// The number of handles on the value.
    pub fn strong_count<T>(&self, pool: &TypedPool<T>, t: &PoolThread) -> (n: usize)
        requires
            pool.ready(t),
            pool.held(t).contains_key(self.at()),
        ensures
            n == pool.held(t)[self.at()],
    {
        pool.src.refcount(t, self.frame)
    }

    /// The frame that holds the value.
    pub fn frame(&self) -> (f: Frame)
        ensures
            f == self.at(),
    {
        self.frame
    }

    /// The value.
    pub fn get<'a, T>(&self, pool: &'a TypedPool<T>, t: &PoolThread) -> (v: &'a T)
        requires
            pool.ready(t),
            pool.held(t).contains_key(self.at()),
            pool.body(self.at()) is Some,
        ensures
            pool.body(self.at()) == Some(*v),
    {
        pool.value_at(t, self.frame)
    }

    /// One more handle on the value.
    pub fn share<T>(&self, pool: &mut TypedPool<T>, t: &PoolThread) -> (s: Shared)
        requires
            old(pool).ready(t),
            old(pool).held(t).contains_key(self.at()),
        ensures
            final(pool).ready(t),
            final(pool).source().same_layout(&old(pool).source()),
            s.at() == self.at(),
            final(pool).source().spare(t) == old(pool).source().spare(t),
            final(pool).held(t) == old(pool).held(t).insert(
                self.at(),
                old(pool).held(t)[self.at()].wrapping_add(1),
            ),
            forall|g: Frame| #[trigger] final(pool).body(g) == old(pool).body(g),
    {
        let ghost before = *pool;
        pool.src.retain(t, self.frame);
        proof {
            pool.lemma_same_slots(&before, t, t);
        }
        Shared { frame: self.frame }
    }

    /// Give the handle up. If it was the last one, the frame goes back to the pool
    /// and the value comes out of it, to be dropped once.
    pub fn close<T>(self, pool: &mut TypedPool<T>, t: &mut PoolThread) -> (v: Option<T>)
        requires
            old(pool).ready(old(t)),
            old(pool).held(old(t)).contains_key(self.at()),
        ensures
            final(pool).ready(final(t)),
            final(pool).source().same_layout(&old(pool).source()),
            final(t).seen == old(t).seen,
            final(pool).bodies_kept(old(pool), old(t), self.at()),
            if old(pool).held(old(t))[self.at()] == 1 {
                &&& v == old(pool).body(self.at())
                &&& final(pool).source().spare(final(t)) == old(pool).source().spare(old(t)) + 1
                &&& final(pool).held(final(t)) == old(pool).held(old(t)).remove(self.at())
            } else {
                &&& v is None
                &&& final(pool).source().spare(final(t)) == old(pool).source().spare(old(t))
                &&& final(pool).held(final(t)) == old(pool).held(old(t)).insert(
                    self.at(),
                    old(pool).held(old(t))[self.at()].wrapping_sub(1),
                )
                &&& final(pool).body(self.at()) == old(pool).body(self.at())
            },
    {
        let ghost before = *pool;
        let ghost u = *t;
        let r = pool.src.release(t, self.frame);
        let ghost told = *pool;
        proof {
            told.lemma_same_slots(&before, &u, &u);
        }
        if r == Reclaim::Keep {
            return None;
        }
        let v = pool.take_at(t, self.frame);
        let ghost mid = *pool;
        pool.src.recycle_frame(t, self.frame);
        proof {
            pool.lemma_same_slots(&mid, t, &u);
            pool.src.lemma_layout_kept(&told.src, &before.src);
            assert(before.held(&u).insert(
                self.frame,
                before.held(&u)[self.frame].wrapping_sub(1),
            ).remove(self.frame) =~= before.held(&u).remove(self.frame));
            assert forall|g: Frame|
                g != self.frame && before.held(&u).contains_key(g) implies #[trigger] pool.body(g)
                == before.body(g) by {
                assert(told.held(&u).contains_key(g));
            }
        }
        v
    }
}

} // verus!
