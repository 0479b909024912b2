//! The per-thread cache in front of a sub-heap: one small stack of free objects
//! (a magazine) per size class.
//!
//! A hit is a pop or a push on an array and touches nothing else. A miss pulls a
//! batch straight from the sub-heap's central bitmaps, an overflow gives the
//! older three quarters of the magazine back. Objects held in a magazine are
//! live to the sub-heap; the cache hands each of them out once.

use vstd::prelude::*;
use crate::rseq::abi::ThreadView;
use crate::sizeclass::{class_size, is_class, CLASS_SIZES, NUM_CLASSES};
use crate::subheap::tiling::span_index;
use crate::subheap::SubHeap;

verus! {

/// Objects a magazine holds.
pub const MAG_CAP: usize = 32;

/// Objects an overflowing magazine gives back: three quarters.
pub const MAG_DRAIN: usize = 24;

/// Most cache lines one allocation asks to have warmed.
pub const WARM_MAX: usize = 6;

/// A stack of free objects of one class.
#[derive(Clone, Copy)]
pub struct Magazine {
    len: u32,
    ptrs: [usize; 32],
}

impl Magazine {
    pub closed spec fn wf(&self) -> bool {
        self.len <= MAG_CAP
    }

    /// The addresses held, bottom first.
    pub closed spec fn view(&self) -> Seq<usize> {
        self.ptrs@.take(self.len as int)
    }

    fn new() -> (m: Magazine)
        ensures
            m.wf(),
            m@ == Seq::<usize>::empty(),
    {
        let m = Magazine { len: 0, ptrs: [0; 32] };
        assert(m@ =~= Seq::<usize>::empty());
        m
    }
}

/// Addresses of cache lines that the next allocations are going to write.
pub struct WarmLines {
    pub lines: [usize; 6],
    pub len: usize,
}

impl WarmLines {
    pub open spec fn view(&self) -> Seq<usize> {
        self.lines@.take(self.len as int)
    }

    pub fn new() -> (w: WarmLines)
        ensures
            w.len == 0,
            w@ == Seq::<usize>::empty(),
    {
        let w = WarmLines { lines: [0; 6], len: 0 };
        assert(w@ =~= Seq::<usize>::empty());
        w
    }

    fn push(&mut self, addr: usize)
        requires
            old(self).len < WARM_MAX,
        ensures
            final(self).len == old(self).len + 1,
            final(self)@ == old(self)@.push(addr),
    {
        self.lines[self.len] = addr;
        self.len = self.len + 1;
        assert(self@ =~= old(self)@.push(addr));
    }
}

/// Lines of 64 bytes in the first `n` bytes of an object.
pub open spec fn lines_in(n: int) -> int {
    (n + 63) / 64
}

/// The first `k` lines of the object at `addr`.
pub open spec fn first_lines(addr: usize, k: int) -> Seq<usize> {
    Seq::new(k as nat, |j: int| addr.wrapping_add((64 * j) as usize))
}

/// The lines worth warming when the top of a magazine has just been handed out
/// and `rest` is what it still holds: the first one or two lines of the object
/// three allocations away, and up to four lines of the next one.
pub open spec fn warm_lines(rest: Seq<usize>, size: int) -> Seq<usize> {
    let far = if rest.len() >= 3 {
        first_lines(rest[rest.len() - 3], if size > 64 {
            2
        } else {
            1
        })
    } else {
        Seq::empty()
    };
    let near = if rest.len() >= 1 {
        first_lines(rest.last(), if size < 256 {
            lines_in(size)
        } else {
            4
        })
    } else {
        Seq::empty()
    };
    far + near
}

/// A thread's magazines for one sub-heap.
pub struct ThreadCache {
    mags: [Magazine; 49],
}

/// Objects held in the magazines of the classes below `c`, and their bytes.
pub open spec fn cached_objs(mags: Seq<Seq<usize>>, c: int) -> int
    decreases c,
{
    if c <= 0 {
        0
    } else {
        cached_objs(mags, c - 1) + mags[c - 1].len()
    }
}

pub open spec fn cached_bytes(mags: Seq<Seq<usize>>, c: int) -> int
    decreases c,
{
    if c <= 0 {
        0
    } else {
        cached_bytes(mags, c - 1) + mags[c - 1].len() * class_size(c - 1)
    }
}

impl ThreadCache {
    /// The addresses cached for each class, bottom first.
    pub closed spec fn view(&self) -> Seq<Seq<usize>> {
        self.mags@.map_values(|m: Magazine| m@)
    }

    /// No magazine is over its capacity.
    pub closed spec fn wf(&self) -> bool {
        forall|c: int| 0 <= c < NUM_CLASSES ==> (#[trigger] self.mags@[c]).wf()
    }

    /// Every cached address is a live object of its class in `sub`, cached once.
    pub open spec fn holds(&self, sub: &SubHeap) -> bool {
        forall|c: int| 0 <= c < NUM_CLASSES ==> #[trigger] mag_ok(self@[c], sub, c)
    }

    /// Nothing is cached.
    pub open spec fn is_empty(&self) -> bool {
        forall|c: int| 0 <= c < NUM_CLASSES ==> (#[trigger] self@[c]).len() == 0
    }

    /// Whether `a` is an object of class `c` that is live in `sub` and not
    /// cached: one that the thread's callers may hold.
    pub open spec fn lent(&self, sub: &SubHeap, a: int, c: int) -> bool {
        sub.live(a, c) && !(0 <= a <= usize::MAX && self@[c].contains(a as usize))
    }

    /// Exactly the object of class `c` at `a` has been lent since `other` and
    /// `before`.
    pub open spec fn lent_gained(
        &self,
        sub: &SubHeap,
        other: &ThreadCache,
        before: &SubHeap,
        a: int,
        c: int,
    ) -> bool {
        &&& !other.lent(before, a, c)
        &&& self.lent(sub, a, c)
        &&& forall|b: int, d: int|
            is_class(d) && !(b == a && d == c) ==> (#[trigger] self.lent(sub, b, d) <==> other.lent(
                before,
                b,
                d,
            ))
    }

    /// The lent objects are those of `other` and `before`.
    pub open spec fn lent_same(&self, sub: &SubHeap, other: &ThreadCache, before: &SubHeap) -> bool {
        forall|b: int, d: int|
            is_class(d) ==> (#[trigger] self.lent(sub, b, d) <==> other.lent(before, b, d))
    }

    /// An empty cache.
    pub fn new() -> (t: ThreadCache)
        ensures
            t.wf(),
            t.is_empty(),
            t@.len() == NUM_CLASSES,
    {
        let m = Magazine::new();
        ThreadCache { mags: [m; 49] }
    }
}

/// The addresses are live objects of class `c`, each once.
pub open spec fn mag_ok(m: Seq<usize>, sub: &SubHeap, c: int) -> bool {
    &&& m.no_duplicates()
    &&& forall|k: int| 0 <= k < m.len() ==> sub.live(#[trigger] m[k] as int, c)
}

impl Default for ThreadCache {
    fn default() -> (t: Self)
        ensures
            t.wf(),
            t.is_empty(),
            t@.len() == NUM_CLASSES,
    {
        ThreadCache::new()
    }
}

impl ThreadCache {
    /// Take the top of a magazine; nothing if it is empty.
    pub fn try_pop(&mut self, class: usize) -> (r: Option<usize>)
        requires
            old(self).wf(),
            class < NUM_CLASSES,
        ensures
            final(self).wf(),
            ({
                let m = old(self)@[class as int];
                if m.len() > 0 {
                    r == Some(m.last()) && final(self)@ == old(self)@.update(
                        class as int,
                        m.drop_last(),
                    )
                } else {
                    r is None && *final(self) == *old(self)
                }
            }),
    {
        let ghost before = *self;
        let len: u32 = self.mags[class].len;
        if len > 0 {
            let p: usize = self.mags[class].ptrs[(len - 1) as usize];
            self.mags[class].len = len - 1;
            proof {
                let m = before@[class as int];
                assert(self.mags@[class as int]@ =~= m.drop_last());
                assert(self@ =~= before@.update(class as int, m.drop_last()));
            }
            return Some(p);
        }
        None
    }
}

impl ThreadCache {
    /// As [`try_pop`](Self::try_pop), and on a hit list the cache lines that the
    /// next allocations of this class will write, for objects of `size` bytes.
    pub fn alloc_prefetch(&mut self, class: usize, size: usize, warm: &mut WarmLines) -> (r: Option<
        usize,
    >)
        requires
            old(self).wf(),
            class < NUM_CLASSES,
        ensures
            final(self).wf(),
            ({
                let m = old(self)@[class as int];
                if m.len() > 0 {
                    &&& r == Some(m.last())
                    &&& final(self)@ == old(self)@.update(class as int, m.drop_last())
                    &&& final(warm)@ == warm_lines(m.drop_last(), size as int)
                } else {
                    &&& r is None
                    &&& *final(self) == *old(self)
                    &&& final(warm)@ == Seq::<usize>::empty()
                }
            }),
    {
        let r = self.try_pop(class);
        warm.len = 0;
        proof {
            assert(warm@ =~= Seq::<usize>::empty());
        }
        if r.is_none() {
            return r;
        }
        let ghost rest = self@[class as int];
        let top: usize = self.mags[class].len as usize;
        assert(rest.len() == top);
        let ghost mut far_lines = Seq::<usize>::empty();
        if top >= 3 {
            let far: usize = self.mags[class].ptrs[top - 3];
            warm.push(far);
            if size > 64 {
                warm.push(far.wrapping_add(64));
            }
            proof {
                far_lines = first_lines(far, if size > 64 {
                    2
                } else {
                    1
                });
                assert(far == rest[top - 3]);
                assert(warm@ =~= far_lines);
            }
        }
        let ghost mut near_lines = Seq::<usize>::empty();
        if top >= 1 {
            let near: usize = self.mags[class].ptrs[top - 1];
            let mut off: usize = 0;
            assert(first_lines(near, 0) =~= Seq::<usize>::empty());
            while off < size && off < 256
                invariant
                    off % 64 == 0,
                    off <= 256,
                    off < size + 64,
                    far_lines.len() <= 2,
                    warm.len == far_lines.len() + off / 64,
                    warm@ == far_lines + first_lines(near, off as int / 64),
                decreases 256 - off,
            {
                let ghost k = off as int / 64;
                assert(64 * k == off);
                warm.push(near.wrapping_add(off));
                proof {
                    assert(first_lines(near, k + 1) =~= first_lines(near, k).push(
                        near.wrapping_add(off),
                    ));
                    assert(warm@ =~= far_lines + first_lines(near, k + 1));
                }
                off = off + 64;
            }
            proof {
                near_lines = first_lines(near, off as int / 64);
                assert(near == rest.last());
                assert(off as int / 64 == if size < 256 {
                    lines_in(size as int)
                } else {
                    4
                });
            }
        }
        assert(warm@ =~= far_lines + near_lines);
        r
    }

    /// What a refill of the empty magazine of class `c` gives: a batch from the
    /// sub-heap's spans, whose first object is handed out and whose rest is in the
    /// magazine. `None` only if no object of the thread's shard is free and no span
    /// is to be had.
    pub open spec fn refilled(
        &self,
        sub: &SubHeap,
        other: &ThreadCache,
        before: &SubHeap,
        seen: ThreadView,
        c: int,
        r: Option<usize>,
    ) -> bool {
        let got = batch_of_refill(r, self@[c]);
        let order = before.refill_order(seen, c);
        &&& self@ == other@.update(c, self@[c])
        &&& r is None ==> self@[c].len() == 0
        &&& r is None <==> order.len() == 0 && !before.heap().can_carve(c)
        &&& order.len() > 0 ==> r == Some(order[0])
        &&& got.len() <= MAG_CAP
        &&& sub.heap().gained_all(&before.heap(), c, got)
        &&& sub.heap().same_runs(&before.heap())
        &&& sub.heap().grown(&before.heap())
        &&& sub.heap().slab() == before.heap().slab()
        &&& sub.metered(before, got.len() * class_size(c), got.len() as int)
        &&& got.len() < MAG_CAP ==> !sub.heap().can_carve(c) && sub.refill_order(seen, c).len()
            == 0
        &&& if order.len() >= MAG_CAP {
            got == order.take(MAG_CAP as int)
        } else {
            &&& order.len() <= got.len()
            &&& got.take(order.len() as int) == order
            &&& before.heap().from_unused(got, order.len() as int)
        }
        &&& sub.heap().drawn_up_to(
            &before.heap(),
            before.list_for(seen.shard_id as int, c),
            c,
            (seen.shard_id as int % before.heap().shards()) as u16,
            got,
            MAG_CAP as int,
        )
    }

    /// Refill an empty magazine with a batch from the sub-heap's spans and hand
    /// out the first of it. The rest is handed out in the batch's order. `None`
    /// only if no object of the thread's shard is free and no span is to be had.
    pub fn refill(&mut self, sub: &mut SubHeap, seen: &ThreadView, class: usize) -> (r: Option<
        usize,
    >)
        requires
            old(self).wf(),
            old(sub).wf(),
            is_class(class as int),
            old(self)@[class as int].len() == 0,
        ensures
            final(self).wf(),
            final(sub).wf(),
            final(sub).same_config(old(sub)),
            final(self).refilled(final(sub), old(self), old(sub), *seen, class as int, r),
    {
        let ghost before = *self;
        let ghost sub0 = *sub;
        let mut batch: [usize; 32] = [0; 32];
        let got: usize = sub.refill_batch(seen, class, &mut batch);
        let ghost part = batch@.take(got as int);
        proof {
            let order = sub0.refill_order(*seen, class as int);
            if order.len() >= MAG_CAP {
                assert(part =~= order.take(MAG_CAP as int));
            } else {
                assert(part.take(order.len() as int) =~= batch@.take(order.len() as int));
            }
        }
        let mut k: usize = 0;
        while k < got
            invariant
                k <= got <= MAG_CAP,
                class < NUM_CLASSES,
                part == batch@.take(got as int),
                self@ == before@.update(class as int, self@[class as int]),
                self.mags@.len() == NUM_CLASSES,
                forall|c: int|
                    0 <= c < NUM_CLASSES && c != class ==> #[trigger] self.mags@[c]
                        == before.mags@[c],
                forall|j: int|
                    0 <= j < k ==> #[trigger] self.mags@[class as int].ptrs@[got - 1 - j] == part[j],
            decreases got - k,
        {
            self.mags[class].ptrs[got - 1 - k] = batch[k];
            k = k + 1;
            assert(self@ =~= before@.update(class as int, self@[class as int]));
        }
        if got == 0 {
            self.mags[class].len = 0;
            proof {
                assert(self.mags@[class as int]@ =~= Seq::<usize>::empty());
                assert(part =~= batch_of_refill(None, self@[class as int]));
                assert(self@ =~= before@.update(class as int, self@[class as int]));
            }
            return None;
        }
        self.mags[class].len = (got - 1) as u32;
        let p: usize = self.mags[class].ptrs[got - 1];
        proof {
            assert(p == part[0]) by {
                assert(self.mags@[class as int].ptrs@[got - 1 - 0] == part[0]);
            }
            let m = self@[class as int];
            assert forall|j: int| 1 <= j < got implies part[j] == m[got - 1 - j] by {
                assert(self.mags@[class as int].ptrs@[got - 1 - j] == part[j]);
            }
            assert(part =~= batch_of_refill(Some(p), m));
            assert(self@ =~= before@.update(class as int, m));
            let order = sub0.refill_order(*seen, class as int);
            if order.len() > 0 {
                if order.len() >= MAG_CAP {
                    assert(order.take(MAG_CAP as int)[0] == order[0]);
                } else {
                    assert(part.take(order.len() as int)[0] == part[0]);
                }
            }
        }
        Some(p)
    }

    /// Allocate from a magazine, refilling it on a miss.
    pub fn allocate(&mut self, sub: &mut SubHeap, seen: &ThreadView, class: usize) -> (r: Option<
        usize,
    >)
        requires
            old(self).wf(),
            old(sub).wf(),
            is_class(class as int),
        ensures
            final(self).wf(),
            final(sub).wf(),
            final(sub).same_config(old(sub)),
            ({
                let m = old(self)@[class as int];
                if m.len() > 0 {
                    &&& r == Some(m.last())
                    &&& final(self)@ == old(self)@.update(class as int, m.drop_last())
                    &&& *final(sub) == *old(sub)
                } else {
                    final(self).refilled(final(sub), old(self), old(sub), *seen, class as int, r)
                }
            }),
            old(self).holds(old(sub)) ==> final(self).holds(final(sub)) && match r {
                Some(a) => final(self).lent_gained(
                    final(sub),
                    old(self),
                    old(sub),
                    a as int,
                    class as int,
                ),
                None => final(self).lent_same(final(sub), old(self), old(sub)),
            },
    {
        proof {
            self.lemma_len();
        }
        match self.try_pop(class) {
            Some(p) => {
                proof {
                    if old(self).holds(old(sub)) {
                        self.lemma_popped(sub, old(self), class as int);
                    }
                }
                Some(p)
            },
            None => {
                let r = self.refill(sub, seen, class);
                proof {
                    if old(self).holds(old(sub)) {
                        self.lemma_refilled(sub, old(self), old(sub), class as int, r);
                    }
                }
                r
            },
        }
    }

    /// Put a freed object on its magazine; `false` if that is full.
    pub fn try_push(&mut self, addr: usize, class: usize) -> (pushed: bool)
        requires
            old(self).wf(),
            class < NUM_CLASSES,
        ensures
            final(self).wf(),
            pushed == (old(self)@[class as int].len() < MAG_CAP),
            final(self).stored(old(self), addr, class as int),
            !pushed ==> *final(self) == *old(self),
            pushed ==> final(self)@ == old(self)@.update(
                class as int,
                old(self)@[class as int].push(addr),
            ),
            !pushed <==> old(self)@[class as int].len() == 32,
    {
        let ghost before = *self;
        let len: usize = self.mags[class].len as usize;
        if len < MAG_CAP {
            self.mags[class].ptrs[len] = addr;
            self.mags[class].len = (len + 1) as u32;
            proof {
                let m = before@[class as int];
                assert(self.mags@[class as int]@ =~= m.push(addr));
                assert(self@ =~= before@.update(class as int, m.push(addr)));
            }
            return true;
        }
        false
    }
}

impl ThreadCache {
    /// `addr` is on top of the magazine of class `c`, unless that was full; nothing
    /// else has changed since `other`.
    pub open spec fn stored(&self, other: &ThreadCache, addr: usize, c: int) -> bool {
        self@ == (if other@[c].len() < MAG_CAP {
            other@.update(c, other@[c].push(addr))
        } else {
            other@
        })
    }

    /// An empty magazine takes exactly [`MAG_CAP`] addresses: of those pushed to class
    /// `c` one after the other, it holds the first ones, in this order, and no other
    /// class's magazine changes.
    pub proof fn lemma_pushes(caches: Seq<ThreadCache>, addrs: Seq<usize>, c: int)
        requires
            caches.len() == addrs.len() + 1,
            0 <= c < NUM_CLASSES,
            caches[0]@[c].len() == 0,
            forall|i: int|
                0 <= i < addrs.len() ==> (#[trigger] caches[i + 1]).stored(&caches[i], addrs[i], c),
        ensures
            caches.last()@ == caches[0]@.update(
                c,
                addrs.take(
                    if addrs.len() < MAG_CAP {
                        addrs.len() as int
                    } else {
                        MAG_CAP as int
                    },
                ),
            ),
        decreases addrs.len(),
    {
        caches[0].lemma_len();
        let n = addrs.len() as int;
        if n == 0 {
            assert(addrs.take(0) =~= caches[0]@[c]);
            assert(caches[0]@.update(c, addrs.take(0)) =~= caches[0]@);
        } else {
            let start = caches.drop_last();
            let rest = addrs.drop_last();
            assert forall|i: int| 0 <= i < rest.len() implies (#[trigger] start[i + 1]).stored(
                &start[i],
                rest[i],
                c,
            ) by {
                assert(caches[i + 1].stored(&caches[i], addrs[i], c));
            }
            ThreadCache::lemma_pushes(start, rest, c);
            assert(caches[n - 1 + 1].stored(&caches[n - 1], addrs[n - 1], c));
            if n <= MAG_CAP {
                assert(addrs.take(n) =~= rest.take(n - 1).push(addrs[n - 1]));
                assert(caches[n]@ =~= caches[0]@.update(c, addrs.take(n)));
            } else {
                assert(addrs.take(MAG_CAP as int) =~= rest.take(MAG_CAP as int));
            }
        }
    }

    pub(crate) proof fn lemma_len(&self)
        ensures
            self@.len() == NUM_CLASSES,
    {
    }

    /// A pop lends the object it takes, and only that.
    pub proof fn lemma_popped(&self, sub: &SubHeap, other: &ThreadCache, c: int)
        requires
            0 <= c < NUM_CLASSES,
            other@.len() == NUM_CLASSES,
            other.holds(sub),
            other@[c].len() > 0,
            self@ == other@.update(c, other@[c].drop_last()),
        ensures
            self.holds(sub),
            self.lent_gained(sub, other, sub, other@[c].last() as int, c),
    {
        let m = other@[c];
        let a = m.last();
        assert(mag_ok(m, sub, c));
        assert(sub.live(m[m.len() - 1] as int, c));
        assert(m.drop_last().no_duplicates()) by {
            assert forall|i: int, j: int|
                0 <= i < m.len() - 1 && 0 <= j < m.len() - 1 && i != j implies m.drop_last()[i]
                != m.drop_last()[j] by {
                assert(m[i] != m[j]);
            }
        }
        assert forall|k: int| 0 <= k < m.len() - 1 implies sub.live(
            #[trigger] m.drop_last()[k] as int,
            c,
        ) by {
            assert(sub.live(m[k] as int, c));
        }
        assert forall|d: int| 0 <= d < NUM_CLASSES implies #[trigger] mag_ok(self@[d], sub, d) by {
            assert(mag_ok(other@[d], sub, d));
        }
        assert(m.contains(a));
        assert forall|k: int| 0 <= k < m.len() - 1 implies m.drop_last()[k] != a by {
            assert(m[k] != m[m.len() - 1]);
        }
        assert forall|b: usize| b != a implies (m.contains(b) <==> m.drop_last().contains(b)) by {
            if m.contains(b) {
                let k = choose|k: int| 0 <= k < m.len() && m[k] == b;
                assert(m.drop_last()[k] == b);
            }
            if m.drop_last().contains(b) {
                let k = choose|k: int| 0 <= k < m.len() - 1 && m.drop_last()[k] == b;
                assert(m[k] == b);
            }
        }
    }

    /// A refill lends the object it hands out, and only that.
    pub(crate) proof fn lemma_refilled(
        &self,
        sub: &SubHeap,
        other: &ThreadCache,
        before: &SubHeap,
        c: int,
        r: Option<usize>,
    )
        requires
            is_class(c),
            other@.len() == NUM_CLASSES,
            other.holds(before),
            other@[c].len() == 0,
            self@ == other@.update(c, self@[c]),
            r is None ==> self@[c].len() == 0,
            sub.heap().gained_all(&before.heap(), c, batch_of_refill(r, self@[c])),
        ensures
            self.holds(sub),
            r matches Some(a) ==> self.lent_gained(sub, other, before, a as int, c),
            r is None ==> self.lent_same(sub, other, before),
    {
        let m = self@[c];
        let got = batch_of_refill(r, m);
        assert forall|b: int, d: int| #[trigger] sub.live(b, d) <==> before.live(b, d) || (d == c
            && 0 <= b <= usize::MAX && got.contains(b as usize)) by {
            assert(sub.heap().live(b, d) <==> before.heap().live(b, d) || (d == c && 0 <= b
                <= usize::MAX && got.contains(b as usize)));
        }
        assert forall|k: int| 0 <= k < m.len() implies #[trigger] m[k] == got[m.len() - k] && r
            is Some by {
            assert(m.reverse()[m.len() - 1 - k] == m[k]);
        }
        assert(mag_ok(m, sub, c)) by {
            assert forall|i: int, j: int| 0 <= i < m.len() && 0 <= j < m.len() && i != j implies m[i]
                != m[j] by {
                assert(got[m.len() - i] != got[m.len() - j]);
            }
            assert forall|k: int| 0 <= k < m.len() implies sub.live(#[trigger] m[k] as int, c) by {
                assert(sub.heap().live(got[m.len() - k] as int, c));
            }
        }
        assert forall|d: int| 0 <= d < NUM_CLASSES implies #[trigger] mag_ok(self@[d], sub, d) by {
            assert(mag_ok(other@[d], before, d));
            if d != c {
                assert forall|k: int| 0 <= k < self@[d].len() implies sub.live(
                    #[trigger] self@[d][k] as int,
                    d,
                ) by {
                    assert(before.live(other@[d][k] as int, d));
                }
            }
        }
        assert forall|b: usize| got.contains(b) <==> (r == Some(b) || m.contains(b)) by {
            if got.contains(b) {
                let k = choose|k: int| 0 <= k < got.len() && got[k] == b;
                if k > 0 {
                    assert(m[m.len() - k] == got[k]);
                    assert(m.contains(b));
                }
            }
            if m.contains(b) {
                let k = choose|k: int| 0 <= k < m.len() && m[k] == b;
                assert(got[m.len() - k] == b);
            }
            if r == Some(b) {
                assert(got[0] == b);
            }
        }
        assert forall|b: int| 0 <= b <= usize::MAX && got.contains(b as usize) implies !before.live(
            b,
            c,
        ) by {
            let k = choose|k: int| 0 <= k < got.len() && got[k] == b as usize;
            assert(!before.heap().live(got[k] as int, c));
        }
        if let Some(a) = r {
            assert(got[0] == a);
            assert(!before.heap().live(got[0] as int, c) && sub.heap().live(got[0] as int, c));
            assert forall|k: int| 0 <= k < m.len() implies m[k] != a by {
                assert(got[m.len() - k] != got[0]);
            }
            assert(!other.lent(before, a as int, c));
            assert(self.lent(sub, a as int, c));
        }
    }
}

impl ThreadCache {
    /// Free an object onto its magazine. If that is full, its older three
    /// quarters are given back to the sub-heap first.
    pub fn free(&mut self, sub: &mut SubHeap, seen: &ThreadView, addr: usize, class: usize)
        requires
            old(self).wf(),
            old(sub).wf(),
            old(self).holds(old(sub)),
            is_class(class as int),
            old(self).lent(old(sub), addr as int, class as int),
        ensures
            final(self).wf(),
            final(sub).wf(),
            final(sub).same_config(old(sub)),
            final(self).holds(final(sub)),
            old(self).lent_gained(old(sub), final(self), final(sub), addr as int, class as int),
            final(sub).heap().same_runs(&old(sub).heap()),
            ({
                let m = old(self)@[class as int];
                if m.len() < MAG_CAP {
                    &&& final(self)@ == old(self)@.update(class as int, m.push(addr))
                    &&& *final(sub) == *old(sub)
                } else {
                    &&& final(self)@ == old(self)@.update(
                        class as int,
                        m.skip(MAG_DRAIN as int).push(addr),
                    )
                    &&& final(sub).batch_lost(
                        old(sub),
                        *seen,
                        m.take(MAG_DRAIN as int),
                        class as int,
                    )
                }
            }),
            final(self)@[class as int].len() > 0 && final(self)@[class as int].last() == addr,
            old(self)@[class as int].len() == 32 ==> final(self)@[class as int].len() == 9 && (forall|
                k: int,
            |
                0 <= k < 8 ==> #[trigger] final(self)@[class as int][k] == old(
                    self,
                )@[class as int][k + 24]) && final(sub).meter_objs() == old(sub).meter_objs() - 24,
    {
        proof {
            self.lemma_len();
        }
        if self.try_push(addr, class) {
            proof {
                assert(old(self)@[class as int].skip(0) =~= old(self)@[class as int]);
                self.lemma_pushed(sub, old(self), sub, class as int, 0, addr);
            }
            return;
        }
        self.drain_then_push(sub, seen, addr, class);
    }

    /// Give the older three quarters of a full magazine back and push `addr`.
    fn drain_then_push(&mut self, sub: &mut SubHeap, seen: &ThreadView, addr: usize, class: usize)
        requires
            old(self).wf(),
            old(sub).wf(),
            old(self).holds(old(sub)),
            is_class(class as int),
            old(self)@[class as int].len() == MAG_CAP,
            old(self).lent(old(sub), addr as int, class as int),
        ensures
            final(self).wf(),
            final(sub).wf(),
            final(sub).same_config(old(sub)),
            final(self).holds(final(sub)),
            old(self).lent_gained(old(sub), final(self), final(sub), addr as int, class as int),
            final(sub).heap().same_runs(&old(sub).heap()),
            final(self)@ == old(self)@.update(
                class as int,
                old(self)@[class as int].skip(MAG_DRAIN as int).push(addr),
            ),
            final(sub).batch_lost(
                old(sub),
                *seen,
                old(self)@[class as int].take(MAG_DRAIN as int),
                class as int,
            ),
    {
        let ghost before = *self;
        let ghost sub0 = *sub;
        let ghost c = class as int;
        let ghost m = self@[c];
        let len: usize = self.mags[class].len as usize;
        let new_len: usize = len - MAG_DRAIN;
        let ptrs: [usize; 32] = self.mags[class].ptrs;
        let old_part: &[usize] = vstd::slice::slice_subrange(&ptrs, 0, MAG_DRAIN);
        proof {
            self.lemma_len();
            assert(old_part@ =~= m.take(MAG_DRAIN as int));
            assert(mag_ok(m, &sub0, c));
            assert forall|i: int, j: int|
                0 <= i < MAG_DRAIN && 0 <= j < MAG_DRAIN && i != j implies old_part@[i]
                != old_part@[j] by {
                assert(m[i] != m[j]);
            }
            assert forall|k: int| 0 <= k < MAG_DRAIN implies sub0.live(
                #[trigger] old_part@[k] as int,
                c,
            ) by {
                assert(sub0.live(m[k] as int, c));
            }
        }
        sub.dealloc_class_batch(seen, old_part, class);
        let mut k: usize = 0;
        while k < new_len
            invariant
                k <= new_len,
                new_len + MAG_DRAIN == MAG_CAP,
                class < NUM_CLASSES,
                forall|d: int|
                    0 <= d < NUM_CLASSES && d != class ==> #[trigger] self.mags@[d]
                        == before.mags@[d],
                forall|j: int|
                    0 <= j < k ==> #[trigger] self.mags@[class as int].ptrs@[j] == ptrs@[j
                        + MAG_DRAIN],
            decreases new_len - k,
        {
            self.mags[class].ptrs[k] = ptrs[k + MAG_DRAIN];
            k = k + 1;
        }
        self.mags[class].ptrs[new_len] = addr;
        self.mags[class].len = (new_len + 1) as u32;
        proof {
            let n = m.skip(MAG_DRAIN as int).push(addr);
            assert forall|j: int| 0 <= j < n.len() implies self@[c][j] == n[j] by {
                if j < new_len {
                    assert(self.mags@[c].ptrs@[j] == ptrs@[j + MAG_DRAIN]);
                    assert(m[j + MAG_DRAIN] == ptrs@[j + MAG_DRAIN]);
                }
            }
            assert(self@[c] =~= n);
            assert(self@ =~= before@.update(c, n));
            self.lemma_pushed(sub, &before, &sub0, c, MAG_DRAIN as int, addr);
        }
    }

    /// After the `drain` oldest objects of a magazine went back to the sub-heap
    /// and a lent object was pushed on the rest, that object is no longer lent,
    /// and the others are.
    proof fn lemma_pushed(
        &self,
        sub: &SubHeap,
        other: &ThreadCache,
        before: &SubHeap,
        c: int,
        drain: int,
        addr: usize,
    )
        requires
            is_class(c),
            other@.len() == NUM_CLASSES,
            other.holds(before),
            0 <= drain <= other@[c].len(),
            other.lent(before, addr as int, c),
            self@ == other@.update(c, other@[c].skip(drain).push(addr)),
            if drain == 0 {
                sub == before
            } else {
                before.heap().gained_all(&sub.heap(), c, other@[c].take(drain))
            },
        ensures
            self.holds(sub),
            other.lent_gained(before, self, sub, addr as int, c),
    {
        let m = other@[c];
        let gone = m.take(drain);
        let n = self@[c];
        assert(mag_ok(m, before, c));
        assert forall|b: int, d: int| #[trigger] before.live(b, d) <==> sub.live(b, d) || (d == c
            && 0 <= b <= usize::MAX && gone.contains(b as usize)) by {
            if drain != 0 {
                assert(before.heap().live(b, d) <==> sub.heap().live(b, d) || (d == c && 0 <= b
                    <= usize::MAX && gone.contains(b as usize)));
            }
        }
        assert forall|k: int| 0 <= k < m.len() implies (gone.contains(#[trigger] m[k]) <==> k
            < drain) by {
            if k < drain {
                assert(gone[k] == m[k]);
            } else if gone.contains(m[k]) {
                let j = choose|j: int| 0 <= j < drain && gone[j] == m[k];
                assert(m[j] == m[k]);
            }
        }
        assert forall|b: usize| gone.contains(b) implies m.contains(b) && !sub.live(b as int, c) by {
            let j = choose|j: int| 0 <= j < drain && gone[j] == b;
            assert(m[j] == b);
            if drain != 0 {
                assert(!sub.heap().live(gone[j] as int, c));
            }
        }
        assert(!m.contains(addr));
        assert(!gone.contains(addr));
        assert(sub.live(addr as int, c)) by {
            assert(before.live(addr as int, c));
        }
        assert forall|k: int| 0 <= k < n.len() - 1 implies n[k] == m[k + drain] by {}
        assert(mag_ok(n, sub, c)) by {
            assert forall|i: int, j: int| 0 <= i < j < n.len() implies n[i] != n[j] by {
                assert(n[i] == m[i + drain]);
                assert(m.contains(m[i + drain]));
                if j < n.len() - 1 {
                    assert(m[i + drain] != m[j + drain]);
                }
            }
            assert forall|k: int| 0 <= k < n.len() implies sub.live(#[trigger] n[k] as int, c) by {
                if k < n.len() - 1 {
                    assert(before.live(m[k + drain] as int, c));
                    assert(!gone.contains(m[k + drain]));
                }
            }
        }
        assert forall|d: int| 0 <= d < NUM_CLASSES implies #[trigger] mag_ok(self@[d], sub, d) by {
            assert(mag_ok(other@[d], before, d));
            if d != c {
                assert forall|k: int| 0 <= k < self@[d].len() implies sub.live(
                    #[trigger] self@[d][k] as int,
                    d,
                ) by {
                    assert(before.live(other@[d][k] as int, d));
                }
            }
        }
        assert(n[n.len() - 1] == addr);
        assert(n.contains(addr));
        assert forall|b: usize| b != addr implies (m.contains(b) <==> n.contains(b) || gone.contains(
            b,
        )) by {
            if m.contains(b) {
                let k = choose|k: int| 0 <= k < m.len() && m[k] == b;
                if k < drain {
                    assert(gone[k] == b);
                } else {
                    assert(n[k - drain] == b);
                }
            }
            if n.contains(b) {
                let k = choose|k: int| 0 <= k < n.len() && n[k] == b;
                assert(m[k + drain] == b);
            }
        }
    }
}

/// Freeing one more object of a magazine goes on where the last one left off.
proof fn lemma_one_given_back(
    sub: &SubHeap,
    mid: &SubHeap,
    before: &SubHeap,
    seen: ThreadView,
    c: int,
    m: Seq<usize>,
    n: int,
    p: usize,
)
    requires
        0 < n <= m.len(),
        p == m[n - 1],
        0 <= c < NUM_CLASSES,
        before.wf(),
        sub.object_freed(mid, seen, p, c),
        mid.heap().same_spans(&before.heap()),
        mid.heap().slab().same_shape(&before.heap().slab()),
        mid.heap().slab().stack(before.serving(seen), c) == given_back(before, seen, c, m.skip(n)),
    ensures
        mid.serving(seen) == before.serving(seen),
        sub.heap().slab().stack(before.serving(seen), c) == given_back(
            before,
            seen,
            c,
            m.skip(n - 1),
        ),
        forall|k: int, d: int|
            0 <= k < before.heap().slab().cpus() && 0 <= d < NUM_CLASSES && !(k == before.serving(seen)
                && d == c) ==> #[trigger] sub.heap().slab().stack(k, d) == mid.heap().slab().stack(
                k,
                d,
            ),
{
    before.lemma_parts();
    before.heap().lemma_serving_range(seen);
    mid.heap().slab().lemma_same_shape(&before.heap().slab());
    sub.heap().slab().lemma_same_shape(&mid.heap().slab());
    let cpu = before.serving(seen);
    let done = m.skip(n).reverse();
    let next = m.skip(n - 1).reverse();
    assert(next =~= done.push(p));
    assert(next.drop_last() =~= done);
    assert(next.last() == p);
    assert(mid.heap().tag(span_index(mid.heap().base(), p as int)) == before.heap().tag(
        span_index(before.heap().base(), p as int),
    ));
    assert(mid.heap().is_local(p as int, seen.shard_id as int) == before.heap().is_local(
        p as int,
        seen.shard_id as int,
    ));
}

/// The stack of class `c` on the thread's CPU after the objects `m` of a magazine
/// were freed one by one, the top one first.
pub open spec fn given_back(
    before: &SubHeap,
    seen: ThreadView,
    c: int,
    m: Seq<usize>,
) -> Seq<usize> {
    let cpu = before.serving(seen);
    let st = before.heap().slab().stack(cpu, c);
    if before.heap().slab().is_stopped_at(cpu) {
        st
    } else {
        before.heap().freed_all(st, c, m.reverse(), seen.shard_id as int)
    }
}

impl ThreadCache {
    /// Give every cached object back to the sub-heap, class by class.
    pub fn flush_all(&mut self, sub: &mut SubHeap, seen: &ThreadView)
        requires
            old(self).wf(),
            old(sub).wf(),
            old(self).holds(old(sub)),
        ensures
            final(self).wf(),
            final(sub).wf(),
            final(sub).same_config(old(sub)),
            final(self).is_empty(),
            final(self).lent_same(final(sub), old(self), old(sub)),
            final(sub).heap().same_spans(&old(sub).heap()),
            final(sub).heap().same_runs(&old(sub).heap()),
            final(sub).heap().slab().same_shape(&old(sub).heap().slab()),
            forall|k: int, c: int|
                0 <= k < old(sub).heap().slab().cpus() && 0 <= c < NUM_CLASSES
                    ==> #[trigger] final(sub).heap().slab().stack(k, c) == (if k == old(sub).serving(
                    *seen,
                ) {
                    given_back(old(sub), *seen, c, old(self)@[c])
                } else {
                    old(sub).heap().slab().stack(k, c)
                }),
            final(sub).metered(
                old(sub),
                -cached_bytes(old(self)@, NUM_CLASSES as int),
                -cached_objs(old(self)@, NUM_CLASSES as int),
            ),
    {
        let ghost start = *self;
        let ghost sub0 = *sub;
        let ghost cpu = sub.serving(*seen);
        let mut class: usize = 0;
        proof {
            self.lemma_len();
            sub0.heap().slab().lemma_same_shape_refl();
            sub0.lemma_parts();
            sub0.heap().lemma_serving_range(*seen);
        }
        while class < NUM_CLASSES
            invariant
                class <= NUM_CLASSES,
                start@.len() == NUM_CLASSES,
                self@.len() == NUM_CLASSES,
                self.wf(),
                sub.wf(),
                sub.same_config(&sub0),
                self.holds(sub),
                self.lent_same(sub, &start, &sub0),
                sub0.wf(),
                cpu == sub0.serving(*seen),
                0 <= cpu < sub0.heap().slab().cpus(),
                sub.heap().slab().same_shape(&sub0.heap().slab()),
                forall|k: int, c: int|
                    0 <= k < sub0.heap().slab().cpus() && 0 <= c < NUM_CLASSES
                        ==> #[trigger] sub.heap().slab().stack(k, c) == (if k == cpu && c < class {
                        given_back(&sub0, *seen, c, start@[c])
                    } else {
                        sub0.heap().slab().stack(k, c)
                    }),
                sub.heap().same_spans(&sub0.heap()),
                sub.heap().same_runs(&sub0.heap()),
                forall|d: int| 0 <= d < class ==> (#[trigger] self@[d]).len() == 0,
                forall|d: int| class <= d < NUM_CLASSES ==> #[trigger] self@[d] == start@[d],
                sub.metered(
                    &sub0,
                    -cached_bytes(start@, class as int),
                    -cached_objs(start@, class as int),
                ),
            decreases NUM_CLASSES - class,
        {
            let ghost m = start@[class as int];
            let ghost z = class_size(class as int);
            let mut more: bool = true;
            assert(self@[class as int] == m);
            assert((m.len() - m.len()) * z == 0);
            proof {
                assert(m.take(m.len() as int) =~= m);
                assert(m.skip(m.len() as int).reverse() =~= Seq::<usize>::empty());
            }
            while more
                invariant
                    class < NUM_CLASSES,
                    z == class_size(class as int),
                    m == start@[class as int],
                    start@.len() == NUM_CLASSES,
                    self@.len() == NUM_CLASSES,
                    self.wf(),
                    sub.wf(),
                    sub.same_config(&sub0),
                    self.holds(sub),
                    self.lent_same(sub, &start, &sub0),
                    sub0.wf(),
                    cpu == sub0.serving(*seen),
                    0 <= cpu < sub0.heap().slab().cpus(),
                    sub.heap().slab().same_shape(&sub0.heap().slab()),
                    self@[class as int] == m.take(self@[class as int].len() as int),
                    forall|k: int, c: int|
                        0 <= k < sub0.heap().slab().cpus() && 0 <= c < NUM_CLASSES
                            ==> #[trigger] sub.heap().slab().stack(k, c) == (if k == cpu && c < class {
                            given_back(&sub0, *seen, c, start@[c])
                        } else if k == cpu && c == class {
                            given_back(&sub0, *seen, c, m.skip(self@[c].len() as int))
                        } else {
                            sub0.heap().slab().stack(k, c)
                        }),
                    sub.heap().same_spans(&sub0.heap()),
                    sub.heap().same_runs(&sub0.heap()),
                    forall|d: int| 0 <= d < class ==> (#[trigger] self@[d]).len() == 0,
                    forall|d: int| class < d < NUM_CLASSES ==> #[trigger] self@[d] == start@[d],
                    self@[class as int].len() <= m.len(),
                    !more ==> self@[class as int].len() == 0,
                    sub.metered(
                        &sub0,
                        -(cached_bytes(start@, class as int) + (m.len() - self@[class as int].len())
                            * z),
                        -(cached_objs(start@, class as int) + m.len() - self@[class as int].len()),
                    ),
                decreases self@[class as int].len() + if more {
                    1int
                } else {
                    0int
                },
            {
                let ghost cur = *self;
                let ghost sub1 = *sub;
                match self.try_pop(class) {
                    Some(p) => {
                        proof {
                            assert(mag_ok(cur@[class as int], &sub1, class as int));
                            let top = cur@[class as int].len() - 1;
                            assert(sub1.live(cur@[class as int][top] as int, class as int));
                        }
                        sub.dealloc_class(seen, p, class);
                        proof {
                            lemma_one_given_back(
                                sub,
                                &sub1,
                                &sub0,
                                *seen,
                                class as int,
                                m,
                                cur@[class as int].len() as int,
                                p,
                            );
                            assert(cur@[class as int].drop_last() =~= m.take(
                                cur@[class as int].len() - 1,
                            ));
                            sub.heap().slab().lemma_same_shape_trans(
                                &sub1.heap().slab(),
                                &sub0.heap().slab(),
                            );
                            self.lemma_given_back(sub, &cur, &sub1, class as int);
                            assert forall|b: int, d: int| is_class(d) implies (#[trigger] self.lent(
                                sub,
                                b,
                                d,
                            ) <==> start.lent(&sub0, b, d)) by {
                                assert(cur.lent(&sub1, b, d) <==> start.lent(&sub0, b, d));
                            }
                            assert forall|b: int, len: int|
                                #[trigger] sub.heap().live_run(b, len) <==> sub0.heap().live_run(
                                    b,
                                    len,
                                ) by {
                                assert(sub1.heap().live_run(b, len) <==> sub0.heap().live_run(
                                    b,
                                    len,
                                ));
                            }
                            let k = m.len() - cur@[class as int].len();
                            assert((k + 1) * z == k * z + z) by (nonlinear_arith);
                        }
                    },
                    None => {
                        more = false;
                    },
                }
            }
            proof {
                assert(m.skip(0) =~= m);
            }
            class = class + 1;
            assert(m.len() * z == (m.len() - 0) * z);
        }
    }

    /// Popping an object and freeing it in the sub-heap lends nothing.
    proof fn lemma_given_back(&self, sub: &SubHeap, other: &ThreadCache, before: &SubHeap, c: int)
        requires
            0 <= c < NUM_CLASSES,
            other@.len() == NUM_CLASSES,
            other.holds(before),
            other@[c].len() > 0,
            self@ == other@.update(c, other@[c].drop_last()),
            sub.heap().lost(&before.heap(), other@[c].last() as int, c),
        ensures
            self.holds(sub),
            self.lent_same(sub, other, before),
    {
        let a = other@[c].last();
        self.lemma_popped(before, other, c);
        assert forall|b: int, d: int| !(b == a && d == c) implies (#[trigger] sub.live(b, d)
            <==> before.live(b, d)) by {
            assert(sub.heap().live(b, d) <==> before.heap().live(b, d));
        }
        assert(self.lent(before, a as int, c));
        assert forall|d: int| 0 <= d < NUM_CLASSES implies #[trigger] mag_ok(self@[d], sub, d) by {
            assert(mag_ok(self@[d], before, d));
            assert forall|k: int| 0 <= k < self@[d].len() implies sub.live(
                #[trigger] self@[d][k] as int,
                d,
            ) by {
                assert(before.live(self@[d][k] as int, d));
                assert(self@[d].contains(self@[d][k]));
            }
        }
        assert forall|b: int, d: int| is_class(d) implies (#[trigger] self.lent(sub, b, d)
            <==> other.lent(before, b, d)) by {
            if b == a && d == c {
                assert(!sub.heap().live(a as int, c));
                assert(other@[c].contains(a));
            } else {
                assert(self.lent(before, b, d) <==> other.lent(before, b, d));
            }
        }
    }
}

/// The batch that a refill was given: the object handed out, and then those left
/// in the magazine from the top down.
pub open spec fn batch_of_refill(r: Option<usize>, left: Seq<usize>) -> Seq<usize> {
    match r {
        Some(a) => seq![a] + left.reverse(),
        None => Seq::empty(),
    }
}

impl ThreadCache {
    /// An object that the sub-heap handed out directly is lent, and the cache is
    /// as good as before.
    pub(crate) proof fn lemma_direct(&self, sub: &SubHeap, before: &SubHeap, a: int, c: int)
        requires
            self.holds(before),
            is_class(c),
            sub.heap().gained(&before.heap(), a, c),
        ensures
            self.holds(sub),
            self.lent_gained(sub, self, before, a, c),
    {
        assert forall|b: int, d: int| !(b == a && d == c) implies (#[trigger] sub.live(b, d)
            <==> before.live(b, d)) by {
            assert(sub.heap().live(b, d) <==> before.heap().live(b, d));
        }
        assert(sub.live(a, c) && !before.live(a, c));
        assert forall|d: int| 0 <= d < NUM_CLASSES implies #[trigger] mag_ok(self@[d], sub, d) by {
            assert(mag_ok(self@[d], before, d));
            assert forall|k: int| 0 <= k < self@[d].len() implies sub.live(
                #[trigger] self@[d][k] as int,
                d,
            ) by {
                assert(before.live(self@[d][k] as int, d));
            }
        }
        if 0 <= a <= usize::MAX && self@[c].contains(a as usize) {
            assert(mag_ok(self@[c], before, c));
            let k = choose|k: int| 0 <= k < self@[c].len() && self@[c][k] == a as usize;
            assert(before.live(self@[c][k] as int, c));
        }
    }

    /// An object that was lent and freed in the sub-heap directly is lent no
    /// longer, and the cache is as good as before.
    pub(crate) proof fn lemma_direct_free(&self, sub: &SubHeap, before: &SubHeap, a: int, c: int)
        requires
            self.holds(before),
            is_class(c),
            self.lent(before, a, c),
            sub.heap().lost(&before.heap(), a, c),
        ensures
            self.holds(sub),
            self.lent_gained(before, self, sub, a, c),
    {
        assert forall|b: int, d: int| !(b == a && d == c) implies (#[trigger] sub.live(b, d)
            <==> before.live(b, d)) by {
            assert(sub.heap().live(b, d) <==> before.heap().live(b, d));
        }
        assert(!sub.live(a, c));
        assert forall|d: int| 0 <= d < NUM_CLASSES implies #[trigger] mag_ok(self@[d], sub, d) by {
            assert(mag_ok(self@[d], before, d));
            assert forall|k: int| 0 <= k < self@[d].len() implies sub.live(
                #[trigger] self@[d][k] as int,
                d,
            ) by {
                assert(before.live(self@[d][k] as int, d));
                assert(self@[d].contains(self@[d][k]));
            }
        }
    }

    /// As long as the sub-heap's live objects are the same, so is what is lent.
    pub(crate) proof fn lemma_same_live(&self, sub: &SubHeap, before: &SubHeap)
        requires
            self.holds(before),
            forall|b: int, d: int| #[trigger] sub.live(b, d) <==> before.live(b, d),
        ensures
            self.holds(sub),
            self.lent_same(sub, self, before),
    {
        assert forall|d: int| 0 <= d < NUM_CLASSES implies #[trigger] mag_ok(self@[d], sub, d) by {
            assert(mag_ok(self@[d], before, d));
            assert forall|k: int| 0 <= k < self@[d].len() implies sub.live(
                #[trigger] self@[d][k] as int,
                d,
            ) by {
                assert(before.live(self@[d][k] as int, d));
            }
        }
    }
}

/// A magazine holds 32 objects, and a full one gives three quarters of them back.
pub proof fn lemma_magazine_size()
    ensures
        MAG_CAP == 32,
        4 * MAG_DRAIN == 3 * MAG_CAP,
{
}

/// The lines that are warmed are the first ones, 64 bytes apart, of the object three
/// allocations away, one or, beyond a line, two; and then those of the next object, as many
/// as hold its bytes, but no more than 256 of them.
pub proof fn lemma_warm_lines(rest: Seq<usize>, size: int)
    requires
        size > 0,
    ensures
        ({
            let w = warm_lines(rest, size);
            let far: int = if rest.len() < 3 {
                0
            } else if size <= 64 {
                1
            } else {
                2
            };
            let near = w.len() - far;
            &&& w.len() <= WARM_MAX
            &&& rest.len() == 0 ==> w.len() == 0
            &&& rest.len() > 0 ==> {
                &&& 1 <= near <= 4
                &&& 64 * near >= size || near == 4
                &&& 64 * (near - 1) < size
                &&& forall|j: int|
                    far <= j < w.len() ==> #[trigger] w[j] == rest.last().wrapping_add(
                        (64 * (j - far)) as usize,
                    )
            }
            &&& forall|j: int|
                0 <= j < far ==> #[trigger] w[j] == rest[rest.len() - 3].wrapping_add(
                    (64 * j) as usize,
                )
        }),
{
}

/// What the magazines hold is what each class holds, added up; and their bytes, that many
/// times each class's size.
pub proof fn lemma_cached(mags: Seq<Seq<usize>>, n: nat)
    requires
        n <= 49,
        mags.len() >= n,
    ensures
        cached_objs(mags, n as int) == Seq::new(n, |c: int| mags[c].len() as int).fold_left(
            0int,
            |x: int, y: int| x + y,
        ),
        cached_bytes(mags, n as int) == Seq::new(
            n,
            |c: int| mags[c].len() * CLASS_SIZES@[c] as int,
        ).fold_left(0int, |x: int, y: int| x + y),
    decreases n,
{
    if n > 0 {
        let m = (n - 1) as nat;
        lemma_cached(mags, m);
        assert(Seq::new(n, |c: int| mags[c].len() as int).drop_last() =~= Seq::new(
            m,
            |c: int| mags[c].len() as int,
        ));
        assert(Seq::new(n, |c: int| mags[c].len() * CLASS_SIZES@[c] as int).drop_last() =~= Seq::new(
            m,
            |c: int| mags[c].len() * CLASS_SIZES@[c] as int,
        ));
    }
}

/// What a magazine gives back to a CPU that runs and has room for it lies on its stack, the
/// objects that are local to the thread, the top of the magazine first.
pub proof fn lemma_given_back(before: &SubHeap, seen: ThreadView, c: int, m: Seq<usize>)
    requires
        before.wf(),
        is_class(c),
        before.heap().slab().cap(c) >= 1,
    ensures
        ({
            let cpu = before.serving(seen);
            let st = before.heap().slab().stack(cpu, c);
            let local = m.reverse().filter(
                |a: usize| before.heap().is_local(a as int, seen.shard_id as int),
            );
            &&& before.heap().slab().is_stopped_at(cpu) ==> given_back(before, seen, c, m) == st
            &&& !before.heap().slab().is_stopped_at(cpu) && st.len() + local.len()
                <= before.heap().slab().cap(c) ==> given_back(before, seen, c, m) == st + local
            &&& !before.heap().slab().is_stopped_at(cpu) ==> given_back(before, seen, c, m).len()
                <= before.heap().slab().cap(c)
        }),
{
    before.lemma_parts();
    before.heap().lemma_serving_range(seen);
    let cpu = before.serving(seen);
    before.heap().lemma_stack_bound(cpu, c);
    before.heap().lemma_freed_all(
        before.heap().slab().stack(cpu, c),
        c,
        m.reverse(),
        seen.shard_id as int,
    );
}

impl ThreadCache {
    /// A refill makes live the object that it hands out and those that it leaves in the
    /// magazine, none of which was live, and nothing else; each is accounted for at the size
    /// of its class. It takes fewer than a magazine holds only where no more is to be had.
    pub proof fn lemma_refill_takes(
        &self,
        sub: &SubHeap,
        other: &ThreadCache,
        before: &SubHeap,
        seen: ThreadView,
        c: int,
        r: Option<usize>,
    )
        requires
            self.refilled(sub, other, before, seen, c, r),
            is_class(c),
        ensures
            r matches Some(a) ==> {
                let n = self@[c].len() + 1;
                &&& n <= 32
                &&& sub.live(a as int, c) && !before.live(a as int, c)
                &&& forall|k: int|
                    0 <= k < self@[c].len() ==> sub.live(#[trigger] self@[c][k] as int, c)
                        && !before.live(self@[c][k] as int, c) && self@[c][k] != a
                &&& forall|b: int, d: int| #[trigger]
                    sub.live(b, d) && !before.live(b, d) ==> d == c && (b == a || (0 <= b <= usize::MAX
                        && self@[c].contains(b as usize)))
                &&& sub.meter_bytes() == before.meter_bytes() + n * CLASS_SIZES@[c]
                &&& sub.meter_objs() == before.meter_objs() + n
                &&& n < 32 ==> !sub.heap().can_carve(c) && sub.refill_order(seen, c).len() == 0
            },
            r is None ==> self@[c].len() == 0 && sub.meter_bytes() == before.meter_bytes()
                && sub.meter_objs() == before.meter_objs() && !before.heap().can_carve(c)
                && before.refill_order(seen, c).len() == 0,
    {
        let left = self@[c];
        let got = batch_of_refill(r, left);
        if let Some(a) = r {
            assert(got.len() == left.len() + 1);
            assert(got[0] == a);
            assert forall|k: int| 0 <= k < left.len() implies sub.live(#[trigger] left[k] as int, c)
                && !before.live(left[k] as int, c) && left[k] != a by {
                assert(got[left.len() - k] == left[k]);
            }
            assert forall|b: int, d: int| #[trigger]
                sub.live(b, d) && !before.live(b, d) implies d == c && (b == a || (0 <= b <= usize::MAX
                && left.contains(b as usize))) by {
                assert(sub.heap().live(b, d) && !before.heap().live(b, d));
                let k = choose|k: int| 0 <= k < got.len() && got[k] as int == b;
                if k > 0 {
                    assert(got[k] == left[left.len() - k]);
                }
            }
        }
    }
}

} // verus!
