//! A thread's own stack of free frames in front of a pool.
//!
//! The frames held here are out as far as the pool is concerned. Metadata is told
//! when a frame crosses the cache's border, so that reference counts are kept
//! whether or not a frame ever reaches the pool.

use vstd::prelude::*;
use crate::frame::{Frame, FrameMeta, FramePool, Reclaim};
use crate::rseq::abi::ThreadView;

verus! {

/// Frames a cache holds.
pub const FRAME_MAG_CAP: usize = 32;

/// Frames that move between a full or empty cache and the pool at once.
pub const FRAME_MAG_HALF: usize = 16;

/// A thread's free frames.
pub struct FrameCache {
    len: usize,
    ptrs: [usize; 32],
}

impl FrameCache {
    /// The addresses held, bottom first.
    pub closed spec fn view(&self) -> Seq<usize> {
        self.ptrs@.take(self.len as int)
    }

    pub closed spec fn wf(&self) -> bool {
        self.len <= FRAME_MAG_CAP
    }

    /// Every cached frame is out of the pool, and cached once.
    pub open spec fn holds<M: FrameMeta>(&self, pool: &FramePool<M>) -> bool {
        &&& self@.no_duplicates()
        &&& forall|k: int| 0 <= k < self@.len() ==> pool.frames().out(#[trigger] self@[k] as int)
    }

    /// Whether the frame at `a` is out and not cached: one that callers may hold.
    pub open spec fn lent<M: FrameMeta>(&self, pool: &FramePool<M>, a: int) -> bool {
        pool.frames().out(a) && !(0 <= a <= usize::MAX && self@.contains(a as usize))
    }

    /// Exactly the frame at `a` has been lent since `other` and `before`.
    pub open spec fn lent_gained<M: FrameMeta>(
        &self,
        pool: &FramePool<M>,
        other: &FrameCache,
        before: &FramePool<M>,
        a: int,
    ) -> bool {
        &&& !other.lent(before, a)
        &&& self.lent(pool, a)
        &&& forall|b: int| b != a ==> (#[trigger] self.lent(pool, b) <==> other.lent(before, b))
    }

    /// The lent frames are those of `other` and `before`.
    pub open spec fn lent_same<M: FrameMeta>(
        &self,
        pool: &FramePool<M>,
        other: &FrameCache,
        before: &FramePool<M>,
    ) -> bool {
        forall|b: int| #[trigger] self.lent(pool, b) <==> other.lent(before, b)
    }

    /// An empty cache.
    pub fn new() -> (c: FrameCache)
        ensures
            c.wf(),
            c@ == Seq::<usize>::empty(),
    {
        let c = FrameCache { len: 0, ptrs: [0; 32] };
        assert(c@ =~= Seq::<usize>::empty());
        c
    }

    fn pop(&mut self) -> (r: Option<usize>)
        requires
            old(self).wf(),
        ensures
            final(self).wf(),
            if old(self)@.len() > 0 {
                r == Some(old(self)@.last()) && final(self)@ == old(self)@.drop_last()
            } else {
                r is None && *final(self) == *old(self)
            },
    {
        if self.len > 0 {
            self.len = self.len - 1;
            assert(self@ =~= old(self)@.drop_last());
            return Some(self.ptrs[self.len]);
        }
        None
    }

    fn push(&mut self, a: usize)
        requires
            old(self).wf(),
            old(self)@.len() < FRAME_MAG_CAP,
        ensures
            final(self).wf(),
            final(self)@ == old(self)@.push(a),
    {
        self.ptrs[self.len] = a;
        self.len = self.len + 1;
        assert(self@ =~= old(self)@.push(a));
    }

    /// How many frames a refill takes.
    pub open spec fn refill_count(available: int) -> int {
        if available < FRAME_MAG_HALF {
            available
        } else {
            FRAME_MAG_HALF as int
        }
    }

    /// Fill half of an empty cache from the pool and take the last one out of it.
    fn refill<M: FrameMeta>(&mut self, pool: &mut FramePool<M>, seen: &ThreadView) -> (r: Option<
        usize,
    >)
        requires
            old(self).wf(),
            old(pool).wf(),
            old(self)@.len() == 0,
        ensures
            final(self).wf(),
            final(pool).wf(),
            final(pool).same_pool(old(pool)),
            final(pool).metas() == old(pool).metas(),
            final(self).holds(final(pool)),
            r is None <==> old(pool).available(*seen) == 0,
            r is None ==> final(self)@.len() == 0 && *final(pool) == *old(pool),
            r matches Some(a) ==> {
                &&& final(self)@.len() == FrameCache::refill_count(old(pool).available(*seen)) - 1
                &&& final(pool).available(*seen) == old(pool).available(*seen)
                    - FrameCache::refill_count(old(pool).available(*seen))
                &&& final(pool).frames().popped_all(
                    &old(pool).frames(),
                    old(pool).serving(*seen),
                    final(self)@.push(a),
                )
                &&& !old(pool).frames().out(a as int)
                &&& !final(self)@.contains(a)
                &&& forall|k: int|
                    0 <= k < final(self)@.len() ==> !old(pool).frames().out(
                        #[trigger] final(self)@[k] as int,
                    )
                &&& forall|b: int| #[trigger]
                    final(pool).frames().out(b) <==> old(pool).frames().out(b) || b == a || (0 <= b
                        <= usize::MAX && final(self)@.contains(b as usize))
            },
    {
        let ghost before = *pool;
        let stack = pool.bind_fast(*seen);
        proof {
            pool.frames().slab().lemma_same_shape_refl();
        }
        let mut n: usize = 0;
        while n < FRAME_MAG_HALF
            invariant
                before.wf(),
                pool.wf(),
                self.wf(),
                stack.fits(pool.frames().slab().cpus()),
                forall|slab: &crate::rseq::slab::SlabLayout|
                    slab.same_shape(&before.frames().slab()) ==> #[trigger] stack.serving(slab)
                        == crate::rseq::slab::serving_cpu(*seen, slab),
                pool.same_pool(&before),
                pool.metas() == before.metas(),
                n <= FRAME_MAG_HALF,
                self@.len() == n,
                self@.no_duplicates(),
                pool.available(*seen) == before.available(*seen) - n,
                n == 0 ==> *pool == before,
                pool.serving(*seen) == before.serving(*seen),
                pool.frames().popped_all(&before.frames(), before.serving(*seen), self@),
                forall|k: int|
                    0 <= k < n ==> !before.frames().out(#[trigger] self@[k] as int),
                forall|b: int| #[trigger]
                    pool.frames().out(b) <==> before.frames().out(b) || (0 <= b <= usize::MAX
                        && self@.contains(b as usize)),
            ensures
                n < FRAME_MAG_HALF ==> pool.available(*seen) == 0,
            decreases FRAME_MAG_HALF - n,
        {
            let ghost cur = *pool;
            let ghost had = self@;
            match pool.take_free(&stack, seen) {
                Some(p) => {
                    self.push(p);
                    n = n + 1;
                    proof {
                        pool.frames().slab().lemma_same_shape_trans(
                            &cur.frames().slab(),
                            &before.frames().slab(),
                        );
                        assert(!cur.frames().out(p as int));
                        assert(!had.contains(p));
                        lemma_push_distinct(had, p);
                        assert(self@.drop_last() =~= had);
                        assert(pool.frames().popped_from(
                            &cur.frames(),
                            before.serving(*seen),
                            Some(self@.last()),
                        ));
                        assert forall|b: int| #[trigger] pool.frames().out(b)
                            <==> before.frames().out(b) || (0 <= b <= usize::MAX && self@.contains(
                            b as usize,
                        )) by {
                            lemma_push_contains(had, p, b as usize);
                            if b != p {
                                assert(pool.frames().out(b) <==> cur.frames().out(b));
                            }
                        }
                        assert forall|k: int| 0 <= k < n implies !before.frames().out(
                            #[trigger] self@[k] as int,
                        ) by {
                            if k < n - 1 {
                                assert(self@[k] == had[k]);
                            }
                        }
                    }
                },
                None => {
                    break;
                },
            }
        }
        let ghost full = self@;
        let r = self.pop();
        proof {
            if let Some(a) = r {
                lemma_pop_distinct(full);
                assert(self@.push(a) =~= full);
                assert(!before.frames().out(full[n - 1] as int));
                assert forall|k: int| 0 <= k < self@.len() implies !before.frames().out(
                    #[trigger] self@[k] as int,
                ) && pool.frames().out(self@[k] as int) by {
                    assert(self@[k] == full[k]);
                    assert(full.contains(full[k]));
                }
                assert forall|b: int| #[trigger] pool.frames().out(b) <==> before.frames().out(b)
                    || b == a || (0 <= b <= usize::MAX && self@.contains(b as usize)) by {
                    lemma_push_contains(self@, a, b as usize);
                    assert(self@.push(a) =~= full);
                }
            }
        }
        r
    }
}

impl FrameCache {
    /// The frame was on top of the cache; if that was empty, half a cache of frames
    /// was taken from the pool first, as far as it had them for the thread.
    pub open spec fn gave<M: FrameMeta>(
        &self,
        other: &FrameCache,
        pool: &FramePool<M>,
        before: &FramePool<M>,
        seen: ThreadView,
        f: Frame,
    ) -> bool {
        if other@.len() > 0 {
            &&& f.addr() == other@.last()
            &&& self@ == other@.drop_last()
            &&& pool.frames() == before.frames()
        } else {
            let got = self@.push(f.addr() as usize);
            &&& got.len() == FrameCache::refill_count(before.available(seen))
            &&& pool.available(seen) == before.available(seen) - got.len()
            &&& pool.frames().popped_all(&before.frames(), before.serving(seen), got)
        }
    }

    /// Hand out a frame: the top of the cache, refilling it from the pool if it is
    /// empty. `None` only if the cache is empty and the pool has none for the
    /// thread.
    pub fn allocate<M: FrameMeta>(&mut self, pool: &mut FramePool<M>, seen: &ThreadView) -> (r: Option<
        Frame,
    >)
        requires
            old(self).wf(),
            old(pool).wf(),
            old(self).holds(old(pool)),
        ensures
            final(self).wf(),
            final(pool).wf(),
            final(pool).same_pool(old(pool)),
            final(self).holds(final(pool)),
            r is None <==> old(self)@.len() == 0 && old(pool).available(*seen) == 0,
            r matches Some(f) ==> final(self).gave(old(self), final(pool), old(pool), *seen, f),
            r is Some && old(self)@.len() == 0 ==> {
                let n = final(self)@.len() + 1;
                &&& n <= 16
                &&& n == 16 || final(pool).available(*seen) == 0
                &&& final(pool).available(*seen) == old(pool).available(*seen) - n
            },
            match r {
                Some(f) => {
                    let i = old(pool).number(f);
                    &&& final(self).lent_gained(final(pool), old(self), old(pool), f.addr())
                    &&& final(pool).meta_moved(old(pool), i)
                    &&& old(pool).metas()[i].allocated(&final(pool).metas()[i])
                },
                None => final(self)@ == old(self)@ && *final(pool) == *old(pool),
            },
    {
        let ghost before = *self;
        let ghost pool0 = *pool;
        proof {
            pool.frames().slab().lemma_same_shape_refl();
        }
        let a: usize = match self.pop() {
            Some(a) => {
                proof {
                    lemma_pop_distinct(before@);
                    assert(pool.frames().out(before@[before@.len() - 1] as int));
                    assert forall|k: int| 0 <= k < self@.len() implies pool.frames().out(
                        #[trigger] self@[k] as int,
                    ) by {
                        assert(self@[k] == before@[k]);
                    }
                    assert(before@.contains(a));
                    assert forall|b: int| b != a implies (#[trigger] self.lent(pool, b)
                        <==> before.lent(&pool0, b)) by {
                        lemma_push_contains(self@, a, b as usize);
                    }
                    assert(self.lent_gained(pool, &before, &pool0, a as int));
                }
                a
            },
            None => match self.refill(pool, seen) {
                Some(a) => {
                    proof {
                        assert(pool.frames().out(a as int));
                        assert forall|b: int| b != a implies (#[trigger] self.lent(pool, b)
                            <==> before.lent(&pool0, b)) by {
                            if 0 <= b <= usize::MAX && self@.contains(b as usize) {
                                let k = choose|k: int| 0 <= k < self@.len() && self@[k] == b as usize;
                                assert(!pool0.frames().out(self@[k] as int));
                            }
                        }
                        assert(self.lent_gained(pool, &before, &pool0, a as int));
                    }
                    a
                },
                None => {
                    proof {
                        assert(self@ =~= before@);
                    }
                    return None;
                },
            },
        };
        let f = FramePool::<M>::frame_at(a);
        let ghost mid = *pool;
        pool.tell_alloc(f);
        proof {
            assert forall|b: int| #[trigger] self.lent(pool, b) <==> self.lent(&mid, b) by {}
            assert forall|b: int| b != a implies (#[trigger] self.lent(pool, b) <==> before.lent(
                &pool0,
                b,
            )) by {
                assert(self.lent(&mid, b) <==> before.lent(&pool0, b));
            }
            assert(self.lent(&mid, a as int));
        }
        Some(f)
    }

    /// Release one reference to a frame. If its metadata says so, the frame goes
    /// on the cache, else it stays with its other holders.
    pub fn free<M: FrameMeta>(&mut self, pool: &mut FramePool<M>, seen: &ThreadView, f: Frame)
        requires
            old(self).wf(),
            old(pool).wf(),
            old(self).holds(old(pool)),
            old(self).lent(old(pool), f.addr()),
        ensures
            final(self).wf(),
            final(pool).wf(),
            final(pool).same_pool(old(pool)),
            final(self).holds(final(pool)),
            final(pool).meta_moved(old(pool), old(pool).number(f)),
            ({
                let was = old(pool).metas()[old(pool).number(f)];
                let now = final(pool).metas()[old(pool).number(f)];
                ||| was.released(&now, Reclaim::Keep) && *final(self) == *old(self) && final(
                    pool).frames() == old(pool).frames()
                ||| was.released(&now, Reclaim::Free) && old(self).lent_gained(
                    old(pool),
                    final(self),
                    final(pool),
                    f.addr(),
                ) && final(self).took(old(self), final(pool), old(pool), *seen, f)
            }),
    {
        proof {
            pool.frames().slab().lemma_same_shape_refl();
        }
        let ghost pool0 = *pool;
        if pool.tell_free(f) == Reclaim::Keep {
            return;
        }
        let ghost mid = *pool;
        self.recycle(pool, seen, f);
        proof {
            assert(old(self).lent_gained(&mid, self, pool, f.addr()));
            assert forall|b: int| b != f.addr() implies (#[trigger] old(self).lent(&pool0, b)
                <==> self.lent(pool, b)) by {
                assert(old(self).lent(&mid, b) <==> self.lent(pool, b));
            }
        }
    }

    /// The frame is on top of the cache; if that was full, its upper half went to
    /// the pool first.
    pub open spec fn took<M: FrameMeta>(
        &self,
        other: &FrameCache,
        pool: &FramePool<M>,
        before: &FramePool<M>,
        seen: ThreadView,
        f: Frame,
    ) -> bool {
        if other@.len() < FRAME_MAG_CAP {
            &&& self@ == other@.push(f.addr() as usize)
            &&& pool.frames() == before.frames()
        } else {
            &&& self@ == other@.take(FRAME_MAG_HALF as int).push(f.addr() as usize)
            &&& pool.available(seen) == before.available(seen) + other@.len() - FRAME_MAG_HALF
            &&& pool.frames().pushed_all(
                &before.frames(),
                before.serving(seen),
                other@.skip(FRAME_MAG_HALF as int).reverse(),
            )
            &&& forall|b: int| #[trigger]
                pool.frames().out(b) <==> before.frames().out(b) && !(0 <= b <= usize::MAX
                    && other@.skip(FRAME_MAG_HALF as int).contains(b as usize))
        }
    }

    /// Put a frame that nothing refers to on the cache, without asking its
    /// metadata.
    pub fn recycle<M: FrameMeta>(&mut self, pool: &mut FramePool<M>, seen: &ThreadView, f: Frame)
        requires
            old(self).wf(),
            old(pool).wf(),
            old(self).holds(old(pool)),
            old(self).lent(old(pool), f.addr()),
        ensures
            final(self).wf(),
            final(pool).wf(),
            final(pool).same_pool(old(pool)),
            final(pool).metas() == old(pool).metas(),
            final(self).holds(final(pool)),
            old(self).lent_gained(old(pool), final(self), final(pool), f.addr()),
            final(self).took(old(self), final(pool), old(pool), *seen, f),
    {
        let a: usize = f.as_ptr();
        let ghost before = *self;
        let ghost pool0 = *pool;
        proof {
            pool.frames().slab().lemma_same_shape_refl();
        }
        if self.len >= FRAME_MAG_CAP {
            self.drain(pool, seen, FRAME_MAG_HALF);
        }
        let ghost kept = self@;
        let ghost mid = *self;
        self.push(a);
        proof {
            assert(!kept.contains(a));
            lemma_push_distinct(kept, a);
            assert forall|k: int| 0 <= k < self@.len() implies pool.frames().out(
                #[trigger] self@[k] as int,
            ) by {
                if k < kept.len() {
                    assert(self@[k] == kept[k]);
                } else {
                    assert(self@[k] == a);
                }
            }
            assert forall|b: int| b != a implies (#[trigger] before.lent(&pool0, b) <==> self.lent(
                pool,
                b,
            )) by {
                assert(mid.lent(pool, b) <==> before.lent(&pool0, b));
                lemma_push_contains(kept, a, b as usize);
            }
            lemma_push_contains(kept, a, a);
        }
    }

    /// Give the top frames of the cache to the pool, down to `keep`.
    fn drain<M: FrameMeta>(&mut self, pool: &mut FramePool<M>, seen: &ThreadView, keep: usize)
        requires
            old(self).wf(),
            old(pool).wf(),
            old(self).holds(old(pool)),
            keep <= old(self)@.len(),
        ensures
            final(self).wf(),
            final(pool).wf(),
            final(pool).same_pool(old(pool)),
            final(pool).metas() == old(pool).metas(),
            final(self).holds(final(pool)),
            final(self)@ == old(self)@.take(keep as int),
            final(pool).available(*seen) == old(pool).available(*seen) + old(self)@.len() - keep,
            final(pool).frames().pushed_all(
                &old(pool).frames(),
                old(pool).serving(*seen),
                old(self)@.skip(keep as int).reverse(),
            ),
            forall|b: int| #[trigger]
                final(pool).frames().out(b) <==> old(pool).frames().out(b) && !(0 <= b <= usize::MAX
                    && old(self)@.skip(keep as int).contains(b as usize)),
            forall|b: int| #[trigger] final(self).lent(final(pool), b) <==> old(self).lent(
                old(pool),
                b,
            ),
    {
        let ghost before = *self;
        let ghost pool0 = *pool;
        let ghost all = self@;
        let stack = pool.bind(*seen);
        proof {
            pool.frames().slab().lemma_same_shape_refl();
            assert(all.take(all.len() as int) =~= all);
            assert(all.skip(all.len() as int) =~= Seq::<usize>::empty());
            assert(all.skip(all.len() as int).reverse() =~= Seq::<usize>::empty());
        }
        while self.len > keep
            invariant
                pool0.wf(),
                pool.wf(),
                self.wf(),
                before.holds(&pool0),
                all == before@,
                self@.len() == self.len,
                keep <= self@.len() <= all.len(),
                self@ == all.take(self@.len() as int),
                stack.fits(pool.frames().slab().cpus()),
                forall|slab: &crate::rseq::slab::SlabLayout|
                    slab.same_shape(&pool0.frames().slab()) ==> #[trigger] stack.serving(slab)
                        == crate::rseq::slab::serving_cpu(*seen, slab),
                pool.same_pool(&pool0),
                pool.metas() == pool0.metas(),
                pool.available(*seen) == pool0.available(*seen) + all.len() - self@.len(),
                pool.serving(*seen) == pool0.serving(*seen),
                pool.frames().pushed_all(
                    &pool0.frames(),
                    pool0.serving(*seen),
                    all.skip(self@.len() as int).reverse(),
                ),
                forall|b: int| #[trigger]
                    pool.frames().out(b) <==> pool0.frames().out(b) && !(0 <= b <= usize::MAX
                        && all.skip(self@.len() as int).contains(b as usize)),
            decreases self.len,
        {
            let ghost cur = *pool;
            let ghost m = self@.len() as int;
            match self.pop() {
                Some(p) => {
                    proof {
                        assert(p == all[m - 1]);
                        assert(pool0.frames().out(all[m - 1] as int));
                        lemma_skip_contains(all, m, p);
                        assert(cur.frames().out(p as int));
                    }
                    pool.give_free(&stack, seen, p);
                    proof {
                        pool.frames().slab().lemma_same_shape_trans(
                            &cur.frames().slab(),
                            &pool0.frames().slab(),
                        );
                        assert(self@ =~= all.take(m - 1));
                        let back = all.skip(m - 1).reverse();
                        assert(back.drop_last() =~= all.skip(m).reverse());
                        assert(pool.frames().pushed_onto(
                            &cur.frames(),
                            pool0.serving(*seen),
                            back.last(),
                        ));
                        assert forall|b: int| #[trigger] pool.frames().out(b)
                            <==> pool0.frames().out(b) && !(0 <= b <= usize::MAX && all.skip(
                            m - 1,
                        ).contains(b as usize)) by {
                            lemma_skip_step(all, m - 1, b as usize);
                            if b != p {
                                assert(cur.frames().out(b) <==> pool.frames().out(b));
                            }
                        }
                    }
                },
                None => {},
            }
        }
        proof {
            let kept = self@;
            assert(kept =~= all.take(keep as int));
            assert(kept.no_duplicates()) by {
                assert forall|i: int, j: int|
                    0 <= i < kept.len() && 0 <= j < kept.len() && i != j implies kept[i] != kept[j] by {
                    assert(all[i] != all[j]);
                }
            }
            assert forall|k: int| 0 <= k < kept.len() implies pool.frames().out(
                #[trigger] kept[k] as int,
            ) by {
                assert(pool0.frames().out(all[k] as int));
                lemma_take_or_skip(all, keep as int, k);
            }
            assert forall|b: int| #[trigger] self.lent(pool, b) <==> before.lent(&pool0, b) by {
                lemma_parts(all, keep as int, b as usize);
            }
        }
    }

    /// Give every cached frame back to the pool.
    pub fn flush<M: FrameMeta>(&mut self, pool: &mut FramePool<M>, seen: &ThreadView)
        requires
            old(self).wf(),
            old(pool).wf(),
            old(self).holds(old(pool)),
        ensures
            final(self).wf(),
            final(pool).wf(),
            final(pool).same_pool(old(pool)),
            final(pool).metas() == old(pool).metas(),
            final(self)@.len() == 0,
            final(self).lent_same(final(pool), old(self), old(pool)),
            final(pool).available(*seen) == old(pool).available(*seen) + old(self)@.len(),
            final(pool).frames().pushed_all(
                &old(pool).frames(),
                old(pool).serving(*seen),
                old(self)@.reverse(),
            ),
            forall|b: int| #[trigger]
                final(pool).frames().out(b) <==> old(pool).frames().out(b) && !(0 <= b <= usize::MAX
                    && old(self)@.contains(b as usize)),
    {
        proof {
            assert(old(self)@.skip(0) =~= old(self)@);
        }
        self.drain(pool, seen, 0);
    }
}

proof fn lemma_skip_contains(s: Seq<usize>, m: int, p: usize)
    requires
        0 < m <= s.len(),
        s.no_duplicates(),
        p == s[m - 1],
    ensures
        !s.skip(m).contains(p),
{
    if s.skip(m).contains(p) {
        let k = choose|k: int| 0 <= k < s.len() - m && s.skip(m)[k] == p;
        assert(s[m + k] == s[m - 1]);
    }
}

proof fn lemma_skip_step(s: Seq<usize>, m: int, b: usize)
    requires
        0 <= m < s.len(),
    ensures
        s.skip(m).contains(b) <==> s[m] == b || s.skip(m + 1).contains(b),
{
    if s.skip(m).contains(b) {
        let k = choose|k: int| 0 <= k < s.len() - m && s.skip(m)[k] == b;
        if k > 0 {
            assert(s.skip(m + 1)[k - 1] == b);
        }
    }
    assert(s.skip(m)[0] == s[m]);
    let rest = s.skip(m + 1);
    if rest.contains(b) {
        let k = choose|k: int| 0 <= k < rest.len() && rest[k] == b;
        assert(s.skip(m)[k + 1] == b);
    }
}

proof fn lemma_take_or_skip(s: Seq<usize>, m: int, k: int)
    requires
        0 <= k < m <= s.len(),
        s.no_duplicates(),
    ensures
        !s.skip(m).contains(s[k]),
{
    if s.skip(m).contains(s[k]) {
        let j = choose|j: int| 0 <= j < s.len() - m && s.skip(m)[j] == s[k];
        assert(s[m + j] == s[k]);
    }
}

proof fn lemma_parts(s: Seq<usize>, m: int, b: usize)
    requires
        0 <= m <= s.len(),
    ensures
        s.contains(b) <==> s.take(m).contains(b) || s.skip(m).contains(b),
{
    if s.contains(b) {
        let k = choose|k: int| 0 <= k < s.len() && s[k] == b;
        if k < m {
            assert(s.take(m)[k] == b);
        } else {
            assert(s.skip(m)[k - m] == b);
        }
    }
    if s.take(m).contains(b) {
        let k = choose|k: int| 0 <= k < m && s.take(m)[k] == b;
        assert(s[k] == b);
    }
    if s.skip(m).contains(b) {
        let k = choose|k: int| 0 <= k < s.len() - m && s.skip(m)[k] == b;
        assert(s[m + k] == b);
    }
}

pub(crate) proof fn lemma_push_distinct(s: Seq<usize>, a: usize)
    requires
        s.no_duplicates(),
        !s.contains(a),
    ensures
        s.push(a).no_duplicates(),
{
    let t = s.push(a);
    assert forall|i: int, j: int| 0 <= i < t.len() && 0 <= j < t.len() && i != j implies t[i]
        != t[j] by {
        if i == s.len() {
            assert(s.contains(s[j]));
        } else if j == s.len() {
            assert(s.contains(s[i]));
        }
    }
}

pub(crate) proof fn lemma_push_contains(s: Seq<usize>, a: usize, b: usize)
    ensures
        s.push(a).contains(b) <==> s.contains(b) || b == a,
{
    let t = s.push(a);
    if s.contains(b) {
        let k = choose|k: int| 0 <= k < s.len() && s[k] == b;
        assert(t[k] == b);
    }
    assert(t[s.len() as int] == a);
    if t.contains(b) {
        let k = choose|k: int| 0 <= k < t.len() && t[k] == b;
        if k < s.len() {
            assert(s[k] == b);
        }
    }
}

pub(crate) proof fn lemma_pop_distinct(s: Seq<usize>)
    requires
        s.no_duplicates(),
        s.len() > 0,
    ensures
        s.drop_last().no_duplicates(),
        !s.drop_last().contains(s.last()),
        s.drop_last().push(s.last()) == s,
{
    assert(s.drop_last().push(s.last()) =~= s);
    assert forall|i: int, j: int|
        0 <= i < s.len() - 1 && 0 <= j < s.len() - 1 && i != j implies s.drop_last()[i]
        != s.drop_last()[j] by {
        assert(s[i] != s[j]);
    }
    assert forall|i: int| 0 <= i < s.len() - 1 implies s.drop_last()[i] != s.last() by {
        assert(s[i] != s[s.len() - 1]);
    }
}

} // verus!
