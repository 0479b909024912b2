//! How objects flow between callers, per-CPU stacks and the central bitmaps.

use vstd::prelude::*;
use crate::bits::{bit, bit_mask, lemma_bit_or_and, lemma_bit_zero};
use crate::meta::{SPAN_BYTES, NO_SPAN, SPAN_BITMAP_WORDS};
use crate::rseq::slab::{pushed, CpuStack, Fast};
use crate::sizeclass::{is_class, NUM_CLASSES};
use crate::subheap::heap::{is_obj, lemma_same_slot, list_index, only_taken, Heap};
use crate::subheap::tiling::{batch_for, batch_of, slot_index, span_index};

verus! {

/// A stack after addresses were pushed onto it as far as there was room.
pub open spec fn stacked(st: Seq<usize>, cap: int, items: Seq<usize>) -> Seq<usize> {
    if st.len() + items.len() <= cap {
        st + items
    } else {
        st + items.take(cap - st.len())
    }
}

impl Heap {
    /// Giving one of the gained objects back leaves the others gained.
    proof fn lemma_gained_drop(&self, mid: &Heap, first: &Heap, c: int, part: Seq<usize>, k: int)
        requires
            mid.gained_all(first, c, part),
            0 <= k < part.len(),
            self.lost(mid, part[k] as int, c),
        ensures
            self.gained_all(first, c, part.remove(k)),
    {
        let rest = part.remove(k);
        assert(rest.no_duplicates());
        assert forall|i: int| 0 <= i < rest.len() implies !first.live(#[trigger] rest[i] as int, c)
            && self.live(rest[i] as int, c) by {
            let o = if i < k {
                i
            } else {
                i + 1
            };
            assert(rest[i] == part[o]);
            assert(part[o] != part[k]);
            assert(mid.live(part[o] as int, c));
        }
        assert forall|b: int, d: int| #[trigger] self.live(b, d) <==> first.live(b, d) || (d == c && 0
            <= b <= usize::MAX && rest.contains(b as usize)) by {
            assert(mid.live(b, d) <==> first.live(b, d) || (d == c && 0 <= b <= usize::MAX
                && part.contains(b as usize)));
            if 0 <= b <= usize::MAX {
                let x = b as usize;
                if part.contains(x) && x != part[k] {
                    let o = part.index_of(x);
                    assert(rest[if o < k {
                        o
                    } else {
                        o - 1
                    }] == x);
                }
                if rest.contains(x) {
                    let i = rest.index_of(x);
                    let o = if i < k {
                        i
                    } else {
                        i + 1
                    };
                    assert(part[o] == x);
                    assert(part[o] != part[k]);
                }
            }
            assert(part[k] as int == part[k]);
            if b == part[k] && d == c {
                assert(part.contains(b as usize));
                assert(!first.live(part[k] as int, c));
            } else {
                assert(self.live(b, d) <==> mid.live(b, d));
            }
        }
    }

    /// Gaining or losing depends on which objects are named, not on their order.
    proof fn lemma_gained_same(&self, first: &Heap, c: int, p: Seq<usize>, q: Seq<usize>)
        requires
            self.gained_all(first, c, p),
            q.no_duplicates(),
            forall|x: usize| #[trigger] q.contains(x) <==> p.contains(x),
        ensures
            self.gained_all(first, c, q),
    {
        assert forall|k: int| 0 <= k < q.len() implies !first.live(#[trigger] q[k] as int, c)
            && self.live(q[k] as int, c) by {
            assert(q.contains(q[k]));
            let i = p.index_of(q[k]);
            assert(p[i] == q[k]);
        }
        assert forall|b: int, d: int| #[trigger] self.live(b, d) <==> first.live(b, d) || (d == c && 0
            <= b <= usize::MAX && q.contains(b as usize)) by {
            assert(self.live(b, d) <==> first.live(b, d) || (d == c && 0 <= b <= usize::MAX
                && p.contains(b as usize)));
            assert(q.contains(b as usize) <==> p.contains(b as usize));
        }
    }

    /// Objects and runs gained: one.
    proof fn lemma_gained_one(&self, first: &Heap, c: int, a: usize)
        requires
            self.gained_all(first, c, seq![a]),
        ensures
            self.gained(first, a as int, c),
    {
        let part = seq![a];
        assert(part[0] == a);
        assert(!first.live(part[0] as int, c) && self.live(part[0] as int, c));
        assert forall|b: int, d: int| !(b == a && d == c) implies (#[trigger] self.live(b, d)
            <==> first.live(b, d)) by {
            if 0 <= b <= usize::MAX && part.contains(b as usize) {
                assert(part[0] == b as usize);
            }
        }
    }

    /// Only class `c`'s stack on `cpu` may differ from `other`'s slab.
    pub open spec fn slab_moved(&self, other: &Heap, cpu: int, c: int) -> bool {
        &&& self.slab().same_shape(&other.slab())
        &&& self.slab().same_stacks_but(&other.slab(), cpu, c)
    }

    /// The rest of a batch from the refill order lies on the CPU's stack, as far as
    /// there was room; none of it while that CPU is stopped.
    pub open spec fn refilled(&self, other: &Heap, cpu: int, c: int, order: Seq<usize>) -> bool {
        let m = if batch_of(c) < order.len() {
            batch_of(c)
        } else {
            order.len() as int
        };
        self.slab().stack(cpu, c) == (if other.slab().is_stopped_at(cpu) {
            other.slab().stack(cpu, c)
        } else {
            stacked(other.slab().stack(cpu, c), other.slab().cap(c), order.subrange(1, m))
        })
    }

    /// New spans were put to use for class `c` on the list with index `j`, tagged
    /// with `home`: the first object of their order is `a`, and the rest of a batch
    /// lies on the CPU's stack.
    pub open spec fn refilled_fresh(
        &self,
        other: &Heap,
        cpu: int,
        c: int,
        j: int,
        home: u16,
        a: usize,
    ) -> bool {
        exists|fresh: Heap|
            {
                &&& #[trigger] fresh.put_to_use(other, j, c, home)
                &&& fresh.extends(other)
                &&& self.same_spans(&fresh)
                &&& fresh.take_order(j, c).len() > 0
                &&& a == fresh.take_order(j, c)[0]
                &&& self.refilled(other, cpu, c, fresh.take_order(j, c))
            }
    }

    pub(crate) proof fn lemma_slab_moved(&self, mid: &Heap, first: &Heap, cpu: int, c: int)
        requires
            self.slab_moved(mid, cpu, c),
            mid.slab_moved(first, cpu, c),
        ensures
            self.slab_moved(first, cpu, c),
    {
        self.slab().lemma_same_shape_trans(&mid.slab(), &first.slab());
        self.slab().lemma_same_shape(&mid.slab());
        mid.slab().lemma_same_shape(&first.slab());
        assert forall|k: int, d: int|
            0 <= k < self.slab().cpus() && 0 <= d < self.slab().class_count() && !(k == cpu && d == c) implies #[trigger] self.slab().stack(
            k,
            d,
        ) == first.slab().stack(k, d) by {
            assert(mid.slab().stack(k, d) == first.slab().stack(k, d));
        }
    }

    /// Refill for class `class`: take a batch of free objects from the shard's
    /// list, putting new spans to use if it has none; return the first and cache
    /// the rest on the CPU's stack as far as it has room. `None` only if no
    /// object is free and no span is to be had.
    #[verifier::rlimit(40)]
    pub(crate) fn refill(
        &mut self,
        stack: &CpuStack,
        class: usize,
        shard_id: u32,
    ) -> (r: Option<usize>)
        requires
            old(self).wf(),
            is_class(class as int),
            stack.fits(old(self).slab().cpus()),
        ensures
            final(self).wf(),
            final(self).slab_moved(old(self), stack.serving(&old(self).slab()), class as int),
            ({
                let order = old(self).take_order(
                    list_index(shard_id as int % old(self).shards(), class as int),
                    class as int,
                );
                &&& r is None <==> order.len() == 0 && !old(self).can_carve(class as int)
                &&& r is None ==> final(self).idle_since(old(self))
                &&& r matches Some(a) ==> {
                    &&& final(self).gained(old(self), a as int, class as int)
                    &&& final(self).same_runs(old(self))
                    &&& final(self).grown(old(self))
                    &&& order.len() > 0 ==> a == order[0] && final(self).same_spans(old(self))
                        && final(self).refilled(
                        old(self),
                        stack.serving(&old(self).slab()),
                        class as int,
                        order,
                    )
                    &&& order.len() == 0 ==> a == old(self).base() + old(self).carve_pick(
                        list_index(shard_id as int % old(self).shards(), class as int),
                        class as int,
                    ) * SPAN_BYTES && final(self).refilled_fresh(
                        old(self),
                        stack.serving(&old(self).slab()),
                        class as int,
                        list_index(shard_id as int % old(self).shards(), class as int),
                        (shard_id as int % old(self).shards()) as u16,
                        a,
                    )
                }
            }),
    {
        let ghost before = *self;
        let ghost c = class as int;
        let ghost cpu = stack.serving(&before.slab());
        let batch: usize = batch_for(class);
        let j: usize = self.cell(shard_id, class);
        let ghost order = before.take_order(j as int, c);
        proof {
            before.slab().lemma_same_shape_refl();
            before.lemma_grown_refl();
        }
        let mut buf: [usize; 64] = [0; 64];
        let mut n: usize = self.central_take(j, class, &mut buf, 0, batch);
        let ghost mut got = buf@.take(n as int);
        let ghost mut mid = *self;
        let ghost mut new = *self;
        if n == 0 {
            proof {
                assert(order.len() == 0);
                self.lemma_idle(&before, c, order.take(0));
            }
            let ghost took = *self;
            let home: u16 = self.shard_of(shard_id) as u16;
            let carved: usize = self.central_carve(j, class, home);
            if carved == 0 {
                return None;
            }
            let ghost fresh = *self;
            proof {
                fresh.lemma_order_fresh(&took, j as int, c, home);
            }
            n = self.central_take(j, class, &mut buf, 0, batch);
            proof {
                got = buf@.take(n as int);
                mid = *self;
                new = fresh;
                assert(got[0] == fresh.take_order(j as int, c)[0]);
                fresh.lemma_put_to_use_idle(&took, &before, j as int, c, home);
                assert(took.carve_pick(j as int, c) == before.carve_pick(j as int, c));
                assert(mid.gained_all(&before, c, got)) by {
                    assert forall|b: int, d: int| #[trigger] fresh.live(b, d) <==> before.live(b, d) by {
                        assert(fresh.live(b, d) <==> took.live(b, d));
                    }
                    before.lemma_gained_after(&fresh, &mid, c, got);
                }
                assert(mid.same_runs(&before)) by {
                    assert forall|b: int, len: int| #[trigger] mid.live_run(b, len)
                        <==> before.live_run(b, len) by {
                        assert(fresh.live_run(b, len) <==> took.live_run(b, len));
                    }
                }
                assert(mid.grown(&before)) by {
                    assert forall|s: int|
                        0 <= s < before.kind().len() && before.kind()[s] !is Loose implies #[trigger] mid.kind()[s]
                        == before.kind()[s] by {
                        assert(fresh.kind()[s] == took.kind()[s]);
                    }
                }
            }
        } else {
            proof {
                assert(got =~= order.take(got.len() as int));
                assert(got[0] == order[0]);
            }
        }
        assert(mid.gained_all(&before, c, got));
        assert(mid.grown(&before) && mid.same_runs(&before));
        assert(order.len() > 0 ==> mid.same_spans(&before) && got[0] == order[0]);
        let ghost taken = if order.len() > 0 {
            order
        } else {
            new.take_order(j as int, c)
        };
        let ghost m = if batch < taken.len() {
            batch as int
        } else {
            taken.len() as int
        };
        assert(got =~= taken.take(m));
        let a: usize = buf[0];
        let ghost all = got;
        assert(a == all[0]);
        let mut k: usize = 1;
        let ghost st = before.slab().stack(cpu, c);
        let ghost stopped = before.slab().is_stopped_at(cpu);
        proof {
            before.lemma_stack_range(stack);
            before.lemma_stack_bound(cpu, c);
            assert(all.subrange(1, 1) =~= Seq::<usize>::empty());
            assert(stacked(st, before.slab().cap(c), all.subrange(1, 1)) =~= st);
        }
        assert(seq![a] + all.skip(1) =~= all);
        while k < n
            invariant
                1 <= k <= n,
                n <= 64,
                all == buf@.take(n as int),
                a == all[0],
                c == class,
                is_class(c),
                mid.wf(),
                self.wf(),
                stack.fits(self.slab().cpus()),
                stack.fits(before.slab().cpus()),
                cpu == stack.serving(&before.slab()),
                self.slab_moved(&before, cpu, c),
                self.same_spans(&mid),
                self.gained_all(&before, c, seq![a] + all.skip(k as int)),
                st == before.slab().stack(cpu, c),
                st.len() <= before.slab().cap(c),
                stopped == before.slab().is_stopped_at(cpu),
                self.slab().stack(cpu, c) == (if stopped {
                    st
                } else {
                    stacked(st, before.slab().cap(c), all.subrange(1, k as int))
                }),
            decreases n - k,
        {
            let ghost cur = *self;
            let ghost part = seq![a] + all.skip(k as int);
            let p: usize = buf[k];
            proof {
                cur.slab().lemma_same_shape(&before.slab());
                stack.lemma_serving_same(&cur.slab(), &before.slab());
                assert(part[1] == p);
                assert(cur.live(part[1] as int, c));
                cur.slab().lemma_same_shape_refl();
            }
            match self.put_cached(stack, class, p) {
                Fast::Done(_) => {},
                Fast::NeedsSlow => {
                    self.central_deposit(p, class);
                },
            }
            proof {
                self.lemma_gained_drop(&cur, &before, c, part, 1);
                assert(part.remove(1) =~= seq![a] + all.skip(k + 1));
                self.lemma_slab_moved(&cur, &before, cpu, c);
                self.slab().lemma_same_shape(&before.slab());
                let cap = before.slab().cap(c);
                let was = all.subrange(1, k as int);
                let now = all.subrange(1, k + 1);
                assert(now =~= was.push(p));
                if st.len() + now.len() <= cap {
                    assert(stacked(st, cap, now) =~= stacked(st, cap, was).push(p));
                } else {
                    assert(stacked(st, cap, now) =~= stacked(st, cap, was));
                }
            }
            k = k + 1;
        }
        proof {
            assert(seq![a] + all.skip(k as int) =~= seq![a]);
            self.lemma_gained_one(&before, c, a);
            assert(self.same_runs(&before)) by {
                assert forall|b: int, len: int| #[trigger] self.live_run(b, len) <==> before.live_run(
                    b,
                    len,
                ) by {
                    assert(mid.live_run(b, len) <==> before.live_run(b, len));
                }
            }
            self.lemma_grown_trans(&mid, &before);
            assert(all.subrange(1, k as int) =~= taken.subrange(1, m));
            if order.len() == 0 {
                assert(self.same_spans(&new)) by {
                    assert forall|s: int| #[trigger] self.tag(s) == new.tag(s) by {
                        assert(mid.tag(s) == new.tag(s));
                    }
                    assert forall|q: int| #[trigger] self.hint(q) == new.hint(q) by {
                        assert(mid.hint(q) == new.hint(q));
                    }
                }
                assert(self.refilled(&before, cpu, c, new.take_order(j as int, c)));
            } else {
                assert(self.same_spans(&before)) by {
                    assert forall|s: int| #[trigger] self.tag(s) == before.tag(s) by {
                        assert(mid.tag(s) == before.tag(s));
                    }
                    assert forall|q: int| #[trigger] self.hint(q) == before.hint(q) by {
                        assert(mid.hint(q) == before.hint(q));
                    }
                }
            }
        }
        Some(a)
    }

    /// Whether the span of `a` is not in use.
    pub open spec fn unused_at(&self, a: int) -> bool {
        let s = span_index(self.base(), a);
        0 <= s < self.kind().len() && self.kind()[s] is Loose
    }

    /// The objects of a batch behind its first `n` are of spans that were not in
    /// use.
    pub open spec fn from_unused(&self, batch: Seq<usize>, n: int) -> bool {
        forall|k: int| n <= k < batch.len() ==> self.unused_at(#[trigger] batch[k] as int)
    }

    /// `part`, the first objects of the refill order of list `j`, were taken from it,
    /// and nothing else happened.
    pub open spec fn took(&self, other: &Heap, j: int, c: int, part: Seq<usize>) -> bool {
        let order = other.take_order(j, c);
        &&& part.len() <= order.len()
        &&& part == order.take(part.len() as int)
        &&& self.gained_all(other, c, part)
        &&& self.same_spans(other)
        &&& self.slab() == other.slab()
        &&& only_taken(other.kind(), other.place(), self.place())
    }

    /// List `j` of `other` had nothing left for class `c`: new spans were put to
    /// use, which gave `fresh`, and the objects of `batch` behind its first `n` were
    /// taken from those.
    pub open spec fn renewed(
        &self,
        fresh: &Heap,
        other: &Heap,
        j: int,
        c: int,
        home: u16,
        batch: Seq<usize>,
        n: nat,
    ) -> bool {
        &&& n <= batch.len()
        &&& other.take_order(j, c).len() == 0
        &&& other.can_carve(c)
        &&& fresh.put_to_use(other, j, c, home)
        &&& fresh.extends(other)
        &&& fresh.same_live(other)
        &&& fresh.slab() == other.slab()
        &&& self.took(fresh, j, c, batch.skip(n as int))
    }

    /// `batch` was drawn for class `c` from list `j`, in this order: what its refill
    /// order had, and then, `rounds` times, what that of newly used spans had, as
    /// far as `want` objects were still missing.
    pub open spec fn drawn(
        &self,
        first: &Heap,
        j: int,
        c: int,
        home: u16,
        batch: Seq<usize>,
        want: int,
        rounds: nat,
    ) -> bool
        decreases rounds,
    {
        &&& batch.len() <= want
        &&& if rounds == 0 {
            &&& self.took(first, j, c, batch)
            &&& batch.len() == want || batch.len() == first.take_order(j, c).len()
        } else {
            exists|prev: Heap, fresh: Heap, n: nat|
                {
                    &&& #[trigger] self.renewed(&fresh, &prev, j, c, home, batch, n)
                    &&& n < want
                    &&& batch.len() == want || batch.len() - n == fresh.take_order(j, c).len()
                    &&& prev.drawn(
                        first,
                        j,
                        c,
                        home,
                        batch.take(n as int),
                        want,
                        (rounds - 1) as nat,
                    )
                }
        }
    }

    /// `batch` was drawn for class `c` from list `j`, and `want` objects are in it
    /// unless no more are to be had.
    pub open spec fn drawn_up_to(
        &self,
        first: &Heap,
        j: int,
        c: int,
        home: u16,
        batch: Seq<usize>,
        want: int,
    ) -> bool {
        &&& exists|rounds: nat| #[trigger] self.drawn(first, j, c, home, batch, want, rounds)
        &&& batch.len() < want ==> !self.can_carve(c) && self.take_order(j, c).len() == 0
    }

    /// Take objects of class `class` from the shard's list until `out` holds
    /// `want`, putting new spans to use as often as needed and possible.
    #[verifier::rlimit(40)]
    pub(crate) fn refill_batch(&mut self, class: usize, shard_id: u32, out: &mut [usize]) -> (n:
        usize)
        requires
            old(self).wf(),
            is_class(class as int),
        ensures
            final(self).wf(),
            final(self).slab() == old(self).slab(),
            n <= old(out)@.len(),
            final(out)@.len() == old(out)@.len(),
            forall|k: int| n <= k < old(out)@.len() ==> #[trigger] final(out)@[k] == old(out)@[k],
            final(self).gained_all(old(self), class as int, final(out)@.take(n as int)),
            final(self).same_runs(old(self)),
            final(self).grown(old(self)),
            ({
                let batch = final(out)@.take(n as int);
                let want = old(out)@.len() as int;
                let j = list_index(shard_id as int % old(self).shards(), class as int);
                let order = old(self).take_order(j, class as int);
                &&& batch.len() < want ==> !final(self).can_carve(class as int)
                    && final(self).take_order(j, class as int).len() == 0
                &&& order.len() >= want ==> batch == order.take(want)
                &&& order.len() < want ==> batch.take(order.len() as int) == order
                    && order.len() <= batch.len()
                &&& want > 0 ==> (batch.len() == 0 <==> order.len() == 0 && !old(
                    self,
                ).can_carve(class as int))
                &&& old(self).from_unused(batch, order.len() as int)
                &&& final(self).drawn_up_to(
                    old(self),
                    j,
                    class as int,
                    (shard_id as int % old(self).shards()) as u16,
                    batch,
                    want,
                )
            }),
    {
        let ghost before = *self;
        let ghost c = class as int;
        let j: usize = self.cell(shard_id, class);
        let home: u32 = self.shard_of(shard_id);
        let ghost order = before.take_order(j as int, c);
        let ghost mut rounds: nat = 0;
        let want: usize = out.len();
        let ghost all0 = out@;
        let mut n: usize = self.central_take(j, class, out, 0, want);
        let ghost mut outs = out@.take(n as int);
        let ghost first = outs;
        proof {
            assert(outs =~= order.take(outs.len() as int));
            assert(outs.take(first.len() as int) =~= first);
            if outs.len() == 0 && want > 0 {
                self.lemma_idle(&before, c, first);
            }
            assert(self.drawn(&before, j as int, c, home as u16, outs, want as int, 0));
        }
        while n < want
            invariant
                before.wf(),
                self.wf(),
                is_class(c),
                c == class,
                j == list_index(shard_id as int % before.shards(), c),
                j < before.lists().len(),
                j % NUM_CLASSES == class,
                order == before.take_order(j as int, c),
                self.slab() == before.slab(),
                outs == out@.take(n as int),
                n <= want == out@.len(),
                out@.len() == all0.len(),
                forall|k: int| n <= k < all0.len() ==> #[trigger] out@[k] == all0[k],
                self.gained_all(&before, c, outs),
                self.same_runs(&before),
                self.grown(&before),
                first.len() <= outs.len(),
                outs.take(first.len() as int) == first,
                first == order.take(first.len() as int),
                first.len() == (if order.len() < want {
                    order.len()
                } else {
                    want as nat
                }),
                outs.len() < want ==> self.take_order(j as int, c).len() == 0,
                outs.len() == 0 ==> self.can_carve(c) == before.can_carve(c),
                before.from_unused(outs, order.len() as int),
                order.len() == 0 && !before.can_carve(c) ==> outs.len() == 0,
                home == shard_id as int % before.shards(),
                self.drawn(&before, j as int, c, home as u16, outs, want as int, rounds),
            ensures
                outs.len() < want ==> !self.can_carve(c),
            decreases want - outs.len(),
        {
            let ghost cur = *self;
            let ghost had = outs;
            let carved: usize = self.central_carve(j, class, home as u16);
            if carved == 0 {
                break;
            }
            let ghost fresh = *self;
            proof {
                fresh.lemma_order_fresh(&cur, j as int, c, home as u16);
            }
            n = self.central_take(j, class, out, n, want);
            proof {
                outs = out@.take(n as int);
                let part = outs.skip(had.len() as int);
                let more = fresh.take_order(j as int, c);
                assert(part =~= more.take(part.len() as int));
                assert(outs =~= had + part);
                assert(outs.take(had.len() as int) =~= had);
                assert(self.took(&fresh, j as int, c, part));
                assert(self.renewed(&fresh, &cur, j as int, c, home as u16, outs, had.len()));
                rounds = rounds + 1;
                cur.lemma_gained_after(&fresh, self, c, part);
                self.lemma_gained_compose(&cur, &before, c, had, part);
                assert(self.grown(&fresh));
                assert(fresh.grown(&cur));
                self.lemma_grown_trans(&fresh, &cur);
                self.lemma_grown_trans(&cur, &before);
                assert(self.same_runs(&before)) by {
                    assert forall|b: int, len: int| #[trigger] self.live_run(b, len)
                        <==> before.live_run(b, len) by {
                        assert(fresh.live_run(b, len) <==> cur.live_run(b, len));
                    }
                }
                assert(outs.take(first.len() as int) =~= had.take(first.len() as int));
                assert forall|k: int| order.len() <= k < outs.len() implies before.unused_at(
                    #[trigger] outs[k] as int,
                ) by {
                    if k < had.len() {
                        assert(outs[k] == had[k]);
                    } else {
                        let q = k - had.len();
                        assert(outs[k] == more[q]);
                        fresh.lemma_order_new(&cur, j as int, c, home as u16, q);
                        let s = span_index(before.base(), outs[k] as int);
                        assert(cur.kind()[s] is Loose);
                        if before.kind()[s] !is Loose {
                            assert(cur.kind()[s] == before.kind()[s]);
                        }
                    }
                }
            }
        }
        proof {
            if order.len() >= want {
                assert(outs =~= first);
            } else {
                assert(first =~= order);
            }
        }
        n
    }
}

/// A full stack after half a batch (at least one) was drained from its top and
/// `addr` pushed.
pub open spec fn drained(st: Seq<usize>, cap: int, batch: int, addr: usize) -> Seq<usize> {
    let half = if batch / 2 > 1 {
        batch / 2
    } else {
        1
    };
    let k = if half < st.len() {
        half
    } else {
        st.len() as int
    };
    let t = st.take(st.len() - k);
    if t.len() < cap {
        t.push(addr)
    } else {
        t
    }
}

/// A stack after `addr` was freed onto it.
pub open spec fn freed_onto(st: Seq<usize>, cap: int, batch: int, addr: usize) -> Seq<usize> {
    if st.len() < cap {
        st.push(addr)
    } else {
        drained(st, cap, batch, addr)
    }
}

impl Heap {
    /// Whether a free of the object at `a` by a thread with shard number
    /// `shard_id` goes to the CPU's stack: the object's span is homed on the
    /// thread's shard.
    pub open spec fn is_local(&self, a: int, shard_id: int) -> bool {
        let home = self.tag(span_index(self.base(), a)).unwrap().1;
        home == u16::MAX || home as int % self.shards() == shard_id % self.shards()
    }

    /// A CPU's stack for class `c` after a batch was freed: its local objects are
    /// freed onto it in turn.
    pub open spec fn freed_all(
        &self,
        st: Seq<usize>,
        c: int,
        addrs: Seq<usize>,
        shard_id: int,
    ) -> Seq<usize>
        decreases addrs.len(),
    {
        if addrs.len() == 0 {
            st
        } else {
            let t = self.freed_all(st, c, addrs.drop_last(), shard_id);
            if self.is_local(addrs.last() as int, shard_id) {
                freed_onto(t, self.slab().cap(c), batch_of(c), addrs.last())
            } else {
                t
            }
        }
    }

    /// The last object of a batch that is not local to the thread.
    pub open spec fn last_remote(&self, addrs: Seq<usize>, shard_id: int) -> Option<usize>
        decreases addrs.len(),
    {
        if addrs.len() == 0 {
            None
        } else if self.is_local(addrs.last() as int, shard_id) {
            self.last_remote(addrs.drop_last(), shard_id)
        } else {
            Some(addrs.last())
        }
    }

    /// The list that serves class `c` on the home shard of the object at `a`.
    pub open spec fn home_list(&self, a: int, c: int) -> int {
        list_index(
            self.tag(span_index(self.base(), a)).unwrap().1 as int % self.shards(),
            c,
        )
    }

    /// What a batch that was freed leaves behind: its local objects on the CPU's
    /// stack, unless that CPU is stopped, and a hint at the span of the last object
    /// that was not local.
    pub open spec fn batch_freed(
        &self,
        other: &Heap,
        cpu: int,
        c: int,
        addrs: Seq<usize>,
        shard_id: int,
    ) -> bool {
        let st = other.slab().stack(cpu, c);
        let remote = other.last_remote(addrs, shard_id);
        &&& self.slab().stack(cpu, c) == (if other.slab().is_stopped_at(cpu) {
            st
        } else {
            other.freed_all(st, c, addrs, shard_id)
        })
        &&& forall|k: int|
            0 <= k < other.lists().len() ==> #[trigger] self.hint(k) == (match remote {
                Some(p) => if k == other.home_list(p as int, c) {
                    span_index(other.base(), p as int) as u32
                } else {
                    other.hint(k)
                },
                None => other.hint(k),
            })
    }

    /// Where the object at `addr` is after the thread behind `stack` freed it:
    /// on the CPU's stack if it is local and the CPU is not stopped, else free in
    /// its span's bitmap.
    pub open spec fn freed_by(
        &self,
        other: &Heap,
        stack: &CpuStack,
        c: int,
        addr: usize,
        shard_id: int,
    ) -> bool {
        let cpu = stack.serving(&other.slab());
        &&& self.same_spans(other)
        &&& self.lost(other, addr as int, c)
        &&& self.slab_moved(other, cpu, c)
        &&& self.slab().stack(cpu, c) == (if other.is_local(addr as int, shard_id)
            && !other.slab().is_stopped_at(cpu) {
            freed_onto(other.slab().stack(cpu, c), other.slab().cap(c), batch_of(c), addr)
        } else {
            other.slab().stack(cpu, c)
        })
    }

    proof fn lemma_lost_through(&self, mid: &Heap, first: &Heap, a: int, c: int)
        requires
            forall|b: int, d: int| #[trigger] mid.live(b, d) <==> first.live(b, d),
            self.lost(mid, a, c),
        ensures
            self.lost(first, a, c),
    {
        assert(mid.live(a, c) <==> first.live(a, c));
        assert forall|b: int, d: int| !(b == a && d == c) implies (#[trigger] self.live(b, d)
            <==> first.live(b, d)) by {
            assert(mid.live(b, d) <==> first.live(b, d));
        }
    }

    /// Make room on a full stack by moving half a batch from its top to the
    /// central bitmaps, then push `addr`.
    #[verifier::rlimit(40)]
    pub(crate) fn drain(&mut self, stack: &CpuStack, class: usize, addr: usize)
        requires
            old(self).wf(),
            is_class(class as int),
            stack.fits(old(self).slab().cpus()),
            old(self).live(addr as int, class as int),
        ensures
            final(self).wf(),
            final(self).same_spans(old(self)),
            final(self).lost(old(self), addr as int, class as int),
            final(self).slab_moved(old(self), stack.serving(&old(self).slab()), class as int),
            ({
                let cpu = stack.serving(&old(self).slab());
                let st = old(self).slab().stack(cpu, class as int);
                final(self).slab().stack(cpu, class as int) == (if old(self).slab().is_stopped_at(cpu) {
                    st
                } else {
                    drained(st, old(self).slab().cap(class as int), batch_of(class as int), addr)
                })
            }),
    {
        let ghost before = *self;
        let ghost c = class as int;
        let ghost cpu = stack.serving(&before.slab());
        let ghost st = before.slab().stack(cpu, c);
        let ghost stopped = before.slab().is_stopped_at(cpu);
        let batch: usize = batch_for(class);
        let half: usize = if batch / 2 > 1 {
            batch / 2
        } else {
            1
        };
        let mut t: usize = 0;
        let mut more: bool = true;
        proof {
            before.slab().lemma_same_shape_refl();
            assert(st.take(st.len() as int) =~= st);
        }
        while more && t < half
            invariant
                is_class(c),
                c == class,
                self.wf(),
                stack.fits(self.slab().cpus()),
                stack.fits(before.slab().cpus()),
                cpu == stack.serving(&before.slab()),
                st == before.slab().stack(cpu, c),
                stopped == before.slab().is_stopped_at(cpu),
                self.same_spans(&before),
                self.slab_moved(&before, cpu, c),
                forall|b: int, d: int| #[trigger] self.live(b, d) <==> before.live(b, d),
                t <= half,
                stopped ==> self.slab().stack(cpu, c) == st,
                !stopped ==> t <= st.len() && self.slab().stack(cpu, c) == st.take(st.len() - t),
                !more && !stopped ==> t == st.len(),
            decreases half - t, (if more { 1int } else { 0 }),
        {
            let ghost cur = *self;
            proof {
                cur.slab().lemma_same_shape(&before.slab());
                stack.lemma_serving_same(&cur.slab(), &before.slab());
            }
            match self.take_cached(stack, class).0 {
                Fast::Done(p) => {
                    let ghost mid = *self;
                    self.central_deposit(p, class);
                    proof {
                        assert(st.take(st.len() - t).drop_last() =~= st.take(st.len() - t - 1));
                        assert(self.slab_moved(&cur, cpu, c));
                        self.lemma_slab_moved(&cur, &before, cpu, c);
                        assert forall|b: int, d: int| #[trigger] self.live(b, d) <==> before.live(b, d) by {
                            assert(mid.live(b, d) <==> cur.live(b, d) || (b == p && d == c));
                            assert(cur.live(b, d) <==> before.live(b, d));
                        }
                        self.lemma_same_spans_trans(&cur, &before);
                        self.slab().lemma_same_shape(&before.slab());
                    }
                    t = t + 1;
                },
                Fast::NeedsSlow => {
                    more = false;
                    proof {
                        if !stopped {
                            let top = cur.slab().stack(cpu, c);
                            if top.len() > 0 {
                                cur.lemma_cached_nonzero(cpu, c);
                            }
                        }
                    }
                },
            }
        }
        let ghost cur = *self;
        proof {
            cur.slab().lemma_same_shape(&before.slab());
            stack.lemma_serving_same(&cur.slab(), &before.slab());
            cur.slab().lemma_same_shape_refl();
            assert(cur.live(addr as int, c));
        }
        match self.put_cached(stack, class, addr) {
            Fast::Done(_) => {},
            Fast::NeedsSlow => {
                self.central_deposit(addr, class);
            },
        }
        proof {
            self.lemma_lost_through(&cur, &before, addr as int, c);
            self.lemma_slab_moved(&cur, &before, cpu, c);
            self.lemma_same_spans_trans(&cur, &before);
        }
    }

    pub(crate) proof fn lemma_same_spans_trans(&self, mid: &Heap, first: &Heap)
        requires
            self.same_spans(mid),
            mid.same_spans(first),
        ensures
            self.same_spans(first),
    {
        assert forall|s: int| #[trigger] self.tag(s) == first.tag(s) by {
            assert(mid.tag(s) == first.tag(s));
        }
        assert forall|j: int| #[trigger] self.hint(j) == first.hint(j) by {
            assert(mid.hint(j) == first.hint(j));
        }
    }

    /// Free the live object of class `class` at `addr`: onto the CPU's stack if
    /// its span is homed on the thread's shard, draining the stack if it is full;
    /// else into its span's bitmap.
    pub(crate) fn release(&mut self, stack: &CpuStack, class: usize, addr: usize, shard_id: u32)
        requires
            old(self).wf(),
            stack.fits(old(self).slab().cpus()),
            old(self).live(addr as int, class as int),
        ensures
            final(self).wf(),
            final(self).freed_by(old(self), stack, class as int, addr, shard_id as int),
    {
        let ghost before = *self;
        let ghost cpu = stack.serving(&before.slab());
        proof {
            before.slab().lemma_same_shape_refl();
        }
        let home: u16 = self.home_of(addr, class);
        let mine: u32 = self.shard_of(shard_id);
        if home == u16::MAX || self.shard_of(home as u32) == mine {
            match self.put_cached(stack, class, addr) {
                Fast::Done(_) => {},
                Fast::NeedsSlow => {
                    self.drain(stack, class, addr);
                },
            }
        } else {
            self.central_deposit(addr, class);
        }
    }
}

/// Whether every object named in `part` lies in word `word` of span `span`, and
/// `mask` holds exactly their bits.
pub open spec fn masked(base: int, c: int, part: Seq<usize>, span: u32, word: usize, mask: u64) -> bool {
    &&& part.no_duplicates()
    &&& forall|k: int|
        0 <= k < part.len() ==> {
            let i = slot_index(base, #[trigger] part[k] as int, c);
            &&& span_index(base, part[k] as int) == span
            &&& 0 <= i
            &&& i / 64 == word
            &&& bit(mask, i % 64)
        }
    &&& forall|b: int|
        0 <= b < 64 && #[trigger] bit(mask, b) ==> exists|k: int|
            0 <= k < part.len() && slot_index(base, #[trigger] part[k] as int, c) == 64 * word + b
}

impl Heap {
    /// Deposit the pending objects: exactly those are lost.
    fn flush(
        &mut self,
        span: u32,
        word: usize,
        mask: u64,
        class: usize,
        part: Ghost<Seq<usize>>,
    )
        requires
            old(self).wf(),
            is_class(class as int),
            span < old(self).kind().len(),
            word < SPAN_BITMAP_WORDS,
            masked(old(self).base(), class as int, part@, span, word, mask),
            forall|k: int|
                0 <= k < part@.len() ==> old(self).live(#[trigger] part@[k] as int, class as int),
        ensures
            final(self).wf(),
            final(self).same_spans(old(self)),
            final(self).slab() == old(self).slab(),
            old(self).gained_all(final(self), class as int, part@),
    {
        let ghost before = *self;
        let ghost base = self.base();
        let ghost c = class as int;
        proof {
            assert forall|j: int| 0 <= j < 64 && #[trigger] bit(mask, j) implies is_obj(
                before.kind(),
                span as int,
                64 * word + j,
            ) && before.place()[span as int][64 * word + j] is Live by {
                let k = choose|k: int|
                    0 <= k < part@.len() && slot_index(base, #[trigger] part@[k] as int, c) == 64 * word
                        + j;
                assert(before.live(part@[k] as int, c));
            }
        }
        self.deposit_mask(span, word, mask);
        proof {
            assert forall|k: int| 0 <= k < part@.len() implies !self.live(#[trigger] part@[k] as int, c)
                && before.live(part@[k] as int, c) by {
                assert(before.live(part@[k] as int, c));
            }
            assert forall|b: int, d: int| #[trigger] before.live(b, d) <==> self.live(b, d) || (d == c
                && 0 <= b <= usize::MAX && part@.contains(b as usize)) by {
                assert(self.live(b, d) <==> before.live(b, d) && !(span_index(base, b) == span
                    && slot_index(base, b, d) / 64 == word && bit(mask, slot_index(base, b, d) % 64)));
                if before.live(b, d) && !self.live(b, d) {
                    let i = slot_index(base, b, d);
                    assert(64 * word + i % 64 == i);
                    let k = choose|k: int|
                        0 <= k < part@.len() && slot_index(base, #[trigger] part@[k] as int, c) == 64
                            * word + i % 64;
                    assert(before.live(part@[k] as int, c));
                    lemma_same_slot(base, before.kind(), part@[k] as int, c, b, d);
                    assert(part@[k] == b);
                }
                if d == c && 0 <= b <= usize::MAX && part@.contains(b as usize) {
                    let k = part@.index_of(b as usize);
                    assert(part@[k] == b as usize);
                    assert(before.live(part@[k] as int, c));
                }
            }
        }
    }

    /// Free a batch of distinct live objects of class `class`. Those homed on
    /// the thread's shard go to the CPU's stack one by one; the others' bits are
    /// gathered while they fall in one bitmap word and deposited together. The
    /// last span deposited to becomes the hint of its home shard's list.
    #[verifier::rlimit(60)]
    pub(crate) fn release_batch(&mut self, stack: &CpuStack, class: usize, addrs: &[usize], shard_id: u32)
        requires
            old(self).wf(),
            is_class(class as int),
            stack.fits(old(self).slab().cpus()),
            addrs@.no_duplicates(),
            forall|k: int|
                0 <= k < addrs@.len() ==> old(self).live(#[trigger] addrs@[k] as int, class as int),
        ensures
            final(self).wf(),
            old(self).gained_all(final(self), class as int, addrs@),
            final(self).same_runs(old(self)),
            final(self).grown(old(self)),
            final(self).same_uses(old(self)),
            final(self).slab_moved(old(self), stack.serving(&old(self).slab()), class as int),
            final(self).batch_freed(
                old(self),
                stack.serving(&old(self).slab()),
                class as int,
                addrs@,
                shard_id as int,
            ),
    {
        let ghost before = *self;
        let ghost c = class as int;
        let ghost cpu = stack.serving(&before.slab());
        let ghost base = before.base();
        let ghost st = before.slab().stack(cpu, c);
        let ghost stopped = before.slab().is_stopped_at(cpu);
        let mine: u32 = self.shard_of(shard_id);
        let mut cur_span: u32 = NO_SPAN;
        let mut cur_word: usize = 0;
        let mut cur_mask: u64 = 0;
        let ghost mut done: Seq<usize> = Seq::empty();
        let ghost mut pend: Seq<usize> = Seq::empty();
        let mut n: usize = 0;
        proof {
            before.slab().lemma_same_shape_refl();
            before.lemma_same_spans_refl();
            lemma_bit_zero(0);
            before.lemma_lens();
            assert(before.gained_all(&before, c, done));
            assert(masked(base, c, pend, cur_span, cur_word, 0));
            assert(addrs@.take(0) =~= Seq::<usize>::empty());
        }
        while n < addrs.len()
            invariant
                is_class(c),
                c == class,
                base == before.base(),
                before.wf(),
                self.wf(),
                n <= addrs@.len(),
                addrs@.no_duplicates(),
                forall|k: int| 0 <= k < addrs@.len() ==> before.live(#[trigger] addrs@[k] as int, c),
                stack.fits(self.slab().cpus()),
                stack.fits(before.slab().cpus()),
                cpu == stack.serving(&before.slab()),
                mine == shard_id as int % before.shards(),
                self.same_spans(&before),
                self.slab_moved(&before, cpu, c),
                before.gained_all(self, c, done),
                masked(base, c, pend, cur_span, cur_word, cur_mask),
                forall|x: usize|
                    (#[trigger] done.contains(x) || pend.contains(x)) <==> addrs@.take(n as int).contains(x),
                forall|k: int| 0 <= k < pend.len() ==> !done.contains(#[trigger] pend[k]),
                cur_mask != 0 <==> pend.len() > 0,
                cur_span == NO_SPAN ==> pend.len() == 0,
                cur_word < SPAN_BITMAP_WORDS,
                cur_span != NO_SPAN ==> cur_span < before.kind().len() && before.kind()[cur_span as int] is Tile
                    && before.kind()[cur_span as int]->class == c,
                st == before.slab().stack(cpu, c),
                stopped == before.slab().is_stopped_at(cpu),
                self.slab().stack(cpu, c) == (if stopped {
                    st
                } else {
                    before.freed_all(st, c, addrs@.take(n as int), shard_id as int)
                }),
                match before.last_remote(addrs@.take(n as int), shard_id as int) {
                    Some(p) => cur_span == span_index(base, p as int) && cur_span != NO_SPAN,
                    None => cur_span == NO_SPAN,
                },
            decreases addrs@.len() - n,
        {
            let p: usize = addrs[n];
            let ghost cur = *self;
            let ghost seen_before = addrs@.take(n as int);
            let ghost seen_after = addrs@.take(n + 1);
            proof {
                cur.slab().lemma_same_shape(&before.slab());
                stack.lemma_serving_same(&cur.slab(), &before.slab());
                assert(before.live(addrs@[n as int] as int, c));
                assert(!seen_before.contains(p)) by {
                    if seen_before.contains(p) {
                        let q = seen_before.index_of(p);
                        assert(addrs@[q] == addrs@[n as int]);
                    }
                }
                assert(!done.contains(p) && !pend.contains(p));
                assert(cur.live(p as int, c)) by {
                    assert(before.live(p as int, c) <==> cur.live(p as int, c) || (done.contains(p)));
                }
                assert forall|x: usize| #[trigger] seen_after.contains(x) <==> seen_before.contains(x) || x
                    == p by {
                    if seen_before.contains(x) {
                        let q = seen_before.index_of(x);
                        assert(seen_after[q] == x);
                    }
                    if x == p {
                        assert(seen_after[n as int] == x);
                    }
                    if seen_after.contains(x) {
                        let q = seen_after.index_of(x);
                        if q < n {
                            assert(seen_before[q] == x);
                        }
                    }
                }
                cur.slab().lemma_same_shape_refl();
                assert forall|k: int| 0 <= k < pend.len() implies cur.live(#[trigger] pend[k] as int, c) by {
                    assert(pend.contains(pend[k]));
                    assert(done.contains(pend[k]) || pend.contains(pend[k]));
                    let q = seen_before.index_of(pend[k]);
                    assert(addrs@[q] == pend[k]);
                    assert(before.live(addrs@[q] as int, c));
                }
            }
            proof {
                assert(seen_after.drop_last() =~= seen_before);
                assert(seen_after.last() == p);
                before.lemma_object_bounds(p as int, c);
                assert(cur.tag(span_index(base, p as int)) == before.tag(span_index(base, p as int)));
            }
            let home: u16 = self.home_of(p, class);
            if home == u16::MAX || self.shard_of(home as u32) == mine {
                match self.put_cached(stack, class, p) {
                    Fast::Done(_) => {},
                    Fast::NeedsSlow => {
                        self.drain(stack, class, p);
                    },
                }
                proof {
                    self.lemma_same_spans_trans(&cur, &before);
                    self.lemma_slab_moved(&cur, &before, cpu, c);
                    self.slab().lemma_same_shape(&before.slab());
                    cur.lemma_lost_one(self, c, p);
                    before.lemma_gained_compose(&cur, self, c, seq![p], done);
                    let d1 = seq![p] + done;
                    assert forall|x: usize| #[trigger] d1.contains(x) <==> x == p || done.contains(x) by {
                        lemma_contains_cons(p, done, x);
                    }
                    assert forall|x: usize| (#[trigger] d1.contains(x) || pend.contains(x))
                        <==> seen_after.contains(x) by {
                        assert(done.contains(x) || pend.contains(x) <==> seen_before.contains(x));
                    }
                    assert forall|k: int| 0 <= k < pend.len() implies !d1.contains(#[trigger] pend[k]) by {
                        assert(pend.contains(pend[k]));
                    }
                    done = d1;
                }
            } else {
                let (span, word, b) = self.locate(p, class);
                if span != cur_span || word != cur_word {
                    if cur_mask != 0 {
                        self.flush(cur_span, cur_word, cur_mask, class, Ghost(pend));
                        proof {
                            self.lemma_same_spans_trans(&cur, &before);
                            before.lemma_gained_compose(&cur, self, c, pend, done);
                            let d1 = pend + done;
                            assert forall|x: usize| #[trigger] d1.contains(x) <==> pend.contains(x)
                                || done.contains(x) by {
                                lemma_contains_add(pend, done, x);
                            }
                            assert forall|x: usize| (#[trigger] d1.contains(x)
                                || Seq::<usize>::empty().contains(x)) <==> seen_before.contains(x) by {
                                assert(done.contains(x) || pend.contains(x) <==> seen_before.contains(x));
                            }
                            done = d1;
                            pend = Seq::empty();
                        }
                    }
                    cur_span = span;
                    cur_word = word;
                    cur_mask = 0;
                    proof {
                        lemma_bit_zero(0);
                        assert(pend.len() == 0);
                        assert(pend =~= Seq::empty());
                        assert(masked(base, c, pend, cur_span, cur_word, 0));
                    }
                }
                let ghost mid = *self;
                let m: u64 = bit_mask(b);
                let ghost old_mask = cur_mask;
                cur_mask = cur_mask | m;
                proof {
                    lemma_bit_or_and(old_mask, m);
                    lemma_bit_zero(cur_mask);
                    assert(bit(cur_mask, b as int));
                    let p1 = pend.push(p);
                    let i = slot_index(base, p as int, c);
                    assert(i / 64 == cur_word && i % 64 == b);
                    assert(!pend.contains(p)) by {
                        assert(done.contains(p) || pend.contains(p) <==> seen_before.contains(p));
                    }
                    assert(masked(base, c, p1, cur_span, cur_word, cur_mask)) by {
                        assert forall|k: int| 0 <= k < p1.len() implies {
                            let i = slot_index(base, #[trigger] p1[k] as int, c);
                            &&& span_index(base, p1[k] as int) == cur_span
                            &&& 0 <= i
                            &&& i / 64 == cur_word
                            &&& bit(cur_mask, i % 64)
                        } by {
                            if k < pend.len() {
                                assert(p1[k] == pend[k]);
                                assert(bit(old_mask, slot_index(base, pend[k] as int, c) % 64));
                            }
                        }
                        assert forall|q: int| 0 <= q < 64 && #[trigger] bit(cur_mask, q) implies exists|k: int|
                            0 <= k < p1.len() && slot_index(base, #[trigger] p1[k] as int, c) == 64
                                * cur_word + q by {
                            if bit(old_mask, q) {
                                let k = choose|k: int|
                                    0 <= k < pend.len() && slot_index(base, #[trigger] pend[k] as int, c)
                                        == 64 * cur_word + q;
                                assert(p1[k] == pend[k]);
                            } else {
                                assert(q == b);
                                assert(p1[pend.len() as int] == p);
                            }
                        }
                    }
                    assert forall|x: usize| (#[trigger] done.contains(x) || p1.contains(x))
                        <==> seen_after.contains(x) by {
                        assert(done.contains(x) || pend.contains(x) <==> seen_before.contains(x));
                        lemma_contains_push(pend, p, x);
                    }
                    assert forall|k: int| 0 <= k < p1.len() implies !done.contains(#[trigger] p1[k]) by {
                        if k < pend.len() {
                            assert(p1[k] == pend[k]);
                        }
                    }
                    pend = p1;
                }
            }
            n = n + 1;
        }
        let ghost cur = *self;
        proof {
            assert(addrs@.take(n as int) =~= addrs@);
            assert forall|k: int| 0 <= k < pend.len() implies cur.live(#[trigger] pend[k] as int, c) by {
                assert(pend.contains(pend[k]));
                assert(done.contains(pend[k]) || pend.contains(pend[k]));
                let q = addrs@.index_of(pend[k]);
                assert(addrs@[q] == pend[k]);
                assert(before.live(addrs@[q] as int, c));
            }
        }
        if cur_mask != 0 {
            self.flush(cur_span, cur_word, cur_mask, class, Ghost(pend));
            proof {
                self.lemma_same_spans_trans(&cur, &before);
                before.lemma_gained_compose(&cur, self, c, pend, done);
                assert forall|x: usize| #[trigger] addrs@.contains(x) <==> (pend + done).contains(x) by {
                    lemma_contains_add(pend, done, x);
                    assert(done.contains(x) || pend.contains(x) <==> addrs@.contains(x));
                }
                before.lemma_gained_same(self, c, pend + done, addrs@);
            }
        } else {
            proof {
                assert forall|x: usize| #[trigger] addrs@.contains(x) <==> done.contains(x) by {
                    assert(done.contains(x) || pend.contains(x) <==> addrs@.contains(x));
                }
                before.lemma_gained_same(self, c, done, addrs@);
            }
        }
        let ghost last = *self;
        proof {
            assert forall|q: int| #[trigger] last.hint(q) == before.hint(q) by {}
        }
        if cur_span != NO_SPAN {
            let home: u32 = self.home_shard(cur_span);
            let j: usize = self.cell(home, class);
            self.set_hint(j, cur_span);
            proof {
                assert forall|b: int, d: int| #[trigger] self.live(b, d) <==> last.live(b, d) by {}
                before.lemma_lost_all_same(&last, self, c, addrs@);
                let p = before.last_remote(addrs@, shard_id as int).unwrap();
                let tag = before.tag(cur_span as int).unwrap().1 as int;
                assert(last.tag(cur_span as int) == before.tag(cur_span as int));
                assert(home == tag % before.shards());
                assert((tag % before.shards()) % before.shards() == tag % before.shards()) by {
                    vstd::arithmetic::div_mod::lemma_mod_twice(tag, before.shards());
                }
                assert(j == before.home_list(p as int, c));
                assert(span_index(before.base(), p as int) as u32 == cur_span);
            }
        }
    }

    pub(crate) proof fn lemma_same_spans_refl(&self)
        ensures
            self.same_spans(self),
    {
    }

    /// What was lost up to a heap was lost up to any other with the same live
    /// objects.
    proof fn lemma_lost_all_same(&self, last: &Heap, end: &Heap, c: int, part: Seq<usize>)
        requires
            self.gained_all(last, c, part),
            forall|b: int, d: int| #[trigger] end.live(b, d) <==> last.live(b, d),
        ensures
            self.gained_all(end, c, part),
    {
        assert forall|k: int| 0 <= k < part.len() implies !end.live(#[trigger] part[k] as int, c)
            && self.live(part[k] as int, c) by {
            assert(end.live(part[k] as int, c) <==> last.live(part[k] as int, c));
        }
        assert forall|b: int, d: int| #[trigger] self.live(b, d) <==> end.live(b, d) || (d == c && 0 <= b
            <= usize::MAX && part.contains(b as usize)) by {
            assert(end.live(b, d) <==> last.live(b, d));
        }
    }

    /// One object lost, as a batch of one.
    proof fn lemma_lost_one(&self, after: &Heap, c: int, a: usize)
        requires
            after.lost(self, a as int, c),
        ensures
            self.gained_all(after, c, seq![a]),
    {
        let part = seq![a];
        assert forall|b: int, d: int| #[trigger] self.live(b, d) <==> after.live(b, d) || (d == c && 0
            <= b <= usize::MAX && part.contains(b as usize)) by {
            assert(part[0] == a);
            if !(b == a && d == c) {
                assert(after.live(b, d) <==> self.live(b, d));
                if 0 <= b <= usize::MAX && part.contains(b as usize) {
                    assert(part.index_of(b as usize) == 0);
                }
            } else {
                assert(part.contains(a));
            }
        }
    }
}

proof fn lemma_contains_add(p: Seq<usize>, q: Seq<usize>, x: usize)
    ensures
        (p + q).contains(x) <==> p.contains(x) || q.contains(x),
{
    let pq = p + q;
    if p.contains(x) {
        assert(pq[p.index_of(x)] == x);
    }
    if q.contains(x) {
        assert(pq[p.len() + q.index_of(x)] == x);
    }
    if pq.contains(x) {
        let k = pq.index_of(x);
        if k < p.len() {
            assert(p[k] == x);
        } else {
            assert(q[k - p.len()] == x);
        }
    }
}

proof fn lemma_contains_cons(p: usize, q: Seq<usize>, x: usize)
    ensures
        (seq![p] + q).contains(x) <==> x == p || q.contains(x),
{
    lemma_contains_add(seq![p], q, x);
    assert(seq![p][0] == p);
    if seq![p].contains(x) {
        assert(seq![p].index_of(x) == 0);
    }
}

proof fn lemma_contains_push(p: Seq<usize>, a: usize, x: usize)
    ensures
        p.push(a).contains(x) <==> p.contains(x) || x == a,
{
    let q = p.push(a);
    if p.contains(x) {
        assert(q[p.index_of(x)] == x);
    }
    if x == a {
        assert(q[p.len() as int] == x);
    }
    if q.contains(x) {
        let k = q.index_of(x);
        if k < p.len() {
            assert(p[k] == x);
        }
    }
}

} // verus!
