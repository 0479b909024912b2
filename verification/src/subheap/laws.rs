//! What the sub-heap's operations are for, in terms of what callers ask for and get.
//!
//! A block that is handed out holds the bytes that were asked for and no more than
//! its class or its spans make unavoidable; a request is refused only where the
//! memory for it is really used up; and what was freed can be had again.

use vstd::prelude::*;
use crate::meta::lemma_spans_in;
use crate::rseq::abi::ThreadView;
use crate::sizeclass::{class_size, is_class, lemma_class_sizes, CLASS_SIZES};
use crate::subheap::flow::{freed_onto, stacked};
use crate::subheap::heap::{
    free_groups, fronted, fully_free, in_free_group, list_index, slot_is_free, unfree, Heap, Place,
    SpanKind,
};
use crate::subheap::tiling::{
    batch_of, carve_spans_of, group_of, lemma_batches, lemma_carve_spans, lemma_dense, lemma_locate,
    lemma_slot_fits, lemma_tiling, slots_of,
};
use crate::subheap::{spans_for, SubHeap};

verus! {

/// A run for `size` bytes has the fewest spans that hold them, and at least one.
pub proof fn lemma_spans_for(size: int)
    requires
        0 <= size,
    ensures
        spans_for(size) >= 1,
        spans_for(size) * 65536 >= size,
        (spans_for(size) - 1) * 65536 < size || spans_for(size) == 1,
        forall|n: int| n >= 1 && #[trigger] (n * 65536) >= size ==> spans_for(size) <= n,
{
    lemma_spans_in(size);
}

impl Heap {
    /// Whether the `n` spans from `s` on are carved, and none of them is in use.
    pub open spec fn loose_row(&self, s: int, n: int) -> bool {
        forall|t: int|
            s <= t < s + n ==> 0 <= t < self.carved() && (#[trigger] self.kind()[t]) is Loose
    }

    /// Free spans in a row are free in one run.
    pub proof fn lemma_loose_run(&self, s: int, n: int) -> (h: int)
        requires
            self.wf(),
            n >= 1,
            self.loose_row(s, n),
        ensures
            self.pool().is_head(h),
            h <= s,
            s + n <= h + self.pool().run_at(h),
        decreases n,
    {
        self.lemma_pool();
        let last = s + n - 1;
        assert(self.kind()[last] is Loose);
        assert(self.pool().covers(last));
        let g = choose|g: int| self.pool().in_run(g, last);
        if n == 1 {
            g
        } else {
            let h = self.lemma_loose_run(s, n - 1);
            if h < g {
                self.pool().lemma_runs_apart(h, g);
            }
            if g < h {
                self.pool().lemma_runs_apart(g, h);
            }
            h
        }
    }

    /// The pool can serve `n` spans in a row exactly where as many carved ones in a
    /// row are not in use.
    pub proof fn lemma_pooled(&self, n: int)
        requires
            self.wf(),
            n >= 1,
        ensures
            self.pooled(n) <==> exists|s: int| self.loose_row(s, n),
    {
        self.lemma_pool();
        self.pool().lemma_first_run(n);
        if exists|s: int| self.loose_row(s, n) {
            let s = choose|s: int| self.loose_row(s, n);
            let h = self.lemma_loose_run(s, n);
            assert(self.pool().run_at(h) >= n);
        }
        if self.pooled(n) {
            let h = choose|h: int| self.pool().is_head(h) && !(self.pool().run_at(h) < n);
            self.pool().lemma_run_inside(h);
            assert forall|t: int| h <= t < h + n implies 0 <= t < self.carved() && (
            #[trigger] self.kind()[t]) is Loose by {
                assert(self.pool().covers(t));
            }
            assert(self.loose_row(h, n));
        }
    }

    /// `n` spans in a row can be had exactly where as many carved ones in a row are
    /// not in use, or where the arena has as many bytes left.
    pub proof fn lemma_run_available(&self, n: int)
        requires
            self.wf(),
            n >= 1,
        ensures
            self.run_available(n) <==> (self.carved() + n) * 65536 <= self.size() || exists|s: int|
                self.loose_row(s, n),
    {
        self.lemma_pooled(n);
        self.lemma_pool();
        self.arena().lemma_carved();
    }

    /// A refill of a class of at most a span obtains new ones wherever the arena has a
    /// whole span left, or a row of carved ones that holds a batch is not in use; it
    /// obtains none where every span is in use.
    pub proof fn lemma_can_carve(&self, c: int, s: int, n: int)
        requires
            self.wf(),
            is_class(c),
            CLASS_SIZES@[c] <= 65536,
        ensures
            (self.carved() + 1) * 65536 <= self.size() ==> self.can_carve(c),
            n >= 1 && self.loose_row(s, n) && n * (65536int / CLASS_SIZES@[c] as int) >= batch_of(c)
                ==> self.can_carve(c),
            self.can_carve(c) ==> (self.carved() + 1) * 65536 <= self.size() || exists|t: int|
                self.loose_row(t, 1),
    {
        lemma_class_sizes();
        lemma_tiling(c);
        lemma_dense(c);
        lemma_carve_spans(c);
        self.lemma_pool();
        self.arena().lemma_carved();
        let k = carve_spans_of(c);
        let z = class_size(c);
        self.lemma_pooled(k);
        if self.pooled(k) {
            let t = choose|t: int| self.loose_row(t, k);
            assert(self.loose_row(t, 1));
        }
        let q = slots_of(c);
        if n >= 1 && self.loose_row(s, n) && n * (65536int / z) >= batch_of(c) {
            assert(k <= n) by (nonlinear_arith)
                requires
                    (k - 1) * q < batch_of(c),
                    n * q >= batch_of(c),
                    q >= 1,
            ;
            assert(self.loose_row(s, k));
        }
    }

    /// A refill of a class of more than a span obtains a new object exactly where the
    /// fewest spans that hold it are left in the arena, or are carved, in a row and
    /// not in use.
    pub proof fn lemma_can_carve_group(&self, c: int, n: int)
        requires
            self.wf(),
            is_class(c),
            CLASS_SIZES@[c] > 65536,
            (n - 1) * 65536 < CLASS_SIZES@[c] <= n * 65536,
        ensures
            self.can_carve(c) <==> (self.carved() + n) * 65536 <= self.size() || exists|s: int|
                self.loose_row(s, n),
    {
        lemma_class_sizes();
        lemma_dense(c);
        self.lemma_run_available(group_of(c));
    }

    /// Where the refill order of a list is empty, no object of that class is free in
    /// any span of the list: every place in the span that an object fits is taken.
    pub proof fn lemma_none_free(&self, shard: int, c: int, s: int, i: int)
        requires
            self.wf(),
            is_class(c),
            0 <= s < self.kind().len(),
            self.kind()[s] == (SpanKind::Tile { class: c, shard }),
            self.take_order(shard * 49 + c, c).len() == 0,
            0 <= i,
            CLASS_SIZES@[c] <= 65536 ==> (i + 1) * CLASS_SIZES@[c] <= 65536,
            CLASS_SIZES@[c] > 65536 ==> i == 0,
        ensures
            self.is_object(self.base() + s * 65536 + i * CLASS_SIZES@[c], c),
            self.place()[s][i] !is Free,
    {
        lemma_tiling(c);
        lemma_slot_fits(c, i);
        lemma_locate(self.base(), s, i, c);
        self.lemma_lens();
        self.lemma_pool();
        self.pool().lemma_stack_count();
        self.lemma_listed(s);
        assert(list_index(shard, c) == shard * 49 + c);
        if self.place()[s][i] is Free {
            assert(slot_is_free(self.kind(), self.place(), s, i));
            self.lemma_in_order(shard * 49 + c, c, s, i);
        }
    }
}

impl SubHeap {
    /// A large request is refused only where no row of free spans holds it and the
    /// budget that is left does not either.
    pub proof fn lemma_large_refused(&self, size: int)
        requires
            self.wf(),
            0 <= size,
            !self.heap().run_available(spans_for(size)),
        ensures
            forall|s: int, n: int|
                n >= 1 && n * 65536 >= size ==> !(#[trigger] self.heap().loose_row(s, n)) && (
                self.heap().carved() + n) * 65536 > self.budget(),
    {
        self.lemma_parts();
        lemma_spans_for(size);
        let m = spans_for(size);
        self.heap().lemma_run_available(m);
        assert forall|s: int, n: int| n >= 1 && n * 65536 >= size implies !(
        #[trigger] self.heap().loose_row(s, n)) && (self.heap().carved() + n) * 65536
            > self.budget() by {
            assert(m <= n);
            if self.heap().loose_row(s, n) {
                assert(self.heap().loose_row(s, m));
            }
        }
    }

    /// A large request that is served has as many spans as hold its bytes, and no more than
    /// that takes; they were nobody's, are accounted for in full, and lie inside the budget.
    pub proof fn lemma_large_served(&self, before: &SubHeap, a: int, size: int) -> (n: int)
        requires
            self.wf(),
            before.wf(),
            0 <= size,
            self.run_gained(before, a, spans_for(size)),
        ensures
            self.live_run(a, n),
            !before.live_run(a, n),
            n >= 1,
            n * 65536 >= size,
            (n - 1) * 65536 < size || n == 1,
            self.meter_bytes() == before.meter_bytes() + n * 65536,
            self.heap().base() <= a,
            a + size <= self.heap().base() + self.budget(),
    {
        lemma_spans_for(size);
        let n = spans_for(size);
        assert(self.live_run(a, n));
        self.lemma_live_run(a, n);
        n
    }

    /// Where nothing is left for a refill, no place for an object is free in a span
    /// that the thread's shard tiles with the class, and no new span can be had, from
    /// the budget or from the spans that are not in use.
    pub proof fn lemma_used_up(&self, seen: ThreadView, c: int, s: int, i: int)
        requires
            self.wf(),
            is_class(c),
            self.refill_order(seen, c).len() == 0,
            !self.heap().can_carve(c),
        ensures
            CLASS_SIZES@[c] <= 65536 ==> (self.heap().carved() + 1) * 65536 > self.budget(),
            CLASS_SIZES@[c] <= 65536 && 0 <= s < self.heap().kind().len() && self.heap().kind()[s]
                == (SpanKind::Tile { class: c, shard: seen.shard_id as int % self.heap().shards() })
                && 0 <= i && (i + 1) * CLASS_SIZES@[c] <= 65536 ==> self.heap().place()[s][i] !is Free,
            CLASS_SIZES@[c] <= 65536 && i >= 1 && i * (65536int / CLASS_SIZES@[c] as int) >= batch_of(
                c,
            ) ==> !self.heap().loose_row(s, i),
            CLASS_SIZES@[c] > 65536 && i * 65536 >= CLASS_SIZES@[c] ==> !self.heap().loose_row(s, i)
                && (self.heap().carved() + i) * 65536 > self.budget(),
            CLASS_SIZES@[c] > 65536 && 0 <= s < self.heap().kind().len() && self.heap().kind()[s]
                == (SpanKind::Tile { class: c, shard: seen.shard_id as int % self.heap().shards() })
                ==> self.heap().place()[s][0] !is Free,
    {
        self.lemma_parts();
        let h = self.heap();
        let shard = seen.shard_id as int % h.shards();
        if 0 <= s < h.kind().len() && h.kind()[s] == (SpanKind::Tile { class: c, shard }) {
            if CLASS_SIZES@[c] > 65536 {
                h.lemma_none_free(shard, c, s, 0);
            } else if 0 <= i && (i + 1) * CLASS_SIZES@[c] <= 65536 {
                h.lemma_none_free(shard, c, s, i);
            }
        }
        if CLASS_SIZES@[c] <= 65536 {
            h.lemma_can_carve(c, s, i);
        } else {
            lemma_class_sizes();
            lemma_dense(c);
            h.lemma_can_carve_group(c, group_of(c));
            if i * 65536 >= CLASS_SIZES@[c] && h.loose_row(s, i) {
                assert(h.loose_row(s, group_of(c)));
            }
        }
    }

    /// An object is refused only where none is left for the thread: its CPU caches
    /// none of the class, none is free in its shard's spans, and the budget has no
    /// room for a new one.
    pub proof fn lemma_object_refused(&self, after: &SubHeap, seen: ThreadView, c: int, s: int, i: int)
        requires
            self.wf(),
            is_class(c),
            after.object_served(self, seen, c, None),
        ensures
            self.cached(seen, c).len() == 0,
            i >= 1 && i * 65536 >= CLASS_SIZES@[c] ==> (self.heap().carved() + i) * 65536
                > self.budget(),
            0 <= s < self.heap().kind().len() && self.heap().kind()[s] == (SpanKind::Tile {
                class: c,
                shard: seen.shard_id as int % self.heap().shards(),
            }) ==> self.heap().place()[s][0] !is Free,
    {
        lemma_class_sizes();
        self.lemma_used_up(seen, c, s, i);
        self.lemma_used_up(seen, c, s, 0);
    }
}

/// What is pushed onto a stack lies on top of what it held, in order, until nothing is
/// left to push or the stack is full.
pub proof fn lemma_stacked(st: Seq<usize>, cap: int, items: Seq<usize>)
    requires
        st.len() <= cap,
    ensures
        ({
            let r = stacked(st, cap, items);
            &&& st.len() <= r.len() <= cap
            &&& r.len() == cap || r.len() == st.len() + items.len()
            &&& r.len() <= st.len() + items.len()
            &&& forall|k: int| 0 <= k < st.len() ==> #[trigger] r[k] == st[k]
            &&& forall|k: int| st.len() <= k < r.len() ==> #[trigger] r[k] == items[k - st.len()]
        }),
{
}

/// What is freed onto a stack lies on top of what is left of it. A stack with room loses
/// nothing; a full one loses half a batch from its top, at least one and at most all.
pub proof fn lemma_freed_onto(st: Seq<usize>, cap: int, batch: int, addr: usize)
    requires
        1 <= cap,
        st.len() <= cap,
        0 <= batch,
    ensures
        ({
            let r = freed_onto(st, cap, batch, addr);
            let gone = st.len() + 1 - r.len();
            &&& 1 <= r.len() <= cap
            &&& r.last() == addr
            &&& forall|k: int| 0 <= k < r.len() - 1 ==> #[trigger] r[k] == st[k]
            &&& st.len() < cap ==> gone == 0
            &&& st.len() == cap ==> {
                &&& 1 <= gone <= cap
                &&& 2 * gone <= batch || gone == 1
                &&& 2 * (gone + 1) > batch || gone == cap
            }
        }),
{
}

impl Heap {
    /// A free is local exactly where the shard that the span is homed on and the thread's
    /// differ by a multiple of the number of shards, or the span has no home.
    pub proof fn lemma_is_local(&self, a: int, shard_id: int)
        requires
            self.shards() >= 1,
        ensures
            ({
                let home = self.tag((a - self.base()) / 65536).unwrap().1;
                self.is_local(a, shard_id) <==> home == 65535 || (home - shard_id) % self.shards()
                    == 0
            }),
    {
        let home = self.tag((a - self.base()) / 65536).unwrap().1 as int;
        vstd::arithmetic::div_mod::lemma_mod_equivalence(home, shard_id, self.shards());
    }

    /// A batch that is freed onto a stack with room for it lies on top of what it held,
    /// just its local objects, in order. The stack never exceeds its capacity, and holds
    /// nothing but what was there and local objects of the batch.
    pub proof fn lemma_freed_all(&self, st: Seq<usize>, c: int, addrs: Seq<usize>, shard_id: int)
        requires
            st.len() <= self.slab().cap(c),
            1 <= self.slab().cap(c),
            is_class(c),
        ensures
            ({
                let r = self.freed_all(st, c, addrs, shard_id);
                let local = addrs.filter(|a: usize| self.is_local(a as int, shard_id));
                &&& r.len() <= self.slab().cap(c)
                &&& st.len() + local.len() <= self.slab().cap(c) ==> r == st + local
                &&& forall|k: int|
                    0 <= k < r.len() ==> st.contains(#[trigger] r[k]) || local.contains(r[k])
                &&& local.len() > 0 ==> r.len() > 0 && r.last() == local.last()
            }),
        decreases addrs.len(),
    {
        reveal(Seq::filter);
        let pred = |a: usize| self.is_local(a as int, shard_id);
        if addrs.len() == 0 {
            assert(st + addrs.filter(pred) =~= st);
        } else {
            let rest = addrs.drop_last();
            self.lemma_freed_all(st, c, rest, shard_id);
            let t = self.freed_all(st, c, rest, shard_id);
            let before = rest.filter(pred);
            let local = addrs.filter(pred);
            let r = self.freed_all(st, c, addrs, shard_id);
            if pred(addrs.last()) {
                assert(local == before.push(addrs.last()));
                lemma_batches(c, c, 0);
                lemma_freed_onto(t, self.slab().cap(c), batch_of(c), addrs.last());
                if st.len() + local.len() <= self.slab().cap(c) {
                    assert(r =~= st + local);
                }
                assert forall|k: int| 0 <= k < r.len() implies st.contains(#[trigger] r[k])
                    || local.contains(r[k]) by {
                    if k < r.len() - 1 {
                        assert(r[k] == t[k]);
                        if !st.contains(t[k]) {
                            let j = choose|j: int| 0 <= j < before.len() && before[j] == t[k];
                            assert(local[j] == r[k]);
                        }
                    } else {
                        assert(local[local.len() - 1] == r[k]);
                    }
                }
            }
        }
    }

    /// The last object of a batch that is not local: everything behind it is, and where
    /// there is none, all of the batch is.
    pub proof fn lemma_last_remote(&self, addrs: Seq<usize>, shard_id: int) -> (k: int)
        ensures
            self.last_remote(addrs, shard_id) matches Some(p) ==> {
                &&& 0 <= k < addrs.len()
                &&& addrs[k] == p
                &&& !self.is_local(p as int, shard_id)
                &&& forall|i: int|
                    k < i < addrs.len() ==> self.is_local(#[trigger] addrs[i] as int, shard_id)
            },
            self.last_remote(addrs, shard_id) is None ==> forall|i: int|
                0 <= i < addrs.len() ==> self.is_local(#[trigger] addrs[i] as int, shard_id),
        decreases addrs.len(),
    {
        if addrs.len() > 0 && self.is_local(addrs.last() as int, shard_id) {
            let rest = addrs.drop_last();
            let k = self.lemma_last_remote(rest, shard_id);
            assert forall|i: int| 0 <= i < rest.len() implies #[trigger] addrs[i] == rest[i] by {}
            k
        } else {
            addrs.len() - 1
        }
    }

    /// A refill of an empty stack leaves on it the objects that follow the one it served,
    /// the rest of a batch, as far as there are any and the stack holds them.
    pub proof fn lemma_refilled(&self, other: &Heap, cpu: int, c: int, order: Seq<usize>)
        requires
            is_class(c),
            self.refilled(other, cpu, c, order),
            order.len() > 0,
            !other.slab().is_stopped_at(cpu),
            other.slab().stack(cpu, c).len() == 0,
            other.slab().cap(c) >= 0,
        ensures
            ({
                let st = self.slab().stack(cpu, c);
                &&& st.len() <= other.slab().cap(c)
                &&& st.len() < order.len()
                &&& st.len() < batch_of(c)
                &&& st.len() == other.slab().cap(c) || st.len() == order.len() - 1 || st.len()
                    == batch_of(c) - 1
                &&& forall|k: int| 0 <= k < st.len() ==> #[trigger] st[k] == order[k + 1]
            }),
    {
        lemma_batches(c, c, 0);
        let m = if batch_of(c) < order.len() {
            batch_of(c)
        } else {
            order.len() as int
        };
        lemma_stacked(other.slab().stack(cpu, c), other.slab().cap(c), order.subrange(1, m));
    }
}

impl Heap {
    /// A tiled span is fully free exactly where every place in it that an object fits is
    /// free.
    pub proof fn lemma_fully_free(&self, s: int)
        requires
            self.wf(),
            0 <= s < self.kind().len(),
            self.kind()[s] is Tile,
        ensures
            CLASS_SIZES@[self.kind()[s]->class] <= 65536 ==> (fully_free(self.kind(), self.place(), s)
                <==> forall|i: int|
                0 <= i && (i + 1) * CLASS_SIZES@[self.kind()[s]->class] <= 65536 ==> (
                #[trigger] self.place()[s][i]) is Free),
            CLASS_SIZES@[self.kind()[s]->class] > 65536 ==> (fully_free(self.kind(), self.place(), s)
                <==> self.place()[s][0] is Free),
    {
        self.lemma_listed(s);
        let c = self.kind()[s]->class;
        lemma_dense(c);
        if CLASS_SIZES@[c] <= 65536 {
            if fully_free(self.kind(), self.place(), s) {
                assert forall|i: int|
                    0 <= i && (i + 1) * CLASS_SIZES@[c] <= 65536 implies (
                #[trigger] self.place()[s][i]) is Free by {
                    lemma_slot_fits(c, i);
                }
            }
            if forall|i: int|
                0 <= i && (i + 1) * CLASS_SIZES@[c] <= 65536 ==> (
                #[trigger] self.place()[s][i]) is Free {
                assert forall|i: int| 0 <= i < slots_of(c) implies (
                #[trigger] self.place()[s][i]) is Free by {
                    lemma_slot_fits(c, i);
                }
            }
        }
    }

    /// A sweep gives back a tiled span, and what belongs to its group, where every place
    /// in it is free; one with a place that is not keeps its use, and so does every span
    /// that is not tiled.
    pub proof fn lemma_swept_span(&self, before: &Heap, s: int, i: int)
        requires
            before.wf(),
            self.reclaimed(before),
            0 <= s < before.kind().len(),
        ensures
            before.kind()[s] is Tile && CLASS_SIZES@[before.kind()[s]->class] <= 65536 && 0 <= i && (i
                + 1) * CLASS_SIZES@[before.kind()[s]->class] <= 65536 && before.place()[s][i] !is Free
                ==> self.kind()[s] == before.kind()[s],
            before.kind()[s] is Tile && before.place()[s][0] !is Free ==> self.kind()[s]
                == before.kind()[s],
            before.kind()[s] is Tile && CLASS_SIZES@[before.kind()[s]->class] <= 65536 && (forall|k: int|
                0 <= k && (k + 1) * CLASS_SIZES@[before.kind()[s]->class] <= 65536 ==> (
                #[trigger] before.place()[s][k]) is Free) ==> self.kind()[s] is Loose
                && self.pool().covers(s),
            before.kind()[s] is Tile && CLASS_SIZES@[before.kind()[s]->class] > 65536
                && before.place()[s][0] is Free ==> self.kind()[s] is Loose && self.pool().covers(s),
            before.kind()[s] is Big ==> self.kind()[s] == before.kind()[s],
            before.kind()[s] matches SpanKind::Tail { head } ==> (self.kind()[head]
                == before.kind()[head] ==> self.kind()[s] == before.kind()[s]) && (before.kind()[head] is Tile
                && self.kind()[head] is Loose ==> self.kind()[s] is Loose && self.pool().covers(s)),
    {
        before.lemma_lens();
        assert(in_free_group(before.kind(), before.place(), s) || !in_free_group(
            before.kind(),
            before.place(),
            s,
        ));
        if before.kind()[s] is Tile {
            before.lemma_fully_free(s);
            before.lemma_listed(s);
            lemma_tiling(before.kind()[s]->class);
        }
        if let SpanKind::Tail { head } = before.kind()[s] {
            before.lemma_tail(s);
        }
    }

    /// Where new spans are put to use for a class of at most a span, there are as many as
    /// a batch fills, or all that the arena has left, and at least one.
    pub proof fn lemma_groups_had(&self, c: int)
        requires
            self.wf(),
            is_class(c),
            CLASS_SIZES@[c] <= 65536,
            self.can_carve(c),
        ensures
            ({
                let n = self.groups_had(c);
                let per_span = 65536int / CLASS_SIZES@[c] as int;
                &&& n >= 1
                &&& (n - 1) * per_span < batch_of(c)
                &&& n * per_span >= batch_of(c) || (self.carved() + n) * 65536 <= self.size() < (
                self.carved() + n + 1) * 65536
            }),
    {
        lemma_tiling(c);
        lemma_dense(c);
        lemma_carve_spans(c);
        self.lemma_pool();
        self.arena().lemma_carved();
        let q = slots_of(c);
        let k = carve_spans_of(c);
        let n = self.groups_had(c);
        assert((n - 1) * q <= (k - 1) * q) by (nonlinear_arith)
            requires
                n <= k,
                q >= 1,
        ;
    }

    /// A run is served from the start of the shortest free one that is long enough; where
    /// there is none, from the first span that was never carved.
    pub proof fn lemma_run_start(&self, n: int)
        requires
            self.wf(),
            n >= 1,
        ensures
            self.pooled(n) ==> {
                let h = self.run_start(n);
                &&& self.pool().is_head(h)
                &&& self.loose_row(h, n)
                &&& self.pool().run_at(h) >= n
                &&& forall|g: int| #[trigger]
                    self.pool().is_head(g) && self.pool().run_at(g) >= n ==> self.pool().run_at(h)
                        <= self.pool().run_at(g)
            },
            !self.pooled(n) ==> self.run_start(n) == self.carved(),
    {
        self.lemma_pool();
        self.pool().lemma_first_run(n);
        crate::spanpool::lemma_first_nonempty(self.pool().stacks(), n);
        if let Some(m) = crate::spanpool::first_nonempty(self.pool().stacks(), n) {
            let h = self.pool().stacks()[m][0];
            assert(self.pool().stacks()[m].contains(h));
            self.pool().lemma_stacks_hold_runs(h, m);
            self.pool().lemma_run_inside(h as int);
            assert forall|t: int| h <= t < h + n implies 0 <= t < self.carved() && (
            #[trigger] self.kind()[t]) is Loose by {
                assert(self.pool().covers(t));
            }
        }
    }
}

impl Heap {
    /// The objects of a tiled span lie side by side from its start, each its class's size
    /// after the one before, as many as the span holds; and one is live exactly where its
    /// place says so.
    pub proof fn lemma_object_at(&self, s: int, i: int)
        requires
            self.wf(),
            0 <= s < self.kind().len(),
            self.kind()[s] is Tile,
            0 <= i,
        ensures
            ({
                let c = self.kind()[s]->class;
                let a = self.base() + s * 65536 + i * CLASS_SIZES@[c];
                (i + 1) * CLASS_SIZES@[c] <= 65536 || i == 0 ==> {
                    &&& self.is_object(a, c)
                    &&& self.live(a, c) <==> self.place()[s][i] is Live
                }
            }),
    {
        self.lemma_listed(s);
        let c = self.kind()[s]->class;
        lemma_tiling(c);
        let z = class_size(c);
        if (i + 1) * z <= 65536 || i == 0 {
            if z > 65536 {
                assert(i == 0) by (nonlinear_arith)
                    requires
                        (i + 1) * z <= 65536 || i == 0,
                        z > 65536,
                        0 <= i,
                ;
            } else {
                lemma_slot_fits(c, i);
            }
            self.lemma_lens();
            self.lemma_pool();
            lemma_locate(self.base(), s, i, c);
        }
    }
}

/// Spans that are put on a list come first on it, the last one first, and what was there
/// follows.
pub proof fn lemma_fronted(l: Seq<u32>, lo: int, n: int)
    requires
        0 <= lo,
        0 <= n,
        lo + n <= u32::MAX,
    ensures
        fronted(l, lo, n).len() == n + l.len(),
        forall|k: int|
            0 <= k < n ==> #[trigger] fronted(l, lo, n)[k] == lo + n - 1 - k,
        forall|k: int|
            0 <= k < l.len() ==> #[trigger] fronted(l, lo, n)[n + k] == l[k],
{
}

/// A list that was swept keeps just the spans that are not fully free, in order.
pub proof fn lemma_unfree(kind: Seq<SpanKind>, place: Seq<Seq<Place>>, l: Seq<u32>)
    ensures
        unfree(kind, place, l) == l.filter(
            |s: u32| !fully_free(kind, place, s as int),
        ),
    decreases l.len(),
{
    reveal(Seq::filter);
    if l.len() > 0 {
        lemma_unfree(kind, place, l.drop_last());
    }
}

impl Heap {
    /// A refill scans the hinted span first exactly where that is tagged with the class, and
    /// a span holds at most 64 objects of it.
    pub proof fn lemma_hinted(&self, j: int, c: int, h: u32)
        requires
            is_class(c),
        ensures
            self.hinted(j, c) == Some(h) <==> h == self.hint(j) && h != u32::MAX && (self.tag(
                h as int,
            ) matches Some(t) && t.0 == c) && 65 * CLASS_SIZES@[c] > 65536,
    {
        lemma_tiling(c);
        lemma_dense(c);
        lemma_class_sizes();
        if CLASS_SIZES@[c] <= 65536 {
            lemma_slot_fits(c, 64);
        }
    }

    /// Of the spans that are newly put to use, the one whose first object is handed out is
    /// the hinted one, for a class with at most 64 objects to a span, and else the last.
    pub proof fn lemma_carve_pick(&self, j: int, c: int)
        requires
            self.wf(),
            is_class(c),
            self.groups_had(c) >= 1,
        ensures
            ({
                let lo = self.run_start(carve_spans_of(c));
                let n = self.groups_had(c);
                &&& lo <= self.carve_pick(j, c) < lo + n
                &&& self.carve_pick(j, c) == lo + n - 1 || self.carve_pick(j, c) == self.hint(j)
                &&& 64 * CLASS_SIZES@[c] < 65536 - CLASS_SIZES@[c] ==> self.carve_pick(j, c) == lo + n
                    - 1
                &&& !(lo <= self.hint(j) < lo + n) ==> self.carve_pick(j, c) == lo + n - 1
            }),
    {
        lemma_tiling(c);
        lemma_dense(c);
        let z = class_size(c);
        if 64 * z < 65536 - z {
            lemma_slot_fits(c, 64);
        }
    }
}

/// The groups that are counted as fully free are just those that are.
pub proof fn lemma_free_groups(kind: Seq<SpanKind>, place: Seq<Seq<Place>>, n: nat)
    ensures
        free_groups(kind, place, n as int) == Seq::new(n, |s: int| s).filter(
            |s: int| fully_free(kind, place, s),
        ).len(),
    decreases n,
{
    reveal(Seq::filter);
    if n > 0 {
        let m = (n - 1) as nat;
        lemma_free_groups(kind, place, m);
        assert(Seq::new(n, |s: int| s).drop_last() =~= Seq::new(m, |s: int| s));
    }
}

} // verus!
