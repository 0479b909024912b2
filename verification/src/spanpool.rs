//! `SpanPool`: an address-coalescing free-run index over the span grid.
//!
//! The large allocator carves whole-span runs from the bump arena and, on free,
//! must be able to recycle them for *any* span-count, not only the exact count
//! originally requested. `SpanPool` is a segregated-fit free-run index that
//! coalesces address-adjacent free runs and splits a larger run to serve a
//! smaller request, all in bounded time.
//!
//! Buckets are indexed by the exact span-count: bucket `c` holds every free run
//! of exactly `c` spans, most recently filed first. A two-level bitmap finds the
//! lowest non-empty bucket at or above a count, so an exact request is served
//! with no split, and only a drifting size falls through to the next larger
//! bucket and splits it.
//!
//! Each free run records its count at both its head span and its tail span, plus
//! a doubly-linked stack per bucket keyed at the head. On free of `[h, h + c)`
//! the right neighbour is a free-run head at `h + c`, and the left neighbour a
//! free-run tail at `h - 1`. Each side merges at most once, because runs are
//! always coalesced on insertion and so no two free runs are ever adjacent.

use vstd::prelude::*;
use crate::bits::{
    bit, bit_mask, lemma_bit_not, lemma_bit_or_and, lemma_bit_zero, lowest_bit, mask_from,
};
use crate::meta::NO_SPAN;
use crate::sys::SysBoxSlice;

verus! {

/// The lowest index at or above `c` whose stack holds a run, if any.
pub open spec fn first_nonempty(stacks: Seq<Seq<u32>>, c: int) -> Option<int>
    decreases stacks.len() - c,
{
    if c >= stacks.len() {
        None
    } else if stacks[c].len() > 0 {
        Some(c)
    } else {
        first_nonempty(stacks, c + 1)
    }
}

/// The stacks after run `[head, head + count)` is filed on top of its bucket.
pub open spec fn filed(stacks: Seq<Seq<u32>>, head: u32, count: int) -> Seq<Seq<u32>> {
    stacks.update(count, seq![head] + stacks[count])
}

/// The stacks after run `[head, head + count)` leaves its bucket, from wherever
/// in it the run stands.
pub open spec fn removed(stacks: Seq<Seq<u32>>, head: u32, count: int) -> Seq<Seq<u32>> {
    stacks.update(count, stacks[count].remove(stacks[count].index_of(head)))
}

/// The stacks after `n` spans are served from the top run of bucket `m >= n`: the
/// run leaves its bucket, and what is left of it past its first `n` spans is
/// filed as a run of its own.
pub open spec fn served(stacks: Seq<Seq<u32>>, n: int, m: int) -> Seq<Seq<u32>> {
    let head = stacks[m][0];
    let rest = stacks.update(m, stacks[m].drop_first());
    if m > n {
        filed(rest, (head + n) as u32, m - n)
    } else {
        rest
    }
}

/// Whether bit `k` of a sequence of words is set.
spec fn bit_in(ws: Seq<u64>, k: int) -> bool {
    bit(ws[k / 64], k % 64)
}

/// `l1` summarises `l0`, word by word.
spec fn summarised(l0: Seq<u64>, l1: Seq<u64>) -> bool {
    &&& l1.len() == (l0.len() + 63) / 64
    &&& forall|w: int|
        0 <= w < 64 * l1.len() ==> #[trigger] bit_in(l1, w) == (w < l0.len() && l0[w] != 0)
}

/// A segregated-fit, address-coalescing index of free span-runs over
/// `[0, num_spans)`.
pub struct SpanPool {
    num_spans: u32,
    /// `bucket_head[c]`: head of the most recently filed run of exactly `c`
    /// spans (`NO_SPAN` = none). Index 0 is unused.
    bucket_head: SysBoxSlice<u32>,
    /// At a free-run head: next and previous run in the same bucket.
    next: SysBoxSlice<u32>,
    prev: SysBoxSlice<u32>,
    /// Boundary tags: the run's count at its head and at its tail; 0 elsewhere.
    head_count: SysBoxSlice<u32>,
    tail_count: SysBoxSlice<u32>,
    /// Occupancy: `l0` bit `c` iff bucket `c` is non-empty; `l1` bit `i` iff
    /// `l0[i] != 0`.
    l0: SysBoxSlice<u64>,
    l1: SysBoxSlice<u64>,
    /// The bucket stacks, top first.
    stacks: Ghost<Seq<Seq<u32>>>,
}

impl SpanPool {
    /// Number of spans the pool covers.
    pub closed spec fn span_count(&self) -> int {
        self.num_spans as int
    }

    /// For each span-count, the heads of the free runs of that count, most
    /// recently filed first. Index 0 is always empty.
    pub closed spec fn stacks(&self) -> Seq<Seq<u32>> {
        self.stacks@
    }

    /// The count of the free run headed at `h`, or 0 where none is.
    pub closed spec fn run_at(&self, h: int) -> int {
        self.head_count@[h] as int
    }

    /// The count of the free run that ends just before span `h`, or 0 where none
    /// does.
    pub closed spec fn run_before(&self, h: int) -> int {
        if 0 < h <= self.num_spans {
            self.tail_count@[h - 1] as int
        } else {
            0
        }
    }

    /// The first `n` spans of `other`'s run at `head` are gone from it: what is left
    /// of it is a run of its own, and every other run is as it was.
    pub open spec fn run_split(&self, other: &SpanPool, head: int, n: int) -> bool {
        &&& !self.is_head(head)
        &&& other.run_at(head) > n ==> self.is_head(head + n) && self.run_at(head + n)
            == other.run_at(head) - n
        &&& forall|h: int|
            h != head && !(h == head + n && other.run_at(head) > n) ==> #[trigger] self.is_head(h)
                == other.is_head(h) && (self.is_head(h) ==> self.run_at(h) == other.run_at(h))
    }

    /// The run `[head, head + count)` and the runs of `other` that touch it have
    /// become one run, and every other run is as it was.
    pub open spec fn run_merged(&self, other: &SpanPool, head: int, count: int) -> bool {
        let left = other.run_before(head);
        let right = if other.is_head(head + count) {
            other.run_at(head + count)
        } else {
            0
        };
        &&& self.is_head(head - left)
        &&& self.run_at(head - left) == left + count + right
        &&& !self.is_head(head + count)
        &&& forall|h: int|
            h != head - left && h != head + count ==> #[trigger] self.is_head(h) == other.is_head(h)
                && (self.is_head(h) ==> self.run_at(h) == other.run_at(h))
    }

    /// The stacks after run `[head, head + count)` is returned: the free runs
    /// that touch it on either side leave their buckets, and one run that spans
    /// them all is filed.
    pub open spec fn returned(&self, head: int, count: int) -> Seq<Seq<u32>> {
        let right = if self.is_head(head + count) {
            self.run_at(head + count)
        } else {
            0
        };
        let left = self.run_before(head);
        let s1 = if right > 0 {
            removed(self.stacks(), (head + count) as u32, right)
        } else {
            self.stacks()
        };
        let s2 = if left > 0 {
            removed(s1, (head - left) as u32, left)
        } else {
            s1
        };
        filed(s2, (head - left) as u32, left + count + right)
    }

    /// Whether a free run starts at `h`.
    pub open spec fn is_head(&self, h: int) -> bool {
        0 <= h < self.span_count() && self.run_at(h) > 0
    }

    /// Whether span `s` lies in the free run headed at `h`.
    pub open spec fn in_run(&self, h: int, s: int) -> bool {
        self.is_head(h) && h <= s < h + self.run_at(h)
    }

    /// Whether span `s` is free, that is in some free run.
    pub open spec fn covers(&self, s: int) -> bool {
        exists|h: int| self.in_run(h, s)
    }

    spec fn sizes_ok(&self) -> bool {
        let n = self.num_spans as int;
        &&& n >= 1
        &&& n + 64 <= crate::sys::max_elements()
        &&& self.bucket_head@.len() == n + 1
        &&& self.next@.len() == n
        &&& self.prev@.len() == n
        &&& self.head_count@.len() == n
        &&& self.tail_count@.len() == n
        &&& self.stacks@.len() == n + 1
        &&& self.l0@.len() == (n + 64) / 64
        &&& self.l1@.len() == (self.l0@.len() + 63) / 64
    }

    spec fn bitmap_ok(&self) -> bool {
        &&& forall|c: int|
            0 <= c < 64 * self.l0@.len() ==> #[trigger] bit_in(self.l0@, c) == (c < self.stacks@.len()
                && self.stacks@[c].len() > 0)
        &&& summarised(self.l0@, self.l1@)
    }

    /// The run at position `i` of bucket `c` is tagged and linked.
    spec fn entry_ok(&self, c: int, i: int) -> bool {
        let s = self.stacks@[c];
        let h = s[i] as int;
        &&& h + c <= self.num_spans
        &&& self.head_count@[h] == c
        &&& self.next@[h] == (if i + 1 < s.len() {
            s[i + 1]
        } else {
            NO_SPAN
        })
        &&& self.prev@[h] == (if i > 0 {
            s[i - 1]
        } else {
            NO_SPAN
        })
    }

    spec fn links_ok(&self) -> bool {
        &&& self.stacks@[0].len() == 0
        &&& forall|c: int, i: int|
            0 <= c < self.stacks@.len() && 0 <= i < self.stacks@[c].len()
                ==> #[trigger] self.entry_ok(c, i)
        &&& forall|c: int|
            0 <= c < self.stacks@.len() ==> #[trigger] self.bucket_head@[c] == (if self.stacks@[c].len()
                > 0 {
                self.stacks@[c][0]
            } else {
                NO_SPAN
            })
        &&& forall|c: int| 0 <= c < self.stacks@.len() ==> (#[trigger] self.stacks@[c]).no_duplicates()
    }

    spec fn tags_ok(&self) -> bool {
        &&& forall|h: int|
            0 <= h < self.num_spans && #[trigger] self.head_count@[h] != 0 ==> {
                let c = self.head_count@[h] as int;
                &&& h + c <= self.num_spans
                &&& self.stacks@[c].contains(h as u32)
                &&& self.tail_count@[h + c - 1] == c
            }
        &&& forall|t: int|
            0 <= t < self.num_spans && #[trigger] self.tail_count@[t] != 0 ==> {
                let c = self.tail_count@[t] as int;
                &&& t + 1 - c >= 0
                &&& self.head_count@[t + 1 - c] == c
            }
    }

    /// No two free runs overlap or touch.
    pub open spec fn separated(&self) -> bool {
        forall|a: int, b: int|
            #![trigger self.is_head(a), self.is_head(b)]
            self.is_head(a) && self.is_head(b) && a < b ==> a + self.run_at(a) < b
    }

    /// The pool's invariant.
    pub closed spec fn wf(&self) -> bool {
        &&& self.sizes_ok()
        &&& self.bitmap_ok()
        &&& self.links_ok()
        &&& self.tags_ok()
        &&& self.separated()
    }
}

impl SpanPool {
    /// Build an empty pool covering `num_spans` spans (at least one). All
    /// metadata is allocated once here and never grows.
    pub fn new(num_spans: usize) -> (pool: SpanPool)
        requires
            num_spans <= u32::MAX,
            num_spans + 64 <= crate::sys::max_elements(),
        ensures
            pool.wf(),
            pool.span_count() == if num_spans == 0 {
                1
            } else {
                num_spans as int
            },
            pool.stacks() == Seq::new((pool.span_count() + 1) as nat, |c: int| Seq::<u32>::empty()),
            forall|s: int| !pool.covers(s),
    {
        let n: usize = if num_spans == 0 {
            1
        } else {
            num_spans
        };
        let nbuckets: usize = n + 1;
        let l0_words: usize = (nbuckets + 63) / 64;
        let l1_words: usize = (l0_words + 63) / 64;
        let pool = SpanPool {
            num_spans: n as u32,
            bucket_head: SysBoxSlice::<u32>::filled(nbuckets, NO_SPAN),
            next: SysBoxSlice::<u32>::filled(n, NO_SPAN),
            prev: SysBoxSlice::<u32>::filled(n, NO_SPAN),
            head_count: SysBoxSlice::<u32>::filled(n, 0),
            tail_count: SysBoxSlice::<u32>::filled(n, 0),
            l0: SysBoxSlice::<u64>::filled(l0_words, 0),
            l1: SysBoxSlice::<u64>::filled(l1_words, 0),
            stacks: Ghost(Seq::new(nbuckets as nat, |c: int| Seq::<u32>::empty())),
        };
        proof {
            lemma_bit_zero(0);
            assert forall|c: int| 0 <= c < 64 * pool.l0@.len() implies !#[trigger] bit_in(pool.l0@, c) by {
                assert(pool.l0@[c / 64] == 0);
            }
            assert forall|c: int| 0 <= c < 64 * pool.l1@.len() implies !#[trigger] bit_in(pool.l1@, c) by {
                assert(pool.l1@[c / 64] == 0);
            }
            assert forall|s: int| !pool.covers(s) by {
                assert forall|h: int| !pool.in_run(h, s) by {}
            }
        }
        pool
    }

    /// Everything but the two bitmaps is unchanged.
    spec fn same_but_bitmap(&self, other: &SpanPool) -> bool {
        &&& self.num_spans == other.num_spans
        &&& self.bucket_head == other.bucket_head
        &&& self.next == other.next
        &&& self.prev == other.prev
        &&& self.head_count == other.head_count
        &&& self.tail_count == other.tail_count
        &&& self.stacks == other.stacks
        &&& self.l0@.len() == other.l0@.len()
    }

    /// Mark bucket `c` non-empty in both levels.
    fn bit_set(&mut self, c: u32)
        requires
            summarised(old(self).l0@, old(self).l1@),
            c < 64 * old(self).l0@.len(),
        ensures
            summarised(final(self).l0@, final(self).l1@),
            final(self).same_but_bitmap(old(self)),
            forall|k: int|
                0 <= k < 64 * final(self).l0@.len() ==> #[trigger] bit_in(final(self).l0@, k) == (k == c
                    || bit_in(old(self).l0@, k)),
    {
        let w: usize = (c / 64) as usize;
        let ghost before = *self;
        let m0: u64 = bit_mask(c % 64);
        let old0: u64 = self.l0.at(w);
        self.l0.put(w, old0 | m0);
        let m1: u64 = bit_mask((w % 64) as u32);
        let old1: u64 = self.l1.at(w / 64);
        self.l1.put(w / 64, old1 | m1);
        proof {
            lemma_bit_or_and(old0, m0);
            lemma_bit_or_and(old1, m1);
            lemma_bit_zero(old0 | m0);
            assert(bit(old0 | m0, (c % 64) as int));
            assert forall|k: int| 0 <= k < 64 * self.l0@.len() implies #[trigger] bit_in(self.l0@, k) == (k
                == c || bit_in(before.l0@, k)) by {
                if k / 64 == w as int {
                    assert(bit(old0 | m0, k % 64) == (bit(old0, k % 64) || bit(m0, k % 64)));
                }
            }
            assert forall|k: int| 0 <= k < 64 * self.l1@.len() implies #[trigger] bit_in(self.l1@, k) == (k
                < self.l0@.len() && self.l0@[k] != 0) by {
                assert(bit_in(before.l1@, k) == (k < before.l0@.len() && before.l0@[k] != 0));
                if k / 64 == w as int / 64 {
                    assert(bit(old1 | m1, k % 64) == (bit(old1, k % 64) || bit(m1, k % 64)));
                }
            }
        }
    }

    /// Mark bucket `c` empty, and its `l0` word empty in `l1` where it became so.
    fn bit_clear(&mut self, c: u32)
        requires
            summarised(old(self).l0@, old(self).l1@),
            c < 64 * old(self).l0@.len(),
        ensures
            summarised(final(self).l0@, final(self).l1@),
            final(self).same_but_bitmap(old(self)),
            forall|k: int|
                0 <= k < 64 * final(self).l0@.len() ==> #[trigger] bit_in(final(self).l0@, k) == (k != c
                    && bit_in(old(self).l0@, k)),
    {
        let w: usize = (c / 64) as usize;
        let ghost before = *self;
        let m0: u64 = bit_mask(c % 64);
        let old0: u64 = self.l0.at(w);
        self.l0.put(w, old0 & !m0);
        proof {
            lemma_bit_not(m0);
            lemma_bit_or_and(old0, !m0);
            assert forall|k: int| 0 <= k < 64 * self.l0@.len() implies #[trigger] bit_in(self.l0@, k) == (k
                != c && bit_in(before.l0@, k)) by {
                if k / 64 == w as int {
                    assert(bit(old0 & !m0, k % 64) == (bit(old0, k % 64) && bit(!m0, k % 64)));
                }
            }
        }
        let ghost mid = *self;
        if self.l0.at(w) == 0 {
            let m1: u64 = bit_mask((w % 64) as u32);
            let old1: u64 = self.l1.at(w / 64);
            self.l1.put(w / 64, old1 & !m1);
            proof {
                lemma_bit_not(m1);
                lemma_bit_or_and(old1, !m1);
                assert forall|k: int| 0 <= k < 64 * self.l1@.len() implies #[trigger] bit_in(self.l1@, k)
                    == (k < self.l0@.len() && self.l0@[k] != 0) by {
                    assert(bit_in(before.l1@, k) == (k < before.l0@.len() && before.l0@[k] != 0));
                    if k / 64 == w as int / 64 {
                        assert(bit(old1 & !m1, k % 64) == (bit(old1, k % 64) && bit(!m1, k % 64)));
                    }
                }
                assert forall|k: int| 0 <= k < 64 * self.l0@.len() implies #[trigger] bit_in(self.l0@, k)
                    == bit_in(mid.l0@, k) by {}
            }
        } else {
            proof {
                assert(old0 != 0) by {
                    if old0 == 0 {
                        lemma_bit_zero(old0);
                        lemma_bit_zero(old0 & !m0);
                    }
                }
                assert forall|k: int| 0 <= k < 64 * self.l1@.len() implies #[trigger] bit_in(self.l1@, k)
                    == (k < self.l0@.len() && self.l0@[k] != 0) by {
                    assert(bit_in(before.l1@, k) == (k < before.l0@.len() && before.l0@[k] != 0));
                }
            }
        }
    }

    /// Lowest bucket index at or above `c` that holds a run, or `None`. Bounded:
    /// at most one masked read per level plus a short scan of `l1` words.
    #[verifier::rlimit(40)]
    pub fn find_first_set_ge(&self, c: u32) -> (r: Option<u32>)
        requires
            self.wf(),
        ensures
            r.is_some() <==> first_nonempty(self.stacks(), c as int).is_some(),
            r matches Some(m) ==> first_nonempty(self.stacks(), c as int) == Some(m as int),
    {
        if c as usize >= self.l0.len() * 64 {
            return None;
        }
        let w: usize = (c / 64) as usize;
        let b: u32 = c % 64;
        let from: u64 = mask_from(b);
        let l0w: u64 = self.l0.at(w);
        let masked: u64 = l0w & from;
        proof {
            lemma_bit_or_and(l0w, from);
            lemma_bit_zero(masked);
        }
        if masked != 0 {
            let k: u32 = lowest_bit(masked);
            proof {
                let m = w * 64 + k;
                assert(bit_in(self.l0@, m as int));
                assert forall|j: int| c <= j < m implies self.stacks@[j].len() == 0 by {
                    assert(!bit(masked, j % 64));
                    assert(!bit_in(self.l0@, j));
                }
                self.lemma_first(c as int, m as int);
            }
            return Some((w as u32) * 64 + k);
        }
        assert forall|j: int| c <= j < 64 * (w + 1) && j < self.stacks@.len() implies self.stacks@[j].len() == 0 by {
            assert(!bit(masked, j % 64));
            assert(!bit_in(self.l0@, j));
        }
        let lw: usize = w / 64;
        let wb: u32 = (w % 64) as u32;
        if wb < 63 {
            let above: u64 = mask_from(wb + 1);
            let l1w: u64 = self.l1.at(lw);
            let m: u64 = l1w & above;
            proof {
                lemma_bit_or_and(l1w, above);
                lemma_bit_zero(m);
            }
            if m != 0 {
                let nw: usize = lw * 64 + lowest_bit(m) as usize;
                proof {
                    assert(bit_in(self.l1@, nw as int));
                    assert forall|v: int| w < v < nw implies self.l0@[v] == 0 by {
                        assert(!bit(m, v % 64));
                        assert(!bit_in(self.l1@, v));
                    }
                }
                return Some(self.first_in_word(c, w, nw));
            }
            assert forall|v: int| w < v < 64 * (lw + 1) && v < self.l0@.len() implies self.l0@[v] == 0 by {
                assert(!bit(m, v % 64));
                assert(!bit_in(self.l1@, v));
            }
        }
        let mut li: usize = lw + 1;
        while li < self.l1.len()
            invariant
                self.wf(),
                w == c / 64,
                c < 64 * self.l0@.len(),
                lw == w / 64,
                lw < li <= self.l1@.len(),
                forall|j: int|
                    c <= j < 64 * (w + 1) && j < self.stacks@.len() ==> self.stacks@[j].len() == 0,
                forall|v: int| w < v < 64 * li && v < self.l0@.len() ==> self.l0@[v] == 0,
            decreases self.l1@.len() - li,
        {
            let m: u64 = self.l1.at(li);
            if m != 0 {
                let nw: usize = li * 64 + lowest_bit(m) as usize;
                proof {
                    assert(bit_in(self.l1@, nw as int));
                    assert forall|v: int| w < v < nw implies self.l0@[v] == 0 by {
                        if v >= 64 * li {
                            assert(!bit(m, v % 64));
                            assert(!bit_in(self.l1@, v));
                        }
                    }
                }
                return Some(self.first_in_word(c, w, nw));
            }
            proof {
                lemma_bit_zero(m);
                assert forall|v: int| w < v < 64 * (li + 1) && v < self.l0@.len() implies self.l0@[v] == 0 by {
                    if v >= 64 * li {
                        assert(!bit(m, v % 64));
                        assert(!bit_in(self.l1@, v));
                    }
                }
            }
            li = li + 1;
        }
        proof {
            assert forall|j: int| c <= j < self.stacks@.len() implies self.stacks@[j].len() == 0 by {
                if j >= 64 * (w + 1) {
                    let v = j / 64;
                    assert(self.l0@[v] == 0);
                    lemma_bit_zero(0);
                    assert(!bit_in(self.l0@, j));
                }
            }
            self.lemma_none(c as int);
        }
        None
    }

    /// The lowest bucket in the non-empty `l0` word `nw`, all buckets from `c` up
    /// to that word being empty.
    fn first_in_word(&self, c: u32, w: usize, nw: usize) -> (m: u32)
        requires
            self.wf(),
            w == c / 64,
            w < nw < self.l0@.len(),
            self.l0@[nw as int] != 0,
            forall|j: int|
                c <= j < 64 * (w + 1) && j < self.stacks@.len() ==> self.stacks@[j].len() == 0,
            forall|v: int| w < v < nw ==> self.l0@[v] == 0,
        ensures
            first_nonempty(self.stacks(), c as int) == Some(m as int),
    {
        let word: u64 = self.l0.at(nw);
        let k: u32 = lowest_bit(word);
        proof {
            let m = nw * 64 + k;
            assert(bit_in(self.l0@, m as int));
            assert forall|j: int| c <= j < m implies self.stacks@[j].len() == 0 by {
                if j >= 64 * nw {
                    assert(!bit(word, j % 64));
                    assert(!bit_in(self.l0@, j));
                } else if j >= 64 * (w + 1) {
                    let v = j / 64;
                    assert(self.l0@[v] == 0);
                    lemma_bit_zero(0);
                    assert(!bit_in(self.l0@, j));
                }
            }
            self.lemma_first(c as int, m as int);
        }
        (nw as u32) * 64 + k
    }

    proof fn lemma_first(&self, c: int, m: int)
        requires
            0 <= c <= m < self.stacks@.len(),
            self.stacks@[m].len() > 0,
            forall|j: int| c <= j < m ==> self.stacks@[j].len() == 0,
        ensures
            first_nonempty(self.stacks@, c) == Some(m),
        decreases m - c,
    {
        if c < m {
            self.lemma_first(c + 1, m);
        }
    }

    proof fn lemma_none(&self, c: int)
        requires
            0 <= c,
            forall|j: int| c <= j < self.stacks@.len() ==> self.stacks@[j].len() == 0,
        ensures
            first_nonempty(self.stacks@, c) is None,
        decreases self.stacks@.len() - c,
    {
        if c < self.stacks@.len() {
            self.lemma_none(c + 1);
        }
    }
}

impl SpanPool {
    /// File free run `[head, head + count)` on top of its bucket's stack and
    /// stamp its boundary tags and occupancy bit.
    fn link(&mut self, head: u32, count: u32)
        requires
            old(self).wf(),
            count >= 1,
            head + count <= old(self).span_count(),
            forall|h: int|
                #[trigger] old(self).is_head(h) ==> h + old(self).run_at(h) < head || head + count < h,
        ensures
            final(self).wf(),
            final(self).span_count() == old(self).span_count(),
            final(self).stacks() == filed(old(self).stacks(), head, count as int),
            forall|h: int|
                0 <= h < old(self).span_count() ==> #[trigger] final(self).run_at(h) == (if h == head {
                    count as int
                } else {
                    old(self).run_at(h)
                }),
    {
        let ghost before = *self;
        let h: usize = head as usize;
        proof {
            if self.head_count@[head as int] != 0 {
                assert(self.is_head(head as int));
            }
        }
        let top: u32 = self.bucket_head.at(count as usize);
        proof {
            if self.stacks@[count as int].len() > 0 {
                assert(self.entry_ok(count as int, 0));
            }
        }
        self.next.put(h, top);
        self.prev.put(h, NO_SPAN);
        if top != NO_SPAN {
            self.prev.put(top as usize, head);
        }
        self.bucket_head.put(count as usize, head);
        self.head_count.put(h, count);
        self.tail_count.put((head + count - 1) as usize, count);
        self.bit_set(count);
        proof {
            self.stacks@ = filed(before.stacks@, head, count as int);
            self.lemma_link(&before, head, count);
        }
    }

    proof fn lemma_link(&self, before: &SpanPool, head: u32, count: u32)
        requires
            before.wf(),
            count >= 1,
            head + count <= before.num_spans,
            forall|h: int|
                #[trigger] before.is_head(h) ==> h + before.run_at(h) < head || head + count < h,
            self.num_spans == before.num_spans,
            summarised(self.l0@, self.l1@),
            self.l0@.len() == before.l0@.len(),
            forall|k: int|
                0 <= k < 64 * self.l0@.len() ==> #[trigger] bit_in(self.l0@, k) == (k == count
                    || bit_in(before.l0@, k)),
            self.stacks@ == filed(before.stacks@, head, count as int),
            self.bucket_head@ == before.bucket_head@.update(count as int, head),
            self.head_count@ == before.head_count@.update(head as int, count),
            self.tail_count@ == before.tail_count@.update(head + count - 1, count),
            self.next@ == before.next@.update(head as int, before.bucket_head@[count as int]),
            self.prev@ == if before.stacks@[count as int].len() > 0 {
                before.prev@.update(head as int, NO_SPAN).update(
                    before.stacks@[count as int][0] as int,
                    head,
                )
            } else {
                before.prev@.update(head as int, NO_SPAN)
            },
        ensures
            self.wf(),
    {
        let n = self.num_spans as int;
        let cc = count as int;
        if before.stacks@[cc].len() > 0 {
            assert(before.entry_ok(cc, 0));
        }
        assert(before.head_count@[head as int] == 0) by {
            if before.head_count@[head as int] != 0 {
                assert(before.is_head(head as int));
            }
        }
        assert forall|c: int, i: int| 0 <= c < self.stacks@.len() && 0 <= i < self.stacks@[c].len() implies #[trigger] self.entry_ok(
            c,
            i,
        ) by {
            if c == cc {
                assert(before.bucket_head@[cc] == self.next@[head as int]);
                if i > 0 {
                    assert(before.entry_ok(c, i - 1));
                    assert(self.stacks@[c][i] == before.stacks@[c][i - 1]);
                    if i > 1 {
                        assert(before.stacks@[c][i - 1] != before.stacks@[c][0]);
                        assert(self.stacks@[c][i - 1] == before.stacks@[c][i - 2]);
                    }
                }
                if i + 1 < self.stacks@[c].len() {
                    assert(self.stacks@[c][i + 1] == before.stacks@[c][i]);
                }
            } else {
                assert(before.entry_ok(c, i));
            }
        }
        assert forall|c: int| 0 <= c < self.stacks@.len() implies (#[trigger] self.stacks@[c]).no_duplicates() by {
            assert(before.stacks@[c].no_duplicates());
            if c == cc {
                assert forall|i: int, j: int|
                    0 <= i < self.stacks@[c].len() && 0 <= j < self.stacks@[c].len() && i != j implies self.stacks@[c][i]
                    != self.stacks@[c][j] by {
                    if i > 0 {
                        assert(before.entry_ok(c, i - 1));
                    }
                    if j > 0 {
                        assert(before.entry_ok(c, j - 1));
                    }
                }
            }
        }
        assert forall|h: int| 0 <= h < n && #[trigger] self.head_count@[h] != 0 implies {
            let c = self.head_count@[h] as int;
            &&& h + c <= self.num_spans
            &&& self.stacks@[c].contains(h as u32)
            &&& self.tail_count@[h + c - 1] == c
        } by {
            let c = self.head_count@[h] as int;
            if h == head as int {
                assert(self.stacks@[c][0] == head);
            } else {
                assert(before.is_head(h));
                let i = before.stacks@[c].index_of(h as u32);
                assert(before.stacks@[c].contains(h as u32));
                if c == cc {
                    assert(self.stacks@[c][i + 1] == h as u32);
                } else {
                    assert(self.stacks@[c][i] == h as u32);
                }
            }
        }
        assert forall|t: int| 0 <= t < n && #[trigger] self.tail_count@[t] != 0 implies {
            let c = self.tail_count@[t] as int;
            &&& t + 1 - c >= 0
            &&& self.head_count@[t + 1 - c] == c
        } by {
            if t != head + count - 1 {
                assert(before.tail_count@[t] != 0);
            }
        }
        assert forall|c: int| 0 <= c < 64 * self.l0@.len() implies #[trigger] bit_in(self.l0@, c) == (c
            < self.stacks@.len() && self.stacks@[c].len() > 0) by {
            assert(bit_in(before.l0@, c) == (c < before.stacks@.len() && before.stacks@[c].len() > 0));
        }
        assert forall|a: int, b: int|
            #![trigger self.is_head(a), self.is_head(b)]
            self.is_head(a) && self.is_head(b) && a < b implies a + self.run_at(a) < b by {
            if a != head {
                assert(before.is_head(a));
            }
            if b != head {
                assert(before.is_head(b));
            }
        }
    }

    /// Take free run `[head, head + count)` out of its bucket's stack, wherever
    /// in it the run stands, and clear its boundary tags (and the occupancy bit
    /// if the bucket empties).
    #[verifier::rlimit(60)]
    #[verifier::spinoff_prover]
    fn unlink(&mut self, head: u32, count: u32)
        requires
            old(self).wf(),
            old(self).is_head(head as int),
            old(self).run_at(head as int) == count,
        ensures
            final(self).wf(),
            final(self).span_count() == old(self).span_count(),
            old(self).stacks()[count as int].contains(head),
            final(self).stacks() == removed(old(self).stacks(), head, count as int),
            forall|h: int|
                0 <= h < old(self).span_count() ==> #[trigger] final(self).run_at(h) == (if h == head {
                    0
                } else {
                    old(self).run_at(h)
                }),
    {
        let ghost before = *self;
        let ghost cc = count as int;
        let ghost st = self.stacks@[cc];
        let ghost k = st.index_of(head);
        proof {
            assert(st.contains(head));
            assert(self.entry_ok(cc, k));
            if k > 0 {
                assert(self.entry_ok(cc, k - 1));
            }
            if k + 1 < st.len() {
                assert(self.entry_ok(cc, k + 1));
            }
            assert(st.no_duplicates());
        }
        let h: usize = head as usize;
        let p: u32 = self.prev.at(h);
        let n: u32 = self.next.at(h);
        let ghost mut emptied = false;
        if p != NO_SPAN {
            self.next.put(p as usize, n);
        } else {
            self.bucket_head.put(count as usize, n);
            if n == NO_SPAN {
                self.bit_clear(count);
                proof {
                    emptied = true;
                }
            }
        }
        if n != NO_SPAN {
            self.prev.put(n as usize, p);
        }
        self.head_count.put(h, 0);
        self.tail_count.put((head + count - 1) as usize, 0);
        self.next.put(h, NO_SPAN);
        self.prev.put(h, NO_SPAN);
        proof {
            self.stacks@ = removed(before.stacks@, head, cc);
            let ns = self.stacks@[cc];
            assert(emptied == (st.len() == 1));
            assert forall|c: int, i: int|
                0 <= c < self.stacks@.len() && 0 <= i < self.stacks@[c].len() implies #[trigger] self.entry_ok(
                c,
                i,
            ) by {
                if c == cc {
                    let oi = if i < k {
                        i
                    } else {
                        i + 1
                    };
                    assert(before.entry_ok(c, oi));
                    assert(ns[i] == st[oi]);
                    assert(st[oi] != head);
                    if i + 1 < ns.len() {
                        assert(ns[i + 1] == st[if i + 1 < k {
                            i + 1
                        } else {
                            i + 2
                        }]);
                    }
                    if i > 0 {
                        assert(ns[i - 1] == st[if i - 1 < k {
                            i - 1
                        } else {
                            i
                        }]);
                    }
                } else {
                    assert(before.entry_ok(c, i));
                }
            }
            assert forall|c: int| 0 <= c < self.stacks@.len() implies (#[trigger] self.stacks@[c]).no_duplicates() by {
                assert(before.stacks@[c].no_duplicates());
            }
            assert forall|hh: int| 0 <= hh < self.num_spans && #[trigger] self.head_count@[hh] != 0 implies {
                let c = self.head_count@[hh] as int;
                &&& hh + c <= self.num_spans
                &&& self.stacks@[c].contains(hh as u32)
                &&& self.tail_count@[hh + c - 1] == c
            } by {
                let c = self.head_count@[hh] as int;
                assert(before.is_head(hh));
                assert(before.is_head(head as int));
                let i = before.stacks@[c].index_of(hh as u32);
                assert(before.stacks@[c].contains(hh as u32));
                if c == cc {
                    let ni = if i < k {
                        i
                    } else {
                        i - 1
                    };
                    assert(ns[ni] == hh as u32);
                } else {
                    assert(self.stacks@[c][i] == hh as u32);
                }
            }
            assert forall|t: int| 0 <= t < self.num_spans && #[trigger] self.tail_count@[t] != 0 implies {
                let c = self.tail_count@[t] as int;
                &&& t + 1 - c >= 0
                &&& self.head_count@[t + 1 - c] == c
            } by {
                assert(before.tail_count@[t] != 0);
            }
            assert forall|c: int| 0 <= c < 64 * self.l0@.len() implies #[trigger] bit_in(self.l0@, c) == (c
                < self.stacks@.len() && self.stacks@[c].len() > 0) by {
                assert(bit_in(before.l0@, c) == (c < before.stacks@.len() && before.stacks@[c].len() > 0));
            }
            assert forall|a: int, b: int|
                #![trigger self.is_head(a), self.is_head(b)]
                self.is_head(a) && self.is_head(b) && a < b implies a + self.run_at(a) < b by {
                assert(before.is_head(a) && before.is_head(b));
            }
        }
    }
}

impl SpanPool {
    /// A head stays what it is while its run is not touched.
    proof fn lemma_covers_filed(&self, before: &SpanPool, head: int, count: int)
        requires
            before.span_count() == self.span_count(),
            count >= 1,
            0 <= head,
            head + count <= self.span_count(),
            !before.is_head(head),
            forall|h: int|
                0 <= h < before.span_count() ==> #[trigger] self.run_at(h) == (if h == head {
                    count
                } else {
                    before.run_at(h)
                }),
        ensures
            forall|s: int|
                #[trigger] self.covers(s) <==> before.covers(s) || head <= s < head + count,
    {
        assert forall|s: int| #[trigger] self.covers(s) <==> before.covers(s) || head <= s < head
            + count by {
            if self.covers(s) {
                let h = choose|h: int| self.in_run(h, s);
                if h != head {
                    assert(before.in_run(h, s));
                }
            }
            if before.covers(s) {
                let h = choose|h: int| before.in_run(h, s);
                assert(self.run_at(h) == before.run_at(h));
                assert(self.in_run(h, s));
            }
            if head <= s < head + count {
                assert(self.run_at(head) == count);
                assert(self.in_run(head, s));
            }
        }
    }

    proof fn lemma_covers_removed(&self, before: &SpanPool, head: int, count: int)
        requires
            before.wf(),
            before.span_count() == self.span_count(),
            before.is_head(head),
            before.run_at(head) == count,
            forall|h: int|
                0 <= h < before.span_count() ==> #[trigger] self.run_at(h) == (if h == head {
                    0
                } else {
                    before.run_at(h)
                }),
        ensures
            forall|s: int|
                #[trigger] self.covers(s) <==> before.covers(s) && !(head <= s < head + count),
            forall|s: int| head <= s < head + count ==> #[trigger] before.covers(s),
    {
        assert forall|s: int| #[trigger] self.covers(s) <==> before.covers(s) && !(head <= s < head
            + count) by {
            if self.covers(s) {
                let h = choose|h: int| self.in_run(h, s);
                assert(before.in_run(h, s));
                assert(before.is_head(h) && before.is_head(head));
            }
            if before.covers(s) && !(head <= s < head + count) {
                let h = choose|h: int| before.in_run(h, s);
                assert(self.run_at(h) == before.run_at(h));
                assert(self.in_run(h, s));
            }
        }
        assert forall|s: int| head <= s < head + count implies #[trigger] before.covers(s) by {
            assert(before.in_run(head, s));
        }
    }

    /// Return a free run of `n` spans (its head span index), or `None` if no free
    /// run is large enough (the caller then carves fresh from the arena).
    ///
    /// The top run of the lowest bucket at or above `n` serves the request; if it
    /// is larger, the tail remainder is filed as its own free run.
    pub fn allocate(&mut self, n: u32) -> (r: Option<u32>)
        requires
            old(self).wf(),
        ensures
            final(self).wf(),
            final(self).span_count() == old(self).span_count(),
            r.is_some() <==> n >= 1 && first_nonempty(old(self).stacks(), n as int).is_some(),
            r is None ==> *final(self) == *old(self),
            r matches Some(head) ==> {
                let m = first_nonempty(old(self).stacks(), n as int).unwrap();
                &&& n <= m < old(self).stacks().len()
                &&& old(self).stacks()[m].len() > 0
                &&& head == old(self).stacks()[m][0]
                &&& head + n <= old(self).span_count()
                &&& final(self).stacks() == served(old(self).stacks(), n as int, m)
                &&& old(self).is_head(head as int)
                &&& old(self).run_at(head as int) == m
                &&& forall|s: int| head <= s < head + n ==> #[trigger] old(self).covers(s)
                &&& forall|s: int|
                    #[trigger] final(self).covers(s) <==> old(self).covers(s) && !(head <= s < head + n)
            },
            r is None <==> n == 0 || forall|h: int| #[trigger]
                old(self).is_head(h) ==> old(self).run_at(h) < n,
            r matches Some(head) ==> forall|h: int| #[trigger]
                old(self).is_head(h) && old(self).run_at(h) >= n ==> old(self).run_at(h)
                    >= old(self).run_at(head as int),
            r matches Some(head) ==> final(self).run_split(old(self), head as int, n as int),
    {
        proof {
            self.lemma_first_run(n as int);
        }
        if n == 0 || n > self.num_spans {
            return None;
        }
        let ghost before = *self;
        let m: u32 = match self.find_first_set_ge(n) {
            Some(m) => m,
            None => {
                return None;
            },
        };
        proof {
            lemma_first_nonempty(self.stacks@, n as int);
            assert(self.entry_ok(m as int, 0));
        }
        let head: u32 = self.bucket_head.at(m as usize);
        self.unlink(head, m);
        let ghost mid = *self;
        proof {
            assert(before.stacks@[m as int].no_duplicates());
            assert(before.stacks@[m as int].remove(0) =~= before.stacks@[m as int].drop_first());
            mid.lemma_covers_removed(&before, head as int, m as int);
            assert(before.is_head(head as int));
            assert forall|h: int| #[trigger] mid.is_head(h) implies h + mid.run_at(h) < head || head + m
                < h by {
                assert(before.is_head(h));
            }
        }
        if m > n {
            self.link(head + n, m - n);
            proof {
                assert(!mid.is_head(head + n)) by {
                    if mid.is_head(head + n) {
                        assert(before.is_head(head + n));
                    }
                }
                self.lemma_covers_filed(&mid, head + n, m - n);
            }
        }
        Some(head)
    }

    /// Return run `[head, head + count)` to the pool, coalescing with any
    /// address-adjacent free runs (at most one on each side) before filing it.
    #[verifier::rlimit(80)]
    #[verifier::spinoff_prover]
    pub fn free(&mut self, head: u32, count: u32)
        requires
            old(self).wf(),
            count >= 1,
            head + count <= old(self).span_count(),
            forall|s: int| head <= s < head + count ==> !#[trigger] old(self).covers(s),
        ensures
            final(self).wf(),
            final(self).span_count() == old(self).span_count(),
            final(self).stacks() == old(self).returned(head as int, count as int),
            forall|s: int|
                #[trigger] final(self).covers(s) <==> old(self).covers(s) || head <= s < head + count,
            final(self).run_merged(old(self), head as int, count as int),
    {
        let ghost before = *self;
        let mut h: u32 = head;
        let mut c: u32 = count;
        proof {
            // Runs lie wholly on one side of the returned one.
            assert forall|a: int| #[trigger] before.is_head(a) implies a + before.run_at(a) <= head
                || head + count <= a by {
                if a <= head {
                    if a + before.run_at(a) > head {
                        assert(before.in_run(a, head as int));
                        assert(before.covers(head as int));
                    }
                } else if a < head + count {
                    assert(before.in_run(a, a));
                    assert(before.covers(a));
                }
            }
        }
        let right: u32 = h + c;
        if right < self.num_spans {
            let rc: u32 = self.head_count.at(right as usize);
            if rc != 0 {
                assert(before.is_head(right as int));
                self.unlink(right, rc);
                proof {
                    self.lemma_covers_removed(&before, right as int, rc as int);
                }
                c = c + rc;
            }
        }
        let ghost mid = *self;
        assert forall|a: int| #[trigger] mid.is_head(a) implies before.is_head(a) && mid.run_at(a) == before.run_at(a) && (a + mid.run_at(a) <= head
            || head + c < a) by {
            assert(before.is_head(a));
            if before.is_head(right as int) {
                assert(a != right);
            }
        }
        let ghost mc = c;
        assert(forall|s: int|
            #[trigger] mid.covers(s) <==> before.covers(s) && !(head + count <= s < head + mc));
        assert(forall|s: int| head + count <= s < head + mc ==> #[trigger] before.covers(s));
        if h > 0 {
            let lc: u32 = self.tail_count.at((h - 1) as usize);
            proof {
                // Taking the right neighbour out left the tag before `head` alone.
                assert(mid.tail_count@[head - 1] == before.tail_count@[head - 1]) by {
                    if mid.tail_count@[head - 1] != 0 {
                        let k = mid.tail_count@[head - 1] as int;
                        assert(mid.head_count@[head - k] == k);
                        assert(mid.is_head(head - k));
                        assert(before.head_count@[head - k] == before.run_at(head - k));
                    }
                    if before.tail_count@[head - 1] != 0 {
                        let k = before.tail_count@[head - 1] as int;
                        assert(before.head_count@[head - k] == k);
                        assert(mid.run_at(head - k) == k);
                        assert(mid.head_count@[head - k] == k);
                    }
                }
            }
            if lc != 0 {
                let lhead: u32 = h - lc;
                assert(mid.head_count@[lhead as int] == lc);
                assert(mid.is_head(lhead as int));
                self.unlink(lhead, lc);
                proof {
                    self.lemma_covers_removed(&mid, lhead as int, lc as int);
                }
                h = lhead;
                c = c + lc;
            }
        }
        let ghost pre = *self;
        assert(forall|s: int| #[trigger] pre.covers(s) <==> mid.covers(s) && !(h <= s < head));
        assert(forall|s: int| h <= s < head ==> #[trigger] mid.covers(s));
        assert forall|a: int| #[trigger] pre.is_head(a) implies a + pre.run_at(a) < h || h + c < a by {
            assert(mid.is_head(a) && mid.run_at(a) == pre.run_at(a));
            if h == head {
                if a + pre.run_at(a) == head {
                    let k = pre.run_at(a);
                    assert(mid.head_count@[a] == k);
                    assert(mid.tail_count@[a + k - 1] == k);
                }
            } else {
                assert(mid.is_head(h as int));
            }
        }
        self.link(h, c);
        proof {
            assert(!pre.is_head(h as int));
            self.lemma_covers_filed(&pre, h as int, c as int);
            assert forall|s: int| #[trigger] self.covers(s) <==> before.covers(s) || head <= s < head
                + count by {
                assert(self.covers(s) <==> pre.covers(s) || h <= s < h + c);
                assert(pre.covers(s) <==> mid.covers(s) && !(h <= s < head));
                assert(mid.covers(s) <==> before.covers(s) && !(head + count <= s < head + mc));
            }
            assert forall|a: int| a != h && a != head + count implies #[trigger] self.is_head(a)
                == before.is_head(a) && (self.is_head(a) ==> self.run_at(a) == before.run_at(a)) by {
                if 0 <= a < before.span_count() {
                    assert(self.run_at(a) == pre.run_at(a));
                    assert(pre.run_at(a) == mid.run_at(a));
                    assert(mid.run_at(a) == before.run_at(a));
                }
            }
            if self.is_head(head + count) {
                assert(self.run_at(head + count) == pre.run_at(head + count));
                assert(pre.is_head(head + count));
            }
        }
    }
}

/// What the first non-empty stack at or above `c` is.
pub proof fn lemma_first_nonempty(stacks: Seq<Seq<u32>>, c: int)
    requires
        0 <= c,
    ensures
        match first_nonempty(stacks, c) {
            Some(m) => c <= m < stacks.len() && stacks[m].len() > 0 && forall|j: int|
                c <= j < m ==> (#[trigger] stacks[j]).len() == 0,
            None => forall|j: int| c <= j < stacks.len() ==> (#[trigger] stacks[j]).len() == 0,
        },
    decreases stacks.len() - c,
{
    if c < stacks.len() && stacks[c].len() == 0 {
        lemma_first_nonempty(stacks, c + 1);
    }
}

impl SpanPool {
    /// No two free runs overlap or even touch: everything adjacent has been
    /// coalesced.
    pub proof fn lemma_runs_apart(&self, a: int, b: int)
        requires
            self.wf(),
            self.is_head(a),
            self.is_head(b),
            a < b,
        ensures
            a + self.run_at(a) < b,
            b + self.run_at(b) <= self.span_count(),
    {
        assert(self.head_count@[b] != 0);
    }

    /// A free run lies inside the pool.
    pub proof fn lemma_run_inside(&self, h: int)
        requires
            self.wf(),
            self.is_head(h),
        ensures
            self.run_at(h) >= 1,
            h + self.run_at(h) <= self.span_count(),
            forall|s: int| h <= s < h + self.run_at(h) ==> #[trigger] self.covers(s),
    {
        assert(self.head_count@[h] != 0);
        assert forall|s: int| h <= s < h + self.run_at(h) implies #[trigger] self.covers(s) by {
            assert(self.in_run(h, s));
        }
    }

    /// The run recorded before a span is the free run that ends there.
    pub proof fn lemma_run_before(&self, h: int)
        requires
            self.wf(),
        ensures
            self.run_before(h) >= 0,
            self.run_before(h) > 0 ==> self.is_head(h - self.run_before(h)) && self.run_at(
                h - self.run_before(h),
            ) == self.run_before(h),
            forall|a: int| #[trigger]
                self.is_head(a) && a + self.run_at(a) == h ==> self.run_before(h) == self.run_at(a),
    {
        if 0 < h <= self.num_spans && self.tail_count@[h - 1] != 0 {
            let c = self.tail_count@[h - 1] as int;
            assert(self.head_count@[h - c] == c);
        }
        assert forall|a: int| #[trigger]
            self.is_head(a) && a + self.run_at(a) == h implies self.run_before(h) == self.run_at(a) by {
            assert(self.head_count@[a] != 0);
        }
    }

    /// The first non-empty bucket at or above a count is that of the smallest free
    /// runs that are large enough; there is none where no run is.
    pub proof fn lemma_first_run(&self, n: int)
        requires
            self.wf(),
            n >= 0,
        ensures
            n > 0 ==> (first_nonempty(self.stacks(), n) is None <==> forall|h: int| #[trigger]
                self.is_head(h) ==> self.run_at(h) < n),
            first_nonempty(self.stacks(), n) matches Some(m) ==> forall|h: int| #[trigger]
                self.is_head(h) && self.run_at(h) >= n ==> self.run_at(h) >= m,
    {
        lemma_first_nonempty(self.stacks@, n);
        assert forall|h: int| #[trigger] self.is_head(h) && self.run_at(h) >= n implies (match first_nonempty(
            self.stacks(),
            n,
        ) {
            Some(m) => self.run_at(h) >= m,
            None => false,
        }) by {
            let c = self.head_count@[h] as int;
            assert(c != 0);
            assert(self.stacks@[c].contains(h as u32));
            assert(self.stacks@[c].len() > 0);
        }
        if let Some(m) = first_nonempty(self.stacks(), n) {
            if n > 0 {
                assert(self.entry_ok(m, 0));
                assert(self.is_head(self.stacks@[m][0] as int));
            }
        }
    }

    /// There is one stack for each count up to the number of spans.
    pub proof fn lemma_stack_count(&self)
        requires
            self.wf(),
        ensures
            self.stacks().len() == self.span_count() + 1,
            self.span_count() <= u32::MAX,
    {
    }

    /// Each free run is on its bucket's stack and nowhere else, and each entry of
    /// a stack is a free run of that count.
    pub proof fn lemma_stacks_hold_runs(&self, h: u32, c: int)
        requires
            self.wf(),
            0 <= c < self.stacks().len(),
        ensures
            self.stacks()[c].contains(h) <==> c > 0 && self.is_head(h as int) && self.run_at(h as int)
                == c,
    {
        if self.stacks()[c].contains(h) {
            let i = self.stacks()[c].index_of(h);
            assert(self.entry_ok(c, i));
        }
        if self.is_head(h as int) {
            assert(self.head_count@[h as int] != 0);
        }
    }

    /// Once every span is free again, the whole grid has coalesced into a single
    /// run, which the next request for all of it is served.
    pub proof fn lemma_full_coalesce(&self)
        requires
            self.wf(),
            forall|s: int| 0 <= s < self.span_count() ==> #[trigger] self.covers(s),
        ensures
            self.is_head(0),
            self.run_at(0) == self.span_count(),
            first_nonempty(self.stacks(), self.span_count()) == Some(self.span_count()),
            self.stacks()[self.span_count()] == seq![0u32],
    {
        let n = self.span_count();
        assert(self.covers(0));
        let h0 = choose|h: int| self.in_run(h, 0);
        assert(h0 == 0);
        assert(self.head_count@[0] != 0);
        let c = self.run_at(0);
        if c < n {
            assert(self.covers(c));
            let h1 = choose|h: int| self.in_run(h, c);
            assert(self.is_head(0) && self.is_head(h1));
        }
        self.lemma_stacks_hold_runs(0, n);
        let st = self.stacks()[n];
        assert forall|i: int| 0 <= i < st.len() implies st[i] == 0 by {
            assert(self.entry_ok(n, i));
        }
        assert(st.no_duplicates());
        if st.len() > 1 {
            assert(st[0] != st[1]);
        }
        let k = st.index_of(0);
        assert(st.len() == 1);
    }

    /// A run returned with no free neighbour is the next one served at its exact
    /// count, unsplit: a stable size recycles the same spans.
    pub proof fn lemma_exact_recycle(&self, head: u32, count: u32)
        requires
            self.wf(),
            count >= 1,
            head + count <= self.span_count(),
            !self.is_head(head + count),
            self.run_before(head as int) == 0,
        ensures
            first_nonempty(self.returned(head as int, count as int), count as int) == Some(
                count as int,
            ),
            self.returned(head as int, count as int)[count as int][0] == head,
            served(self.returned(head as int, count as int), count as int, count as int)
                == self.stacks(),
    {
        let st = self.returned(head as int, count as int);
        let c = count as int;
        assert((seq![head] + self.stacks()[c]).drop_first() =~= self.stacks()[c]);
        assert(served(st, c, c) =~= self.stacks());
    }
}

} // verus!
