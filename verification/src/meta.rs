//! Span metadata: recover `(size class, home)` from any object address.
//!
//! The object arena is carved into fixed-size *spans*, each dedicated to one size
//! class and homed on the thread shard that first carved it. A dense table maps
//! `(addr - base) / SPAN_BYTES` to a packed tag, so recovering metadata from an
//! address is one division and one indexed load. This is what lets a free work
//! without a layout.

use vstd::prelude::*;
use crate::bits::{
    bit, bit_mask, count_below, count_ones, lemma_bit_not, lemma_bit_or_and, lemma_bit_zero,
    lemma_count_below, lemma_count_clear_above,
};
use crate::sys::{max_elements, SysBoxSlice};

verus! {

/// log2 of the span size in bytes.
pub const SPAN_BITS: u32 = 16;

pub const SPAN_BYTES: usize = 65536;

/// Free-slot bits per span: a span holds at most `SPAN_BYTES / 8` objects.
pub const SPAN_SLOTS: usize = 8192;

/// 64-bit words that hold a span's free-slot bits.
pub const SPAN_BITMAP_WORDS: usize = 128;

/// Active-list terminator.
pub const NO_SPAN: u32 = 0xffff_ffff;

/// As many spans as hold `len` bytes, and no more.
pub proof fn lemma_spans_in(len: int)
    requires
        0 <= len,
    ensures
        spans_in(len) * 65536 >= len,
        len > 0 ==> (spans_in(len) - 1) * 65536 < len,
        len == 0 ==> spans_in(len) == 0,
{
}

/// Number of spans that overlap an arena of `len` bytes.
pub open spec fn spans_in(len: int) -> int {
    (len + SPAN_BYTES - 1) / SPAN_BYTES as int
}

/// Number of spans that overlap an arena of `len` bytes.
pub fn span_grid(len: usize) -> (n: usize)
    ensures
        n == spans_in(len as int),
        n * 65536 >= len,
        len > 0 ==> (n - 1) * 65536 < len,
        n * SPAN_BITMAP_WORDS <= max_elements(),
        n + 64 <= max_elements(),
{
    if len % SPAN_BYTES == 0 {
        len / SPAN_BYTES
    } else {
        len / SPAN_BYTES + 1
    }
}

/// Out-of-band per-span free bitmaps.
///
/// A free sets the bit for its slot (pure arithmetic, no read of the freed
/// object); a refill scans a span's set bits and computes each object's address,
/// handing them back in ascending-address order. Freed bits are deposited in
/// `free_words` and folded into `alloc_words` by the owner before it hands slots
/// out, so the two sides write different words. A slot is free iff its bit is set
/// in either.
///
/// `next_active` threads spans into singly-linked lists by span index, and
/// `on_list` records membership.
pub struct SpanBitmaps {
    base: usize,
    alloc_words: SysBoxSlice<u64>,
    free_words: SysBoxSlice<u64>,
    next_active: SysBoxSlice<u32>,
    on_list: SysBoxSlice<u32>,
}

impl SpanBitmaps {
    /// First address of the arena.
    pub closed spec fn base(&self) -> int {
        self.base as int
    }

    /// Number of spans covered.
    pub closed spec fn span_count(&self) -> int {
        self.next_active@.len() as int
    }

    /// Bits the owner may hand out, word by word over all spans.
    pub closed spec fn owned(&self) -> Seq<u64> {
        self.alloc_words@
    }

    /// Bits deposited by frees and not yet folded, word by word over all spans.
    pub closed spec fn deposited(&self) -> Seq<u64> {
        self.free_words@
    }

    /// Whether slot `i` of span `s` is free.
    pub open spec fn slot_free(&self, s: int, i: int) -> bool {
        bit(self.owned()[s * SPAN_BITMAP_WORDS + i / 64], i % 64) || bit(
            self.deposited()[s * SPAN_BITMAP_WORDS + i / 64],
            i % 64,
        )
    }

    /// The span after `s` on its list.
    pub closed spec fn link(&self, s: int) -> u32 {
        self.next_active@[s]
    }

    /// Whether span `s` is on a list.
    pub closed spec fn listed(&self, s: int) -> bool {
        self.on_list@[s] != 0
    }

    /// The tables cover every span of the grid, and addresses and span indices
    /// fit their types.
    pub closed spec fn wf(&self) -> bool {
        let n = self.next_active@.len() as int;
        &&& self.alloc_words@.len() == n * SPAN_BITMAP_WORDS
        &&& self.free_words@.len() == n * SPAN_BITMAP_WORDS
        &&& self.on_list@.len() == n
        &&& n < NO_SPAN
        &&& self.base + (n - 1) * SPAN_BYTES <= usize::MAX
    }

    /// The bits are those of `other`, slot by slot.
    pub open spec fn same_slots(&self, other: &SpanBitmaps) -> bool {
        forall|s: int, i: int|
            0 <= s < self.span_count() && 0 <= i < SPAN_SLOTS ==> #[trigger] self.slot_free(s, i)
                == other.slot_free(s, i)
    }

    /// The lists are those of `other`.
    pub open spec fn same_lists(&self, other: &SpanBitmaps) -> bool {
        &&& self.span_count() == other.span_count()
        &&& self.base() == other.base()
        &&& forall|s: int|
            0 <= s < self.span_count() ==> #[trigger] self.link(s) == other.link(s)
        &&& forall|s: int|
            0 <= s < self.span_count() ==> #[trigger] self.listed(s) == other.listed(s)
    }

    /// Build the tables for the arena `[base, base + len)`, with no slot free, no
    /// span listed and no link.
    pub fn new(base: usize, len: usize) -> (maps: SpanBitmaps)
        requires
            base + len <= usize::MAX,
            spans_in(len as int) < NO_SPAN,
        ensures
            maps.wf(),
            maps.base() == base,
            maps.span_count() == spans_in(len as int),
            forall|s: int, i: int|
                0 <= s < maps.span_count() && 0 <= i < SPAN_SLOTS ==> !#[trigger] maps.slot_free(s, i),
            forall|s: int|
                0 <= s < maps.span_count() ==> !(#[trigger] maps.listed(s)),
            forall|s: int|
                0 <= s < maps.span_count() ==> #[trigger] maps.link(s) == NO_SPAN,
    {
        let n: usize = span_grid(len);
        let maps = SpanBitmaps {
            base,
            alloc_words: SysBoxSlice::<u64>::filled(n * SPAN_BITMAP_WORDS, 0),
            free_words: SysBoxSlice::<u64>::filled(n * SPAN_BITMAP_WORDS, 0),
            next_active: SysBoxSlice::<u32>::filled(n, NO_SPAN),
            on_list: SysBoxSlice::<u32>::filled(n, 0),
        };
        proof {
            lemma_bit_zero(0);
        }
        maps
    }

    /// Span index containing `addr`.
    pub fn span_of(&self, addr: usize) -> (s: u32)
        requires
            self.wf(),
            self.base() <= addr,
            (addr - self.base()) / (SPAN_BYTES as int) <= u32::MAX,
        ensures
            s == (addr - self.base()) / SPAN_BYTES as int,
    {
        ((addr - self.base) / SPAN_BYTES) as u32
    }

    /// The spans start below the end of the address space.
    pub proof fn lemma_span_base(&self, idx: int)
        requires
            self.wf(),
            0 <= idx < self.span_count(),
        ensures
            self.base() + idx * SPAN_BYTES <= usize::MAX,
    {
    }

    /// Base address of span `idx`, also where there is no such span.
    pub fn span_base(&self, idx: u32) -> (addr: usize)
        requires
            self.base() + idx * SPAN_BYTES <= usize::MAX,
        ensures
            addr == self.base() + idx * SPAN_BYTES,
    {
        self.base + (idx as usize) * SPAN_BYTES
    }

    /// Locate the object of size `osz` at `addr` as `(span, word, bit)`: its span
    /// index, the bitmap word holding its slot, and the bit within that word.
    pub fn locate(&self, addr: usize, osz: usize) -> (r: (u32, usize, u32))
        requires
            self.wf(),
            self.base() <= addr,
            (addr - self.base()) / (SPAN_BYTES as int) < self.span_count(),
            osz > 0,
        ensures
            r.0 == (addr - self.base()) / SPAN_BYTES as int,
            r.2 < 64,
            64 * r.1 + r.2 == ((addr - self.base()) % SPAN_BYTES as int) / osz as int,
            self.base() + r.0 * 65536 <= addr < self.base() + (r.0 + 1) * 65536,
            self.base() + r.0 * 65536 + (64 * r.1 + r.2) * osz <= addr < self.base() + r.0 * 65536 + (64
                * r.1 + r.2 + 1) * osz,
    {
        let span: u32 = self.span_of(addr);
        let off: usize = addr - self.span_base(span);
        let slot: usize = off / osz;
        assert(slot * osz <= off < (slot + 1) * osz) by (nonlinear_arith)
            requires
                slot == off / osz,
                osz > 0,
        ;
        (span, slot / 64, (slot % 64) as u32)
    }

    /// Whether span `idx` is on its list.
    pub fn is_on_list(&self, idx: u32) -> (b: bool)
        requires
            self.wf(),
            idx < self.span_count(),
        ensures
            b == self.listed(idx as int),
    {
        self.on_list.at(idx as usize) != 0
    }

    /// The next active span after `idx` (or `NO_SPAN`).
    pub fn next(&self, idx: u32) -> (s: u32)
        requires
            self.wf(),
            idx < self.span_count(),
        ensures
            s == self.link(idx as int),
    {
        self.next_active.at(idx as usize)
    }

    /// Push span `idx` onto the front of an active list whose current head is
    /// `head`; returns the new head (`idx`). Marks `idx` on-list.
    pub fn link_front(&mut self, idx: u32, head: u32) -> (h: u32)
        requires
            old(self).wf(),
            idx < old(self).span_count(),
        ensures
            final(self).wf(),
            h == idx,
            final(self).base() == old(self).base(),
            final(self).span_count() == old(self).span_count(),
            final(self).owned() == old(self).owned(),
            final(self).deposited() == old(self).deposited(),
            forall|s: int|
                0 <= s < final(self).span_count() ==> #[trigger] final(self).link(s) == (if s == idx {
                    head
                } else {
                    old(self).link(s)
                }),
            forall|s: int|
                0 <= s < final(self).span_count() ==> #[trigger] final(self).listed(s) == (s == idx
                    || old(self).listed(s)),
    {
        self.next_active.put(idx as usize, head);
        self.on_list.put(idx as usize, 1);
        idx
    }

    /// Deposit the free bit for `slot` of span `idx`.
    pub fn set(&mut self, idx: u32, slot: u32)
        requires
            old(self).wf(),
            idx < old(self).span_count(),
            slot < SPAN_SLOTS,
        ensures
            final(self).wf(),
            final(self).same_lists(old(self)),
            final(self).owned() == old(self).owned(),
            final(self).deposited() == old(self).deposited().update(
                idx * SPAN_BITMAP_WORDS + slot / 64,
                old(self).deposited()[idx * SPAN_BITMAP_WORDS + slot / 64] | (1u64 << ((slot
                    % 64) as u64)),
            ),
            forall|s: int, i: int|
                0 <= s < final(self).span_count() && 0 <= i < SPAN_SLOTS
                    ==> #[trigger] final(self).slot_free(s, i) == (old(self).slot_free(s, i) || (s
                    == idx && i == slot)),
    {
        let mask: u64 = bit_mask(slot % 64);
        self.set_mask(idx, (slot / 64) as usize, mask);
    }

    /// Deposit a whole mask of free bits into word `word` of span `idx`.
    pub fn set_mask(&mut self, idx: u32, word: usize, mask: u64)
        requires
            old(self).wf(),
            idx < old(self).span_count(),
            word < SPAN_BITMAP_WORDS,
        ensures
            final(self).wf(),
            final(self).same_lists(old(self)),
            final(self).owned() == old(self).owned(),
            final(self).deposited() == old(self).deposited().update(
                idx * SPAN_BITMAP_WORDS + word,
                old(self).deposited()[idx * SPAN_BITMAP_WORDS + word] | mask,
            ),
            forall|s: int, i: int|
                0 <= s < final(self).span_count() && 0 <= i < SPAN_SLOTS
                    ==> #[trigger] final(self).slot_free(s, i) == (old(self).slot_free(s, i) || (s
                    == idx && i / 64 == word && bit(mask, i % 64))),
    {
        let k: usize = (idx as usize) * SPAN_BITMAP_WORDS + word;
        let cur: u64 = self.free_words.at(k);
        self.free_words.put(k, cur | mask);
        proof {
            lemma_bit_or_and(cur, mask);
        }
    }

    /// Fold the deposited bits of word `w` of span `idx` into the owner's word,
    /// and return it: the bits the owner may now hand out.
    pub fn fold_free_word(&mut self, idx: u32, w: usize) -> (merged: u64)
        requires
            old(self).wf(),
            idx < old(self).span_count(),
            w < SPAN_BITMAP_WORDS,
        ensures
            final(self).wf(),
            final(self).same_lists(old(self)),
            final(self).same_slots(old(self)),
            merged == final(self).owned()[idx * SPAN_BITMAP_WORDS + w],
            final(self).deposited()[idx * SPAN_BITMAP_WORDS + w] == 0,
            merged == old(self).owned()[idx * SPAN_BITMAP_WORDS + w] | old(self).deposited()[idx
                * SPAN_BITMAP_WORDS + w],
            final(self).owned() == old(self).owned().update(idx * SPAN_BITMAP_WORDS + w, merged),
            final(self).deposited() == old(self).deposited().update(
                idx * SPAN_BITMAP_WORDS + w,
                0,
            ),
            forall|j: int|
                0 <= j < 64 ==> #[trigger] bit(merged, j) == old(self).slot_free(
                    idx as int,
                    64 * w + j,
                ),
    {
        let k: usize = (idx as usize) * SPAN_BITMAP_WORDS + w;
        let cur: u64 = self.alloc_words.at(k);
        let incoming: u64 = self.free_words.at(k);
        proof {
            lemma_bit_or_and(cur, incoming);
            lemma_bit_zero(0);
        }
        if incoming == 0 {
            proof {
                crate::bits::lemma_bit_ext(cur, cur | incoming);
                assert(self.alloc_words@ =~= self.alloc_words@.update(k as int, cur));
                assert(self.free_words@ =~= self.free_words@.update(k as int, 0));
            }
            return cur;
        }
        self.free_words.put(k, 0);
        let merged: u64 = cur | incoming;
        self.alloc_words.put(k, merged);
        merged
    }

    /// Set free bits `mask` directly in the owner's word `w` of span `idx` (the
    /// carver owns fresh slots outright).
    pub fn alloc_set_mask(&mut self, idx: u32, w: usize, mask: u64)
        requires
            old(self).wf(),
            idx < old(self).span_count(),
            w < SPAN_BITMAP_WORDS,
        ensures
            final(self).wf(),
            final(self).same_lists(old(self)),
            final(self).deposited() == old(self).deposited(),
            final(self).owned() == old(self).owned().update(
                idx * SPAN_BITMAP_WORDS + w,
                old(self).owned()[idx * SPAN_BITMAP_WORDS + w] | mask,
            ),
            forall|s: int, i: int|
                0 <= s < final(self).span_count() && 0 <= i < SPAN_SLOTS
                    ==> #[trigger] final(self).slot_free(s, i) == (old(self).slot_free(s, i) || (s
                    == idx && i / 64 == w && bit(mask, i % 64))),
    {
        let k: usize = (idx as usize) * SPAN_BITMAP_WORDS + w;
        let cur: u64 = self.alloc_words.at(k);
        self.alloc_words.put(k, cur | mask);
        proof {
            lemma_bit_or_and(cur, mask);
        }
    }

    /// Clear exactly the bits in `taken` from the owner's word `w` of span `idx`
    /// (the slots a refill just handed out).
    pub fn alloc_clear(&mut self, idx: u32, w: usize, taken: u64)
        requires
            old(self).wf(),
            idx < old(self).span_count(),
            w < SPAN_BITMAP_WORDS,
        ensures
            final(self).wf(),
            final(self).same_lists(old(self)),
            final(self).deposited() == old(self).deposited(),
            final(self).owned() == old(self).owned().update(
                idx * SPAN_BITMAP_WORDS + w,
                old(self).owned()[idx * SPAN_BITMAP_WORDS + w] & !taken,
            ),
            forall|j: int|
                0 <= j < 64 ==> #[trigger] bit(
                    final(self).owned()[idx * SPAN_BITMAP_WORDS + w],
                    j,
                ) == (bit(old(self).owned()[idx * SPAN_BITMAP_WORDS + w], j) && !bit(taken, j)),
            forall|s: int, i: int|
                0 <= s < final(self).span_count() && 0 <= i < SPAN_SLOTS
                    ==> #[trigger] final(self).slot_free(s, i) == (old(self).slot_free(s, i) && !(s
                    == idx && i / 64 == w && bit(taken, i % 64)) || bit(
                    old(self).deposited()[s * SPAN_BITMAP_WORDS + i / 64],
                    i % 64,
                )),
    {
        let k: usize = (idx as usize) * SPAN_BITMAP_WORDS + w;
        let cur: u64 = self.alloc_words.at(k);
        self.alloc_words.put(k, cur & !taken);
        proof {
            lemma_bit_not(taken);
            lemma_bit_or_and(cur, !taken);
        }
    }

    /// How many bits are set in the first `k` words of span `s`, counting a slot
    /// free on either side.
    pub open spec fn free_bits(&self, s: int, k: nat) -> nat
        decreases k,
    {
        if k == 0 {
            0
        } else {
            self.free_bits(s, (k - 1) as nat) + count_below(
                self.owned()[s * SPAN_BITMAP_WORDS + k - 1] | self.deposited()[s * SPAN_BITMAP_WORDS
                    + k - 1],
                64,
            )
        }
    }

    /// The first `n` words of span `s` are folded, and all others as in `other`.
    pub open spec fn folded(&self, other: &SpanBitmaps, s: int, n: int) -> bool {
        let lo = s * SPAN_BITMAP_WORDS;
        &&& self.owned() == merged_at(other.owned(), other.deposited(), lo, n)
        &&& self.deposited() == zeroed_at(other.deposited(), lo, n)
    }

    /// Whether span `idx` is fully free for a class that tiles it into
    /// `slots_per_span` slots: every word is folded, and as many bits are set as
    /// there are slots. Where no bit past the last slot is set, that holds
    /// exactly when every slot is free.
    pub fn is_fully_free(&mut self, idx: u32, slots_per_span: usize) -> (b: bool)
        requires
            old(self).wf(),
            idx < old(self).span_count(),
            slots_per_span <= SPAN_SLOTS,
        ensures
            final(self).wf(),
            final(self).same_lists(old(self)),
            final(self).same_slots(old(self)),
            final(self).folded(
                old(self),
                idx as int,
                (slots_per_span + 63) / 64,
            ),
            b == (old(self).free_bits(idx as int, ((slots_per_span + 63) / 64) as nat)
                == slots_per_span),
            (forall|i: int|
                slots_per_span <= i < SPAN_SLOTS ==> !old(self).slot_free(idx as int, i)) ==> (b <==> (
            forall|i: int| 0 <= i < slots_per_span ==> old(self).slot_free(idx as int, i))),
    {
        let nwords: usize = (slots_per_span + 63) / 64;
        let mut free_count: u32 = 0;
        let mut w: usize = 0;
        let ghost before = *self;
        proof {
            let lo = idx * SPAN_BITMAP_WORDS;
            assert(self.owned() =~= merged_at(before.owned(), before.deposited(), lo, 0));
            assert(self.deposited() =~= zeroed_at(before.deposited(), lo, 0));
        }
        while w < nwords
            invariant
                w <= nwords <= SPAN_BITMAP_WORDS,
                free_count <= 64 * w,
                free_count == before.free_bits(idx as int, w as nat),
                idx < before.span_count(),
                before.wf(),
                self.wf(),
                self.same_lists(&before),
                self.same_slots(&before),
                self.folded(&before, idx as int, w as int),
                forall|v: int|
                    w <= v < SPAN_BITMAP_WORDS ==> #[trigger] self.owned()[idx * SPAN_BITMAP_WORDS + v]
                        == before.owned()[idx * SPAN_BITMAP_WORDS + v],
                forall|v: int|
                    w <= v < SPAN_BITMAP_WORDS ==> #[trigger] self.deposited()[idx * SPAN_BITMAP_WORDS
                        + v] == before.deposited()[idx * SPAN_BITMAP_WORDS + v],
                forall|v: int|
                    0 <= v < w ==> #[trigger] self.deposited()[idx * SPAN_BITMAP_WORDS + v] == 0,
            decreases nwords - w,
        {
            let ghost mid = *self;
            let word: u64 = self.fold_free_word(idx, w);
            proof {
                lemma_count_below(word, 64);
            }
            free_count = free_count + count_ones(word);
            w = w + 1;
            proof {
                let k = idx * SPAN_BITMAP_WORDS + w - 1;
                assert(before.owned()[k] == mid.owned()[k]);
                assert(before.deposited()[k] == mid.deposited()[k]);
                let lo = idx * SPAN_BITMAP_WORDS;
                assert(self.owned() =~= merged_at(
                    before.owned(),
                    before.deposited(),
                    lo,
                    w as int,
                ));
                assert(self.deposited() =~= zeroed_at(before.deposited(), lo, w as int));
                assert forall|s: int, i: int|
                    0 <= s < self.span_count() && 0 <= i < SPAN_SLOTS implies #[trigger] self.slot_free(
                    s,
                    i,
                ) == before.slot_free(s, i) by {
                    assert(self.slot_free(s, i) == mid.slot_free(s, i));
                }
            }
        }
        proof {
            if forall|i: int|
                slots_per_span <= i < SPAN_SLOTS ==> !before.slot_free(idx as int, i) {
                before.lemma_full(idx as int, slots_per_span as int);
            }
        }
        if free_count as usize != slots_per_span {
            return false;
        }
        w = 0;
        while w < nwords
            invariant
                w <= nwords <= SPAN_BITMAP_WORDS,
                idx < self.span_count(),
                self.wf(),
                forall|v: int|
                    0 <= v < nwords ==> #[trigger] self.deposited()[idx * SPAN_BITMAP_WORDS + v] == 0,
            decreases nwords - w,
        {
            let k: usize = (idx as usize) * SPAN_BITMAP_WORDS + w;
            assert(self.deposited()[idx * SPAN_BITMAP_WORDS + w] == 0);
            if self.free_words.at(k) != 0 {
                return false;
            }
            w = w + 1;
        }
        true
    }

    /// With no bit set past the last slot, the count reaches `slots` exactly when
    /// all slots are free.
    proof fn lemma_full(&self, s: int, slots: int)
        requires
            0 <= slots <= SPAN_SLOTS,
            forall|i: int| slots <= i < SPAN_SLOTS ==> !self.slot_free(s, i),
        ensures
            self.free_bits(s, ((slots + 63) / 64) as nat) == slots <==> (forall|i: int|
                0 <= i < slots ==> self.slot_free(s, i)),
    {
        let full = slots / 64;
        self.lemma_full_words(s, full as nat);
        if slots % 64 != 0 {
            let a = self.owned()[s * SPAN_BITMAP_WORDS + full];
            let d = self.deposited()[s * SPAN_BITMAP_WORDS + full];
            let w = a | d;
            let r = (slots % 64) as nat;
            lemma_bit_or_and(a, d);
            assert forall|j: int| r <= j < 64 implies !#[trigger] bit(w, j) by {
                assert(!self.slot_free(s, 64 * full + j));
            }
            lemma_count_clear_above(w, r, 64);
            lemma_count_below(w, r);
            assert((slots + 63) / 64 == full + 1);
            assert(self.free_bits(s, (full + 1) as nat) == self.free_bits(s, full as nat)
                + count_below(w, 64));
            if forall|i: int| 0 <= i < slots ==> self.slot_free(s, i) {
                assert forall|j: int| 0 <= j < r implies #[trigger] bit(w, j) by {
                    assert(self.slot_free(s, 64 * full + j));
                }
            }
            if self.free_bits(s, (full + 1) as nat) == slots {
                assert forall|i: int| 0 <= i < slots implies self.slot_free(s, i) by {
                    if i >= 64 * full {
                        assert(bit(w, i - 64 * full));
                    }
                }
            }
        } else {
            assert((slots + 63) / 64 == full);
        }
    }

    /// `k` whole words hold `64 * k` set bits exactly when every slot is free.
    proof fn lemma_full_words(&self, s: int, k: nat)
        ensures
            self.free_bits(s, k) <= 64 * k,
            self.free_bits(s, k) == 64 * k <==> (forall|i: int|
                0 <= i < 64 * k ==> self.slot_free(s, i)),
        decreases k,
    {
        if k > 0 {
            self.lemma_full_words(s, (k - 1) as nat);
            let a = self.owned()[s * SPAN_BITMAP_WORDS + k - 1];
            let d = self.deposited()[s * SPAN_BITMAP_WORDS + k - 1];
            let w = a | d;
            lemma_bit_or_and(a, d);
            lemma_count_below(w, 64);
            assert forall|j: int| 0 <= j < 64 implies #[trigger] bit(w, j) == self.slot_free(
                s,
                64 * (k - 1) + j,
            ) by {
                assert((64 * (k - 1) + j) / 64 == k - 1);
                assert((64 * (k - 1) + j) % 64 == j);
            }
            if self.free_bits(s, k) == 64 * k {
                assert forall|i: int| 0 <= i < 64 * k implies self.slot_free(s, i) by {
                    if i >= 64 * (k - 1) {
                        assert(bit(w, i - 64 * (k - 1)));
                    }
                }
            }
            if forall|i: int| 0 <= i < 64 * k ==> self.slot_free(s, i) {
                assert forall|j: int| 0 <= j < 64 implies #[trigger] bit(w, j) by {
                    assert(self.slot_free(s, 64 * (k - 1) + j));
                }
            }
        }
    }

    /// Unlink span `idx` from an active list given its predecessor (`prev`, or
    /// `NO_SPAN` if `idx` is the head `head`). Returns the list's head afterwards.
    /// Marks `idx` off-list.
    pub fn unlink_active(&mut self, idx: u32, prev: u32, head: u32) -> (h: u32)
        requires
            old(self).wf(),
            idx < old(self).span_count(),
            prev == NO_SPAN || prev < old(self).span_count(),
            prev != idx,
            prev == NO_SPAN ==> head == idx,
        ensures
            final(self).wf(),
            final(self).base() == old(self).base(),
            final(self).span_count() == old(self).span_count(),
            final(self).owned() == old(self).owned(),
            final(self).deposited() == old(self).deposited(),
            h == if prev == NO_SPAN {
                old(self).link(idx as int)
            } else {
                head
            },
            forall|s: int|
                0 <= s < final(self).span_count() ==> #[trigger] final(self).link(s) == (if s == idx {
                    NO_SPAN
                } else if s == prev {
                    old(self).link(idx as int)
                } else {
                    old(self).link(s)
                }),
            forall|s: int|
                0 <= s < final(self).span_count() ==> #[trigger] final(self).listed(s) == (s != idx
                    && old(self).listed(s)),
    {
        let succ: u32 = self.next_active.at(idx as usize);
        let new_head: u32 = if prev == NO_SPAN {
            succ
        } else {
            self.next_active.put(prev as usize, succ);
            head
        };
        self.next_active.put(idx as usize, NO_SPAN);
        self.on_list.put(idx as usize, 0);
        new_head
    }

    /// Reset the first `clear_words` words of span `idx`'s bitmaps to empty, in
    /// preparation for re-tiling or for returning the span to the pool.
    pub fn reset_bitmaps(&mut self, idx: u32, clear_words: usize)
        requires
            old(self).wf(),
            idx < old(self).span_count(),
            clear_words <= SPAN_BITMAP_WORDS,
        ensures
            final(self).wf(),
            final(self).same_lists(old(self)),
            final(self).owned() == zeroed_at(
                old(self).owned(),
                idx * SPAN_BITMAP_WORDS,
                clear_words as int,
            ),
            final(self).deposited() == zeroed_at(
                old(self).deposited(),
                idx * SPAN_BITMAP_WORDS,
                clear_words as int,
            ),
            forall|s: int, i: int|
                0 <= s < final(self).span_count() && 0 <= i < SPAN_SLOTS
                    ==> #[trigger] final(self).slot_free(s, i) == (old(self).slot_free(s, i) && !(s
                    == idx && i < 64 * clear_words)),
    {
        let ghost before = *self;
        let mut w: usize = 0;
        while w < clear_words
            invariant
                w <= clear_words <= SPAN_BITMAP_WORDS,
                idx < self.span_count(),
                self.wf(),
                self.next_active == before.next_active,
                self.on_list == before.on_list,
                self.base == before.base,
                self.owned() == zeroed_at(
                    before.owned(),
                    idx * SPAN_BITMAP_WORDS,
                    w as int,
                ),
                self.deposited() == zeroed_at(
                    before.deposited(),
                    idx * SPAN_BITMAP_WORDS,
                    w as int,
                ),
                forall|s: int, i: int|
                    0 <= s < self.span_count() && 0 <= i < SPAN_SLOTS
                        ==> #[trigger] self.slot_free(s, i) == (before.slot_free(s, i) && !(s == idx
                        && i < 64 * w)),
            decreases clear_words - w,
        {
            let k: usize = (idx as usize) * SPAN_BITMAP_WORDS + w;
            let ghost mid = *self;
            self.alloc_words.put(k, 0);
            self.free_words.put(k, 0);
            proof {
                lemma_bit_zero(0);
                assert forall|s: int, i: int|
                    0 <= s < self.span_count() && 0 <= i < SPAN_SLOTS implies #[trigger] self.slot_free(
                    s,
                    i,
                ) == (before.slot_free(s, i) && !(s == idx && i < 64 * (w + 1))) by {
                    assert(mid.slot_free(s, i) == (before.slot_free(s, i) && !(s == idx && i < 64
                        * w)));
                    if s * SPAN_BITMAP_WORDS + i / 64 != k {
                        assert(self.slot_free(s, i) == mid.slot_free(s, i));
                    }
                }
            }
            w = w + 1;
        }
    }
}

/// The words with the bits of `ds` added to the `n` from `lo` on.
pub open spec fn merged_at(ws: Seq<u64>, ds: Seq<u64>, lo: int, n: int) -> Seq<u64> {
    Seq::new(
        ws.len(),
        |k: int|
            if lo <= k < lo + n {
                ws[k] | ds[k]
            } else {
                ws[k]
            },
    )
}

/// The words with the `n` from `lo` on set to zero.
pub open spec fn zeroed_at(ws: Seq<u64>, lo: int, n: int) -> Seq<u64> {
    Seq::new(
        ws.len(),
        |k: int|
            if lo <= k < lo + n {
                0
            } else {
                ws[k]
            },
    )
}

/// Per-span metadata: the size class (0 together with home 0 = not assigned) and
/// the home shard, packed into one word.
#[derive(Clone, Copy, Debug, PartialEq, Eq, Structural)]
pub struct SpanMeta {
    packed: u32,
}

/// The word that packs `class` and `home`.
pub open spec fn packed_tag(class: int, home: int) -> int {
    class * 65536 + home
}

/// What a packed word says: `(class, home)`, or nothing for the zero word.
pub open spec fn unpacked_tag(v: u32) -> Option<(u16, u16)> {
    if v == 0 {
        None
    } else {
        Some(((v / 65536) as u16, (v % 65536) as u16))
    }
}

/// A tag other than `(0, 0)` is read back as it was packed.
pub proof fn lemma_tag_roundtrip(class: u16, home: u16)
    ensures
        packed_tag(class as int, home as int) <= u32::MAX,
        class != 0 || home != 0 ==> unpacked_tag(packed_tag(class as int, home as int) as u32)
            == Some((class, home)),
{
}

impl SpanMeta {
    /// The packed word.
    pub closed spec fn word(&self) -> u32 {
        self.packed
    }

    /// An unassigned entry.
    pub fn new() -> (m: SpanMeta)
        ensures
            m.word() == 0,
    {
        SpanMeta { packed: 0 }
    }

    fn pack(class: u16, home_cpu: u16) -> (v: u32)
        ensures
            v == packed_tag(class as int, home_cpu as int),
    {
        (class as u32) * 65536 + (home_cpu as u32)
    }

    /// Set the entry to `(class, home_cpu)`.
    pub fn assign(&mut self, class: u16, home_cpu: u16)
        ensures
            final(self).word() == packed_tag(class as int, home_cpu as int),
            final(self).word() as int / 65536 == class,
            final(self).word() as int % 65536 == home_cpu,
    {
        self.packed = SpanMeta::pack(class, home_cpu);
    }

    /// Returns `(class, home_cpu)` or `None` if unassigned.
    pub fn load(&self) -> (r: Option<(u16, u16)>)
        ensures
            r == unpacked_tag(self.word()),
            r is None <==> self.word() == 0,
            r matches Some(t) ==> t.0 == self.word() as int / 65536 && t.1 == self.word() as int
                % 65536,
    {
        self.unpack(self.packed)
    }

    /// Like [`load`](Self::load), for the free path, whose caller already holds a
    /// live address in the span.
    pub fn load_relaxed(&self) -> (r: Option<(u16, u16)>)
        ensures
            r == unpacked_tag(self.word()),
            r is None <==> self.word() == 0,
            r matches Some(t) ==> t.0 == self.word() as int / 65536 && t.1 == self.word() as int
                % 65536,
    {
        self.unpack(self.packed)
    }

    /// The raw packed word.
    pub fn load_packed_relaxed(&self) -> (v: u32)
        ensures
            v == self.word(),
    {
        self.packed
    }

    fn unpack(&self, v: u32) -> (r: Option<(u16, u16)>)
        ensures
            r == unpacked_tag(v),
    {
        if v == 0 {
            return None;
        }
        Some(((v / 65536) as u16, (v % 65536) as u16))
    }
}

/// The span table for one arena: one packed [`SpanMeta`] word per span of
/// `[base, base + len)`.
pub struct SpanTable {
    base: usize,
    len: usize,
    entries: SysBoxSlice<u32>,
}

impl SpanTable {
    /// First address covered.
    pub closed spec fn base(&self) -> int {
        self.base as int
    }

    /// Number of bytes covered.
    pub closed spec fn size(&self) -> int {
        self.len as int
    }

    /// What span `s` is assigned to.
    pub closed spec fn tag(&self, s: int) -> Option<(u16, u16)> {
        unpacked_tag(self.entries@[s])
    }

    /// The table has an entry for every span of its range.
    pub closed spec fn wf(&self) -> bool {
        &&& self.base + self.len <= usize::MAX
        &&& self.entries@.len() == spans_in(self.len as int)
    }

    /// Whether `addr` lies in the range covered.
    pub open spec fn covers(&self, addr: int) -> bool {
        self.base() <= addr < self.base() + self.size()
    }

    /// The index of the span that holds `addr`.
    pub open spec fn span_at(&self, addr: int) -> int {
        (addr - self.base()) / SPAN_BYTES as int
    }

    /// What the span that holds `addr` is assigned to; nothing outside the range.
    pub open spec fn tag_at(&self, addr: int) -> Option<(u16, u16)> {
        if self.covers(addr) {
            self.tag(self.span_at(addr))
        } else {
            None
        }
    }

    /// Whether span `s` overlaps `[addr, addr + bytes)`, which starts in the range.
    pub open spec fn touches(&self, addr: usize, bytes: usize, s: int) -> bool {
        &&& self.covers(addr as int)
        &&& bytes > 0
        &&& self.span_at(addr as int) <= s <= self.span_at(addr + bytes - 1)
    }

    /// The spans that overlap `[addr, addr + bytes)` are assigned to
    /// `(class, home_cpu)`, and every other one as in `other`.
    pub open spec fn assigned(
        &self,
        other: &SpanTable,
        addr: usize,
        bytes: usize,
        class: u16,
        home_cpu: u16,
    ) -> bool {
        &&& self.base() == other.base()
        &&& self.size() == other.size()
        &&& forall|s: int|
            0 <= s < spans_in(other.size()) ==> #[trigger] self.tag(s) == (if other.touches(
                addr,
                bytes,
                s,
            ) {
                unpacked_tag(packed_tag(class as int, home_cpu as int) as u32)
            } else {
                other.tag(s)
            })
    }

    /// Build a table covering `[base, base + len)`, with every span unassigned.
    pub fn new(base: usize, len: usize) -> (table: SpanTable)
        requires
            base + len <= usize::MAX,
        ensures
            table.wf(),
            table.base() == base,
            table.size() == len,
            forall|s: int| 0 <= s < spans_in(len as int) ==> #[trigger] table.tag(s) is None,
    {
        let entries = SysBoxSlice::<u32>::filled(span_grid(len), 0);
        SpanTable { base, len, entries }
    }

    fn index_of(&self, addr: usize) -> (r: Option<usize>)
        requires
            self.wf(),
        ensures
            r.is_some() <==> self.covers(addr as int),
            r matches Some(i) ==> i == self.span_at(addr as int) && i < self.entries@.len(),
    {
        if addr < self.base || addr >= self.base + self.len {
            return None;
        }
        Some((addr - self.base) / SPAN_BYTES)
    }

    /// Assign every span overlapping `[addr, addr + bytes)` to
    /// `(class, home_cpu)`, as far as the table reaches. An address outside the
    /// table assigns nothing.
    pub fn assign_range(&mut self, addr: usize, bytes: usize, class: u16, home_cpu: u16)
        requires
            old(self).wf(),
        ensures
            final(self).wf(),
            final(self).assigned(old(self), addr, bytes, class, home_cpu),
            class != 0 || home_cpu != 0 ==> forall|p: int|
                old(self).covers(addr as int) && addr <= p < addr + bytes && old(self).covers(p)
                    ==> #[trigger] final(self).tag_at(p) == Some((class, home_cpu)),
    {
        let start: usize = match self.index_of(addr) {
            Some(i) => i,
            None => {
                return;
            },
        };
        if bytes == 0 {
            return;
        }
        let end_addr: usize = if bytes - 1 <= usize::MAX - addr {
            addr + (bytes - 1)
        } else {
            usize::MAX
        };
        let last: usize = span_grid(self.len) - 1;
        let reach: usize = (end_addr - self.base) / SPAN_BYTES;
        let end: usize = if reach < last {
            reach
        } else {
            last
        };
        let word: u32 = SpanMeta::pack(class, home_cpu);
        let ghost before = *self;
        let mut i: usize = start;
        while i <= end
            invariant
                start <= i <= end + 1,
                end < self.entries@.len(),
                end < usize::MAX,
                self.base == before.base,
                self.len == before.len,
                self.wf(),
                word == packed_tag(class as int, home_cpu as int),
                self.entries@.len() == before.entries@.len(),
                forall|s: int|
                    0 <= s < self.entries@.len() ==> #[trigger] self.entries@[s] == (if start <= s < i {
                        word
                    } else {
                        before.entries@[s]
                    }),
            decreases end + 1 - i,
        {
            self.entries.put(i, word);
            i = i + 1;
        }
        proof {
            assert(self.assigned(&before, addr, bytes, class, home_cpu));
            if class != 0 || home_cpu != 0 {
                assert forall|p: int|
                    before.covers(addr as int) && addr <= p < addr + bytes && before.covers(
                        p,
                    ) implies #[trigger] self.tag_at(p) == Some((class, home_cpu)) by {
                    self.lemma_assigned_lookup(&before, addr, bytes, class, home_cpu, p);
                }
            }
        }
    }

    /// Recover `(class, home_cpu)` for an object address, or `None` if it is
    /// outside this arena or its span is unassigned.
    pub fn lookup(&self, addr: usize) -> (r: Option<(u16, u16)>)
        requires
            self.wf(),
        ensures
            r == self.tag_at(addr as int),
    {
        match self.index_of(addr) {
            Some(i) => (SpanMeta { packed: self.entries.at(i) }).load(),
            None => None,
        }
    }

    /// [`lookup`](Self::lookup) for the free path.
    pub fn lookup_relaxed(&self, addr: usize) -> (r: Option<(u16, u16)>)
        requires
            self.wf(),
        ensures
            r == self.tag_at(addr as int),
    {
        match self.index_of(addr) {
            Some(i) => (SpanMeta { packed: self.entries.at(i) }).load_relaxed(),
            None => None,
        }
    }

    /// The home field alone for an address in the arena (0 where its span is
    /// unassigned); `u16::MAX` for one outside it.
    pub fn home_relaxed(&self, addr: usize) -> (home: u16)
        requires
            self.wf(),
        ensures
            home == if !self.covers(addr as int) {
                u16::MAX
            } else {
                match self.tag(self.span_at(addr as int)) {
                    Some(t) => t.1,
                    None => 0,
                }
            },
    {
        if addr < self.base || addr >= self.base + self.len {
            return u16::MAX;
        }
        let idx: usize = (addr - self.base) / SPAN_BYTES;
        let m = SpanMeta { packed: self.entries.at(idx) };
        (m.load_packed_relaxed() % 65536) as u16
    }

    /// Whether `addr` falls within this arena's address range.
    pub fn contains(&self, addr: usize) -> (b: bool)
        requires
            self.wf(),
        ensures
            b == self.covers(addr as int),
    {
        addr >= self.base && addr < self.base + self.len
    }

    proof fn lemma_range_kept(tables: Seq<SpanTable>, ranges: Seq<(usize, usize, u16, u16)>)
        requires
            tables.len() == ranges.len() + 1,
            forall|i: int|
                0 <= i < ranges.len() ==> (#[trigger] tables[i + 1]).assigned(
                    &tables[i],
                    ranges[i].0,
                    ranges[i].1,
                    ranges[i].2,
                    ranges[i].3,
                ),
        ensures
            tables.last().base() == tables[0].base(),
            tables.last().size() == tables[0].size(),
        decreases ranges.len(),
    {
        let n = ranges.len() as int;
        if n > 0 {
            let start = tables.drop_last();
            let rest = ranges.drop_last();
            assert forall|i: int| 0 <= i < rest.len() implies (#[trigger] start[i + 1]).assigned(
                &start[i],
                rest[i].0,
                rest[i].1,
                rest[i].2,
                rest[i].3,
            ) by {
                assert(tables[i + 1].assigned(
                    &tables[i],
                    ranges[i].0,
                    ranges[i].1,
                    ranges[i].2,
                    ranges[i].3,
                ));
            }
            SpanTable::lemma_range_kept(start, rest);
            assert(tables[n - 1 + 1].base() == tables[n - 1].base());
        }
    }

    /// After a range was assigned, every address that shares a span with it looks up as
    /// just that, and every other one as before.
    pub proof fn lemma_assigned_lookup(
        &self,
        other: &SpanTable,
        addr: usize,
        bytes: usize,
        class: u16,
        home: u16,
        p: int,
    )
        requires
            self.assigned(other, addr, bytes, class, home),
            class != 0 || home != 0,
        ensures
            !other.covers(p) ==> self.tag_at(p) is None,
            other.covers(p) && other.covers(addr as int) && bytes > 0 ==> {
                let lo = p - (p - other.base()) % 65536;
                self.tag_at(p) == if lo < addr + bytes && addr < lo + 65536 {
                    Some((class, home))
                } else {
                    other.tag_at(p)
                }
            },
            !other.covers(addr as int) || bytes == 0 ==> self.tag_at(p) == other.tag_at(p),
    {
        lemma_tag_roundtrip(class, home);
        if other.covers(p) {
            let s = other.span_at(p);
            lemma_spans_in(other.size());
            assert(0 <= s < spans_in(other.size()));
            assert(self.tag(s) == (if other.touches(addr, bytes, s) {
                unpacked_tag(packed_tag(class as int, home as int) as u32)
            } else {
                other.tag(s)
            }));
        }
    }

    /// The last assignment of a span wins: after the assignments `ranges`, each an
    /// address, a length, a class and a home, a span is what the last one that
    /// touched it says (number `k`), and as it was in the beginning if none did
    /// (`k` is -1).
    pub proof fn lemma_last_assignment(
        tables: Seq<SpanTable>,
        ranges: Seq<(usize, usize, u16, u16)>,
        s: int,
        k: int,
    )
        requires
            tables.len() == ranges.len() + 1,
            forall|i: int|
                0 <= i < ranges.len() ==> (#[trigger] tables[i + 1]).assigned(
                    &tables[i],
                    ranges[i].0,
                    ranges[i].1,
                    ranges[i].2,
                    ranges[i].3,
                ),
            0 <= s < spans_in(tables[0].size()),
            -1 <= k < ranges.len(),
            k >= 0 ==> tables[0].touches(ranges[k].0, ranges[k].1, s),
            forall|i: int|
                k < i < ranges.len() ==> !tables[0].touches(
                    (#[trigger] ranges[i]).0,
                    ranges[i].1,
                    s,
                ),
        ensures
            tables.last().base() == tables[0].base(),
            tables.last().size() == tables[0].size(),
            k < 0 ==> tables.last().tag(s) == tables[0].tag(s),
            k >= 0 ==> tables.last().tag(s) == (if ranges[k].2 == 0 && ranges[k].3 == 0 {
                None::<(u16, u16)>
            } else {
                Some((ranges[k].2, ranges[k].3))
            }),
        decreases ranges.len(),
    {
        let n = ranges.len() as int;
        if n > 0 {
            let start = tables.drop_last();
            let rest = ranges.drop_last();
            assert(tables[n - 1 + 1].assigned(
                &tables[n - 1],
                ranges[n - 1].0,
                ranges[n - 1].1,
                ranges[n - 1].2,
                ranges[n - 1].3,
            ));
            assert forall|i: int| 0 <= i < rest.len() implies (#[trigger] start[i + 1]).assigned(
                &start[i],
                rest[i].0,
                rest[i].1,
                rest[i].2,
                rest[i].3,
            ) by {
                assert(tables[i + 1].assigned(
                    &tables[i],
                    ranges[i].0,
                    ranges[i].1,
                    ranges[i].2,
                    ranges[i].3,
                ));
            }
            if k == n - 1 {
                SpanTable::lemma_range_kept(start, rest);
                lemma_tag_roundtrip(ranges[k].2, ranges[k].3);
            } else {
                SpanTable::lemma_last_assignment(start, rest, s, k);
                assert(!tables[0].touches(ranges[n - 1].0, ranges[n - 1].1, s));
            }
        }
    }
}

} // verus!
