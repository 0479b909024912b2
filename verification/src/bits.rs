//! Single-bit reasoning about 64-bit words.

use vstd::prelude::*;
use vstd::arithmetic::power2::{lemma_pow2_pos, pow2};

verus! {

/// Whether bit `i` of `w` is set.
#[verifier::opaque]
pub open spec fn bit(w: u64, i: int) -> bool {
    (w >> (i as u64)) & 1u64 == 1u64
}

/// No bit of zero is set, and a word with no bit set is zero.
pub proof fn lemma_bit_zero(w: u64)
    ensures
        w == 0 <==> forall|i: int| 0 <= i < 64 ==> !#[trigger] bit(w, i),
{
    reveal(bit);
    if w == 0 {
        assert forall|i: int| 0 <= i < 64 implies !#[trigger] bit(w, i) by {
            let k = i as u64;
            assert((0u64 >> k) & 1u64 == 0u64) by (bit_vector);
        }
    } else {
        let k = vstd::std_specs::bits::u64_trailing_zeros(w);
        assert(bit(w, k as int));
    }
}

/// Every bit of the all-ones word is set.
pub proof fn lemma_bit_ones()
    ensures
        forall|i: int| 0 <= i < 64 ==> #[trigger] bit(u64::MAX, i),
{
    reveal(bit);
    assert forall|i: int| 0 <= i < 64 implies #[trigger] bit(u64::MAX, i) by {
        let k = i as u64;
        assert(k < 64 ==> (0xffff_ffff_ffff_ffffu64 >> k) & 1u64 == 1u64) by (bit_vector);
    }
}

/// Union and intersection of words act bit by bit.
pub proof fn lemma_bit_or_and(a: u64, b: u64)
    ensures
        forall|i: int| 0 <= i < 64 ==> #[trigger] bit(a | b, i) == (bit(a, i) || bit(b, i)),
        forall|i: int| 0 <= i < 64 ==> #[trigger] bit(a & b, i) == (bit(a, i) && bit(b, i)),
{
    reveal(bit);
    assert forall|i: int| 0 <= i < 64 implies #[trigger] bit(a | b, i) == (bit(a, i) || bit(b, i))
        by {
        let k = i as u64;
        assert(((a | b) >> k) & 1u64 == 1u64 <==> ((a >> k) & 1u64 == 1u64 || (b >> k) & 1u64
            == 1u64)) by (bit_vector);
    }
    assert forall|i: int| 0 <= i < 64 implies #[trigger] bit(a & b, i) == (bit(a, i) && bit(b, i))
        by {
        let k = i as u64;
        assert(((a & b) >> k) & 1u64 == 1u64 <==> ((a >> k) & 1u64 == 1u64 && (b >> k) & 1u64
            == 1u64)) by (bit_vector);
    }
}

/// Complementing a word flips every bit.
pub proof fn lemma_bit_not(a: u64)
    ensures
        forall|i: int| 0 <= i < 64 ==> #[trigger] bit(!a, i) == !bit(a, i),
{
    reveal(bit);
    assert forall|i: int| 0 <= i < 64 implies #[trigger] bit(!a, i) == !bit(a, i) by {
        let k = i as u64;
        assert(k < 64 ==> (((!a) >> k) & 1u64 == 1u64 <==> (a >> k) & 1u64 != 1u64))
            by (bit_vector);
    }
}

/// Two words with the same bits are equal.
pub proof fn lemma_bit_ext(a: u64, b: u64)
    requires
        forall|i: int| 0 <= i < 64 ==> #[trigger] bit(a, i) == bit(b, i),
    ensures
        a == b,
{
    lemma_bit_zero(a ^ b);
    reveal(bit);
    assert forall|i: int| 0 <= i < 64 implies !#[trigger] bit(a ^ b, i) by {
        let k = i as u64;
        assert(bit(a, i) == bit(b, i));
        assert(((a >> k) & 1u64 == 1u64 <==> (b >> k) & 1u64 == 1u64) ==> ((a ^ b) >> k) & 1u64
            != 1u64) by (bit_vector);
    }
    assert(a ^ b == 0u64 ==> a == b) by (bit_vector);
}

/// The word with only bit `k` set.
pub fn bit_mask(k: u32) -> (m: u64)
    requires
        k < 64,
    ensures
        m == 1u64 << (k as u64),
        forall|i: int| 0 <= i < 64 ==> #[trigger] bit(m, i) == (i == k),
{
    let m: u64 = 1u64 << k;
    proof {
        reveal(bit);
        let kk = k as u64;
        assert(1u64 << k == 1u64 << kk) by (bit_vector)
            requires
                kk == k as u64,
        ;
        assert forall|i: int| 0 <= i < 64 implies #[trigger] bit(m, i) == (i == k) by {
            let j = i as u64;
            assert(j < 64 && kk < 64 ==> (((1u64 << kk) >> j) & 1u64 == 1u64 <==> j == kk))
                by (bit_vector);
        }
    }
    m
}

/// The word with exactly the bits at or above `k` set.
pub fn mask_from(k: u32) -> (m: u64)
    requires
        k < 64,
    ensures
        forall|i: int| 0 <= i < 64 ==> #[trigger] bit(m, i) == (i >= k),
{
    let m: u64 = u64::MAX << k;
    proof {
        reveal(bit);
        let kk = k as u64;
        assert(0xffff_ffff_ffff_ffffu64 << k == 0xffff_ffff_ffff_ffffu64 << kk) by (bit_vector)
            requires
                kk == k as u64,
        ;
        assert forall|i: int| 0 <= i < 64 implies #[trigger] bit(m, i) == (i >= k) by {
            let j = i as u64;
            assert(j < 64 && kk < 64 ==> (((0xffff_ffff_ffff_ffffu64 << kk) >> j) & 1u64 == 1u64
                <==> j >= kk)) by (bit_vector);
        }
    }
    m
}

/// The word with exactly the `n` lowest bits set.
pub fn mask_below(n: u32) -> (m: u64)
    requires
        n <= 64,
    ensures
        forall|i: int| 0 <= i < 64 ==> #[trigger] bit(m, i) == (i < n),
{
    proof {
        lemma_bit_ones();
    }
    if n == 64 {
        u64::MAX
    } else {
        let above = mask_from(n);
        proof {
            lemma_bit_not(above);
        }
        !above
    }
}

/// The index of the lowest set bit of a nonzero word.
pub fn lowest_bit(w: u64) -> (k: u32)
    requires
        w != 0,
    ensures
        k < 64,
        bit(w, k as int),
        forall|i: int| 0 <= i < k ==> !#[trigger] bit(w, i),
{
    let k: u32 = w.trailing_zeros();
    proof {
        reveal(bit);
        assert forall|i: int| 0 <= i < k implies !#[trigger] bit(w, i) by {
            let j = i as u64;
            assert((w >> j) & 1u64 == 0u64);
        }
    }
    k
}

/// How many of the `k` lowest bits of `w` are set.
pub open spec fn count_below(w: u64, k: nat) -> nat
    decreases k,
{
    if k == 0 {
        0
    } else {
        count_below(w, (k - 1) as nat) + if bit(w, k - 1) {
            1nat
        } else {
            0
        }
    }
}

/// The number of set bits.
pub(crate) fn count_ones(w: u64) -> (n: u32)
    ensures
        n == count_below(w, 64),
{
    let mut n: u32 = 0;
    let mut k: u32 = 0;
    while k < 64
        invariant
            k <= 64,
            n <= k,
            n == count_below(w, k as nat),
        decreases 64 - k,
    {
        let m: u64 = bit_mask(k);
        proof {
            lemma_bit_or_and(w, m);
            lemma_bit_zero(w & m);
            assert(bit(w & m, k as int) == bit(w, k as int));
        }
        if w & m != 0 {
            n = n + 1;
        }
        k = k + 1;
    }
    n
}

/// At most `k` of the `k` lowest bits are set, and `k` of them exactly when all
/// are.
pub proof fn lemma_count_below(w: u64, k: nat)
    ensures
        count_below(w, k) <= k,
        count_below(w, k) == k <==> forall|i: int| 0 <= i < k ==> #[trigger] bit(w, i),
    decreases k,
{
    if k > 0 {
        lemma_count_below(w, (k - 1) as nat);
        if count_below(w, k) == k {
            assert(bit(w, k - 1));
        }
        if forall|i: int| 0 <= i < k ==> #[trigger] bit(w, i) {
            assert(bit(w, k - 1));
        }
    }
}

/// Bits above `k` that are all clear add nothing to the count.
pub proof fn lemma_count_clear_above(w: u64, k: nat, n: nat)
    requires
        k <= n,
        forall|i: int| k <= i < n ==> !#[trigger] bit(w, i),
    ensures
        count_below(w, n) == count_below(w, k),
    decreases n,
{
    if k < n {
        assert(!bit(w, n - 1));
        lemma_count_clear_above(w, k, (n - 1) as nat);
    }
}

/// Whether `n` is a power of two.
pub open spec fn is_pow2(n: int) -> bool {
    exists|k: nat| n == #[trigger] pow2(k)
}

/// The exponent of a power of two.
pub fn exact_log2(n: usize) -> (r: Option<u32>)
    ensures
        r matches Some(s) ==> n == pow2(s as nat) && s < usize::BITS,
        r is None <==> !is_pow2(n as int),
{
    let mut s: u32 = 0;
    let mut v: usize = 1;
    proof {
        vstd::arithmetic::power2::lemma2_to64();
    }
    while v < n && v <= usize::MAX / 2
        invariant
            v == pow2(s as nat),
            s < usize::BITS,
            v >= 1,
            n > 0 ==> (s > 0 ==> pow2((s - 1) as nat) < n),
        decreases usize::MAX - v,
    {
        proof {
            vstd::arithmetic::power2::lemma_pow2_unfold((s + 1) as nat);
            lemma_fits((s + 1) as nat, 2 * v as int);
        }
        s = s + 1;
        v = v * 2;
    }
    if v == n {
        Some(s)
    } else {
        proof {
            if is_pow2(n as int) {
                let k = choose|k: nat| n == #[trigger] pow2(k);
                if k < s {
                    lemma_pow2_le(k, (s - 1) as nat);
                } else {
                    lemma_pow2_le(s as nat, k);
                    if k > s {
                        vstd::arithmetic::power2::lemma_pow2_unfold((s + 1) as nat);
                        lemma_pow2_le((s + 1) as nat, k);
                    }
                }
            }
        }
        None
    }
}

proof fn lemma_pow2_le(a: nat, b: nat)
    requires
        a <= b,
    ensures
        1 <= pow2(a) <= pow2(b),
{
    lemma_pow2_pos(a);
    if a < b {
        vstd::arithmetic::power2::lemma_pow2_strictly_increases(a, b);
    }
}

/// A power of two that fits a machine word has an exponent below its width.
proof fn lemma_fits(k: nat, v: int)
    requires
        v == pow2(k),
        v <= usize::MAX,
    ensures
        k < usize::BITS,
{
    if k >= usize::BITS {
        lemma_pow2_le(usize::BITS as nat, k);
        vstd::arithmetic::power2::lemma2_to64();
        vstd::arithmetic::power2::lemma2_to64_rest();
    }
}

/// The low byte of a number is what a division by 256 leaves.
pub proof fn lemma_low_byte(x: u64)
    ensures
        x & 0xff == x % 256,
{
    assert(x & 0xff == x % 256) by (bit_vector);
}

/// As [`lemma_low_byte`], for machine words.
pub proof fn lemma_low_byte_word(x: usize)
    ensures
        x & 0xff == x % 256,
{
    assert(x & 0xff == x % 256) by (bit_vector);
}

} // verus!
