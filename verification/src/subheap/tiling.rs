//! How size classes tile spans.
//!
//! A class of at most one span's size tiles each of its spans with as many
//! objects as fit. A larger class has one object per group of spans, at the
//! group's first byte.

use vstd::prelude::*;
use crate::meta::{SPAN_BYTES, SPAN_SLOTS};
use crate::sizeclass::{
    class_size, is_class, lemma_class_sizes, size_of_class, CLASS_SIZES, NUM_CLASSES,
};

verus! {

/// Objects of class `c` per span (or per group of spans).
pub open spec fn slots_of(c: int) -> int {
    if class_size(c) > SPAN_BYTES {
        1
    } else {
        SPAN_BYTES as int / class_size(c)
    }
}

/// Spans one object of class `c` lies in, and so the spans per group.
pub open spec fn group_of(c: int) -> int {
    (class_size(c) + SPAN_BYTES - 1) / SPAN_BYTES as int
}

/// Address of slot `i` of the span (group) of class `c` that starts at span `s`.
pub open spec fn slot_addr(base: int, s: int, i: int, c: int) -> int {
    base + s * SPAN_BYTES + i * class_size(c)
}

/// The span that holds address `a`.
pub open spec fn span_index(base: int, a: int) -> int {
    (a - base) / SPAN_BYTES as int
}

/// The slot that address `a` falls in, in a span tiled by class `c`.
pub open spec fn slot_index(base: int, a: int, c: int) -> int {
    ((a - base) % SPAN_BYTES as int) / class_size(c)
}

/// Bounds on a class's tiling.
pub proof fn lemma_tiling(c: int)
    requires
        is_class(c),
    ensures
        8 <= class_size(c) <= 262144,
        class_size(c) % 8 == 0,
        1 <= slots_of(c) <= SPAN_SLOTS,
        1 <= group_of(c) <= 4,
        slots_of(c) * class_size(c) <= group_of(c) * SPAN_BYTES,
        class_size(c) <= SPAN_BYTES ==> group_of(c) == 1 && slots_of(c) * class_size(c) <= SPAN_BYTES,
        class_size(c) > SPAN_BYTES ==> slots_of(c) == 1,
{
    lemma_class_sizes();
    let z = class_size(c);
    if z <= SPAN_BYTES {
        let q = SPAN_BYTES as int / z;
        assert(q * z <= 65536 && 1 <= q <= 8192) by (nonlinear_arith)
            requires
                8 <= z <= 65536,
                q == 65536int / z,
        ;
    }
}

/// A class tiles a span as densely as its size allows: the objects fit, and less than
/// one more would. A class of more than a span takes the fewest spans that hold one
/// object.
pub proof fn lemma_dense(c: int)
    requires
        is_class(c),
    ensures
        class_size(c) <= 65536 ==> slots_of(c) * class_size(c) <= 65536 < (slots_of(c) + 1)
            * class_size(c) && group_of(c) == 1,
        class_size(c) > 65536 ==> slots_of(c) == 1,
        group_of(c) * 65536 >= class_size(c),
        (group_of(c) - 1) * 65536 < class_size(c),
{
    lemma_tiling(c);
    let z = class_size(c);
    if z <= 65536 {
        let q = 65536int / z;
        assert(q * z <= 65536 < (q + 1) * z) by (nonlinear_arith)
            requires
                8 <= z <= 65536,
                q == 65536int / z,
        ;
    }
}

/// A slot exists wherever an object of the class fits: the one at `off` bytes into
/// the span, for every multiple of the object's size that leaves room for it.
pub proof fn lemma_slot_fits(c: int, i: int)
    requires
        is_class(c),
        0 <= i,
    ensures
        class_size(c) <= 65536 ==> (i < slots_of(c) <==> (i + 1) * class_size(c) <= 65536),
        class_size(c) > 65536 ==> (i < slots_of(c) <==> i == 0),
{
    lemma_dense(c);
    lemma_tiling(c);
    let z = class_size(c);
    let n = slots_of(c);
    if z <= 65536 {
        assert(i < n ==> (i + 1) * z <= n * z) by (nonlinear_arith)
            requires
                z > 0,
        ;
        assert(i >= n ==> (n + 1) * z <= (i + 1) * z) by (nonlinear_arith)
            requires
                z > 0,
        ;
    }
}

/// A batch takes no more objects the larger they are, between four and 64, and a
/// CPU's stack holds no more, between eight and the base capacity.
pub proof fn lemma_batches(c: int, d: int, base: int)
    requires
        1 <= c <= d < 49,
        0 <= base,
    ensures
        4 <= batch_of(d) <= batch_of(c) <= 64,
        class_size(d) <= 128 ==> batch_of(d) == 64,
        class_size(d) <= 512 ==> batch_of(d) >= 32,
        class_size(d) <= 2048 ==> batch_of(d) >= 16,
        class_size(d) <= 8192 ==> batch_of(d) >= 8,
        class_size(c) > 128 ==> batch_of(c) <= 32,
        class_size(c) > 512 ==> batch_of(c) <= 16,
        class_size(c) > 2048 ==> batch_of(c) <= 8,
        class_size(c) > 8192 ==> batch_of(c) <= 4,
        8 <= cap_of(d, base),
        cap_of(d, base) <= 8 || cap_of(d, base) <= base,
        base >= 24 ==> cap_of(d, base) <= cap_of(c, base) || base / 4 < 24,
        base >= 8 && class_size(d) <= 512 ==> cap_of(d, base) == base,
        base >= 16 && 512 < class_size(d) <= 4096 ==> 2 * cap_of(d, base) <= base < 2 * (cap_of(
            d,
            base,
        ) + 1),
        base >= 32 && 4096 < class_size(d) <= 32768 ==> 4 * cap_of(d, base) <= base < 4 * (cap_of(
            d,
            base,
        ) + 1),
        base >= 24 && class_size(d) > 32768 ==> cap_of(d, base) == 24,
{
    lemma_class_sizes();
    if c < d {
        assert(class_size(c) < class_size(d));
    }
}

/// As many spans are carved for a refill as its batch fills, and no more; a class of
/// more than a span has the spans of one object.
pub proof fn lemma_carve_spans(c: int)
    requires
        is_class(c),
    ensures
        class_size(c) <= 65536 ==> carve_spans_of(c) * slots_of(c) >= batch_of(c) > (carve_spans_of(
            c,
        ) - 1) * slots_of(c),
        class_size(c) > 65536 ==> carve_spans_of(c) * 65536 >= class_size(c) > (carve_spans_of(c)
            - 1) * 65536,
        carve_spans_of(c) >= 1,
{
    lemma_tiling(c);
    let b = batch_of(c);
    let n = slots_of(c);
    let k = (b + n - 1) / n;
    assert(k * n >= b > (k - 1) * n && k >= 1) by (nonlinear_arith)
        requires
            n >= 1,
            b >= 1,
            k == (b + n - 1) / n,
    ;
}

/// A slot's address falls in its span and slot, and inside its group.
pub proof fn lemma_locate(base: int, s: int, i: int, c: int)
    requires
        is_class(c),
        0 <= i < slots_of(c),
        0 <= s,
    ensures
        span_index(base, slot_addr(base, s, i, c)) == s,
        slot_index(base, slot_addr(base, s, i, c), c) == i,
        slot_addr(base, s, i, c) >= base,
        slot_addr(base, s, i, c) + class_size(c) <= base + (s + group_of(c)) * SPAN_BYTES,
        0 <= i * class_size(c) < SPAN_BYTES,
{
    lemma_tiling(c);
    let z = class_size(c);
    let p = i * z;
    assert(0 <= p && p + z <= slots_of(c) * z) by (nonlinear_arith)
        requires
            0 <= i < slots_of(c),
            z > 0,
            p == i * z,
    ;
    assert(p < SPAN_BYTES) by {
        if z > SPAN_BYTES {
            assert(p == 0) by (nonlinear_arith)
                requires
                    i == 0,
                    p == i * z,
            ;
        }
    }
    assert(p / z == i) by (nonlinear_arith)
        requires
            z > 0,
            p == i * z,
    ;
    assert((s * SPAN_BYTES + p) / SPAN_BYTES as int == s);
    assert((s * SPAN_BYTES + p) % SPAN_BYTES as int == p);
}

/// Distinct slots of one span start at distinct addresses and do not overlap.
pub proof fn lemma_slots_apart(i: int, j: int, z: int)
    requires
        i < j,
        z > 0,
    ensures
        i * z + z <= j * z,
{
    assert(i * z + z <= j * z) by (nonlinear_arith)
        requires
            i < j,
            z > 0,
    ;
}

/// Objects of class `class` per span (or per group of spans).
pub fn slots_per_span(class: usize) -> (n: usize)
    requires
        is_class(class as int),
    ensures
        n == slots_of(class as int),
        1 <= n <= SPAN_SLOTS,
        class_size(class as int) <= 65536 ==> n * class_size(class as int) <= 65536 < (n + 1)
            * class_size(class as int),
        class_size(class as int) > 65536 ==> n == 1,
{
    proof {
        lemma_dense(class as int);
        lemma_tiling(class as int);
    }
    let osz: usize = size_of_class(class);
    if osz > SPAN_BYTES {
        1
    } else {
        SPAN_BYTES / osz
    }
}

/// Spans per group of class `class`.
pub fn group_spans(class: usize) -> (n: u32)
    requires
        is_class(class as int),
    ensures
        n == group_of(class as int),
        1 <= n <= 4,
        n * 65536 >= class_size(class as int) > (n - 1) * 65536,
{
    proof {
        lemma_tiling(class as int);
    }
    ((size_of_class(class) + (SPAN_BYTES - 1)) / SPAN_BYTES) as u32
}

/// How many objects a refill of class `c` takes at once.
pub open spec fn batch_of(c: int) -> int {
    let z = class_size(c);
    if z <= 128 {
        64
    } else if z <= 512 {
        32
    } else if z <= 2048 {
        16
    } else if z <= 8192 {
        8
    } else {
        4
    }
}

/// Refill and drain batch size: more of the small classes at once.
pub fn batch_for(class: usize) -> (n: usize)
    requires
        class < NUM_CLASSES,
    ensures
        n == batch_of(class as int),
        4 <= n <= 64,
        CLASS_SIZES@[class as int] <= 128 ==> n == 64,
        128 < CLASS_SIZES@[class as int] <= 512 ==> n == 32,
        512 < CLASS_SIZES@[class as int] <= 2048 ==> n == 16,
        2048 < CLASS_SIZES@[class as int] <= 8192 ==> n == 8,
        8192 < CLASS_SIZES@[class as int] ==> n == 4,
{
    let sz: usize = size_of_class(class);
    if sz <= 128 {
        64
    } else if sz <= 512 {
        32
    } else if sz <= 2048 {
        16
    } else if sz <= 8192 {
        8
    } else {
        4
    }
}

/// Slab capacity for class `c`, given the base capacity.
pub open spec fn cap_of(c: int, base: int) -> int {
    let z = class_size(c);
    let tier = if z <= 512 {
        base
    } else if z <= 4096 {
        base / 2
    } else if z <= 32768 {
        base / 4
    } else {
        24
    };
    let t = if tier < base {
        tier
    } else {
        base
    };
    if t > 8 {
        t
    } else {
        8
    }
}

/// Slab capacity for a class: full for small classes, less for larger ones so
/// that cached objects do not hold much of the arena, and never below eight.
pub fn cap_for_class(class: usize, base: u32) -> (n: u32)
    requires
        class < NUM_CLASSES,
    ensures
        n == cap_of(class as int, base as int),
        n >= 8,
        n <= base || n == 8,
        CLASS_SIZES@[class as int] <= 512 ==> n == base && base >= 8 || n == 8 && base < 8,
        512 < CLASS_SIZES@[class as int] <= 4096 ==> 2 * n <= base < 2 * (n + 1) || n == 8 && base < 18,
        4096 < CLASS_SIZES@[class as int] <= 32768 ==> 4 * n <= base < 4 * (n + 1) || n == 8 && base
            < 36,
        32768 < CLASS_SIZES@[class as int] ==> n == 24 && base >= 24 || n == base && base < 24 || n == 8
            && base < 8,
{
    let sz: usize = size_of_class(class);
    let tier: u32 = if sz <= 512 {
        base
    } else if sz <= 4096 {
        base / 2
    } else if sz <= 32768 {
        base / 4
    } else {
        24
    };
    let t: u32 = if tier < base {
        tier
    } else {
        base
    };
    if t > 8 {
        t
    } else {
        8
    }
}

/// Spans carved at once for a refill of class `c`.
pub open spec fn carve_spans_of(c: int) -> int {
    if class_size(c) > SPAN_BYTES {
        group_of(c)
    } else {
        (batch_of(c) + slots_of(c) - 1) / slots_of(c)
    }
}

} // verus!
