//! Workloads that measure fragmentation: the footprint of the allocator against
//! the bytes that are of use.

use vstd::prelude::*;
use crate::bench::{zeroed, zeros};
use crate::global::Stats;
use crate::meta::SPAN_BYTES;
use crate::sys::text::{
    chars_of, find_word, is_space, lemma_next_word, next_word, number, parse_usize, same_text,
};

verus! {

/// Bytes of a page.
pub const PAGE: usize = 4096;

/// The ways to provoke fragmentation.
#[derive(Clone, Copy, Debug, PartialEq, Eq, Structural)]
pub enum FragMode {
    /// Large buffers that grow from generation to generation.
    Shift,
    /// Large buffers of one size.
    Match,
    /// Small buffers of one class after the other.
    CrossClass,
    /// A mix of sizes.
    Mixed,
}

impl FragMode {
    /// The mode of a name.
    pub open spec fn named(name: Seq<char>) -> Option<FragMode> {
        if name == "shift"@ {
            Some(FragMode::Shift)
        } else if name == "match"@ {
            Some(FragMode::Match)
        } else if name == "crossclass"@ {
            Some(FragMode::CrossClass)
        } else if name == "mixed"@ {
            Some(FragMode::Mixed)
        } else {
            None
        }
    }

    /// The mode of a name.
    pub fn parse(name: &str) -> (m: Option<FragMode>)
        ensures
            m == FragMode::named(name@),
            m == Some(FragMode::Shift) <==> name@ == "shift"@,
            m == Some(FragMode::Match) <==> name@ == "match"@,
            m == Some(FragMode::CrossClass) <==> name@ == "crossclass"@,
            m == Some(FragMode::Mixed) <==> name@ == "mixed"@,
    {
        proof {
            reveal_strlit("shift");
            reveal_strlit("match");
            reveal_strlit("crossclass");
            reveal_strlit("mixed");
            assert("shift"@[0] == 's');
            assert("match"@[1] == 'a');
            assert("mixed"@[1] == 'i');
        }
        if same_text(name, "shift") {
            Some(FragMode::Shift)
        } else if same_text(name, "match") {
            Some(FragMode::Match)
        } else if same_text(name, "crossclass") {
            Some(FragMode::CrossClass)
        } else if same_text(name, "mixed") {
            Some(FragMode::Mixed)
        } else {
            None
        }
    }
}

/// The resident pages, out of the text of `/proc/self/statm`: its second word;
/// zero if there is none.
pub open spec fn resident_pages(statm: Seq<char>) -> usize {
    match next_word(statm, 0) {
        None => 0,
        Some((_, at)) => match next_word(statm, at) {
            None => 0,
            Some((word, _)) => match number(word) {
                Some(n) => n,
                None => 0,
            },
        },
    }
}

/// The resident pages are the number that the second word of the text spells; zero where
/// it spells none, or there is no such word.
pub proof fn lemma_resident_pages(statm: Seq<char>, a: int, b: int, c: int, d: int)
    requires
        0 <= a < b <= c <= d <= statm.len(),
        forall|j: int| 0 <= j < a ==> is_space(#[trigger] statm[j]),
        forall|j: int| a <= j < b ==> !is_space(#[trigger] statm[j]),
        b == statm.len() || is_space(statm[b]),
        forall|j: int| b <= j < c ==> is_space(#[trigger] statm[j]),
        forall|j: int| c <= j < d ==> !is_space(#[trigger] statm[j]),
        d == statm.len() || is_space(statm[d]),
        c == d ==> d == statm.len(),
    ensures
        c < d ==> (number(statm.subrange(c, d)) matches Some(n) ==> resident_pages(statm) == n),
        c == d || number(statm.subrange(c, d)) is None ==> resident_pages(statm) == 0,
{
    lemma_next_word(statm, 0, a, b);
    lemma_next_word(statm, b, c, d);
    if c == d {
        assert(next_word(statm, b) is None);
    }
}

/// The resident bytes, out of the text of `/proc/self/statm`; `None` if they do
/// not fit the machine word.
pub fn rss_bytes(statm: &str, page: usize) -> (n: Option<usize>)
    ensures
        if resident_pages(statm@) * page <= usize::MAX {
            n == Some((resident_pages(statm@) * page) as usize)
        } else {
            n is None
        },
{
    let text: Vec<char> = chars_of(statm);
    let words: &[char] = text.as_slice();
    let pages: usize = match find_word(words, 0) {
        Some((_, b)) => match find_word(words, b) {
            Some((c, d)) => match parse_usize(vstd::slice::slice_subrange(words, c, d)) {
                Some(n) => n,
                None => 0,
            },
            None => 0,
        },
        None => 0,
    };
    pages.checked_mul(page)
}

/// The footprint: what was carved, where this allocator is the one measured, and
/// the resident bytes of the process otherwise.
pub fn footprint_bytes(stats: Option<Stats>, rss: usize) -> (n: usize)
    ensures
        n == (match stats {
            Some(s) => s.carved_bytes,
            None => rss,
        }),
{
    match stats {
        Some(s) => s.carved_bytes,
        None => rss,
    }
}

/// Whether a workload is to stop before it allocates `more` bytes: where this
/// allocator is the one measured, and carving them would go beyond 95 percent of
/// its budget, at which it aborts in the end.
pub fn frag_budget_guard(stats: Option<Stats>, more: usize) -> (stop: bool)
    ensures
        stop == (match stats {
            Some(s) => s.carved_bytes + more > s.budget_bytes as int / 100 * 95,
            None => false,
        }),
        stats matches Some(s) ==> 100 * (s.carved_bytes + more) > 95 * s.budget_bytes ==> stop,
        stats matches Some(s) ==> stop ==> 100 * (s.carved_bytes + more) > 95 * (s.budget_bytes - 99),
        stats is None ==> !stop,
{
    match stats {
        Some(s) => {
            let ceiling: usize = s.budget_bytes / 100 * 95;
            match s.carved_bytes.checked_add(more) {
                Some(projected) => projected > ceiling,
                None => true,
            }
        },
        None => false,
    }
}

/// A buffer after one byte of every page was written, and the last one.
pub open spec fn touched(v: Seq<u8>, tag: u8) -> Seq<u8> {
    Seq::new(
        v.len(),
        |i: int|
            if i % 4096 == 0 || i == v.len() - 1 {
                tag
            } else {
                v[i]
            },
    )
}

/// Write one byte of every page, and the last one, so that all of them are
/// resident.
pub fn touch_pages(v: &mut [u8], tag: u8)
    ensures
        final(v)@ == touched(old(v)@, tag),
        final(v)@.len() == old(v)@.len(),
        forall|i: int|
            0 <= i < old(v)@.len() && (i % 4096 == 0 || i == old(v)@.len() - 1) ==> #[trigger] final(v)@[i] == tag,
        forall|i: int|
            0 <= i < old(v)@.len() - 1 && i % 4096 != 0 ==> #[trigger] final(v)@[i] == old(v)@[i],
{
    let ghost before = v@;
    let n: usize = v.len();
    if n == 0 {
        assert(v@ =~= touched(before, tag));
        return;
    }
    let mut off: usize = 0;
    v[0] = tag;
    while n - off > PAGE
        invariant
            n == before.len(),
            v@.len() == n,
            off < n,
            off % 4096 == 0,
            forall|i: int|
                0 <= i < n ==> #[trigger] v@[i] == if i % 4096 == 0 && i <= off {
                    tag
                } else {
                    before[i]
                },
        decreases n - off,
    {
        off = off + PAGE;
        v[off] = tag;
    }
    v[n - 1] = tag;
    assert(v@ =~= touched(before, tag));
}

/// What one generation of large buffers asks for.
#[derive(Clone, Copy, Debug)]
pub struct Generation {
    /// Spans of a buffer.
    pub spans: usize,
    /// Bytes of a buffer.
    pub bytes: usize,
    /// Number of buffers.
    pub count: usize,
    /// Bytes of all of them.
    pub live: usize,
}

/// As many buffers of `bytes` as `target` bytes hold, at least one.
pub open spec fn buffers(target: int, bytes: int) -> int {
    if target / bytes < 1 {
        1
    } else {
        target / bytes
    }
}

/// Generation `g` of a drift: buffers of `base_spans`, one more per generation if
/// they are to grow, and about `target` bytes of them. `None` if the sizes do not
/// fit the machine word.
pub fn drift_generation(target: usize, base_spans: usize, g: usize, shift: bool) -> (r: Option<
    Generation,
>)
    requires
        base_spans > 0,
    ensures
        ({
            let spans = if shift {
                base_spans + g
            } else {
                base_spans as int
            };
            let bytes = spans * SPAN_BYTES;
            let count = buffers(target as int, bytes);
            if bytes <= usize::MAX {
                r matches Some(p) && p.spans == spans && p.bytes == bytes && p.count == count
                    && p.live == count * bytes && p.count >= 1 && (p.live <= target || p.count == 1)
                    && target - p.live < p.bytes
            } else {
                r is None
            }
        }),
{
    let spans: usize = if shift {
        match base_spans.checked_add(g) {
            Some(s) => s,
            None => {
                return None;
            },
        }
    } else {
        base_spans
    };
    match spans.checked_mul(SPAN_BYTES) {
        Some(bytes) => {
            let (count, live) = fill_plan(target, bytes);
            Some(Generation { spans, bytes, count, live })
        },
        None => None,
    }
}

/// The number of buffers of `bytes` for about `target` bytes, and what they take.
pub fn fill_plan(target: usize, bytes: usize) -> (r: (usize, usize))
    requires
        bytes > 0,
    ensures
        r.0 == buffers(target as int, bytes as int),
        r.1 == r.0 * bytes,
        r.1 <= target || r.0 == 1,
        r.0 >= 1,
        target - r.1 < bytes,
{
    let q: usize = target / bytes;
    assert(q * bytes <= target && target - q * bytes < bytes) by (nonlinear_arith)
        requires
            q == target / bytes,
            bytes > 0,
    ;
    assert(q == 0 ==> q * bytes == 0) by (nonlinear_arith);
    if q < 1 {
        (1, bytes)
    } else {
        (q, q * bytes)
    }
}

/// Sizes whose classes a cross-class run walks through.
pub const CLASSES: [usize; 6] = [64, 256, 1024, 4096, 16384, 65536];

/// The live bytes of a generation stay within the target as long as one buffer
/// does, and use more than half of it.
pub proof fn lemma_drift_live(target: int, bytes: int)
    requires
        0 < bytes <= target,
    ensures
        buffers(target, bytes) * bytes <= target,
        target < 2 * buffers(target, bytes) * bytes,
{
    let q = target / bytes;
    vstd::arithmetic::div_mod::lemma_fundamental_div_mod(target, bytes);
    vstd::arithmetic::mul::lemma_mul_is_commutative(bytes, q);
    assert(q >= 1) by (nonlinear_arith)
        requires
            target == bytes * q + target % bytes,
            0 <= target % bytes < bytes,
            0 < bytes <= target,
    ;
    assert(bytes <= q * bytes) by (nonlinear_arith)
        requires
            q >= 1,
            bytes > 0,
    ;
    assert(2 * q * bytes == 2 * (q * bytes)) by (nonlinear_arith);
}

/// Allocate the buffers of generation `g` and write to all of their pages.
pub fn fill_generation(held: &mut Vec<Vec<u8>>, plan: &Generation, g: usize)
    ensures
        final(held)@.len() == old(held)@.len() + plan.count,
        final(held)@.take(old(held)@.len() as int) == old(held)@,
        forall|k: int|
            0 <= k < plan.count ==> (#[trigger] final(held)@[old(held)@.len() + k])@ == touched(
                zeros(plan.bytes as nat),
                ((k as usize) ^ g) as u8,
            ),
{
    let ghost before = held@;
    let mut i: usize = 0;
    assert(held@.take(before.len() as int) =~= before);
    while i < plan.count
        invariant
            i <= plan.count,
            before == old(held)@,
            held@.len() == before.len() + i,
            held@.take(before.len() as int) == before,
            forall|k: int|
                0 <= k < i ==> (#[trigger] held@[before.len() + k])@ == touched(
                    zeros(plan.bytes as nat),
                    ((k as usize) ^ g) as u8,
                ),
        decreases plan.count - i,
    {
        let mut v: Vec<u8> = zeroed(plan.bytes);
        touch_pages(v.as_mut_slice(), (i ^ g) as u8);
        let ghost last = held@;
        held.push(v);
        proof {
            assert(held@.take(before.len() as int) =~= last.take(before.len() as int));
            assert forall|k: int| 0 <= k < i + 1 implies (#[trigger] held@[before.len() + k])@
                == touched(zeros(plan.bytes as nat), ((k as usize) ^ g) as u8) by {
                if k < i {
                    assert(held@[before.len() + k] == last[before.len() + k]);
                }
            }
        }
        i = i + 1;
    }
}

/// A small buffer that was written to: its number in front, the step behind.
pub open spec fn stamped(size: int, i: usize, step: usize) -> Seq<u8> {
    zeros(size as nat).update(0, (i & 0xff) as u8).update(size - 1, (step & 0xff) as u8)
}

/// A stamped buffer begins with the low byte of its number and ends with that of the step,
/// which is all there is in a buffer of one byte; every byte between is zero.
pub proof fn lemma_stamped(size: int, i: usize, step: usize)
    requires
        size > 0,
    ensures
        stamped(size, i, step).len() == size,
        stamped(size, i, step)[size - 1] == step as int % 256,
        size > 1 ==> stamped(size, i, step)[0] == i as int % 256,
        forall|k: int| 0 < k < size - 1 ==> #[trigger] stamped(size, i, step)[k] == 0,
{
    crate::bits::lemma_low_byte_word(i);
    crate::bits::lemma_low_byte_word(step);
}

/// Allocate `count` small buffers of a class and write to them.
pub fn fill_class(held: &mut Vec<Vec<u8>>, count: usize, size: usize, step: usize)
    requires
        size > 0,
    ensures
        final(held)@.len() == old(held)@.len() + count,
        final(held)@.take(old(held)@.len() as int) == old(held)@,
        forall|k: int|
            0 <= k < count ==> (#[trigger] final(held)@[old(held)@.len() + k])@ == stamped(
                size as int,
                k as usize,
                step,
            ),
{
    let ghost before = held@;
    let mut i: usize = 0;
    assert(held@.take(before.len() as int) =~= before);
    while i < count
        invariant
            i <= count,
            size > 0,
            before == old(held)@,
            held@.len() == before.len() + i,
            held@.take(before.len() as int) == before,
            forall|k: int|
                0 <= k < i ==> (#[trigger] held@[before.len() + k])@ == stamped(
                    size as int,
                    k as usize,
                    step,
                ),
        decreases count - i,
    {
        let mut v: Vec<u8> = zeroed(size);
        v[0] = (i & 0xff) as u8;
        v[size - 1] = (step & 0xff) as u8;
        let ghost last = held@;
        held.push(v);
        proof {
            assert(held@.take(before.len() as int) =~= last.take(before.len() as int));
            assert forall|k: int| 0 <= k < i + 1 implies (#[trigger] held@[before.len() + k])@
                == stamped(size as int, k as usize, step) by {
                if k < i {
                    assert(held@[before.len() + k] == last[before.len() + k]);
                }
            }
        }
        i = i + 1;
    }
}

} // verus!
