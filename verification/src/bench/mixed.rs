//! Steady traffic of mixed sizes: a seeded stream of requests, most of them
//! small, against a bounded set of live buffers from which random ones make room
//! for new ones.

use vstd::prelude::*;
use crate::bench::frag::{touch_pages, touched};
use crate::bench::{zeroed, zeros};

verus! {

/// The seed, unless set otherwise.
pub const DEFAULT_SEED: u64 = 0x9E37_79B9_7F4A_7C15;

/// The next state of the generator.
pub open spec fn shifted(s: u64) -> u64 {
    let x = s ^ (s << 13u64);
    let y = x ^ (x >> 7u64);
    y ^ (y << 17u64)
}

/// Step the generator; its state is the number drawn.
pub fn xorshift64(s: &mut u64) -> (r: u64)
    ensures
        r == shifted(*old(s)),
        *final(s) == r,
        ({
            let x = *old(s) ^ (*old(s) << 13u64);
            let y = x ^ (x >> 7u64);
            r == y ^ (y << 17u64)
        }),
{
    let a: u64 = *s;
    let x: u64 = a ^ (a << 13u64);
    let y: u64 = x ^ (x >> 7u64);
    let z: u64 = y ^ (y << 17u64);
    *s = z;
    z
}

/// A generator that is seeded with anything but zero never gets stuck at zero.
pub proof fn lemma_never_zero(s: u64)
    requires
        s != 0,
    ensures
        shifted(s) != 0,
{
    let x = s ^ (s << 13u64);
    let y = x ^ (x >> 7u64);
    let z = y ^ (y << 17u64);
    assert(x != 0) by (bit_vector)
        requires
            x == s ^ (s << 13u64),
            s != 0,
    ;
    assert(y != 0) by (bit_vector)
        requires
            y == x ^ (x >> 7u64),
            x != 0,
    ;
    assert(z != 0) by (bit_vector)
        requires
            z == y ^ (y << 17u64),
            y != 0,
    ;
}

/// No two states lead to the same one, so that the generator comes back to its seed
/// before it repeats anything else.
pub proof fn lemma_states_apart(a: u64, b: u64)
    requires
        shifted(a) == shifted(b),
    ensures
        a == b,
{
    let x = a ^ (a << 13u64);
    let u = b ^ (b << 13u64);
    let y = x ^ (x >> 7u64);
    let v = u ^ (u >> 7u64);
    assert(y == v) by (bit_vector)
        requires
            y ^ (y << 17u64) == v ^ (v << 17u64),
    ;
    assert(x == u) by (bit_vector)
        requires
            x ^ (x >> 7u64) == u ^ (u >> 7u64),
    ;
    assert(a == b) by (bit_vector)
        requires
            a ^ (a << 13u64) == b ^ (b << 13u64),
    ;
}

/// The size drawn from a state: four in five small, most others up to 16 KiB, and
/// one in fifty from 256 KiB up to 1 MiB.
pub open spec fn size_from(s: u64) -> int {
    let percent = shifted(s) % 100;
    let x = shifted(shifted(s));
    if percent < 80 {
        16 + x % 496
    } else if percent < 98 {
        1024 + x % 15360
    } else {
        262144 + x % 786432
    }
}

/// A drawn size is small, medium or large, by the percentage that the first number drawn
/// falls in; the second one says how far above the least of its kind it is.
pub proof fn lemma_size_from(s: u64)
    ensures
        shifted(s) as int % 100 < 80 ==> 16 <= size_from(s) < 512,
        80 <= shifted(s) as int % 100 < 98 ==> 1024 <= size_from(s) < 16384,
        98 <= shifted(s) as int % 100 ==> 262144 <= size_from(s) < 1048576,
        shifted(s) as int % 100 < 80 ==> (size_from(s) - 16 - shifted(shifted(s))) % 496 == 0,
        80 <= shifted(s) as int % 100 < 98 ==> (size_from(s) - 1024 - shifted(shifted(s))) % 15360
            == 0,
        98 <= shifted(s) as int % 100 ==> (size_from(s) - 262144 - shifted(shifted(s))) % 786432
            == 0,
{
}

/// Draw a size.
pub fn draw_size(rng: &mut u64) -> (size: usize)
    ensures
        size == size_from(*old(rng)),
        *final(rng) == shifted(shifted(*old(rng))),
        16 <= size < 1048576,
        shifted(*old(rng)) as int % 100 < 80 ==> 16 <= size < 512,
        80 <= shifted(*old(rng)) as int % 100 < 98 ==> 1024 <= size < 16384,
        98 <= shifted(*old(rng)) as int % 100 ==> 262144 <= size,
{
    let percent: u64 = xorshift64(rng) % 100;
    let x: u64 = xorshift64(rng);
    if percent < 80 {
        16 + (x % 496) as usize
    } else if percent < 98 {
        1024 + (x % 15360) as usize
    } else {
        262144 + (x % 786432) as usize
    }
}

/// The seed that was set, unless it is zero.
pub fn seed_or_default(seed: Option<u64>) -> (s: u64)
    ensures
        s == (match seed {
            Some(x) => if x != 0 {
                x
            } else {
                DEFAULT_SEED
            },
            None => DEFAULT_SEED,
        }),
        s != 0,
        seed is Some && seed->0 != 0 ==> s == seed->0,
{
    match seed {
        Some(x) => if x != 0 {
            x
        } else {
            DEFAULT_SEED
        },
        None => DEFAULT_SEED,
    }
}

/// The sum of the first `n` sizes.
pub open spec fn size_sum(sizes: Seq<int>, n: int) -> int
    decreases n,
{
    if n <= 0 {
        0
    } else {
        size_sum(sizes, n - 1) + sizes[n - 1]
    }
}

/// What is left after the item at `v` left and the last one took its place.
pub open spec fn without<T>(items: Seq<T>, v: int) -> Seq<T> {
    items.update(v, items.last()).drop_last()
}

/// The live buffers and the generator's state after random buffers left until one
/// of `size` fits the budget, or none is left.
pub open spec fn evicted(pool: Seq<Vec<u8>>, rng: u64, size: int, budget: int) -> (
    Seq<Vec<u8>>,
    u64,
)
    decreases pool.len(),
{
    if size_sum(lengths(pool), pool.len() as int) + size > budget && pool.len() > 0 {
        let r = shifted(rng);
        evicted(without(pool, r as int % pool.len() as int), r, size, budget)
    } else {
        (pool, rng)
    }
}

/// The sum of sizes is that of all of them, one after the other.
pub proof fn lemma_size_sum(sizes: Seq<int>)
    ensures
        size_sum(sizes, sizes.len() as int) == sizes.fold_left(0int, |x: int, y: int| x + y),
    decreases sizes.len(),
{
    if sizes.len() > 0 {
        let rest = sizes.drop_last();
        lemma_size_sum(rest);
        lemma_sum_prefix(sizes, rest, rest.len() as int);
    }
}

/// Buffers leave only while a new one does not fit, and then one by one: what stays was
/// there before, and with any one fewer gone the new one would not have fitted.
pub proof fn lemma_evicted(pool: Seq<Vec<u8>>, rng: u64, size: int, budget: int)
    ensures
        ({
            let left = evicted(pool, rng, size, budget).0;
            let sum = size_sum(lengths(pool), pool.len() as int);
            &&& left.len() <= pool.len()
            &&& forall|k: int| 0 <= k < left.len() ==> pool.contains(#[trigger] left[k])
            &&& left.len() == 0 || size_sum(lengths(left), left.len() as int) + size <= budget
            &&& sum + size <= budget ==> left == pool && evicted(pool, rng, size, budget).1 == rng
            &&& left.len() < pool.len() ==> exists|v: int|
                0 <= v < pool.len() && size_sum(lengths(left), left.len() as int) + (
                #[trigger] pool[v])@.len() + size > budget
        }),
    decreases pool.len(),
{
    let sum = size_sum(lengths(pool), pool.len() as int);
    if sum + size > budget && pool.len() > 0 {
        let r = shifted(rng);
        let v = r as int % pool.len() as int;
        let next = without(pool, v);
        lemma_evicted(next, r, size, budget);
        let left = evicted(next, r, size, budget).0;
        lemma_without(lengths(pool), v);
        assert(lengths(next) =~= without(lengths(pool), v));
        assert forall|k: int| 0 <= k < next.len() implies pool.contains(#[trigger] next[k]) by {
            if k == v {
                assert(next[k] == pool[pool.len() - 1]);
            } else {
                assert(next[k] == pool[k]);
            }
        }
        assert forall|k: int| 0 <= k < left.len() implies pool.contains(#[trigger] left[k]) by {
            assert(next.contains(left[k]));
            let j = choose|j: int| 0 <= j < next.len() && next[j] == left[k];
            assert(pool.contains(next[j]));
        }
        if left.len() < next.len() {
            let w = choose|w: int|
                0 <= w < next.len() && size_sum(lengths(left), left.len() as int) + (
                #[trigger] next[w])@.len() + size > budget;
            let j = choose|j: int| 0 <= j < pool.len() && pool[j] == next[w];
            assert(pool.contains(next[w]));
            assert(size_sum(lengths(left), left.len() as int) + pool[j]@.len() + size > budget);
        } else {
            if size_sum(lengths(next), next.len() as int) + size > budget && next.len() > 0 {
                assert(false) by {
                    lemma_evicted_shrinks(next, r, size, budget);
                }
            }
            assert(left == next);
            assert(size_sum(lengths(left), left.len() as int) + pool[v]@.len() + size > budget);
        }
    }
}

proof fn lemma_evicted_shrinks(pool: Seq<Vec<u8>>, rng: u64, size: int, budget: int)
    requires
        size_sum(lengths(pool), pool.len() as int) + size > budget,
        pool.len() > 0,
    ensures
        evicted(pool, rng, size, budget).0.len() < pool.len(),
{
    let r = shifted(rng);
    let next = without(pool, r as int % pool.len() as int);
    lemma_evicted_len(next, r, size, budget);
}

proof fn lemma_evicted_len(pool: Seq<Vec<u8>>, rng: u64, size: int, budget: int)
    ensures
        evicted(pool, rng, size, budget).0.len() <= pool.len(),
    decreases pool.len(),
{
    if size_sum(lengths(pool), pool.len() as int) + size > budget && pool.len() > 0 {
        let r = shifted(rng);
        lemma_evicted_len(without(pool, r as int % pool.len() as int), r, size, budget);
    }
}

/// A run of mixed traffic.
pub struct MixedRun {
    rng: u64,
    live: usize,
    budget: usize,
    pool: Vec<Vec<u8>>,
}

/// The lengths of buffers.
pub open spec fn lengths(pool: Seq<Vec<u8>>) -> Seq<int> {
    Seq::new(pool.len(), |i: int| pool[i]@.len() as int)
}

impl MixedRun {
    pub closed spec fn state(&self) -> u64 {
        self.rng
    }

    pub closed spec fn limit(&self) -> int {
        self.budget as int
    }

    /// The sizes of the live buffers.
    pub open spec fn sizes(&self) -> Seq<int> {
        lengths(self@)
    }

    /// The live buffers.
    pub closed spec fn view(&self) -> Seq<Vec<u8>> {
        self.pool@
    }

    /// The live bytes are counted right, and within the budget unless a single
    /// buffer exceeds it.
    pub closed spec fn wf(&self) -> bool {
        &&& self.live == size_sum(self.sizes(), self.sizes().len() as int)
        &&& self.live <= self.budget || self.pool@.len() == 1
    }

    pub fn new(seed: u64, budget: usize) -> (m: MixedRun)
        ensures
            m.wf(),
            m.state() == seed,
            m.limit() == budget,
            m@ == Seq::<Vec<u8>>::empty(),
    {
        MixedRun { rng: seed, live: 0, budget, pool: Vec::new() }
    }

    /// The live bytes.
    pub fn live(&self) -> (n: usize)
        requires
            self.wf(),
        ensures
            n == size_sum(self.sizes(), self.sizes().len() as int),
    {
        self.live
    }

    /// Draw the size of the next buffer, and make room for it.
    pub fn begin(&mut self) -> (size: usize)
        requires
            old(self).wf(),
        ensures
            final(self).wf(),
            size == size_from(old(self).state()),
            final(self).limit() == old(self).limit(),
            (final(self)@, final(self).state()) == evicted(
                old(self)@,
                shifted(shifted(old(self).state())),
                size as int,
                old(self).limit(),
            ),
            final(self).fits(size as int),
    {
        let mut rng: u64 = self.rng;
        let size: usize = draw_size(&mut rng);
        self.rng = rng;
        let ghost goal = evicted(self.pool@, self.rng, size as int, self.budget as int);
        while (size > self.budget || self.live > self.budget - size) && self.pool.len() > 0
            invariant
                self.wf(),
                self.budget == old(self).budget,
                evicted(self.pool@, self.rng, size as int, self.budget as int) == goal,
            decreases self.pool@.len(),
        {
            let n: usize = self.pool.len();
            let ghost before = self.pool@;
            let mut rng: u64 = self.rng;
            let r: u64 = xorshift64(&mut rng);
            self.rng = rng;
            let victim: usize = (r % (n as u64)) as usize;
            proof {
                let s = lengths(before);
                lemma_sum_bound(s, victim as int, n as int);
                lemma_without(s, victim as int);
            }
            self.live = self.live - self.pool[victim].len();
            let gone = self.pool.swap_remove(victim);
            proof {
                assert(self.pool@ =~= without(before, victim as int));
                assert(lengths(self.pool@) =~= without(lengths(before), victim as int));
                lemma_sum_small(lengths(self.pool@), self.pool@.len() as int);
            }
        }
        size
    }

    /// Whether a buffer of `size` may come in: it fits the budget, or nothing else
    /// is live.
    pub open spec fn fits(&self, size: int) -> bool {
        size_sum(self.sizes(), self.sizes().len() as int) + size <= self.limit()
            || self.sizes().len() == 0
    }

    /// Allocate a buffer of `size` that there is room for, write to all of its
    /// pages, and keep it.
    pub fn commit(&mut self, size: usize, tag: u8)
        requires
            old(self).wf(),
            old(self).fits(size as int),
        ensures
            final(self).wf(),
            final(self).state() == old(self).state(),
            final(self).limit() == old(self).limit(),
            final(self).sizes() == old(self).sizes().push(size as int),
            final(self)@.drop_last() == old(self)@,
            final(self)@.last()@ == touched(zeros(size as nat), tag),
    {
        let ghost before = *self;
        let mut v: Vec<u8> = zeroed(size);
        touch_pages(v.as_mut_slice(), tag);
        proof {
            lemma_sum_push(before.sizes(), size as int, before.sizes().len() as int);
        }
        self.live = self.live + size;
        self.pool.push(v);
        proof {
            assert(self.sizes() =~= before.sizes().push(size as int));
            assert(self@.drop_last() =~= before@);
        }
    }

    /// Whether the live set has filled up: to half the budget. Samples before that
    /// say nothing of fragmentation.
    pub fn is_warm(&self) -> (b: bool)
        requires
            self.wf(),
        ensures
            b == (2 * size_sum(self.sizes(), self.sizes().len() as int) >= self.limit()),
    {
        self.live >= self.budget || self.live >= self.budget - self.live
    }
}

/// How many operations there are between samples: a tenth of all, at least one.
pub fn sample_every(ops: usize) -> (n: usize)
    ensures
        n == if ops / 10 < 1 {
            1
        } else {
            (ops / 10) as int
        },
        n > 0,
        10 * n <= ops || n == 1,
        ops < 10 * (n + 1),
{
    if ops / 10 < 1 {
        1
    } else {
        ops / 10
    }
}

proof fn lemma_sum_small(s: Seq<int>, n: int)
    requires
        0 <= n <= s.len(),
        forall|i: int| 0 <= i < s.len() ==> #[trigger] s[i] >= 0,
    ensures
        0 <= size_sum(s, n),
    decreases n,
{
    if n > 0 {
        lemma_sum_small(s, n - 1);
    }
}

proof fn lemma_sum_bound(s: Seq<int>, v: int, n: int)
    requires
        0 <= v < n <= s.len(),
        forall|i: int| 0 <= i < s.len() ==> #[trigger] s[i] >= 0,
    ensures
        0 <= s[v] <= size_sum(s, n),
    decreases n,
{
    lemma_sum_small(s, n - 1);
    if v < n - 1 {
        lemma_sum_bound(s, v, n - 1);
    }
}

proof fn lemma_sum_prefix(a: Seq<int>, b: Seq<int>, n: int)
    requires
        n <= a.len(),
        n <= b.len(),
        forall|i: int| 0 <= i < n ==> #[trigger] a[i] == b[i],
    ensures
        size_sum(a, n) == size_sum(b, n),
    decreases n,
{
    if n > 0 {
        lemma_sum_prefix(a, b, n - 1);
    }
}

proof fn lemma_sum_update(s: Seq<int>, v: int, x: int, n: int)
    requires
        0 <= v < s.len(),
        n <= s.len(),
    ensures
        size_sum(s.update(v, x), n) == size_sum(s, n) + if v < n {
            x - s[v]
        } else {
            0
        },
    decreases n,
{
    if n > 0 {
        lemma_sum_update(s, v, x, n - 1);
    }
}

proof fn lemma_sum_push(s: Seq<int>, x: int, n: int)
    requires
        n == s.len(),
    ensures
        size_sum(s.push(x), n + 1) == size_sum(s, n) + x,
{
    lemma_sum_prefix(s.push(x), s, n);
}

proof fn lemma_without(s: Seq<int>, v: int)
    requires
        0 <= v < s.len(),
    ensures
        size_sum(without(s, v), s.len() - 1) == size_sum(s, s.len() as int) - s[v],
{
    let n = s.len() as int;
    let t = s.update(v, s.last());
    lemma_sum_update(s, v, s.last(), n - 1);
    lemma_sum_prefix(without(s, v), t, n - 1);
}

} // verus!
