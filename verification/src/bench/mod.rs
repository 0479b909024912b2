//! The workloads that the allocator is measured with.
//!
//! Time, threads and the footprint of the process are measured outside. Here is
//! what the workloads do: which sizes they ask for, in which order, what they
//! keep and give up, and what is made of the samples.

pub mod frag;
pub mod hist;
pub mod mixed;
pub mod ring;

use vstd::prelude::*;
use crate::frame::cache::FrameCache;
use crate::frame::FramePool;
use crate::rseq::abi::ThreadView;
use crate::sys::text::{chars_of, number, parse_usize, same_text};

verus! {

/// Sizes that the throughput workloads ask for.
pub const SIZES: [usize; 10] = [16, 32, 64, 128, 256, 512, 1024, 1500, 2048, 4096];

/// The workloads.
#[derive(Clone, Copy, Debug, PartialEq, Eq, Structural)]
pub enum Workload {
    Throughput,
    Single,
    Multi,
    Mpsc,
    LatencyTail,
    Micro,
    Framepool,
    Prodcons,
    Frag,
}

/// No two workloads share a name.
proof fn lemma_workload_names()
    ensures
        forall|a: Seq<char>, b: Seq<char>|
            (#[trigger] Workload::named(a)) is Some && a != b ==> Workload::named(a)
                != #[trigger] Workload::named(b),
        Workload::named("throughput"@) == Some(Workload::Throughput),
        Workload::named("single"@) == Some(Workload::Single),
        Workload::named("multi"@) == Some(Workload::Multi),
        Workload::named("mpsc"@) == Some(Workload::Mpsc),
        Workload::named("latency-tail"@) == Some(Workload::LatencyTail),
        Workload::named("micro"@) == Some(Workload::Micro),
        Workload::named("framepool"@) == Some(Workload::Framepool),
        Workload::named("prodcons"@) == Some(Workload::Prodcons),
        Workload::named("frag"@) == Some(Workload::Frag),
{
    reveal_strlit("throughput");
    reveal_strlit("single");
    reveal_strlit("multi");
    reveal_strlit("mpsc");
    reveal_strlit("latency-tail");
    reveal_strlit("micro");
    reveal_strlit("framepool");
    reveal_strlit("prodcons");
    reveal_strlit("frag");
    assert("throughput"@.len() == 10);
    assert("single"@.len() == 6);
    assert("multi"@.len() == 5);
    assert("mpsc"@.len() == 4);
    assert("latency-tail"@.len() == 12);
    assert("micro"@.len() == 5);
    assert("framepool"@.len() == 9);
    assert("prodcons"@.len() == 8);
    assert("frag"@.len() == 4);
    assert("single"@[0] == 's');
    assert("throughput"@[0] == 't');
    assert("micro"@[1] == 'i');
    assert("multi"@[1] == 'u');
    assert("mpsc"@[0] == 'm');
    assert("frag"@[0] == 'f');
    assert("prodcons"@[0] == 'p');
}

impl Workload {
    /// The workload of a name.
    pub open spec fn named(name: Seq<char>) -> Option<Workload> {
        if name == "throughput"@ {
            Some(Workload::Throughput)
        } else if name == "single"@ {
            Some(Workload::Single)
        } else if name == "multi"@ {
            Some(Workload::Multi)
        } else if name == "mpsc"@ {
            Some(Workload::Mpsc)
        } else if name == "latency-tail"@ {
            Some(Workload::LatencyTail)
        } else if name == "micro"@ {
            Some(Workload::Micro)
        } else if name == "framepool"@ {
            Some(Workload::Framepool)
        } else if name == "prodcons"@ {
            Some(Workload::Prodcons)
        } else if name == "frag"@ {
            Some(Workload::Frag)
        } else {
            None
        }
    }

    /// The workload of a name.
    pub fn parse(name: &str) -> (w: Option<Workload>)
        ensures
            w == Workload::named(name@),
            w == Some(Workload::Throughput) <==> name@ == "throughput"@,
            w == Some(Workload::Single) <==> name@ == "single"@,
            w == Some(Workload::Multi) <==> name@ == "multi"@,
            w == Some(Workload::Mpsc) <==> name@ == "mpsc"@,
            w == Some(Workload::LatencyTail) <==> name@ == "latency-tail"@,
            w == Some(Workload::Micro) <==> name@ == "micro"@,
            w == Some(Workload::Framepool) <==> name@ == "framepool"@,
            w == Some(Workload::Prodcons) <==> name@ == "prodcons"@,
            w == Some(Workload::Frag) <==> name@ == "frag"@,
    {
        proof {
            lemma_workload_names();
        }
        if same_text(name, "throughput") {
            Some(Workload::Throughput)
        } else if same_text(name, "single") {
            Some(Workload::Single)
        } else if same_text(name, "multi") {
            Some(Workload::Multi)
        } else if same_text(name, "mpsc") {
            Some(Workload::Mpsc)
        } else if same_text(name, "latency-tail") {
            Some(Workload::LatencyTail)
        } else if same_text(name, "micro") {
            Some(Workload::Micro)
        } else if same_text(name, "framepool") {
            Some(Workload::Framepool)
        } else if same_text(name, "prodcons") {
            Some(Workload::Prodcons)
        } else if same_text(name, "frag") {
            Some(Workload::Frag)
        } else {
            None
        }
    }
}

/// An argument that is a number, or its default if it is absent or none.
pub fn number_or(arg: Option<&str>, default: usize) -> (n: usize)
    ensures
        n == (match arg {
            Some(s) => match number(s@) {
                Some(v) => v,
                None => default,
            },
            None => default,
        }),
{
    match arg {
        Some(s) => match parse_usize(chars_of(s).as_slice()) {
            Some(v) => v,
            None => default,
        },
        None => default,
    }
}

/// Bytes of the pool that is measured, out of the setting in MiB; `None` if they
/// do not fit the machine word.
pub fn toccata_budget_bytes(setting: Option<&str>) -> (n: Option<usize>)
    ensures
        ({
            let mib = match setting {
                Some(s) => match number(s@) {
                    Some(v) => v as int,
                    None => 2048,
                },
                None => 2048,
            };
            if mib * 1048576 <= usize::MAX {
                n == Some((mib * 1048576) as usize)
            } else {
                n is None
            }
        }),
        setting is None && usize::MAX >= 0x8000_0000 ==> n == Some(0x8000_0000usize),
        setting matches Some(s) ==> (number(s@) matches Some(v) ==> (n matches Some(b) ==> b as int
            / 1048576 == v && b as int % 1048576 == 0)),
{
    number_or(setting, 2048).checked_mul(1048576)
}

/// Pairs of producers and consumers on a machine of `nproc` CPUs: half as many,
/// from one to eight.
pub fn default_pairs(nproc: usize) -> (n: usize)
    ensures
        n == if nproc / 2 < 1 {
            1
        } else if nproc / 2 > 8 {
            8
        } else {
            (nproc / 2) as int
        },
        1 <= n <= 8,
        2 * n <= nproc || n == 1,
        nproc < 2 * (n + 1) || n == 8,
{
    let half: usize = nproc / 2;
    if half < 1 {
        1
    } else if half > 8 {
        8
    } else {
        half
    }
}

/// Size of the `r`th buffer of a producer: the fixed one, or the next in turn.
pub fn producer_size(fixed_size: usize, r: usize) -> (n: usize)
    ensures
        n == if fixed_size != 0 {
            fixed_size
        } else {
            SIZES@[r as int % 10]
        },
        n > 0,
{
    if fixed_size != 0 {
        fixed_size
    } else {
        let i: usize = r % 10;
        SIZES[i]
    }
}

/// The checksum of the first `n` rounds of a churn.
pub open spec fn churn_sum(n: int) -> u64
    decreases n,
{
    if n <= 0 {
        0
    } else {
        churn_sum(n - 1).wrapping_add(((n - 1) as usize & 0xff) as u64).wrapping_add(
            ((n - 1) as usize & 0xff) as u64,
        )
    }
}

/// A counter that wraps at 2^64 stays what its true sum leaves.
proof fn lemma_wrapped(sum: int, x: u64, d: u64)
    requires
        0 <= sum,
        x == sum % 0x1_0000_0000_0000_0000,
    ensures
        x.wrapping_add(d) == (sum + d) % 0x1_0000_0000_0000_0000,
{
}

/// The checksum of a churn is twice the sum of the low bytes of the rounds' numbers: 32640
/// for every 256 of them, and the sum of the numbers up to the last for the rest.
pub proof fn lemma_churn_sum(n: int)
    requires
        0 <= n <= usize::MAX,
    ensures
        churn_sum(n) == (2 * (n / 256 * 32640) + n % 256 * (n % 256 - 1))
            % 0x1_0000_0000_0000_0000,
    decreases n,
{
    if n > 0 {
        let m = n - 1;
        let r = m % 256;
        let old_sum = 2 * (m / 256 * 32640) + r * (r - 1);
        let d = (m as usize & 0xff) as u64;
        assert(d == r) by {
            crate::bits::lemma_low_byte_word(m as usize);
        }
        assert(churn_sum(m) == old_sum % 0x1_0000_0000_0000_0000) by {
            lemma_churn_sum(m);
        }
        assert(0 <= old_sum) by {
            assert(0 <= r * (r - 1)) by (nonlinear_arith)
                requires
                    0 <= r,
            ;
        }
        lemma_wrapped(old_sum, churn_sum(m), d);
        lemma_wrapped(old_sum + d, churn_sum(m).wrapping_add(d), d);
        lemma_next_triangle(m);
    } else {
        assert(n % 256 * (n % 256 - 1) == 0) by (nonlinear_arith)
            requires
                n == 0,
        ;
    }
}

/// The next number's low byte added to a sum of low bytes.
proof fn lemma_next_triangle(m: int)
    requires
        0 <= m,
    ensures
        ({
            let n = m + 1;
            let r = m % 256;
            2 * (n / 256 * 32640) + n % 256 * (n % 256 - 1) == 2 * (m / 256 * 32640) + r * (r - 1) + 2
                * r
        }),
        (m % 256 * (m % 256 - 1)) % 2 == 0,
{
    let n = m + 1;
    let r = m % 256;
    assert((r + 1) * r == r * (r - 1) + 2 * r) by (nonlinear_arith);
    if r < 255 {
        assert(n % 256 == r + 1 && n / 256 == m / 256);
    } else {
        assert(n % 256 == 0 && n / 256 == m / 256 + 1);
        assert(r * (r - 1) == 255 * 254);
    }
    let h = r / 2;
    if r % 2 == 0 {
        assert(r * (r - 1) == 2 * (h * (r - 1))) by (nonlinear_arith)
            requires
                r == 2 * h,
        ;
    } else {
        assert(r * (r - 1) == 2 * (h * r)) by (nonlinear_arith)
            requires
                r == 2 * h + 1,
        ;
    }
}

/// The checksum of a frame loop is the sum of the low bytes of the rounds' numbers.
pub proof fn lemma_loop_sum(n: int)
    requires
        0 <= n <= u64::MAX,
    ensures
        loop_sum(n) == (n / 256 * 32640 + n % 256 * (n % 256 - 1) / 2) % 0x1_0000_0000_0000_0000,
    decreases n,
{
    if n > 0 {
        let m = n - 1;
        let r = m % 256;
        let old_sum = m / 256 * 32640 + r * (r - 1) / 2;
        let d = m as u64 & 0xff;
        assert(d == r) by {
            crate::bits::lemma_low_byte(m as u64);
        }
        assert(loop_sum(m) == old_sum % 0x1_0000_0000_0000_0000) by {
            lemma_loop_sum(m);
        }
        assert(0 <= old_sum) by {
            assert(0 <= r * (r - 1)) by (nonlinear_arith)
                requires
                    0 <= r,
            ;
        }
        lemma_wrapped(old_sum, loop_sum(m), d);
        lemma_next_triangle(m);
        lemma_next_triangle(n);
        let x = r * (r - 1);
        let y = n % 256 * (n % 256 - 1);
        assert(2 * (n / 256 * 32640) + y == 2 * (m / 256 * 32640) + x + 2 * r);
        assert(n / 256 * 32640 + y / 2 == old_sum + d);
    } else {
        assert(n % 256 * (n % 256 - 1) == 0) by (nonlinear_arith)
            requires
                n == 0,
        ;
    }
}

/// `n` bytes, each zero.
pub open spec fn zeros(n: nat) -> Seq<u8> {
    Seq::new(n, |i: int| 0u8)
}

/// A zeroed buffer.
pub(crate) fn zeroed(size: usize) -> (v: Vec<u8>)
    ensures
        v@ == zeros(size as nat),
{
    let mut v: Vec<u8> = Vec::with_capacity(size);
    let mut i: usize = 0;
    while i < size
        invariant
            i <= size,
            v@ == zeros(i as nat),
        decreases size - i,
    {
        v.push(0);
        i = i + 1;
    }
    v
}

/// Keep a buffer among `cap` of them: there is room, or the one at place `i` in
/// turn is freed for it.
pub fn keep(bufs: &mut Vec<Vec<u8>>, cap: usize, i: usize, v: Vec<u8>)
    requires
        cap > 0,
        old(bufs)@.len() <= cap,
    ensures
        final(bufs)@ == if old(bufs)@.len() < cap {
            old(bufs)@.push(v)
        } else {
            old(bufs)@.update(i as int % cap as int, v)
        },
        final(bufs)@.len() <= cap,
{
    if bufs.len() < cap {
        bufs.push(v);
    } else {
        bufs[i % cap] = v;
    }
}

/// Allocate and free in turn with `live` buffers outstanding, and return a
/// checksum of what was written to them.
pub fn churn(rounds: usize, live: usize) -> (checksum: u64)
    requires
        live > 0 || rounds == 0,
    ensures
        checksum == churn_sum(rounds as int),
{
    let mut bufs: Vec<Vec<u8>> = Vec::new();
    let mut checksum: u64 = 0;
    let mut i: usize = 0;
    let mut r: usize = 0;
    while r < rounds
        invariant
            r <= rounds,
            i == r,
            live > 0 || rounds == 0,
            bufs@.len() <= live,
            checksum == churn_sum(r as int),
        decreases rounds - r,
    {
        let k: usize = (r ^ i) % 10;
        let size: usize = SIZES[k];
        let mut v: Vec<u8> = zeroed(size);
        let lo: u8 = (r & 0xff) as u8;
        let hi: u8 = (i & 0xff) as u8;
        proof {
            assert(r & 0xff <= 0xff) by (bit_vector);
        }
        v[0] = lo;
        v[size - 1] = hi;
        checksum = checksum.wrapping_add(v[0] as u64).wrapping_add(v[size - 1] as u64);
        keep(&mut bufs, live, i, v);
        i = i.wrapping_add(1);
        r = r + 1;
    }
    checksum
}

/// The checksum of the first `n` rounds of a frame loop.
pub open spec fn loop_sum(n: int) -> u64
    decreases n,
{
    if n <= 0 {
        0
    } else {
        loop_sum(n - 1).wrapping_add(((n - 1) as u64 & 0xff) as u64)
    }
}

/// Hand out and free one frame after the other, `iters` times, and return a
/// checksum. A pool that has a frame for the thread never runs out; `None` if it
/// has none.
pub fn frame_loop(pool: &mut FramePool<()>, seen: &ThreadView, iters: u64) -> (sink: Option<u64>)
    requires
        old(pool).wf(),
    ensures
        final(pool).wf(),
        final(pool).same_pool(old(pool)),
        sink == if iters == 0 || old(pool).available(*seen) > 0 {
            Some(loop_sum(iters as int))
        } else {
            None
        },
        final(pool).available(*seen) == old(pool).available(*seen),
        forall|a: int| #[trigger] final(pool).frames().out(a) <==> old(pool).frames().out(a),
{
    let ghost before = *pool;
    let mut i: u64 = 0;
    let mut sink: u64 = 0;
    proof {
        pool.frames().slab().lemma_same_shape_refl();
    }
    while i < iters
        invariant
            i <= iters,
            before == *old(pool),
            before.wf(),
            pool.wf(),
            pool.same_pool(&before),
            sink == loop_sum(i as int),
            pool.available(*seen) == before.available(*seen),
            i > 0 ==> before.available(*seen) > 0,
            forall|a: int| #[trigger] pool.frames().out(a) <==> before.frames().out(a),
        decreases iters - i,
    {
        let ghost cur = *pool;
        match pool.allocate(seen) {
            Some(f) => {
                let ghost mid = *pool;
                proof {
                    f.lemma_range();
                    mid.frames().slab().lemma_same_shape_trans(
                        &cur.frames().slab(),
                        &before.frames().slab(),
                    );
                }
                sink = sink.wrapping_add(i & 0xff);
                pool.free(seen, f);
                proof {
                    pool.frames().slab().lemma_same_shape_trans(
                        &mid.frames().slab(),
                        &before.frames().slab(),
                    );
                    assert forall|a: int| #[trigger] pool.frames().out(a) <==> before.frames().out(
                        a,
                    ) by {
                        assert(cur.frames().out(a) <==> before.frames().out(a));
                        if a != f.addr() {
                            assert(mid.frames().out(a) <==> cur.frames().out(a));
                            assert(mid.frames().out(a) <==> pool.frames().out(a));
                        }
                    }
                }
            },
            None => {
                return None;
            },
        }
        i = i + 1;
    }
    Some(sink)
}

/// As [`frame_loop`], through a cache.
pub fn cache_loop(
    cache: &mut FrameCache,
    pool: &mut FramePool<()>,
    seen: &ThreadView,
    iters: u64,
) -> (sink: Option<u64>)
    requires
        old(pool).wf(),
        old(cache).wf(),
        old(cache).holds(old(pool)),
    ensures
        final(pool).wf(),
        final(cache).wf(),
        final(pool).same_pool(old(pool)),
        final(cache).holds(final(pool)),
        sink == if iters == 0 || old(cache)@.len() > 0 || old(pool).available(*seen) > 0 {
            Some(loop_sum(iters as int))
        } else {
            None
        },
        final(cache).lent_same(final(pool), old(cache), old(pool)),
{
    let ghost cache0 = *cache;
    let ghost pool0 = *pool;
    let mut i: u64 = 0;
    let mut sink: u64 = 0;
    proof {
        pool.frames().slab().lemma_same_shape_refl();
    }
    while i < iters
        invariant
            i <= iters,
            cache0 == *old(cache),
            pool0 == *old(pool),
            pool.wf(),
            cache.wf(),
            cache.holds(pool),
            pool.same_pool(&pool0),
            sink == loop_sum(i as int),
            i == 0 ==> *cache == cache0 && *pool == pool0,
            i > 0 ==> cache@.len() > 0,
            i > 0 ==> cache0@.len() > 0 || pool0.available(*seen) > 0,
            cache.lent_same(pool, &cache0, &pool0),
        decreases iters - i,
    {
        let ghost c1 = *cache;
        let ghost p1 = *pool;
        match cache.allocate(pool, seen) {
            Some(f) => {
                let ghost c2 = *cache;
                let ghost p2 = *pool;
                proof {
                    p2.frames().slab().lemma_same_shape_trans(
                        &p1.frames().slab(),
                        &pool0.frames().slab(),
                    );
                }
                sink = sink.wrapping_add(i & 0xff);
                cache.free(pool, seen, f);
                proof {
                    pool.frames().slab().lemma_same_shape_trans(
                        &p2.frames().slab(),
                        &pool0.frames().slab(),
                    );
                    assert forall|a: int| #[trigger] cache.lent(pool, a) <==> cache0.lent(
                        &pool0,
                        a,
                    ) by {
                        assert(c1.lent(&p1, a) <==> cache0.lent(&pool0, a));
                        if a != f.addr() {
                            assert(c2.lent(&p2, a) <==> c1.lent(&p1, a));
                            assert(c2.lent(&p2, a) <==> cache.lent(pool, a));
                        }
                    }
                }
            },
            None => {
                return None;
            },
        }
        i = i + 1;
    }
    Some(sink)
}

} // verus!
