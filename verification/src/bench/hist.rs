//! A latency histogram of fixed size.
//!
//! Bucket `i` covers the nanoseconds from `2^i` up to, but not including,
//! `2^(i+1)`; zero counts as one. The thresholds that are reported have a counter
//! each, so that what exceeds them is counted exactly, and of each bucket the largest
//! sample is known. Recording allocates nothing, so it does not compete with the
//! allocator that is measured.

use vstd::prelude::*;
use vstd::arithmetic::power2::{lemma_pow2_pos, lemma_pow2_unfold, pow2};

verus! {

/// The thresholds with a counter: no time at all, and stalls of one, ten and a
/// hundred milliseconds.
pub const COUNTED: [u64; 4] = [0, 1_000_000, 10_000_000, 100_000_000];

/// A latency histogram.
pub struct Histogram {
    buckets: [u64; 64],
    high: [u64; 64],
    over: [u64; 4],
    count: u64,
    max: u64,
    samples: Ghost<Seq<u64>>,
}

/// Whether `b` is the bucket of a sample.
pub open spec fn in_bucket(ns: u64, b: int) -> bool {
    let n = if ns == 0 {
        1
    } else {
        ns as int
    };
    0 <= b && pow2(b as nat) <= n < pow2((b + 1) as nat)
}

/// How many of the first `n` samples are in bucket `b`.
pub open spec fn bucket_count(samples: Seq<u64>, b: int, n: int) -> int
    decreases n,
{
    if n <= 0 {
        0
    } else {
        bucket_count(samples, b, n - 1) + if in_bucket(samples[n - 1], b) {
            1int
        } else {
            0int
        }
    }
}

/// The sum of the first `n` buckets.
pub open spec fn total(buckets: Seq<u64>, n: int) -> int
    decreases n,
{
    if n <= 0 {
        0
    } else {
        total(buckets, n - 1) + buckets[n - 1]
    }
}

/// The largest of the samples; zero if there is none.
pub open spec fn largest_of(samples: Seq<u64>) -> u64
    decreases samples.len(),
{
    if samples.len() == 0 {
        0
    } else if samples.last() > largest_of(samples.drop_last()) {
        samples.last()
    } else {
        largest_of(samples.drop_last())
    }
}

/// Whether `thresh` is a threshold with a counter.
pub open spec fn is_counted(thresh: int) -> bool {
    thresh == 0 || thresh == 1_000_000 || thresh == 10_000_000 || thresh == 100_000_000
}

/// Whether the bucket of `thresh` holds samples on both sides of it: some that exceed
/// it, and some that do not.
pub open spec fn straddled(samples: Seq<u64>, thresh: u64) -> bool {
    exists|i: int, j: int, b: int|
        #![trigger in_bucket(samples[i], b), in_bucket(samples[j], b)]
        0 <= i < samples.len() && 0 <= j < samples.len() && in_bucket(thresh, b) && in_bucket(
            samples[i],
            b,
        ) && in_bucket(samples[j], b) && samples[i] <= thresh < samples[j]
}

/// `top` is the largest sample in bucket `b`; zero if there is none.
spec fn tops(samples: Seq<u64>, b: int, top: u64) -> bool {
    &&& forall|i: int|
        0 <= i < samples.len() && in_bucket(samples[i], b) ==> #[trigger] samples[i] <= top
    &&& top > 0 ==> exists|i: int|
        0 <= i < samples.len() && in_bucket(samples[i], b) && #[trigger] samples[i] == top
}

/// How many of the first `n` samples exceed a threshold.
pub open spec fn samples_over(samples: Seq<u64>, thresh: int, n: int) -> int
    decreases n,
{
    if n <= 0 {
        0
    } else {
        samples_over(samples, thresh, n - 1) + if samples[n - 1] > thresh {
            1int
        } else {
            0int
        }
    }
}

proof fn lemma_pow2_order(a: nat, b: nat)
    requires
        a < b,
    ensures
        pow2(a) < pow2(b),
        2 * pow2(a) <= pow2(b),
{
    lemma_pow2_unfold(a + 1);
    lemma_pow2_pos(a);
    if a + 1 < b {
        vstd::arithmetic::power2::lemma_pow2_strictly_increases(a + 1, b);
    }
}

proof fn lemma_bucket_unique(ns: u64, a: int, b: int)
    requires
        in_bucket(ns, a),
        in_bucket(ns, b),
    ensures
        a == b,
{
    if a < b {
        if a + 1 < b {
            lemma_pow2_order((a + 1) as nat, b as nat);
        }
    } else if b < a {
        if b + 1 < a {
            lemma_pow2_order((b + 1) as nat, a as nat);
        }
    }
}

/// The bucket of a sample.
fn bucket_of(ns: u64) -> (b: usize)
    ensures
        b < 64,
        in_bucket(ns, b as int),
{
    let n: u64 = if ns == 0 {
        1
    } else {
        ns
    };
    let mut b: usize = 0;
    let mut v: u64 = 1;
    proof {
        vstd::arithmetic::power2::lemma2_to64();
    }
    while v <= n / 2
        invariant
            v == pow2(b as nat),
            1 <= v <= n,
            b < 64,
        decreases n - v,
    {
        proof {
            lemma_pow2_unfold((b + 1) as nat);
            if b + 1 >= 64 {
                vstd::arithmetic::power2::lemma2_to64_rest();
                if b + 1 > 64 {
                    lemma_pow2_order(64, (b + 1) as nat);
                }
            }
        }
        v = v * 2;
        b = b + 1;
    }
    proof {
        lemma_pow2_unfold((b + 1) as nat);
    }
    b
}

/// The lower edge of a bucket.
fn bucket_floor(b: usize) -> (v: u64)
    requires
        b < 64,
    ensures
        v == pow2(b as nat),
{
    let mut v: u64 = 1;
    let mut k: usize = 0;
    proof {
        vstd::arithmetic::power2::lemma2_to64();
        vstd::arithmetic::power2::lemma2_to64_rest();
    }
    while k < b
        invariant
            k <= b < 64,
            v == pow2(k as nat),
        decreases b - k,
    {
        proof {
            lemma_pow2_unfold((k + 1) as nat);
            vstd::arithmetic::power2::lemma2_to64_rest();
            if k + 1 < 63 {
                lemma_pow2_order((k + 1) as nat, 63);
            }
        }
        v = v * 2;
        k = k + 1;
    }
    v
}

impl Histogram {
    /// The samples recorded so far.
    pub closed spec fn view(&self) -> Seq<u64> {
        self.samples@
    }

    /// How many samples each bucket holds.
    pub open spec fn filled(&self) -> Seq<u64> {
        Seq::new(64, |b: int| bucket_count(self@, b, self@.len() as int) as u64)
    }

    pub open spec fn largest(&self) -> u64 {
        largest_of(self@)
    }

    /// How many samples exceed a threshold.
    pub open spec fn over(&self, thresh: int) -> int {
        samples_over(self@, thresh, self@.len() as int)
    }

    /// Each bucket and counter holds the number of its samples, and the buckets
    /// add up.
    pub closed spec fn wf(&self) -> bool {
        &&& self.count == self.samples@.len()
        &&& self.buckets@.len() == 64
        &&& self.over@.len() == 4
        &&& self.high@.len() == 64
        &&& forall|b: int| 0 <= b < 64 ==> tops(self.samples@, b, #[trigger] self.high@[b])
        &&& forall|b: int|
            0 <= b < 64 ==> #[trigger] self.buckets@[b] == bucket_count(
                self.samples@,
                b,
                self.samples@.len() as int,
            )
        &&& forall|i: int|
            0 <= i < 4 ==> #[trigger] self.over@[i] == samples_over(
                self.samples@,
                COUNTED@[i] as int,
                self.samples@.len() as int,
            )
        &&& total(self.buckets@, 64) == self.count
        &&& self.max == largest_of(self.samples@)
    }

    pub fn new() -> (h: Histogram)
        ensures
            h.wf(),
            h@ == Seq::<u64>::empty(),
    {
        let h = Histogram {
            buckets: [0; 64],
            high: [0; 64],
            over: [0; 4],
            count: 0,
            max: 0,
            samples: Ghost(Seq::empty()),
        };
        proof {
            lemma_total_zero(h.buckets@, 64);
        }
        h
    }

    /// Record a sample.
    pub fn record(&mut self, ns: u64)
        requires
            old(self).wf(),
            old(self)@.len() < u64::MAX,
        ensures
            final(self).wf(),
            final(self)@ == old(self)@.push(ns),
    {
        let ghost before = *self;
        let b: usize = bucket_of(ns);
        proof {
            lemma_total_bound(self.buckets@, b as int, 64);
        }
        self.buckets[b] = self.buckets[b] + 1;
        self.count = self.count + 1;
        if ns > self.high[b] {
            self.high[b] = ns;
        }
        let ghost filled = self.buckets@;
        let ghost high = self.high@;
        let mut i: usize = 0;
        while i < 4
            invariant
                i <= 4,
                before.wf(),
                before.samples@.len() < u64::MAX,
                self.over@.len() == 4,
                forall|j: int|
                    0 <= j < 4 ==> #[trigger] self.over@[j] == before.over@[j] + if j < i && ns
                        > COUNTED@[j] {
                        1int
                    } else {
                        0int
                    },
                self.buckets@ == filled,
                self.high@ == high,
                self.count == before.count + 1,
                self.max == before.max,
                self.samples == before.samples,
            decreases 4 - i,
        {
            if ns > COUNTED[i] {
                proof {
                    lemma_over_range(
                        before.samples@,
                        COUNTED@[i as int] as int,
                        before.samples@.len() as int,
                    );
                }
                self.over[i] = self.over[i] + 1;
            }
            i = i + 1;
        }
        if ns > self.max {
            self.max = ns;
        }
        proof {
            self.samples@ = before.samples@.push(ns);
            let now = self.samples@;
            let n = before.samples@.len() as int;
            assert forall|c: int| 0 <= c < 64 implies #[trigger] self.buckets@[c] == bucket_count(
                now,
                c,
                now.len() as int,
            ) by {
                lemma_count_prefix(before.samples@, now, c, n);
                assert(before.buckets@[c] == bucket_count(before.samples@, c, n));
                if in_bucket(ns, c) {
                    lemma_bucket_unique(ns, c, b as int);
                }
            }
            lemma_total_update(before.buckets@, self.buckets@, b as int, 64);
            assert forall|c: int| 0 <= c < 64 implies tops(now, c, #[trigger] self.high@[c]) by {
                assert(tops(before.samples@, c, before.high@[c]));
                assert(now[n] == ns);
                assert forall|i: int| 0 <= i < now.len() && in_bucket(now[i], c) implies #[trigger] now[i]
                    <= self.high@[c] by {
                    if i < n {
                        assert(before.samples@[i] == now[i]);
                    } else {
                        lemma_bucket_unique(ns, c, b as int);
                    }
                }
                if self.high@[c] > 0 && self.high@[c] == before.high@[c] {
                    let i = choose|i: int|
                        0 <= i < n && in_bucket(before.samples@[i], c)
                            && #[trigger] before.samples@[i] == before.high@[c];
                    assert(now[i] == self.high@[c]);
                }
            }
            assert forall|j: int| 0 <= j < 4 implies #[trigger] self.over@[j] == samples_over(
                now,
                COUNTED@[j] as int,
                now.len() as int,
            ) by {
                lemma_over_prefix(before.samples@, now, COUNTED@[j] as int, n);
                assert(before.over@[j] == samples_over(before.samples@, COUNTED@[j] as int, n));
            }
            assert(now.drop_last() =~= before.samples@);
        }
    }

    /// The number of samples.
    pub fn count(&self) -> (n: u64)
        requires
            self.wf(),
        ensures
            n == self@.len(),
    {
        self.count
    }

    /// The largest sample.
    pub fn max(&self) -> (m: u64)
        requires
            self.wf(),
        ensures
            m == self.largest(),
            forall|i: int| 0 <= i < self@.len() ==> #[trigger] self@[i] <= m,
            self@.len() > 0 ==> self@.contains(m),
    {
        proof {
            lemma_largest(self@);
        }
        self.max
    }

    /// The lower edge of the first bucket up to which at least `target` samples
    /// lie; the largest sample if there is none.
    pub fn at_rank(&self, target: u64) -> (v: u64)
        requires
            self.wf(),
        ensures
            match first_reaching(self.filled(), target as int, 0) {
                Some(b) => v == pow2(b as nat),
                None => v == self.largest(),
            },
            target <= self@.len() ==> self@.len() - self.over(2 * v - 1) >= target,
            target <= self@.len() && v > 1 ==> self@.len() - self.over(v - 1) < target,
            target > self@.len() ==> (forall|i: int| 0 <= i < self@.len() ==> #[trigger] self@[i] <= v)
                && (self@.len() > 0 ==> self@.contains(v)),
    {
        let mut acc: u64 = 0;
        let mut i: usize = 0;
        proof {
            self.lemma_filled();
        }
        while i < 64
            invariant
                i <= 64,
                self.wf(),
                self.filled() == self.buckets@,
                acc == total(self.buckets@, i as int),
                i > 0 ==> acc < target,
                first_reaching(self.filled(), target as int, 0) == first_reaching(
                    self.filled(),
                    target as int,
                    i as int,
                ),
            decreases 64 - i,
        {
            proof {
                lemma_total_mono(self.buckets@, i + 1, 64);
            }
            acc = acc + self.buckets[i];
            if acc >= target {
                proof {
                    self.lemma_below(i + 1);
                    lemma_pow2_unfold((i + 1) as nat);
                    vstd::arithmetic::power2::lemma2_to64();
                    if i > 0 {
                        self.lemma_below(i as int);
                    }
                    lemma_total_mono(self.buckets@, i + 1, 64);
                }
                return bucket_floor(i);
            }
            i = i + 1;
        }
        proof {
            lemma_largest(self@);
        }
        self.max
    }

    /// The number of samples strictly greater than a threshold.
    ///
    /// That is exact at the thresholds with a counter, and at every other one whose
    /// bucket does not hold samples on both sides of it. Where it does, all of that
    /// bucket's samples are counted: a histogram of fixed size cannot tell them apart.
    pub fn count_over(&self, thresh_ns: u64) -> (n: u64)
        requires
            self.wf(),
        ensures
            is_counted(thresh_ns as int) || !straddled(self@, thresh_ns) ==> n == self.over(
                thresh_ns as int,
            ),
            !is_counted(thresh_ns as int) && straddled(self@, thresh_ns) ==> forall|b: int| #[trigger]
                in_bucket(thresh_ns, b) ==> n == self.over(pow2(b as nat) - 1),
            thresh_ns >= self.largest() ==> n == 0,
            thresh_ns == 0 || thresh_ns == 1_000_000 || thresh_ns == 10_000_000 || thresh_ns
                == 100_000_000 ==> n == self.over(thresh_ns as int),
            self.over(thresh_ns as int) <= n,
            forall|b: int| #[trigger]
                in_bucket(thresh_ns, b) ==> n <= self.over(pow2(b as nat) - 1),
    {
        let ghost len = self.samples@.len() as int;
        let ghost t = thresh_ns as int;
        proof {
            assert forall|b: int| #[trigger] in_bucket(thresh_ns, b) implies self.over(t) <= self.over(
                pow2(b as nat) - 1,
            ) by {
                if thresh_ns > 0 {
                    lemma_over_order(self@, pow2(b as nat) - 1, t, len);
                } else {
                    lemma_pow2_pos(b as nat);
                    vstd::arithmetic::power2::lemma2_to64();
                    if b > 0 {
                        lemma_pow2_order(0, b as nat);
                    }
                }
            }
            lemma_largest(self@);
            if thresh_ns >= self.largest() {
                lemma_over_none(self@, t, len);
                assert(!straddled(self@, thresh_ns));
            }
        }
        let mut i: usize = 0;
        while i < 4
            invariant
                i <= 4,
                self.wf(),
                t == thresh_ns,
                len == self.samples@.len(),
                thresh_ns >= self.largest() ==> self.over(t) == 0,
                forall|b: int| #[trigger]
                    in_bucket(thresh_ns, b) ==> self.over(t) <= self.over(pow2(b as nat) - 1),
                forall|j: int| 0 <= j < i ==> #[trigger] COUNTED@[j] != thresh_ns,
            decreases 4 - i,
        {
            if COUNTED[i] == thresh_ns {
                assert(self.over@[i as int] == self.over(t));
                return self.over[i];
            }
            i = i + 1;
        }
        proof {
            assert(COUNTED@[0] == 0 && COUNTED@[1] == 1_000_000 && COUNTED@[2] == 10_000_000
                && COUNTED@[3] == 100_000_000);
        }
        let b: usize = bucket_of(thresh_ns);
        let start: usize = if thresh_ns >= self.high[b] {
            b + 1
        } else {
            b
        };
        proof {
            assert(tops(self.samples@, b as int, self.high@[b as int]));
            assert forall|c: int| #[trigger] in_bucket(thresh_ns, c) implies c == b by {
                lemma_bucket_unique(thresh_ns, c, b as int);
            }
            if start == b {
                let j = choose|j: int|
                    0 <= j < len && in_bucket(self.samples@[j], b as int) && #[trigger] self.samples@[j]
                        == self.high@[b as int];
                assert(b >= 1) by {
                    vstd::arithmetic::power2::lemma2_to64();
                }
                if !straddled(self@, thresh_ns) {
                    assert forall|k: int| 0 <= k < len implies !(pow2(b as nat) - 1
                        < #[trigger] self.samples@[k] <= t) by {
                        if pow2(b as nat) - 1 < self.samples@[k] <= t {
                            assert(in_bucket(self.samples@[k], b as int));
                            assert(in_bucket(self.samples@[j], b as int));
                        }
                    }
                    lemma_over_gap(self@, pow2(b as nat) - 1, t, len);
                }
            } else {
                assert forall|k: int| 0 <= k < len implies !(t < #[trigger] self.samples@[k] <= pow2(
                    (b + 1) as nat,
                ) - 1) by {
                    if t < self.samples@[k] <= pow2((b + 1) as nat) - 1 {
                        assert(in_bucket(self.samples@[k], b as int));
                    }
                }
                lemma_over_gap(self@, t, pow2((b + 1) as nat) - 1, len);
                assert(!straddled(self@, thresh_ns)) by {
                    if straddled(self@, thresh_ns) {
                        let (i, j, c) = choose|i: int, j: int, c: int|
                            #![trigger in_bucket(self@[i], c), in_bucket(self@[j], c)]
                            0 <= i < self@.len() && 0 <= j < self@.len() && in_bucket(thresh_ns, c)
                                && in_bucket(self@[i], c) && in_bucket(self@[j], c) && self@[i]
                                <= thresh_ns < self@[j];
                        assert(self.samples@[j] <= self.high@[b as int]);
                    }
                }
            }
            self.lemma_below(start as int);
        }
        let mut n: u64 = 0;
        let mut k: usize = start;
        while k < 64
            invariant
                start <= k <= 64,
                self.wf(),
                n == total(self.buckets@, k as int) - total(self.buckets@, start as int),
            decreases 64 - k,
        {
            proof {
                lemma_total_mono(self.buckets@, k + 1, 64);
                lemma_total_mono(self.buckets@, 0, start as int);
            }
            n = n + self.buckets[k];
            k = k + 1;
        }
        n
    }

    /// Every sample is in one bucket: each bucket holds the number of its samples,
    /// and the buckets add up to all of them.
    pub proof fn lemma_every_sample_counted(&self)
        requires
            self.wf(),
        ensures
            forall|b: int|
                0 <= b < 64 ==> #[trigger] self.filled()[b] == bucket_count(
                    self@,
                    b,
                    self@.len() as int,
                ),
            total(self.filled(), 64) == self@.len(),
    {
        self.lemma_filled();
    }

    proof fn lemma_filled(&self)
        requires
            self.wf(),
        ensures
            self.filled() == self.buckets@,
    {
        assert forall|b: int| 0 <= b < 64 implies self.filled()[b] == self.buckets@[b] by {
            assert(self.buckets@[b] == bucket_count(self.samples@, b, self.samples@.len() as int));
        }
        assert(self.filled() =~= self.buckets@);
    }

    /// The samples in the buckets below `m` are those below that bucket's edge.
    proof fn lemma_below(&self, m: int)
        requires
            self.wf(),
            1 <= m <= 64,
        ensures
            total(self.buckets@, m) == self.samples@.len() - self.over(pow2(m as nat) - 1),
    {
        lemma_total_counts(self.buckets@, self.samples@, self.samples@.len() as int, m);
        lemma_counts_below(self.samples@, self.samples@.len() as int, m);
    }
}

/// The samples among the first `n` whose bucket is below `m`.
spec fn counts_below(samples: Seq<u64>, n: int, m: int) -> int
    decreases m,
{
    if m <= 0 {
        0
    } else {
        counts_below(samples, n, m - 1) + bucket_count(samples, m - 1, n)
    }
}

proof fn lemma_total_counts(buckets: Seq<u64>, samples: Seq<u64>, n: int, m: int)
    requires
        m <= 64,
        forall|b: int| 0 <= b < 64 ==> #[trigger] buckets[b] == bucket_count(samples, b, n),
    ensures
        total(buckets, m) == counts_below(samples, n, m),
    decreases m,
{
    if m > 0 {
        lemma_total_counts(buckets, samples, n, m - 1);
        assert(buckets[m - 1] == bucket_count(samples, m - 1, n));
    }
}

proof fn lemma_counts_none(samples: Seq<u64>, m: int)
    ensures
        counts_below(samples, 0, m) == 0,
    decreases m,
{
    if m > 0 {
        lemma_counts_none(samples, m - 1);
    }
}

proof fn lemma_counts_one(samples: Seq<u64>, n: int, m: int, b: int)
    requires
        0 < n <= samples.len(),
        in_bucket(samples[n - 1], b),
    ensures
        counts_below(samples, n, m) == counts_below(samples, n - 1, m) + if b < m {
            1int
        } else {
            0int
        },
    decreases m,
{
    if m > 0 {
        lemma_counts_one(samples, n, m - 1, b);
        if in_bucket(samples[n - 1], m - 1) {
            lemma_bucket_unique(samples[n - 1], m - 1, b);
        }
    }
}

proof fn lemma_counts_below(samples: Seq<u64>, n: int, m: int)
    requires
        0 <= n <= samples.len(),
        1 <= m <= 64,
    ensures
        counts_below(samples, n, m) == n - samples_over(samples, pow2(m as nat) - 1, n),
    decreases n,
{
    if n > 0 {
        lemma_counts_below(samples, n - 1, m);
        let ns = samples[n - 1];
        let b = lemma_has_bucket(ns);
        lemma_counts_one(samples, n, m, b);
        vstd::arithmetic::power2::lemma2_to64();
        lemma_pow2_order(0, m as nat);
        if b < m {
            if b + 1 < m {
                lemma_pow2_order((b + 1) as nat, m as nat);
            }
        } else if m < b {
            lemma_pow2_order(m as nat, b as nat);
        }
    } else {
        lemma_counts_none(samples, m);
    }
}

proof fn lemma_over_range(samples: Seq<u64>, thresh: int, n: int)
    requires
        0 <= n <= samples.len(),
    ensures
        0 <= samples_over(samples, thresh, n) <= n,
    decreases n,
{
    if n > 0 {
        lemma_over_range(samples, thresh, n - 1);
    }
}

proof fn lemma_over_order(samples: Seq<u64>, low: int, high: int, n: int)
    requires
        0 <= n <= samples.len(),
        low <= high,
    ensures
        samples_over(samples, high, n) <= samples_over(samples, low, n),
    decreases n,
{
    if n > 0 {
        lemma_over_order(samples, low, high, n - 1);
    }
}

/// Where no sample lies between two thresholds, the same samples exceed them.
proof fn lemma_over_gap(samples: Seq<u64>, low: int, high: int, n: int)
    requires
        0 <= n <= samples.len(),
        low <= high,
        forall|i: int| 0 <= i < samples.len() ==> !(low < #[trigger] samples[i] <= high),
    ensures
        samples_over(samples, high, n) == samples_over(samples, low, n),
    decreases n,
{
    if n > 0 {
        lemma_over_gap(samples, low, high, n - 1);
        assert(!(low < samples[n - 1] <= high));
    }
}

proof fn lemma_over_none(samples: Seq<u64>, thresh: int, n: int)
    requires
        0 <= n <= samples.len(),
        forall|i: int| 0 <= i < samples.len() ==> #[trigger] samples[i] <= thresh,
    ensures
        samples_over(samples, thresh, n) == 0,
    decreases n,
{
    if n > 0 {
        lemma_over_none(samples, thresh, n - 1);
    }
}

proof fn lemma_over_prefix(a: Seq<u64>, b: Seq<u64>, thresh: int, n: int)
    requires
        n <= a.len() <= b.len(),
        forall|i: int| 0 <= i < a.len() ==> #[trigger] a[i] == b[i],
    ensures
        samples_over(a, thresh, n) == samples_over(b, thresh, n),
    decreases n,
{
    if n > 0 {
        lemma_over_prefix(a, b, thresh, n - 1);
        assert(a[n - 1] == b[n - 1]);
    }
}

/// The largest sample is one of them, and none is larger.
pub proof fn lemma_largest(samples: Seq<u64>)
    ensures
        forall|i: int| 0 <= i < samples.len() ==> #[trigger] samples[i] <= largest_of(samples),
        samples.len() > 0 ==> samples.contains(largest_of(samples)),
    decreases samples.len(),
{
    if samples.len() > 0 {
        let rest = samples.drop_last();
        lemma_largest(rest);
        assert forall|i: int| 0 <= i < samples.len() implies #[trigger] samples[i] <= largest_of(
            samples,
        ) by {
            if i < rest.len() {
                assert(rest[i] == samples[i]);
            }
        }
        if samples.last() > largest_of(rest) || rest.len() == 0 {
            assert(samples[samples.len() - 1] == largest_of(samples));
        } else {
            let k = choose|k: int| 0 <= k < rest.len() && rest[k] == largest_of(rest);
            assert(samples[k] == largest_of(samples));
        }
    }
}

/// What is counted as exceeding a threshold is just the samples that do, and what is
/// counted in a bucket just those from its lower edge up to the next, zero as one.
pub proof fn lemma_counted(samples: Seq<u64>, thresh: int, b: nat)
    ensures
        samples_over(samples, thresh, samples.len() as int) == samples.filter(
            |x: u64| x > thresh,
        ).len(),
        bucket_count(samples, b as int, samples.len() as int) == samples.filter(
            |x: u64| pow2(b) <= x < pow2(b + 1) || x == 0 && b == 0,
        ).len(),
    decreases samples.len(),
{
    reveal(Seq::filter);
    lemma_pow2_pos(b);
    vstd::arithmetic::power2::lemma2_to64();
    if b > 0 {
        lemma_pow2_order(0, b);
    }
    if samples.len() > 0 {
        let rest = samples.drop_last();
        lemma_counted(rest, thresh, b);
        lemma_over_prefix(rest, samples, thresh, rest.len() as int);
        lemma_count_prefix(rest, samples, b as int, rest.len() as int);
    }
}

/// The first bucket, from `i` on, up to which at least `target` samples lie.
pub open spec fn first_reaching(buckets: Seq<u64>, target: int, i: int) -> Option<int>
    decreases 64 - i,
{
    if 0 <= i < 64 {
        if total(buckets, i + 1) >= target {
            Some(i)
        } else {
            first_reaching(buckets, target, i + 1)
        }
    } else {
        None
    }
}

/// Every sample has a bucket.
proof fn lemma_has_bucket(ns: u64) -> (b: int)
    ensures
        in_bucket(ns, b),
        b < 64,
{
    let n = if ns == 0 {
        1
    } else {
        ns as int
    };
    vstd::arithmetic::power2::lemma2_to64_rest();
    lemma_find_bucket(n, 63)
}

proof fn lemma_find_bucket(n: int, top: nat) -> (b: int)
    requires
        1 <= n < pow2(top + 1),
    ensures
        0 <= b <= top,
        pow2(b as nat) <= n < pow2((b + 1) as nat),
    decreases top,
{
    if pow2(top) <= n {
        top as int
    } else if top == 0 {
        vstd::arithmetic::power2::lemma2_to64();
        0
    } else {
        lemma_find_bucket(n, (top - 1) as nat)
    }
}

proof fn lemma_count_prefix(a: Seq<u64>, b: Seq<u64>, c: int, n: int)
    requires
        n <= a.len() <= b.len(),
        forall|i: int| 0 <= i < a.len() ==> #[trigger] a[i] == b[i],
    ensures
        bucket_count(a, c, n) == bucket_count(b, c, n),
    decreases n,
{
    if n > 0 {
        lemma_count_prefix(a, b, c, n - 1);
        assert(a[n - 1] == b[n - 1]);
    }
}

proof fn lemma_total_zero(s: Seq<u64>, n: int)
    requires
        n <= s.len(),
        forall|i: int| 0 <= i < s.len() ==> #[trigger] s[i] == 0,
    ensures
        total(s, n) == 0,
    decreases n,
{
    if n > 0 {
        lemma_total_zero(s, n - 1);
    }
}

proof fn lemma_total_mono(s: Seq<u64>, a: int, b: int)
    requires
        0 <= a <= b <= s.len(),
    ensures
        0 <= total(s, a) <= total(s, b),
    decreases b,
{
    if a < b {
        lemma_total_mono(s, a, b - 1);
    } else if a > 0 {
        lemma_total_mono(s, a - 1, a - 1);
    }
}

proof fn lemma_total_bound(s: Seq<u64>, i: int, n: int)
    requires
        0 <= i < n <= s.len(),
    ensures
        s[i] <= total(s, n),
    decreases n,
{
    if i < n - 1 {
        lemma_total_bound(s, i, n - 1);
    } else {
        lemma_total_mono(s, 0, n - 1);
    }
}

proof fn lemma_total_update(a: Seq<u64>, b: Seq<u64>, i: int, n: int)
    requires
        n <= a.len(),
        a.len() == b.len(),
        0 <= i < a.len(),
        b[i] == a[i] + 1,
        forall|j: int| 0 <= j < a.len() && j != i ==> #[trigger] b[j] == a[j],
    ensures
        total(b, n) == total(a, n) + if i < n {
            1int
        } else {
            0int
        },
    decreases n,
{
    if n > 0 {
        lemma_total_update(a, b, i, n - 1);
    }
}

} // verus!
