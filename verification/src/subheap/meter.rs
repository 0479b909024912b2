//! What the live meter measures: the bytes and objects that callers hold.

use vstd::prelude::*;
use crate::meta::SPAN_BYTES;
use crate::sizeclass::{class_size, is_class};
use crate::subheap::heap::{is_obj, kind_ok, kinds_ok, lemma_slot_is_obj, run_len, Heap, SpanKind};
use crate::subheap::tiling::{group_of, lemma_tiling, slot_addr, slot_index, slots_of, span_index};

verus! {

/// How many of the first `n` slots of span `s` are held.
pub open spec fn held_in(held: spec_fn(int, int) -> bool, s: int, n: int) -> int
    decreases n,
{
    if n <= 0 {
        0
    } else {
        held_in(held, s, n - 1) + if held(s, n - 1) {
            1int
        } else {
            0
        }
    }
}

/// Bytes held in the group or run that starts at span `s`.
pub open spec fn span_bytes(kind: Seq<SpanKind>, held: spec_fn(int, int) -> bool, s: int) -> int {
    match kind[s] {
        SpanKind::Tile { class, .. } => class_size(class) * held_in(held, s, slots_of(class)),
        SpanKind::Big { len } => len * SPAN_BYTES,
        _ => 0,
    }
}

/// Objects held in the group or run that starts at span `s`: a large run counts
/// as one.
pub open spec fn span_objs(kind: Seq<SpanKind>, held: spec_fn(int, int) -> bool, s: int) -> int {
    match kind[s] {
        SpanKind::Tile { class, .. } => held_in(held, s, slots_of(class)),
        SpanKind::Big { .. } => 1,
        _ => 0,
    }
}

/// Bytes held in the first `n` spans.
pub open spec fn total_bytes(kind: Seq<SpanKind>, held: spec_fn(int, int) -> bool, n: int) -> int
    decreases n,
{
    if n <= 0 {
        0
    } else {
        total_bytes(kind, held, n - 1) + span_bytes(kind, held, n - 1)
    }
}

/// Objects held in the first `n` spans.
pub open spec fn total_objs(kind: Seq<SpanKind>, held: spec_fn(int, int) -> bool, n: int) -> int
    decreases n,
{
    if n <= 0 {
        0
    } else {
        total_objs(kind, held, n - 1) + span_objs(kind, held, n - 1)
    }
}

impl Heap {
    /// Whether slot `i` of span `s` is held by a caller.
    pub open spec fn held(&self) -> spec_fn(int, int) -> bool {
        |s: int, i: int| self.place()[s][i] is Live
    }

    /// Bytes that callers hold: the sizes of all live objects and large runs.
    pub open spec fn held_bytes(&self) -> int {
        total_bytes(self.kind(), self.held(), self.kind().len() as int)
    }

    /// Objects and large runs that callers hold.
    pub open spec fn held_objs(&self) -> int {
        total_objs(self.kind(), self.held(), self.kind().len() as int)
    }
}

proof fn lemma_held_bounds(held: spec_fn(int, int) -> bool, s: int, n: int)
    requires
        0 <= n,
    ensures
        0 <= held_in(held, s, n) <= n,
    decreases n,
{
    if n > 0 {
        lemma_held_bounds(held, s, n - 1);
    }
}

proof fn lemma_held_same(f: spec_fn(int, int) -> bool, g: spec_fn(int, int) -> bool, s: int, n: int)
    requires
        forall|i: int| 0 <= i < n ==> #[trigger] f(s, i) == g(s, i),
    ensures
        held_in(f, s, n) == held_in(g, s, n),
    decreases n,
{
    if n > 0 {
        assert(f(s, n - 1) == g(s, n - 1));
        lemma_held_same(f, g, s, n - 1);
    }
}

proof fn lemma_held_none(f: spec_fn(int, int) -> bool, s: int, n: int)
    requires
        0 <= n,
        forall|i: int| 0 <= i < n ==> !#[trigger] f(s, i),
    ensures
        held_in(f, s, n) == 0,
    decreases n,
{
    if n > 0 {
        assert(!f(s, n - 1));
        lemma_held_none(f, s, n - 1);
    }
}

proof fn lemma_held_one_more(
    f: spec_fn(int, int) -> bool,
    g: spec_fn(int, int) -> bool,
    s: int,
    k: int,
    n: int,
)
    requires
        0 <= k < n,
        !f(s, k),
        g(s, k),
        forall|i: int| 0 <= i < n && i != k ==> #[trigger] f(s, i) == g(s, i),
    ensures
        held_in(g, s, n) == held_in(f, s, n) + 1,
    decreases n,
{
    if k == n - 1 {
        lemma_held_same(f, g, s, n - 1);
    } else {
        assert(f(s, n - 1) == g(s, n - 1));
        lemma_held_one_more(f, g, s, k, n - 1);
    }
}

proof fn lemma_totals_same(
    k: Seq<SpanKind>,
    f: spec_fn(int, int) -> bool,
    l: Seq<SpanKind>,
    g: spec_fn(int, int) -> bool,
    n: int,
)
    requires
        forall|s: int|
            0 <= s < n ==> #[trigger] span_bytes(k, f, s) == span_bytes(l, g, s) && span_objs(k, f, s)
                == span_objs(l, g, s),
    ensures
        total_bytes(k, f, n) == total_bytes(l, g, n),
        total_objs(k, f, n) == total_objs(l, g, n),
    decreases n,
{
    if n > 0 {
        lemma_totals_same(k, f, l, g, n - 1);
        assert(span_bytes(k, f, n - 1) == span_bytes(l, g, n - 1));
    }
}

proof fn lemma_totals_one_more(
    k: Seq<SpanKind>,
    f: spec_fn(int, int) -> bool,
    g: spec_fn(int, int) -> bool,
    s: int,
    i: int,
    n: int,
)
    requires
        0 <= s < n,
        k[s] is Tile,
        0 <= i < slots_of(k[s]->class),
        !f(s, i),
        g(s, i),
        forall|t: int, j: int| !(t == s && j == i) ==> #[trigger] f(t, j) == g(t, j),
    ensures
        total_bytes(k, g, n) == total_bytes(k, f, n) + class_size(k[s]->class),
        total_objs(k, g, n) == total_objs(k, f, n) + 1,
    decreases n,
{
    let t = n - 1;
    if t == s {
        let c = k[s]->class;
        lemma_held_one_more(f, g, s, i, slots_of(c));
        let z = class_size(c);
        let h = held_in(f, s, slots_of(c));
        assert(z * (h + 1) == z * h + z) by (nonlinear_arith);
        assert forall|u: int| 0 <= u < t implies #[trigger] span_bytes(k, f, u) == span_bytes(k, g, u)
            && span_objs(k, f, u) == span_objs(k, g, u) by {
            match k[u] {
                SpanKind::Tile { class, .. } => {
                    lemma_held_same(f, g, u, slots_of(class));
                },
                _ => {},
            }
        }
        lemma_totals_same(k, f, k, g, t);
    } else {
        lemma_totals_one_more(k, f, g, s, i, n - 1);
        match k[t] {
            SpanKind::Tile { class, .. } => {
                lemma_held_same(f, g, t, slots_of(class));
            },
            _ => {},
        }
    }
}

/// Whether a slot is held in `other` or is one of the first `m` objects of
/// `part`.
spec fn held_with(other: &Heap, h: &Heap, c: int, part: Seq<usize>, m: int) -> spec_fn(int, int) -> bool {
    |s: int, i: int|
        is_obj(h.kind(), s, i) && (other.live(
            slot_addr(h.base(), s, i, h.kind()[s]->class),
            h.kind()[s]->class,
        ) || exists|k: int|
            0 <= k < m && #[trigger] part[k] == slot_addr(h.base(), s, i, h.kind()[s]->class))
}

impl Heap {
    /// Two heaps tile their common spans with the same classes.
    pub open spec fn compatible(&self, other: &Heap) -> bool {
        &&& self.base() == other.base()
        &&& self.kind().len() == other.kind().len()
        &&& forall|s: int|
            0 <= s < self.kind().len() && #[trigger] self.kind()[s] is Tile && other.kind()[s] is Tile
                ==> self.kind()[s]->class == other.kind()[s]->class
    }

    proof fn lemma_part_step(&self, other: &Heap, c: int, part: Seq<usize>, m: int)
        requires
            self.wf(),
            other.wf(),
            is_class(c),
            self.gained_all(other, c, part),
            0 <= m < part.len(),
        ensures
            total_bytes(
                self.kind(),
                held_with(other, self, c, part, m + 1),
                self.kind().len() as int,
            ) == total_bytes(
                self.kind(),
                held_with(other, self, c, part, m),
                self.kind().len() as int,
            ) + class_size(c),
            total_objs(
                self.kind(),
                held_with(other, self, c, part, m + 1),
                self.kind().len() as int,
            ) == total_objs(
                self.kind(),
                held_with(other, self, c, part, m),
                self.kind().len() as int,
            ) + 1,
    {
        let base = self.base();
        let kind = self.kind();
        let f = held_with(other, self, c, part, m);
        let g = held_with(other, self, c, part, m + 1);
        let a = part[m] as int;
        assert(self.live(a, c) && !other.live(a, c));
        let s = span_index(base, a);
        let i = slot_index(base, a, c);
        assert(slot_addr(base, s, i, c) == a);
        assert(!f(s, i)) by {
            if exists|k: int| 0 <= k < m && #[trigger] part[k] == slot_addr(base, s, i, c) {
                let k = choose|k: int| 0 <= k < m && #[trigger] part[k] == slot_addr(base, s, i, c);
                assert(part[k] == part[m]);
            }
        }
        assert(g(s, i));
        assert forall|t: int, j: int| !(t == s && j == i) implies #[trigger] f(t, j) == g(t, j) by {
            if is_obj(kind, t, j) && slot_addr(base, t, j, kind[t]->class) == a {
                self.lemma_kinds();
                assert(kind_ok(kind, self.carved(), self.shards(), t));
                lemma_slot_is_obj(base, kind, t, j);
                // The same address lies in one span and slot.
                assert(span_index(base, a) == t);
                assert(kind[t]->class == c);
            }
            if g(t, j) && !f(t, j) {
                let x = slot_addr(base, t, j, kind[t]->class);
                let k = choose|k: int| 0 <= k < m + 1 && #[trigger] part[k] == x;
                assert(k == m);
            }
            if f(t, j) && !other.live(
                slot_addr(base, t, j, kind[t]->class),
                kind[t]->class,
            ) {
                let x = slot_addr(base, t, j, kind[t]->class);
                let k = choose|k: int| 0 <= k < m && #[trigger] part[k] == x;
                assert(0 <= k < m + 1 && part[k] == x);
            }
        }
        lemma_totals_one_more(kind, f, g, s, i, kind.len() as int);
    }

    proof fn lemma_part_sum(&self, other: &Heap, c: int, part: Seq<usize>, m: int)
        requires
            self.wf(),
            other.wf(),
            is_class(c),
            self.gained_all(other, c, part),
            0 <= m <= part.len(),
        ensures
            total_bytes(self.kind(), held_with(other, self, c, part, m), self.kind().len() as int)
                == total_bytes(
                self.kind(),
                held_with(other, self, c, part, 0),
                self.kind().len() as int,
            ) + m * class_size(c),
            total_objs(self.kind(), held_with(other, self, c, part, m), self.kind().len() as int)
                == total_objs(
                self.kind(),
                held_with(other, self, c, part, 0),
                self.kind().len() as int,
            ) + m,
        decreases m,
    {
        if m > 0 {
            self.lemma_part_sum(other, c, part, m - 1);
            self.lemma_part_step(other, c, part, m - 1);
            let z = class_size(c);
            assert((m - 1) * z + z == m * z) by (nonlinear_arith);
        } else {
            assert(0 * class_size(c) == 0);
        }
    }

    /// The meter follows the live objects: with `part.len()` more objects of
    /// class `c` live and the same large runs, that many more are held, and their
    /// bytes.
    pub proof fn lemma_held_gained(&self, other: &Heap, c: int, part: Seq<usize>)
        requires
            self.wf(),
            other.wf(),
            is_class(c),
            self.compatible(other),
            self.same_runs(other),
            self.gained_all(other, c, part),
        ensures
            self.held_bytes() == other.held_bytes() + part.len() * class_size(c),
            self.held_objs() == other.held_objs() + part.len(),
    {
        let base = self.base();
        let kind = self.kind();
        let n = kind.len() as int;
        let len = part.len() as int;
        self.lemma_part_sum(other, c, part, len);
        let f0 = held_with(other, self, c, part, 0);
        let f1 = held_with(other, self, c, part, len);
        self.lemma_kinds();
        other.lemma_kinds();
        assert forall|s: int| 0 <= s < n implies #[trigger] span_bytes(kind, f1, s) == span_bytes(
            kind,
            self.held(),
            s,
        ) && span_objs(kind, f1, s) == span_objs(kind, self.held(), s) by {
            match kind[s] {
                SpanKind::Tile { class, .. } => {
                    assert(kind_ok(kind, self.carved(), self.shards(), s));
                    let h = self.held();
                    assert forall|i: int| 0 <= i < slots_of(class) implies #[trigger] f1(s, i) == h(s, i) by {
                        lemma_slot_is_obj(base, kind, s, i);
                        let a = slot_addr(base, s, i, class);
                        self.lemma_object_bounds(a, class);
                        lemma_tiling(class);
                        assert(self.live(a, class) <==> h(s, i));
                        if exists|k: int| 0 <= k < len && #[trigger] part[k] == a {
                            let k = choose|k: int| 0 <= k < len && #[trigger] part[k] == a;
                            assert(self.live(part[k] as int, c));
                            // One address, one object: the classes agree.
                            assert(span_index(base, a) == s);
                        }
                        if self.live(a, class) && !other.live(a, class) {
                            assert(part.contains(a as usize));
                            let k = part.index_of(a as usize);
                            assert(part[k] == a);
                        }
                    }
                    lemma_held_same(f1, h, s, slots_of(class));
                },
                _ => {},
            }
        }
        lemma_totals_same(kind, f1, kind, self.held(), n);
        assert forall|s: int| 0 <= s < n implies #[trigger] span_bytes(kind, f0, s) == span_bytes(
            other.kind(),
            other.held(),
            s,
        ) && span_objs(kind, f0, s) == span_objs(other.kind(), other.held(), s) by {
            self.lemma_span_before(other, c, part, s);
        }
        lemma_totals_same(kind, f0, other.kind(), other.held(), n);
    }

    proof fn lemma_span_before(&self, other: &Heap, c: int, part: Seq<usize>, s: int)
        requires
            self.wf(),
            other.wf(),
            is_class(c),
            self.compatible(other),
            self.same_runs(other),
            self.gained_all(other, c, part),
            0 <= s < self.kind().len(),
        ensures
            span_bytes(self.kind(), held_with(other, self, c, part, 0), s) == span_bytes(
                other.kind(),
                other.held(),
                s,
            ),
            span_objs(self.kind(), held_with(other, self, c, part, 0), s) == span_objs(
                other.kind(),
                other.held(),
                s,
            ),
    {
        let base = self.base();
        let k1 = self.kind();
        let k0 = other.kind();
        let f0 = held_with(other, self, c, part, 0);
        let h0 = other.held();
        self.lemma_kinds();
        other.lemma_kinds();
        assert(kind_ok(k1, self.carved(), self.shards(), s));
        assert(kind_ok(k0, other.carved(), other.shards(), s));
        let at = base + s * SPAN_BYTES;
        assert(span_index(base, at) == s);
        // A large run here in one heap is one in the other.
        if k0[s] is Big {
            assert(other.live_run(at, k0[s]->len));
            assert(self.live_run(at, k0[s]->len));
        }
        if k1[s] is Big {
            assert(self.live_run(at, k1[s]->len));
            assert(other.live_run(at, k1[s]->len));
        }
        if k1[s] is Tile {
            let d = k1[s]->class;
            lemma_tiling(d);
            if k0[s] is Tile {
                assert forall|i: int| 0 <= i < slots_of(d) implies #[trigger] f0(s, i) == h0(s, i) by {
                    lemma_slot_is_obj(base, k1, s, i);
                    lemma_slot_is_obj(base, k0, s, i);
                }
                lemma_held_same(f0, h0, s, slots_of(d));
            } else {
                assert forall|i: int| 0 <= i < slots_of(d) implies !#[trigger] f0(s, i) by {
                    lemma_slot_is_obj(base, k1, s, i);
                }
                lemma_held_none(f0, s, slots_of(d));
                assert(class_size(d) * 0 == 0);
            }
        } else if k0[s] is Tile {
            let d = k0[s]->class;
            lemma_tiling(d);
            assert forall|i: int| 0 <= i < slots_of(d) implies !#[trigger] h0(s, i) by {
                lemma_slot_is_obj(base, k0, s, i);
                let a = slot_addr(base, s, i, d);
                assert(!self.live(a, d));
                assert(self.live(a, d) <==> other.live(a, d) || (d == c && 0 <= a <= usize::MAX
                    && part.contains(a as usize)));
            }
            lemma_held_none(h0, s, slots_of(d));
            assert(class_size(d) * 0 == 0);
        }
    }

    /// Nothing gained or lost: nothing more or less held.
    pub proof fn lemma_held_unchanged(&self, other: &Heap)
        requires
            self.wf(),
            other.wf(),
            self.compatible(other),
            self.same_live(other),
        ensures
            self.held_bytes() == other.held_bytes(),
            self.held_objs() == other.held_objs(),
    {
        let none = Seq::<usize>::empty();
        assert(self.gained_all(other, 1, none));
        self.lemma_held_gained(other, 1, none);
        assert(0 * class_size(1) == 0);
    }

    /// A large run more is held, and its bytes.
    pub proof fn lemma_held_run(&self, other: &Heap, s: int, len: int)
        requires
            self.wf(),
            other.wf(),
            0 <= s,
            1 <= len,
            s + len <= other.kind().len(),
            forall|t: int| s <= t < s + len ==> (#[trigger] other.kind()[t]) is Loose,
            self.kind() == crate::subheap::heap::run_made(other.kind(), s, len),
            self.base() == other.base(),
            forall|b: int, d: int| #[trigger] self.live(b, d) <==> other.live(b, d),
        ensures
            self.held_bytes() == other.held_bytes() + len * SPAN_BYTES,
            self.held_objs() == other.held_objs() + 1,
    {
        let n = self.kind().len() as int;
        self.lemma_held_run_upto(other, s, len, n);
    }

    proof fn lemma_held_run_upto(&self, other: &Heap, s: int, len: int, n: int)
        requires
            self.wf(),
            other.wf(),
            0 <= s,
            1 <= len,
            0 <= n <= other.kind().len(),
            forall|t: int| s <= t < s + len ==> (#[trigger] other.kind()[t]) is Loose,
            self.kind() == crate::subheap::heap::run_made(other.kind(), s, len),
            self.base() == other.base(),
            forall|b: int, d: int| #[trigger] self.live(b, d) <==> other.live(b, d),
        ensures
            total_bytes(self.kind(), self.held(), n) == total_bytes(other.kind(), other.held(), n) + if s
                < n {
                len * SPAN_BYTES
            } else {
                0
            },
            total_objs(self.kind(), self.held(), n) == total_objs(other.kind(), other.held(), n) + if s
                < n {
                1int
            } else {
                0
            },
        decreases n,
    {
        if n > 0 {
            self.lemma_held_run_upto(other, s, len, n - 1);
            let t = n - 1;
            let base = self.base();
            self.lemma_kinds();
            other.lemma_kinds();
            if !(s <= t < s + len) {
                match self.kind()[t] {
                    SpanKind::Tile { class, .. } => {
                        assert(kind_ok(self.kind(), self.carved(), self.shards(), t));
                        let f = self.held();
                        let g = other.held();
                        assert forall|i: int| 0 <= i < slots_of(class) implies #[trigger] f(t, i) == g(t, i) by {
                            lemma_slot_is_obj(base, self.kind(), t, i);
                            lemma_slot_is_obj(base, other.kind(), t, i);
                            let a = slot_addr(base, t, i, class);
                            assert(self.live(a, class) <==> other.live(a, class));
                        }
                        lemma_held_same(f, g, t, slots_of(class));
                    },
                    _ => {},
                }
            } else {
                assert(other.kind()[t] is Loose);
            }
        }
    }

    /// No more is held than was carved, and nothing negative.
    pub proof fn lemma_held_bounded(&self)
        requires
            self.wf(),
        ensures
            0 <= self.held_objs() <= self.held_bytes(),
            self.held_bytes() <= self.carved() * SPAN_BYTES,
            self.held_bytes() <= self.size(),
    {
        self.lemma_kinds();
        self.lemma_lens();
        self.lemma_carved_bounded();
        let n = self.kind().len() as int;
        self.lemma_held_upto(n);
        let c = self.carved();
        self.lemma_held_upto(c);
        self.lemma_nothing_past(c, n);
        if c < n {
            assert(kind_ok(self.kind(), c, self.shards(), c));
            match self.kind()[c] {
                SpanKind::Tail { head } => {
                    assert(kind_ok(self.kind(), c, self.shards(), head));
                },
                _ => {},
            }
        }
    }

    /// Where the group or run that reaches over span `k` ends; `k` if none does.
    spec fn end_over(&self, k: int) -> int {
        if 0 <= k < self.kind().len() {
            match self.kind()[k] {
                SpanKind::Tail { head } => head + run_len(self.kind()[head]),
                _ => k,
            }
        } else {
            k
        }
    }

    proof fn lemma_held_upto(&self, k: int)
        requires
            self.wf(),
            kinds_ok(self.kind(), self.carved(), self.shards()),
            0 <= k <= self.kind().len(),
            self.carved() <= self.kind().len(),
        ensures
            0 <= total_objs(self.kind(), self.held(), k) <= total_bytes(self.kind(), self.held(), k),
            total_bytes(self.kind(), self.held(), k) <= self.end_over(k) * SPAN_BYTES,
        decreases k,
    {
        let kind = self.kind();
        if k > 0 {
            self.lemma_held_upto(k - 1);
            let t = k - 1;
            assert(kind_ok(kind, self.carved(), self.shards(), t));
            if k < kind.len() {
                assert(kind_ok(kind, self.carved(), self.shards(), k));
                match kind[k] {
                    SpanKind::Tail { head } => {
                        assert(kind_ok(kind, self.carved(), self.shards(), head));
                        if head < t {
                            assert(kind[t] == (SpanKind::Tail { head }));
                        }
                    },
                    _ => {},
                }
            }
            match kind[t] {
                SpanKind::Tile { class, .. } => {
                    lemma_tiling(class);
                    let m = slots_of(class);
                    let h = held_in(self.held(), t, m);
                    lemma_held_bounds(self.held(), t, m);
                    let z = class_size(class);
                    let g = group_of(class) * SPAN_BYTES;
                    assert(h <= z * h && z * h <= g) by (nonlinear_arith)
                        requires
                            0 <= h <= m,
                            m * z <= g,
                            z >= 8,
                    ;
                    if group_of(class) > 1 {
                        assert(kind[k] == (SpanKind::Tail { head: t }));
                    }
                    assert(self.end_over(k) >= t + group_of(class));
                    assert(span_bytes(kind, self.held(), t) == z * h);
                },
                SpanKind::Big { len } => {
                    if len > 1 {
                        assert(kind[k] == (SpanKind::Tail { head: t }));
                    }
                    assert(self.end_over(k) >= t + len);
                },
                SpanKind::Tail { head } => {
                    assert(kind_ok(kind, self.carved(), self.shards(), head));
                    if k < head + run_len(kind[head]) {
                        assert(kind[k] == (SpanKind::Tail { head }));
                    }
                    assert(self.end_over(k) >= self.end_over(t));
                },
                SpanKind::Loose => {
                    assert(self.end_over(k) >= k);
                },
            }
        } else if kind.len() > 0 {
            assert(kind_ok(kind, self.carved(), self.shards(), 0));
        }
    }

    proof fn lemma_nothing_past(&self, c: int, n: int)
        requires
            self.wf(),
            kinds_ok(self.kind(), self.carved(), self.shards()),
            c == self.carved(),
            0 <= c <= n <= self.kind().len(),
        ensures
            total_bytes(self.kind(), self.held(), n) == total_bytes(self.kind(), self.held(), c),
        decreases n,
    {
        if c < n {
            self.lemma_nothing_past(c, n - 1);
            assert(kind_ok(self.kind(), self.carved(), self.shards(), n - 1));
            match self.kind()[n - 1] {
                SpanKind::Tile { class, .. } => {
                    lemma_tiling(class);
                },
                _ => {},
            }
        }
    }
}

impl Heap {
    /// One object more held.
    pub proof fn lemma_held_gained_one(&self, other: &Heap, c: int, a: usize)
        requires
            self.wf(),
            other.wf(),
            is_class(c),
            self.compatible(other),
            self.same_runs(other),
            self.gained(other, a as int, c),
        ensures
            self.held_bytes() == other.held_bytes() + class_size(c),
            self.held_objs() == other.held_objs() + 1,
    {
        let part = seq![a];
        assert(part[0] == a);
        assert forall|b: int, d: int| #[trigger] self.live(b, d) <==> other.live(b, d) || (d == c && 0
            <= b <= usize::MAX && part.contains(b as usize)) by {
            if b == a && d == c {
                assert(part.contains(a));
            } else if 0 <= b <= usize::MAX && part.contains(b as usize) {
                assert(part.index_of(b as usize) == 0);
            }
        }
        self.lemma_held_gained(other, c, part);
        assert(1 * class_size(c) == class_size(c));
    }

    /// A heap that grew tiles its old spans as before.
    pub proof fn lemma_grown_compatible(&self, other: &Heap)
        requires
            self.grown(other),
        ensures
            self.compatible(other),
            other.compatible(self),
    {
        assert forall|s: int|
            0 <= s < self.kind().len() && other.kind()[s] is Tile implies #[trigger] self.kind()[s]
            == other.kind()[s] by {}
    }

    /// In a heap with no span in use nothing is held.
    pub proof fn lemma_held_nothing(&self, n: int)
        requires
            0 <= n <= self.kind().len(),
            forall|s: int| 0 <= s < self.kind().len() ==> (#[trigger] self.kind()[s]) is Loose,
        ensures
            total_bytes(self.kind(), self.held(), n) == 0,
            total_objs(self.kind(), self.held(), n) == 0,
        decreases n,
    {
        if n > 0 {
            self.lemma_held_nothing(n - 1);
            assert(self.kind()[n - 1] is Loose);
        }
    }

    /// The uses before a large run was released are those after with it made
    /// again.
    pub proof fn lemma_release_inverse(&self, after: &Heap, s: int, len: int)
        requires
            self.wf(),
            0 <= s < self.kind().len(),
            self.kind()[s] == (SpanKind::Big { len }),
            after.kind() == crate::subheap::heap::loosened(self.kind(), s, len),
        ensures
            self.kind() == crate::subheap::heap::run_made(after.kind(), s, len),
            1 <= len,
            s + len <= self.kind().len(),
    {
        self.lemma_kinds();
        self.lemma_lens();
        assert(kind_ok(self.kind(), self.carved(), self.shards(), s));
        assert forall|t: int| s < t < s + len implies self.kind()[t] == (SpanKind::Tail { head: s }) by {}
        assert(self.kind() =~= crate::subheap::heap::run_made(after.kind(), s, len));
    }
}

} // verus!
