//! The shared state of a sub-heap, and the moves an object makes in it.
//!
//! Every object of a carved span is in exactly one place: free (its bit is set in
//! the span's bitmap), cached (its address is on one CPU's stack), or live (held
//! by a caller). Each function below moves objects from one place to another, or
//! adds or removes whole spans, and keeps the invariant.

use vstd::prelude::*;
use crate::bits::{
    bit, bit_mask, lemma_bit_ones, lemma_bit_or_and, lemma_bit_zero, lemma_bit_not, lowest_bit,
    mask_below,
};
use crate::meta::{
    spans_in, SpanBitmaps, SpanTable, NO_SPAN, SPAN_BITMAP_WORDS, SPAN_BYTES, SPAN_SLOTS,
};
use crate::rseq::abi::ThreadView;
use crate::rseq::slab::{bound_cpu, popped, pushed, CpuStack, Fast, SlabLayout, serving_cpu};
use crate::sizeclass::{class_size, is_class, size_of_class, NUM_CLASSES};
use crate::spanpool::SpanPool;
use crate::subheap::arena::BumpArena;
use crate::subheap::tiling::{
    batch_for, carve_spans_of, group_of, group_spans, lemma_locate, lemma_slots_apart,
    lemma_tiling, slot_addr, slot_index, slots_of, slots_per_span, span_index,
};
use crate::sys::SysBoxSlice;

verus! {

/// The tag of spans that hold no size class: large runs and pooled spans.
pub const LARGE_CLASS: u16 = 65534;

/// What a span is used for.
pub enum SpanKind {
    /// Not carved yet, or carved and back in the pool.
    Loose,
    /// The first span of a group tiled by a size class, on the list of a shard.
    Tile { class: int, shard: int },
    /// The first span of a large run of `len` spans.
    Big { len: int },
    /// A further span of the group or run that starts at `head`.
    Tail { head: int },
}

/// Where an object is.
pub enum Place {
    /// Its bit is set in the span's bitmap.
    Free,
    /// At position `pos` of its class's stack on `cpu`.
    Cached { cpu: int, pos: int },
    /// Held by a caller.
    Live,
}

/// Spans in the group or run that starts with a span of this kind.
pub open spec fn run_len(k: SpanKind) -> int {
    match k {
        SpanKind::Tile { class, .. } => group_of(class),
        SpanKind::Big { len } => len,
        _ => 1,
    }
}

/// The class field of the tag of spans in a group or run of this kind.
pub open spec fn tag_class(k: SpanKind) -> int {
    match k {
        SpanKind::Tile { class, .. } => class,
        _ => LARGE_CLASS as int,
    }
}

/// The spans' uses are consistent: groups and runs lie in the carved part, and
/// each further span points back at its first.
pub open spec fn kinds_ok(kind: Seq<SpanKind>, carved: int, shards: int) -> bool {
    forall|s: int| 0 <= s < kind.len() ==> #[trigger] kind_ok(kind, carved, shards, s)
}

pub open spec fn kind_ok(kind: Seq<SpanKind>, carved: int, shards: int, s: int) -> bool {
    match kind[s] {
        SpanKind::Loose => true,
        SpanKind::Tile { class, shard } => {
            &&& is_class(class)
            &&& 0 <= shard < shards
            &&& s + group_of(class) <= carved
            &&& forall|j: int| s < j < s + group_of(class) ==> #[trigger] kind[j] == (SpanKind::Tail {
                head: s,
            })
        },
        SpanKind::Big { len } => {
            &&& len >= 1
            &&& s + len <= carved
            &&& forall|j: int| s < j < s + len ==> #[trigger] kind[j] == (SpanKind::Tail { head: s })
        },
        SpanKind::Tail { head } => {
            &&& 0 <= head < s
            &&& kind[head] is Tile || kind[head] is Big
            &&& s < head + run_len(kind[head])
        },
    }
}

/// Tags agree with the spans' uses.
pub open spec fn tags_ok(spans: &SpanTable, kind: Seq<SpanKind>, carved: int) -> bool {
    forall|s: int| 0 <= s < kind.len() ==> #[trigger] tag_ok(spans, kind, carved, s)
}

pub open spec fn tag_ok(spans: &SpanTable, kind: Seq<SpanKind>, carved: int, s: int) -> bool {
    if s >= carved {
        spans.tag(s) is None
    } else {
        &&& spans.tag(s) is Some
        &&& spans.tag(s).unwrap().0 == (match kind[s] {
            SpanKind::Tail { head } => tag_class(kind[head]),
            k => tag_class(k),
        })
    }
}

/// The pool holds exactly the carved spans that are not in use.
pub open spec fn pool_ok(pool: &SpanPool, kind: Seq<SpanKind>, carved: int) -> bool {
    forall|s: int| #[trigger] pool.covers(s) <==> 0 <= s < carved && kind[s] is Loose
}

/// Whether slot `i` of span `s` is an object.
pub open spec fn is_obj(kind: Seq<SpanKind>, s: int, i: int) -> bool {
    &&& 0 <= s < kind.len()
    &&& kind[s] is Tile
    &&& 0 <= i < slots_of(kind[s]->class)
}

/// A slot's bit is set exactly when it is a free object.
pub open spec fn bits_ok(maps: &SpanBitmaps, kind: Seq<SpanKind>, place: Seq<Seq<Place>>) -> bool {
    forall|s: int, i: int|
        0 <= s < kind.len() && 0 <= i < SPAN_SLOTS ==> (#[trigger] maps.slot_free(s, i) <==> is_obj(
            kind,
            s,
            i,
        ) && place[s][i] is Free)
}

/// Whether `a` is the address of an object of class `c`.
pub open spec fn obj_at(base: int, kind: Seq<SpanKind>, a: int, c: int) -> bool {
    let s = span_index(base, a);
    let i = slot_index(base, a, c);
    &&& is_class(c)
    &&& base <= a
    &&& is_obj(kind, s, i)
    &&& kind[s]->class == c
    &&& slot_addr(base, s, i, c) == a
}

/// Where the object of class `c` at `a` is.
pub open spec fn place_at(base: int, place: Seq<Seq<Place>>, a: int, c: int) -> Place {
    place[span_index(base, a)][slot_index(base, a, c)]
}

/// Entry `k` of class `c`'s stack on `cpu` is an object that is cached just there.
pub open spec fn cached_ok(
    slab: &SlabLayout,
    base: int,
    kind: Seq<SpanKind>,
    place: Seq<Seq<Place>>,
    cpu: int,
    c: int,
    k: int,
) -> bool {
    let a = slab.stack(cpu, c)[k] as int;
    &&& obj_at(base, kind, a, c)
    &&& place_at(base, place, a, c) == (Place::Cached { cpu, pos: k })
}

/// The object at slot `i` of span `s`, if it is cached, is on the stack it says.
pub open spec fn cache_entry(
    slab: &SlabLayout,
    base: int,
    kind: Seq<SpanKind>,
    place: Seq<Seq<Place>>,
    s: int,
    i: int,
) -> bool {
    match place[s][i] {
        Place::Cached { cpu, pos } => {
            let c = kind[s]->class;
            &&& 0 <= cpu < slab.cpus()
            &&& 0 <= pos < slab.stack(cpu, c).len()
            &&& slab.stack(cpu, c)[pos] == slot_addr(base, s, i, c)
        },
        _ => true,
    }
}

/// Stacks and cached objects match one for one.
pub open spec fn slab_ok(
    slab: &SlabLayout,
    base: int,
    kind: Seq<SpanKind>,
    place: Seq<Seq<Place>>,
) -> bool {
    &&& forall|cpu: int, c: int, k: int|
        0 <= cpu < slab.cpus() && 0 <= c < NUM_CLASSES && 0 <= k < slab.stack(cpu, c).len()
            ==> #[trigger] cached_ok(slab, base, kind, place, cpu, c, k)
    &&& forall|s: int, i: int|
        is_obj(kind, s, i) ==> #[trigger] cache_entry(slab, base, kind, place, s, i)
}

/// The list with index `j` threads its spans in order.
pub open spec fn list_ok(
    maps: &SpanBitmaps,
    heads: Seq<u32>,
    lists: Seq<Seq<u32>>,
    kind: Seq<SpanKind>,
    j: int,
) -> bool {
    let l = lists[j];
    &&& heads[j] == (if l.len() > 0 {
        l[0]
    } else {
        NO_SPAN
    })
    &&& l.no_duplicates()
    &&& forall|k: int| 0 <= k < l.len() ==> #[trigger] link_ok(maps, l, kind, j, k)
}

pub open spec fn link_ok(maps: &SpanBitmaps, l: Seq<u32>, kind: Seq<SpanKind>, j: int, k: int) -> bool {
    let s = l[k] as int;
    &&& s < kind.len()
    &&& kind[s] == (SpanKind::Tile {
        class: j % NUM_CLASSES as int,
        shard: j / NUM_CLASSES as int,
    })
    &&& maps.link(s) == (if k + 1 < l.len() {
        l[k + 1]
    } else {
        NO_SPAN
    })
}

/// Index of the list for a shard and class.
pub open spec fn list_index(shard: int, class: int) -> int {
    shard * NUM_CLASSES + class
}

/// Each tiled group is on the list of its shard and class, and on no other.
pub open spec fn lists_ok(
    maps: &SpanBitmaps,
    heads: Seq<u32>,
    lists: Seq<Seq<u32>>,
    kind: Seq<SpanKind>,
) -> bool {
    &&& forall|j: int| 0 <= j < lists.len() ==> #[trigger] list_ok(maps, heads, lists, kind, j)
    &&& forall|s: int|
        0 <= s < kind.len() && kind[s] is Tile ==> (#[trigger] lists[list_index(
            kind[s]->shard,
            kind[s]->class,
        )]).contains(s as u32)
    &&& forall|s: int| 0 <= s < kind.len() ==> (#[trigger] maps.listed(s) <==> kind[s] is Tile)
}

/// The run table records the length of each large run at its head, and nothing
/// else.
pub open spec fn runs_ok(run_spans: Seq<u32>, kind: Seq<SpanKind>) -> bool {
    forall|s: int|
        0 <= s < kind.len() ==> #[trigger] run_spans[s] == (match kind[s] {
            SpanKind::Big { len } => len,
            _ => 0,
        })
}

/// The shared state: slab, bitmaps and lists, span table, pool and arena.
pub struct Heap {
    pub(crate) slab: SlabLayout,
    pub(crate) heads: SysBoxSlice<u32>,
    pub(crate) hints: SysBoxSlice<u32>,
    pub(crate) bitmaps: SpanBitmaps,
    pub(crate) num_shards: u32,
    pub(crate) arena: BumpArena,
    pub(crate) spans: SpanTable,
    pub(crate) pool: SpanPool,
    pub(crate) run_spans: SysBoxSlice<u32>,
    pub(crate) kind: Ghost<Seq<SpanKind>>,
    pub(crate) place: Ghost<Seq<Seq<Place>>>,
    pub(crate) lists: Ghost<Seq<Seq<u32>>>,
}

impl Heap {
    /// First address of the arena.
    pub open spec fn base(&self) -> int {
        self.arena().base()
    }

    /// Bytes of the arena.
    pub open spec fn size(&self) -> int {
        self.arena().size()
    }

    /// Spans carved so far.
    pub open spec fn carved(&self) -> int {
        self.arena().carved()
    }

    /// Number of shards.
    pub closed spec fn shards(&self) -> int {
        self.num_shards as int
    }

    /// The pool of recycled spans.
    pub closed spec fn pool(&self) -> SpanPool {
        self.pool
    }

    /// The bump arena.
    pub closed spec fn arena(&self) -> BumpArena {
        self.arena
    }

    /// The slab of per-CPU stacks.
    pub closed spec fn slab(&self) -> SlabLayout {
        self.slab
    }

    /// What each span is used for.
    pub closed spec fn kind(&self) -> Seq<SpanKind> {
        self.kind@
    }

    /// Where each slot's object is.
    pub closed spec fn place(&self) -> Seq<Seq<Place>> {
        self.place@
    }

    /// The spans on each list, in order.
    pub closed spec fn lists(&self) -> Seq<Seq<u32>> {
        self.lists@
    }

    /// The span each list's scan starts with, if any.
    pub closed spec fn hint(&self, j: int) -> u32 {
        self.hints@[j]
    }

    /// The tag of span `s`.
    pub closed spec fn tag(&self, s: int) -> Option<(u16, u16)> {
        self.spans.tag(s)
    }

    spec fn geometry(&self) -> bool {
        let n = spans_in(self.arena.size());
        &&& self.arena.wf()
        &&& self.slab.wf()
        &&& self.bitmaps.wf()
        &&& self.spans.wf()
        &&& self.pool.wf()
        &&& self.arena.base() > 0
        &&& self.arena.base() == self.bitmaps.base()
        &&& self.arena.base() == self.spans.base()
        &&& self.arena.size() == self.spans.size()
        &&& self.bitmaps.span_count() == n
        &&& n < NO_SPAN
        &&& self.pool.span_count() == if n == 0 {
            1
        } else {
            n
        }
        &&& self.run_spans@.len() == self.pool.span_count()
        &&& self.num_shards >= 1
        &&& self.heads@.len() == self.num_shards * NUM_CLASSES
        &&& self.heads@.len() <= usize::MAX
        &&& self.hints@.len() == self.num_shards * NUM_CLASSES
        &&& self.lists@.len() == self.num_shards * NUM_CLASSES
        &&& self.slab.class_count() == NUM_CLASSES
        &&& self.kind@.len() == n
        &&& self.place@.len() == n
        &&& forall|s: int| 0 <= s < n ==> (#[trigger] self.place@[s]).len() == SPAN_SLOTS
        &&& forall|j: int|
            0 <= j < self.hints@.len() ==> #[trigger] self.hints@[j] == NO_SPAN || self.hints@[j] < n
    }

    /// The heap's invariant.
    pub closed spec fn wf(&self) -> bool {
        &&& self.geometry()
        &&& kinds_ok(self.kind@, self.arena.carved(), self.num_shards as int)
        &&& tags_ok(&self.spans, self.kind@, self.arena.carved())
        &&& pool_ok(&self.pool, self.kind@, self.arena.carved())
        &&& bits_ok(&self.bitmaps, self.kind@, self.place@)
        &&& slab_ok(&self.slab, self.arena.base(), self.kind@, self.place@)
        &&& lists_ok(&self.bitmaps, self.heads@, self.lists@, self.kind@)
        &&& runs_ok(self.run_spans@, self.kind@)
    }

    /// Whether `a` is the address of an object of class `c`.
    pub open spec fn is_object(&self, a: int, c: int) -> bool {
        obj_at(self.base(), self.kind(), a, c)
    }

    /// Whether `a` is the address of a live object of class `c`.
    pub open spec fn live(&self, a: int, c: int) -> bool {
        self.is_object(a, c) && place_at(self.base(), self.place(), a, c) is Live
    }

    /// Whether `a` is the address of a live large run of `len` spans.
    pub open spec fn live_run(&self, a: int, len: int) -> bool {
        let s = span_index(self.base(), a);
        &&& 0 <= s < self.kind().len()
        &&& a == self.base() + s * SPAN_BYTES
        &&& self.kind()[s] == (SpanKind::Big { len })
    }
}

/// The places after the object at slot `i` of span `s` moved to `v`.
pub open spec fn moved(place: Seq<Seq<Place>>, s: int, i: int, v: Place) -> Seq<Seq<Place>> {
    place.update(s, place[s].update(i, v))
}

/// Two object addresses of one span and slot are the same object.
pub proof fn lemma_same_slot(base: int, kind: Seq<SpanKind>, a: int, c: int, b: int, d: int)
    requires
        obj_at(base, kind, a, c),
        obj_at(base, kind, b, d),
        span_index(base, a) == span_index(base, b),
        slot_index(base, a, c) == slot_index(base, b, d),
    ensures
        a == b,
        c == d,
{
}

/// Slot `i` of a tiled span is an object, at the slot's address.
pub proof fn lemma_slot_is_obj(base: int, kind: Seq<SpanKind>, s: int, i: int)
    requires
        is_obj(kind, s, i),
        is_class(kind[s]->class),
    ensures
        obj_at(base, kind, slot_addr(base, s, i, kind[s]->class), kind[s]->class),
        span_index(base, slot_addr(base, s, i, kind[s]->class)) == s,
        slot_index(base, slot_addr(base, s, i, kind[s]->class), kind[s]->class) == i,
{
    lemma_locate(base, s, i, kind[s]->class);
}

/// Moving one object changes the place of that object alone.
pub proof fn lemma_moved(
    base: int,
    kind: Seq<SpanKind>,
    place: Seq<Seq<Place>>,
    a: int,
    c: int,
    v: Place,
    b: int,
    d: int,
)
    requires
        obj_at(base, kind, a, c),
        obj_at(base, kind, b, d),
        place.len() == kind.len(),
        place[span_index(base, a)].len() == SPAN_SLOTS,
    ensures
        place_at(
            base,
            moved(place, span_index(base, a), slot_index(base, a, c), v),
            b,
            d,
        ) == (if a == b && c == d {
            v
        } else {
            place_at(base, place, b, d)
        }),
{
    lemma_tiling(c);
    if span_index(base, a) == span_index(base, b) && slot_index(base, a, c) == slot_index(
        base,
        b,
        d,
    ) {
        lemma_same_slot(base, kind, a, c, b, d);
    }
}

impl Heap {
    /// Everything about spans is that of `other`: the arena, the pool, uses,
    /// tags, lists and hints.
    pub open spec fn same_spans(&self, other: &Heap) -> bool {
        &&& self.arena() == other.arena()
        &&& self.pool() == other.pool()
        &&& self.base() == other.base()
        &&& self.size() == other.size()
        &&& self.carved() == other.carved()
        &&& self.shards() == other.shards()
        &&& self.kind() == other.kind()
        &&& self.lists() == other.lists()
        &&& forall|s: int| #[trigger] self.tag(s) == other.tag(s)
        &&& forall|j: int| #[trigger] self.hint(j) == other.hint(j)
    }

    /// Everything about spans but the hints is that of `other`.
    pub open spec fn same_uses(&self, other: &Heap) -> bool {
        &&& self.arena() == other.arena()
        &&& self.pool() == other.pool()
        &&& self.shards() == other.shards()
        &&& self.kind() == other.kind()
        &&& self.lists() == other.lists()
        &&& forall|s: int| #[trigger] self.tag(s) == other.tag(s)
    }

    /// Exactly the object of class `c` at `a` has become live.
    pub open spec fn gained(&self, other: &Heap, a: int, c: int) -> bool {
        &&& !other.live(a, c)
        &&& self.live(a, c)
        &&& forall|b: int, d: int|
            !(b == a && d == c) ==> (#[trigger] self.live(b, d) <==> other.live(b, d))
    }

    /// Exactly the object of class `c` at `a` is no longer live.
    pub open spec fn lost(&self, other: &Heap, a: int, c: int) -> bool {
        &&& other.live(a, c)
        &&& !self.live(a, c)
        &&& forall|b: int, d: int|
            !(b == a && d == c) ==> (#[trigger] self.live(b, d) <==> other.live(b, d))
    }

    /// Pop a cached object of class `class` and make it live.
    pub(crate) fn take_cached(&mut self, stack: &CpuStack, class: usize) -> (r: (Fast<usize>, u32))
        requires
            old(self).wf(),
            stack.fits(old(self).slab().cpus()),
            is_class(class as int),
        ensures
            final(self).wf(),
            final(self).same_spans(old(self)),
            final(self).slab().same_shape(&old(self).slab()),
            r.1 < old(self).slab().cpus(),
            popped(
                &old(self).slab(),
                &final(self).slab(),
                stack.serving(&old(self).slab()),
                class as int,
                r.0,
            ),
            match r.0 {
                Fast::Done(a) => {
                    &&& final(self).gained(old(self), a as int, class as int)
                    &&& r.1 == stack.serving(&old(self).slab())
                },
                Fast::NeedsSlow => {
                    &&& *final(self) == *old(self)
                    &&& r.1 == stack.bound(old(self).slab().cpus())
                },
            },
    {
        let ghost before = *self;
        let ghost cpu = stack.serving(&before.slab);
        let ghost c = class as int;
        let ghost st = before.slab.stack(cpu, c);
        let ghost pos = st.len() - 1;
        proof {
            stack.lemma_serving(&before.slab);
            if st.len() > 0 {
                assert(cached_ok(&before.slab, before.base(), before.kind@, before.place@, cpu, c, pos));
            }
        }
        let r = stack.pop_on(&mut self.slab, class);
        proof {
            self.slab.lemma_same_shape(&before.slab);
            match r.0 {
                Fast::Done(a) => {
                    let base = self.arena.base();
                    let s = span_index(base, a as int);
                    let i = slot_index(base, a as int, c);
                    lemma_tiling(c);
                    self.place@ = moved(before.place@, s, i, Place::Live);
                    self.lemma_take_cached(&before, cpu, c, a);
                    assert forall|b: int, d: int| !(b == a && d == c) implies (#[trigger] self.live(b, d)
                        <==> before.live(b, d)) by {
                        if obj_at(base, self.kind@, b, d) {
                            lemma_moved(base, self.kind@, before.place@, a as int, c, Place::Live, b, d);
                        }
                    }
                    lemma_moved(base, self.kind@, before.place@, a as int, c, Place::Live, a as int, c);
                },
                Fast::NeedsSlow => {},
            }
        }
        r
    }

    proof fn lemma_take_cached(&self, before: &Heap, cpu: int, c: int, a: usize)
        requires
            before.wf(),
            0 <= cpu < before.slab.cpus(),
            is_class(c),
            before.slab.stack(cpu, c).len() > 0,
            a == before.slab.stack(cpu, c).last(),
            self.slab.wf(),
            self.slab.same_shape(&before.slab),
            self.slab.stack(cpu, c) == before.slab.stack(cpu, c).drop_last(),
            self.slab.same_stacks_but(&before.slab, cpu, c),
            *self == (Heap {
                slab: self.slab,
                place: Ghost(
                    moved(
                        before.place@,
                        span_index(before.arena.base(), a as int),
                        slot_index(before.arena.base(), a as int, c),
                        Place::Live,
                    ),
                ),
                ..*before
            }),
        ensures
            self.wf(),
    {
        let base = self.arena.base();
        let kind = self.kind@;
        let s = span_index(base, a as int);
        let i = slot_index(base, a as int, c);
        let st = before.slab.stack(cpu, c);
        let pos = st.len() - 1;
        self.slab.lemma_same_shape(&before.slab);
        assert(cached_ok(&before.slab, base, kind, before.place@, cpu, c, pos));
        assert(kind_ok(kind, self.arena.carved(), self.num_shards as int, s));
        lemma_tiling(c);
        assert forall|s2: int| 0 <= s2 < kind.len() implies (#[trigger] self.place@[s2]).len() == SPAN_SLOTS by {
            assert(before.place@[s2].len() == SPAN_SLOTS);
        }
        assert forall|k2: int, d: int, k: int|
            0 <= k2 < self.slab.cpus() && 0 <= d < NUM_CLASSES && 0 <= k < self.slab.stack(k2, d).len() implies #[trigger] cached_ok(
            &self.slab,
            base,
            kind,
            self.place@,
            k2,
            d,
            k,
        ) by {
            assert(cached_ok(&before.slab, base, kind, before.place@, k2, d, k));
            let b = before.slab.stack(k2, d)[k] as int;
            lemma_moved(base, kind, before.place@, a as int, c, Place::Live, b, d);
        }
        assert forall|s2: int, i2: int| is_obj(kind, s2, i2) implies #[trigger] cache_entry(
            &self.slab,
            base,
            kind,
            self.place@,
            s2,
            i2,
        ) by {
            assert(cache_entry(&before.slab, base, kind, before.place@, s2, i2));
            assert(kind_ok(kind, self.arena.carved(), self.num_shards as int, s2));
            lemma_tiling(kind[s2]->class);
            lemma_slot_is_obj(base, kind, s2, i2);
            if s2 == s && i2 == i {
            } else {
                assert(self.place@[s2][i2] == before.place@[s2][i2]);
            }
        }
        assert forall|s2: int, i2: int| 0 <= s2 < kind.len() && 0 <= i2 < SPAN_SLOTS implies (#[trigger] self.bitmaps.slot_free(
            s2,
            i2,
        ) <==> is_obj(kind, s2, i2) && self.place@[s2][i2] is Free) by {
            assert(before.bitmaps.slot_free(s2, i2) <==> is_obj(kind, s2, i2)
                && before.place@[s2][i2] is Free);
        }
    }

    /// Push the live object of class `class` at `addr` onto a CPU's stack.
    pub(crate) fn put_cached(&mut self, stack: &CpuStack, class: usize, addr: usize) -> (r: Fast<()>)
        requires
            old(self).wf(),
            stack.fits(old(self).slab().cpus()),
            old(self).live(addr as int, class as int),
        ensures
            final(self).wf(),
            final(self).same_spans(old(self)),
            final(self).slab().same_shape(&old(self).slab()),
            pushed(
                &old(self).slab(),
                &final(self).slab(),
                stack.serving(&old(self).slab()),
                class as int,
                addr,
                r,
            ),
            match r {
                Fast::Done(_) => final(self).lost(old(self), addr as int, class as int),
                Fast::NeedsSlow => *final(self) == *old(self),
            },
    {
        let ghost before = *self;
        let ghost cpu = stack.serving(&before.slab);
        let ghost c = class as int;
        proof {
            stack.lemma_serving(&before.slab);
        }
        let r = stack.push(&mut self.slab, class, addr);
        proof {
            self.slab.lemma_same_shape(&before.slab);
            match r {
                Fast::Done(_) => {
                    let base = self.arena.base();
                    let s = span_index(base, addr as int);
                    let i = slot_index(base, addr as int, c);
                    let pos = before.slab.stack(cpu, c).len() as int;
                    let v = Place::Cached { cpu, pos };
                    self.place@ = moved(before.place@, s, i, v);
                    self.lemma_put_cached(&before, cpu, c, addr);
                    assert forall|b: int, d: int| !(b == addr && d == c) implies (#[trigger] self.live(b, d)
                        <==> before.live(b, d)) by {
                        if obj_at(base, self.kind@, b, d) {
                            lemma_moved(base, self.kind@, before.place@, addr as int, c, v, b, d);
                        }
                    }
                    lemma_moved(base, self.kind@, before.place@, addr as int, c, v, addr as int, c);
                },
                Fast::NeedsSlow => {},
            }
        }
        r
    }

    proof fn lemma_put_cached(&self, before: &Heap, cpu: int, c: int, a: usize)
        requires
            before.wf(),
            0 <= cpu < before.slab.cpus(),
            before.live(a as int, c),
            self.slab.wf(),
            self.slab.same_shape(&before.slab),
            self.slab.stack(cpu, c) == before.slab.stack(cpu, c).push(a),
            self.slab.same_stacks_but(&before.slab, cpu, c),
            *self == (Heap {
                slab: self.slab,
                place: Ghost(
                    moved(
                        before.place@,
                        span_index(before.arena.base(), a as int),
                        slot_index(before.arena.base(), a as int, c),
                        Place::Cached { cpu, pos: before.slab.stack(cpu, c).len() as int },
                    ),
                ),
                ..*before
            }),
        ensures
            self.wf(),
    {
        let base = self.arena.base();
        let kind = self.kind@;
        let s = span_index(base, a as int);
        let i = slot_index(base, a as int, c);
        let pos = before.slab.stack(cpu, c).len() as int;
        let v = Place::Cached { cpu, pos };
        self.slab.lemma_same_shape(&before.slab);
        lemma_tiling(c);
        assert forall|s2: int| 0 <= s2 < kind.len() implies (#[trigger] self.place@[s2]).len() == SPAN_SLOTS by {
            assert(before.place@[s2].len() == SPAN_SLOTS);
        }
        assert forall|k2: int, d: int, k: int|
            0 <= k2 < self.slab.cpus() && 0 <= d < NUM_CLASSES && 0 <= k < self.slab.stack(k2, d).len() implies #[trigger] cached_ok(
            &self.slab,
            base,
            kind,
            self.place@,
            k2,
            d,
            k,
        ) by {
            if k2 == cpu && d == c && k == pos {
                lemma_moved(base, kind, before.place@, a as int, c, v, a as int, c);
            } else {
                assert(cached_ok(&before.slab, base, kind, before.place@, k2, d, k));
                let b = before.slab.stack(k2, d)[k] as int;
                lemma_moved(base, kind, before.place@, a as int, c, v, b, d);
            }
        }
        assert forall|s2: int, i2: int| is_obj(kind, s2, i2) implies #[trigger] cache_entry(
            &self.slab,
            base,
            kind,
            self.place@,
            s2,
            i2,
        ) by {
            assert(cache_entry(&before.slab, base, kind, before.place@, s2, i2));
            assert(kind_ok(kind, self.arena.carved(), self.num_shards as int, s2));
            lemma_tiling(kind[s2]->class);
            if s2 == s && i2 == i {
            } else {
                assert(self.place@[s2][i2] == before.place@[s2][i2]);
            }
        }
        assert forall|s2: int, i2: int| 0 <= s2 < kind.len() && 0 <= i2 < SPAN_SLOTS implies (#[trigger] self.bitmaps.slot_free(
            s2,
            i2,
        ) <==> is_obj(kind, s2, i2) && self.place@[s2][i2] is Free) by {
            assert(before.bitmaps.slot_free(s2, i2) <==> is_obj(kind, s2, i2)
                && before.place@[s2][i2] is Free);
        }
    }
}

/// The lists hold with any bitmaps that thread the same spans.
pub proof fn lemma_lists_frame(
    a: &SpanBitmaps,
    b: &SpanBitmaps,
    heads: Seq<u32>,
    lists: Seq<Seq<u32>>,
    kind: Seq<SpanKind>,
)
    requires
        lists_ok(a, heads, lists, kind),
        b.same_lists(a),
        b.span_count() == kind.len(),
    ensures
        lists_ok(b, heads, lists, kind),
{
    assert forall|j: int| 0 <= j < lists.len() implies #[trigger] list_ok(b, heads, lists, kind, j) by {
        assert(list_ok(a, heads, lists, kind, j));
        let l = lists[j];
        assert forall|k: int| 0 <= k < l.len() implies #[trigger] link_ok(b, l, kind, j, k) by {
            assert(link_ok(a, l, kind, j, k));
        }
    }
    assert forall|s: int| 0 <= s < kind.len() implies (#[trigger] b.listed(s) <==> kind[s] is Tile) by {
        assert(a.listed(s) <==> kind[s] is Tile);
    }
}

impl Heap {
    /// Objects of one span moving between free and live, with their bits, keep
    /// the invariant.
    proof fn lemma_row(&self, before: &Heap, span: int, row: Seq<Place>)
        requires
            before.wf(),
            0 <= span < before.kind@.len(),
            row.len() == SPAN_SLOTS,
            forall|i: int|
                0 <= i < SPAN_SLOTS ==> #[trigger] row[i] == before.place@[span][i] || (row[i] !is Cached
                    && before.place@[span][i] !is Cached),
            *self == (Heap {
                bitmaps: self.bitmaps,
                place: Ghost(before.place@.update(span, row)),
                ..*before
            }),
            self.bitmaps.wf(),
            self.bitmaps.same_lists(&before.bitmaps),
            bits_ok(&self.bitmaps, self.kind@, self.place@),
        ensures
            self.wf(),
    {
        let base = self.arena.base();
        let kind = self.kind@;
        assert(before.place@[span].len() == SPAN_SLOTS);
        assert forall|s2: int| 0 <= s2 < kind.len() implies (#[trigger] self.place@[s2]).len() == SPAN_SLOTS by {
            assert(before.place@[s2].len() == SPAN_SLOTS);
        }
        lemma_lists_frame(&before.bitmaps, &self.bitmaps, self.heads@, self.lists@, kind);
        assert forall|k2: int, d: int, k: int|
            0 <= k2 < self.slab.cpus() && 0 <= d < NUM_CLASSES && 0 <= k < self.slab.stack(k2, d).len() implies #[trigger] cached_ok(
            &self.slab,
            base,
            kind,
            self.place@,
            k2,
            d,
            k,
        ) by {
            assert(cached_ok(&before.slab, base, kind, before.place@, k2, d, k));
            let b = before.slab.stack(k2, d)[k] as int;
            lemma_tiling(d);
            let s2 = span_index(base, b);
            let i2 = slot_index(base, b, d);
            if s2 == span {
                assert(row[i2] == before.place@[span][i2] || (row[i2] !is Cached
                    && before.place@[span][i2] !is Cached));
            }
        }
        assert forall|s2: int, i2: int| is_obj(kind, s2, i2) implies #[trigger] cache_entry(
            &self.slab,
            base,
            kind,
            self.place@,
            s2,
            i2,
        ) by {
            assert(cache_entry(&before.slab, base, kind, before.place@, s2, i2));
            assert(kind_ok(kind, self.arena.carved(), self.num_shards as int, s2));
            lemma_tiling(kind[s2]->class);
            if s2 == span {
                assert(row[i2] == before.place@[span][i2] || (row[i2] !is Cached
                    && before.place@[span][i2] !is Cached));
            }
        }
    }

    /// Deposit a mask of live objects in word `word` of span `span`: each object
    /// whose bit is set becomes free.
    pub(crate) fn deposit_mask(&mut self, span: u32, word: usize, mask: u64)
        requires
            old(self).wf(),
            span < old(self).kind().len(),
            word < SPAN_BITMAP_WORDS,
            forall|j: int|
                0 <= j < 64 && #[trigger] bit(mask, j) ==> is_obj(
                    old(self).kind(),
                    span as int,
                    64 * word + j,
                ) && old(self).place()[span as int][64 * word + j] is Live,
        ensures
            final(self).wf(),
            final(self).same_spans(old(self)),
            final(self).slab() == old(self).slab(),
            forall|b: int, d: int|
                #[trigger] final(self).live(b, d) <==> old(self).live(b, d) && !(span_index(
                    old(self).base(),
                    b,
                ) == span && slot_index(old(self).base(), b, d) / 64 == word && bit(
                    mask,
                    slot_index(old(self).base(), b, d) % 64,
                )),
    {
        let ghost before = *self;
        let ghost sp = span as int;
        self.bitmaps.set_mask(span, word, mask);
        proof {
            let base = self.arena.base();
            let kind = self.kind@;
            let old_row = before.place@[sp];
            let row = Seq::new(
                SPAN_SLOTS as nat,
                |i: int|
                    if i / 64 == word && bit(mask, i % 64) {
                        Place::Free
                    } else {
                        old_row[i]
                    },
            );
            self.place@ = before.place@.update(sp, row);
            assert forall|i: int| 0 <= i < SPAN_SLOTS implies #[trigger] row[i] == old_row[i] || (row[i] !is Cached
                && old_row[i] !is Cached) by {
                if i / 64 == word && bit(mask, i % 64) {
                    assert(64 * word + i % 64 == i);
                }
            }
            assert(bits_ok(&self.bitmaps, kind, self.place@)) by {
                assert forall|s: int, i: int| 0 <= s < kind.len() && 0 <= i < SPAN_SLOTS implies (#[trigger] self.bitmaps.slot_free(
                    s,
                    i,
                ) <==> is_obj(kind, s, i) && self.place@[s][i] is Free) by {
                    assert(before.bitmaps.slot_free(s, i) <==> is_obj(kind, s, i)
                        && before.place@[s][i] is Free);
                    if s == sp && i / 64 == word && bit(mask, i % 64) {
                        assert(64 * word + i % 64 == i);
                    }
                }
            }
            self.lemma_row(&before, sp, row);
            assert forall|b: int, d: int| #[trigger] self.live(b, d) <==> before.live(b, d) && !(span_index(
                base,
                b,
            ) == span && slot_index(base, b, d) / 64 == word && bit(
                mask,
                slot_index(base, b, d) % 64,
            )) by {
                if obj_at(base, kind, b, d) {
                    lemma_tiling(d);
                }
            }
        }
    }

    /// Deposit the live object of class `class` at `addr`: it becomes free.
    pub(crate) fn central_deposit(&mut self, addr: usize, class: usize)
        requires
            old(self).wf(),
            old(self).live(addr as int, class as int),
        ensures
            final(self).wf(),
            final(self).same_spans(old(self)),
            final(self).slab() == old(self).slab(),
            final(self).lost(old(self), addr as int, class as int),
    {
        let ghost before = *self;
        let ghost base = self.arena.base();
        let ghost c = class as int;
        proof {
            lemma_tiling(c);
            self.lemma_object_bounds(addr as int, c);
        }
        let osz: usize = size_of_class(class);
        let span: u32 = self.bitmaps.span_of(addr);
        let slot: usize = (addr - self.bitmaps.span_base(span)) / osz;
        let mask: u64 = bit_mask((slot % 64) as u32);
        proof {
            assert(slot == slot_index(base, addr as int, c));
            assert forall|j: int| 0 <= j < 64 && #[trigger] bit(mask, j) implies is_obj(
                self.kind@,
                span as int,
                64 * (slot / 64) + j,
            ) && self.place@[span as int][64 * (slot / 64) + j] is Live by {
                assert(64 * (slot / 64) + j == slot);
            }
        }
        self.deposit_mask(span, slot / 64, mask);
        proof {
            assert forall|b: int, d: int| !(b == addr && d == c) implies (#[trigger] self.live(b, d)
                <==> before.live(b, d)) by {
                if before.live(b, d) && span_index(base, b) == span && slot_index(base, b, d) / 64
                    == slot as int / 64 && bit(mask, slot_index(base, b, d) % 64) {
                    assert(slot_index(base, b, d) == slot);
                    lemma_same_slot(base, self.kind@, addr as int, c, b, d);
                }
            }
        }
    }

    /// Every object lies in the arena.
    pub proof fn lemma_object_bounds(&self, a: int, c: int)
        requires
            self.wf(),
            self.is_object(a, c),
        ensures
            self.base() <= a,
            a + class_size(c) <= self.base() + self.size(),
            0 <= span_index(self.base(), a) < self.carved() <= self.kind().len() < NO_SPAN,
            self.base() + self.size() <= usize::MAX,
            0 < self.base(),
    {
        let s = span_index(self.base(), a);
        let i = slot_index(self.base(), a, c);
        self.arena.lemma_carved();
        assert(kind_ok(self.kind@, self.arena.carved(), self.num_shards as int, s));
        lemma_locate(self.base(), s, i, c);
        lemma_tiling(c);
    }
}

/// Whether slot `i` of span `s` is a free object.
pub open spec fn slot_is_free(kind: Seq<SpanKind>, place: Seq<Seq<Place>>, s: int, i: int) -> bool {
    is_obj(kind, s, i) && place[s][i] is Free
}

/// Addresses of the free objects of span `s` in slots below `p`, ascending.
pub open spec fn free_below(
    base: int,
    kind: Seq<SpanKind>,
    place: Seq<Seq<Place>>,
    s: int,
    p: int,
) -> Seq<usize>
    decreases p,
{
    if p <= 0 {
        Seq::empty()
    } else {
        let below = free_below(base, kind, place, s, p - 1);
        if slot_is_free(kind, place, s, p - 1) {
            below.push(slot_addr(base, s, p - 1, kind[s]->class) as usize)
        } else {
            below
        }
    }
}

/// Addresses of all free objects of span `s`, ascending.
pub open spec fn free_in_span(
    base: int,
    kind: Seq<SpanKind>,
    place: Seq<Seq<Place>>,
    s: int,
) -> Seq<usize> {
    free_below(base, kind, place, s, SPAN_SLOTS as int)
}

/// Slots that are not free add nothing.
proof fn lemma_free_skip(base: int, kind: Seq<SpanKind>, place: Seq<Seq<Place>>, s: int, p: int, q: int)
    requires
        0 <= p <= q,
        forall|i: int| p <= i < q ==> !#[trigger] slot_is_free(kind, place, s, i),
    ensures
        free_below(base, kind, place, s, q) == free_below(base, kind, place, s, p),
    decreases q,
{
    if p < q {
        assert(!slot_is_free(kind, place, s, q - 1));
        lemma_free_skip(base, kind, place, s, p, q - 1);
    }
}

/// The free objects below `p` come first among those below `q`.
proof fn lemma_free_prefix(base: int, kind: Seq<SpanKind>, place: Seq<Seq<Place>>, s: int, p: int, q: int)
    requires
        0 <= p <= q,
    ensures
        free_below(base, kind, place, s, p).len() <= free_below(base, kind, place, s, q).len(),
        free_below(base, kind, place, s, q).take(free_below(base, kind, place, s, p).len() as int)
            == free_below(base, kind, place, s, p),
    decreases q,
{
    let fp = free_below(base, kind, place, s, p);
    let fq = free_below(base, kind, place, s, q);
    if p == q {
        assert(fq.take(fq.len() as int) =~= fq);
    } else {
        lemma_free_prefix(base, kind, place, s, p, q - 1);
        let f1 = free_below(base, kind, place, s, q - 1);
        assert(fq.take(fp.len() as int) =~= f1.take(fp.len() as int));
    }
}

/// What the entries of a span's free list are: objects of the span that are free,
/// each once.
proof fn lemma_free_below(
    base: int,
    kind: Seq<SpanKind>,
    place: Seq<Seq<Place>>,
    s: int,
    p: int,
    top: int,
)
    requires
        0 <= s < kind.len(),
        kind[s] is Tile ==> is_class(kind[s]->class),
        0 <= p,
        0 <= base,
        base + top <= usize::MAX,
        (s + group_of(kind[s]->class)) * SPAN_BYTES <= top,
    ensures
        free_below(base, kind, place, s, p).no_duplicates(),
        forall|k: int|
            0 <= k < free_below(base, kind, place, s, p).len() ==> {
                let a = #[trigger] free_below(base, kind, place, s, p)[k] as int;
                let i = slot_index(base, a, kind[s]->class);
                &&& obj_at(base, kind, a, kind[s]->class)
                &&& span_index(base, a) == s
                &&& 0 <= i < p
                &&& slot_is_free(kind, place, s, i)
            },
        forall|i: int|
            0 <= i < p && #[trigger] slot_is_free(kind, place, s, i) ==> free_below(
                base,
                kind,
                place,
                s,
                p,
            ).contains(slot_addr(base, s, i, kind[s]->class) as usize),
    decreases p,
{
    if p > 0 {
        lemma_free_below(base, kind, place, s, p - 1, top);
        let c = kind[s]->class;
        let below = free_below(base, kind, place, s, p - 1);
        let all = free_below(base, kind, place, s, p);
        if slot_is_free(kind, place, s, p - 1) {
            let a = slot_addr(base, s, p - 1, c);
            lemma_slot_is_obj(base, kind, s, p - 1);
            lemma_locate(base, s, p - 1, c);
            lemma_tiling(c);
            assert(a as usize == a);
            assert forall|k: int| 0 <= k < below.len() implies below[k] != a as usize by {
                let b = below[k] as int;
                assert(slot_index(base, b, c) < p - 1);
            }
            assert(all[below.len() as int] == a as usize);
            assert forall|i: int| 0 <= i < p && #[trigger] slot_is_free(kind, place, s, i) implies all.contains(
                slot_addr(base, s, i, c) as usize,
            ) by {
                if i < p - 1 {
                    let x = slot_addr(base, s, i, c) as usize;
                    let k = below.index_of(x);
                    assert(below.contains(x));
                    assert(all[k] == x);
                }
            }
        }
    }
}

/// The row of a span after its free objects below `p` were handed out.
pub open spec fn taken_row(kind: Seq<SpanKind>, place: Seq<Seq<Place>>, s: int, p: int) -> Seq<Place> {
    Seq::new(
        SPAN_SLOTS as nat,
        |i: int|
            if i < p && slot_is_free(kind, place, s, i) {
                Place::Live
            } else {
                place[s][i]
            },
    )
}

impl Heap {
    /// Hand out free objects of span `span` in ascending order until `out` holds
    /// `want` addresses or the span has none left. Returns the slot the scan
    /// stopped at: exactly the free objects below it were handed out.
    #[verifier::rlimit(60)]
    pub(crate) fn scan_span(
        &mut self,
        span: u32,
        out: &mut [usize],
        had: usize,
        want: usize,
        class: usize,
    ) -> (r: (usize, Ghost<int>))
        requires
            old(self).wf(),
            is_class(class as int),
            span < old(self).kind().len(),
            old(self).kind()[span as int] is Tile ==> old(self).kind()[span as int]->class == class,
            had <= want <= old(out)@.len(),
        ensures
            final(self).wf(),
            final(self).same_spans(old(self)),
            final(self).slab() == old(self).slab(),
            final(self).bitmaps.same_lists(&old(self).bitmaps),
            *final(self) == (Heap {
                bitmaps: final(self).bitmaps,
                place: final(self).place,
                ..*old(self)
            }),
            0 <= r.1@ <= SPAN_SLOTS,
            final(self).place() == old(self).place().update(
                span as int,
                taken_row(old(self).kind(), old(self).place(), span as int, r.1@),
            ),
            had <= r.0 <= want,
            final(out)@.len() == old(out)@.len(),
            final(out)@.take(r.0 as int) == old(out)@.take(had as int) + free_below(
                old(self).base(),
                old(self).kind(),
                old(self).place(),
                span as int,
                r.1@,
            ),
            forall|k: int| r.0 <= k < old(out)@.len() ==> #[trigger] final(out)@[k] == old(out)@[k],
            r.0 < want ==> r.1@ == SPAN_SLOTS,
    {
        let ghost before = *self;
        let ghost all0 = out@;
        let ghost out0 = out@.take(had as int);
        let ghost mut outs = out0;
        let mut n: usize = had;
        let ghost sp = span as int;
        let ghost base = self.arena.base();
        let ghost kind = self.kind@;
        let ghost place = self.place@;
        let nwords: usize = (slots_per_span(class) + 63) / 64;
        let osz: usize = size_of_class(class);
        proof {
            self.bitmaps.lemma_span_base(sp);
        }
        let start: usize = self.bitmaps.span_base(span);
        let mut w: usize = 0;
        let ghost mut pos: int = 0;
        while w < nwords && n < want
            invariant
                before.wf(),
                before == *old(self),
                sp == span,
                sp < kind.len(),
                base == before.arena.base(),
                kind == before.kind@,
                place == before.place@,
                is_class(class as int),
                kind[sp] is Tile ==> kind[sp]->class == class,
                osz == class_size(class as int),
                start == base + sp * SPAN_BYTES,
                nwords == (slots_of(class as int) + 63) / 64,
                nwords <= SPAN_BITMAP_WORDS,
                w <= nwords,
                0 <= pos <= 64 * w,
                *self == (Heap { bitmaps: self.bitmaps, ..before }),
                self.bitmaps.wf(),
                self.bitmaps.same_lists(&before.bitmaps),
                forall|s: int, i: int|
                    0 <= s < kind.len() && 0 <= i < SPAN_SLOTS ==> (#[trigger] self.bitmaps.slot_free(s, i)
                        <==> before.bitmaps.slot_free(s, i) && !(s == sp && i < pos)),
                outs == out@.take(n as int),
                had <= n <= want <= out@.len(),
                out@.len() == all0.len(),
                forall|k: int| n <= k < all0.len() ==> #[trigger] out@[k] == all0[k],
                outs == out0 + free_below(base, kind, place, sp, pos),
                outs.len() <= want,
                outs.len() < want ==> pos == 64 * w,
            decreases nwords - w,
        {
            let ghost mid = *self;
            let word0: u64 = self.bitmaps.fold_free_word(span, w);
            let ghost folded = *self;
            let mut word: u64 = word0;
            let mut taken: u64 = 0;
            let ghost mut q: int = 0;
            proof {
                lemma_bit_zero(0);
                assert forall|j: int| 0 <= j < 64 implies (#[trigger] bit(word0, j) <==> slot_is_free(
                    kind,
                    place,
                    sp,
                    64 * w + j,
                )) by {
                    assert(bit(word0, j) == mid.bitmaps.slot_free(sp, 64 * w + j));
                    assert(before.bitmaps.slot_free(sp, 64 * w + j) <==> is_obj(
                        kind,
                        sp,
                        64 * w + j,
                    ) && place[sp][64 * w + j] is Free);
                }
            }
            while word != 0 && n < want
                invariant
                    before.wf(),
                    sp == span,
                    sp < kind.len(),
                    base == before.arena.base(),
                    kind == before.kind@,
                    place == before.place@,
                    is_class(class as int),
                    kind[sp] is Tile ==> kind[sp]->class == class,
                    osz == class_size(class as int),
                    start == base + sp * SPAN_BYTES,
                    w < SPAN_BITMAP_WORDS,
                    0 <= q <= 64,
                    forall|j: int| 0 <= j < 64 ==> (#[trigger] bit(word0, j) <==> slot_is_free(
                        kind,
                        place,
                        sp,
                        64 * w + j,
                    )),
                    forall|j: int| 0 <= j < 64 ==> (#[trigger] bit(word, j) <==> j >= q && bit(word0, j)),
                    forall|j: int| 0 <= j < 64 ==> (#[trigger] bit(taken, j) <==> j < q && bit(word0, j)),
                    outs == out@.take(n as int),
                    had <= n <= want <= out@.len(),
                    out@.len() == all0.len(),
                    forall|k: int| n <= k < all0.len() ==> #[trigger] out@[k] == all0[k],
                    outs == out0 + free_below(base, kind, place, sp, 64 * w + q),
                    outs.len() <= want,
                decreases 64 - q,
            {
                let k: u32 = lowest_bit(word);
                let slot: usize = w * 64 + k as usize;
                proof {
                    let c = class as int;
                    assert(bit(word0, k as int));
                    assert(slot_is_free(kind, place, sp, slot as int));
                    lemma_slot_is_obj(base, kind, sp, slot as int);
                    before.lemma_object_bounds(slot_addr(base, sp, slot as int, c), c);
                    lemma_tiling(c);
                    lemma_locate(base, sp, slot as int, c);
                    assert forall|i: int| 64 * w + q <= i < slot implies !#[trigger] slot_is_free(
                        kind,
                        place,
                        sp,
                        i,
                    ) by {
                        assert(!bit(word, i - 64 * w));
                        assert(!bit(word0, i - 64 * w));
                    }
                    lemma_free_skip(base, kind, place, sp, 64 * w + q, slot as int);
                }
                let a: usize = start + slot * osz;
                out[n] = a;
                n = n + 1;
                proof {
                    assert(out@.take(n as int) =~= outs.push(a));
                    outs = out@.take(n as int);
                }
                let m: u64 = bit_mask(k);
                proof {
                    lemma_bit_or_and(taken, m);
                    lemma_bit_not(m);
                    lemma_bit_or_and(word, !m);
                    assert forall|j: int| 0 <= j < 64 implies (#[trigger] bit(taken | m, j) <==> j < k + 1
                        && bit(word0, j)) by {
                        assert(bit(taken, j) <==> j < q && bit(word0, j));
                        assert(bit(word, j) <==> j >= q && bit(word0, j));
                    }
                    assert forall|j: int| 0 <= j < 64 implies (#[trigger] bit(word & !m, j) <==> j >= k + 1
                        && bit(word0, j)) by {
                        assert(bit(word, j) <==> j >= q && bit(word0, j));
                        assert(bit(!m, j) == !bit(m, j));
                    }
                    q = k + 1;
                }
                taken = taken | m;
                word = word & !m;
            }
            self.bitmaps.alloc_clear(span, w, taken);
            proof {
                if word == 0 {
                    lemma_bit_zero(word);
                    assert forall|i: int| 64 * w + q <= i < 64 * (w + 1) implies !#[trigger] slot_is_free(
                        kind,
                        place,
                        sp,
                        i,
                    ) by {
                        assert(!bit(word, i - 64 * w));
                    }
                    lemma_free_skip(base, kind, place, sp, 64 * w + q, 64 * (w + 1));
                    assert forall|j: int| 0 <= j < 64 implies (#[trigger] bit(taken, j) <==> bit(word0, j)) by {
                        assert(!bit(word, j));
                    }
                    q = 64;
                }
                pos = 64 * w + q;
                assert forall|s: int, i: int| 0 <= s < kind.len() && 0 <= i < SPAN_SLOTS implies (#[trigger] self.bitmaps.slot_free(
                    s,
                    i,
                ) <==> before.bitmaps.slot_free(s, i) && !(s == sp && i < pos)) by {
                    assert(folded.bitmaps.slot_free(s, i) == mid.bitmaps.slot_free(s, i));
                    assert(mid.bitmaps.slot_free(s, i) <==> before.bitmaps.slot_free(s, i) && !(s == sp
                        && i < 64 * w));
                    if s == sp && i / 64 == w {
                        let j = i % 64;
                        assert(64 * w + j == i);
                        assert(bit(taken, j) <==> j < q && bit(word0, j));
                        assert(!bit(0u64, j)) by {
                            lemma_bit_zero(0);
                        }
                        assert(bit(word0, j) == mid.bitmaps.slot_free(sp, 64 * w + j));
                    }
                }
                assert forall|s: int| 0 <= s < kind.len() implies #[trigger] self.bitmaps.link(s)
                    == before.bitmaps.link(s) by {
                    assert(folded.bitmaps.link(s) == mid.bitmaps.link(s));
                }
                assert forall|s: int| 0 <= s < kind.len() implies #[trigger] self.bitmaps.listed(s)
                    == before.bitmaps.listed(s) by {
                    assert(folded.bitmaps.listed(s) == mid.bitmaps.listed(s));
                }
            }
            w = w + 1;
        }
        let ghost mut stop = pos;
        proof {
            if outs.len() < want {
                lemma_tiling(class as int);
                assert forall|i: int| pos <= i < SPAN_SLOTS implies !#[trigger] slot_is_free(
                    kind,
                    place,
                    sp,
                    i,
                ) by {}
                lemma_free_skip(base, kind, place, sp, pos, SPAN_SLOTS as int);
                stop = SPAN_SLOTS as int;
            }
            let row = taken_row(kind, place, sp, stop);
            self.place@ = place.update(sp, row);
            assert(place[sp].len() == SPAN_SLOTS);
            assert(bits_ok(&self.bitmaps, kind, self.place@)) by {
                assert forall|s: int, i: int| 0 <= s < kind.len() && 0 <= i < SPAN_SLOTS implies (#[trigger] self.bitmaps.slot_free(
                    s,
                    i,
                ) <==> is_obj(kind, s, i) && self.place@[s][i] is Free) by {
                    assert(before.bitmaps.slot_free(s, i) <==> is_obj(kind, s, i) && place[s][i] is Free);
                    if s == sp && pos <= i < stop {
                        assert(!slot_is_free(kind, place, sp, i));
                    }
                }
            }
            self.lemma_row(&before, sp, row);
        }
        (n, Ghost(stop))
    }
}

/// Addresses of the free objects of the first `k` spans of list `l`, span by
/// span, leaving out span `skip`.
pub open spec fn free_in_list(
    base: int,
    kind: Seq<SpanKind>,
    place: Seq<Seq<Place>>,
    l: Seq<u32>,
    skip: Option<u32>,
    k: int,
) -> Seq<usize>
    decreases k,
{
    if k <= 0 {
        Seq::empty()
    } else {
        free_in_list(base, kind, place, l, skip, k - 1) + (if skip == Some(l[k - 1]) {
            Seq::empty()
        } else {
            free_in_span(base, kind, place, l[k - 1] as int)
        })
    }
}

/// An object of the order is one of a span of the list.
proof fn lemma_list_member(
    base: int,
    kind: Seq<SpanKind>,
    place: Seq<Seq<Place>>,
    l: Seq<u32>,
    skip: Option<u32>,
    n: int,
    k: int,
) -> (m: int)
    requires
        0 <= n <= l.len(),
        0 <= k < free_in_list(base, kind, place, l, skip, n).len(),
    ensures
        0 <= m < n,
        skip != Some(l[m]),
        free_in_span(base, kind, place, l[m] as int).contains(
            free_in_list(base, kind, place, l, skip, n)[k],
        ),
    decreases n,
{
    let before = free_in_list(base, kind, place, l, skip, n - 1);
    if k < before.len() {
        lemma_list_member(base, kind, place, l, skip, n - 1, k)
    } else {
        let f = free_in_span(base, kind, place, l[n - 1] as int);
        assert(f[k - before.len()] == free_in_list(base, kind, place, l, skip, n)[k]);
        n - 1
    }
}

/// Two objects of the order are of one span, in the order of its addresses, or of two spans,
/// in the order of the list.
proof fn lemma_list_order(
    base: int,
    kind: Seq<SpanKind>,
    place: Seq<Seq<Place>>,
    l: Seq<u32>,
    skip: Option<u32>,
    n: int,
    k1: int,
    k2: int,
) -> (at: (int, int, int, int))
    requires
        0 <= n <= l.len(),
        0 <= k1 < k2 < free_in_list(base, kind, place, l, skip, n).len(),
    ensures
        0 <= at.0 <= at.1 < n,
        0 <= at.2 < free_in_span(base, kind, place, l[at.0] as int).len(),
        0 <= at.3 < free_in_span(base, kind, place, l[at.1] as int).len(),
        at.0 == at.1 ==> at.2 < at.3,
        free_in_list(base, kind, place, l, skip, n)[k1] == free_in_span(
            base,
            kind,
            place,
            l[at.0] as int,
        )[at.2],
        free_in_list(base, kind, place, l, skip, n)[k2] == free_in_span(
            base,
            kind,
            place,
            l[at.1] as int,
        )[at.3],
    decreases n,
{
    let before = free_in_list(base, kind, place, l, skip, n - 1);
    let f = free_in_span(base, kind, place, l[n - 1] as int);
    let all = free_in_list(base, kind, place, l, skip, n);
    if k2 < before.len() {
        lemma_list_order(base, kind, place, l, skip, n - 1, k1, k2)
    } else {
        assert(f[k2 - before.len()] == all[k2]);
        if k1 < before.len() {
            let m = lemma_list_member(base, kind, place, l, skip, n - 1, k1);
            let g = free_in_span(base, kind, place, l[m] as int);
            let q = g.index_of(before[k1]);
            assert(g.contains(before[k1]));
            assert(g[q] == before[k1]);
            (m, n - 1, q, k2 - before.len())
        } else {
            assert(f[k1 - before.len()] == all[k1]);
            (n - 1, n - 1, k1 - before.len(), k2 - before.len())
        }
    }
}

/// The free objects of a span are named by ascending address.
proof fn lemma_free_ascending(
    base: int,
    kind: Seq<SpanKind>,
    place: Seq<Seq<Place>>,
    s: int,
    p: int,
    top: int,
    i: int,
    j: int,
)
    requires
        0 <= s < kind.len(),
        kind[s] is Tile ==> is_class(kind[s]->class),
        0 <= p,
        0 <= base,
        base + top <= usize::MAX,
        (s + group_of(kind[s]->class)) * SPAN_BYTES <= top,
        0 <= i < j < free_below(base, kind, place, s, p).len(),
    ensures
        free_below(base, kind, place, s, p)[i] < free_below(base, kind, place, s, p)[j],
    decreases p,
{
    let below = free_below(base, kind, place, s, p - 1);
    if j < below.len() {
        lemma_free_ascending(base, kind, place, s, p - 1, top, i, j);
    } else {
        let c = kind[s]->class;
        lemma_free_below(base, kind, place, s, p - 1, top);
        lemma_free_below(base, kind, place, s, p, top);
        lemma_tiling(c);
        let a = below[i] as int;
        let q = slot_index(base, a, c);
        let z = class_size(c);
        lemma_locate(base, s, p - 1, c);
        assert(q * z < (p - 1) * z) by (nonlinear_arith)
            requires
                q < p - 1,
                z >= 1,
        ;
    }
}

/// The spans before the first `k` come first in the order.
proof fn lemma_list_prefix(
    base: int,
    kind: Seq<SpanKind>,
    place: Seq<Seq<Place>>,
    l: Seq<u32>,
    skip: Option<u32>,
    k: int,
    n: int,
)
    requires
        0 <= k <= n,
    ensures
        free_in_list(base, kind, place, l, skip, k).len() <= free_in_list(
            base,
            kind,
            place,
            l,
            skip,
            n,
        ).len(),
        free_in_list(base, kind, place, l, skip, n).take(
            free_in_list(base, kind, place, l, skip, k).len() as int,
        ) == free_in_list(base, kind, place, l, skip, k),
    decreases n,
{
    let fk = free_in_list(base, kind, place, l, skip, k);
    let fnn = free_in_list(base, kind, place, l, skip, n);
    if k == n {
        assert(fnn.take(fnn.len() as int) =~= fnn);
    } else {
        lemma_list_prefix(base, kind, place, l, skip, k, n - 1);
        let f1 = free_in_list(base, kind, place, l, skip, n - 1);
        assert(fnn.take(fk.len() as int) =~= f1.take(fk.len() as int));
    }
}

/// From `p` to `q`, objects moved from free to live alone.
pub open spec fn only_taken(kind: Seq<SpanKind>, p: Seq<Seq<Place>>, q: Seq<Seq<Place>>) -> bool {
    &&& q.len() == p.len()
    &&& forall|s: int, i: int|
        0 <= s < p.len() && 0 <= i < SPAN_SLOTS ==> #[trigger] q[s][i] == p[s][i] || (slot_is_free(
            kind,
            p,
            s,
            i,
        ) && q[s][i] is Live)
}

impl Heap {
    /// The large runs are those of `other`.
    pub open spec fn same_runs(&self, other: &Heap) -> bool {
        forall|b: int, len: int| #[trigger] self.live_run(b, len) <==> other.live_run(b, len)
    }

    /// Spans in use are used as in `other`, and the arena gave up no span; more
    /// may have been carved and put to use.
    pub open spec fn grown(&self, other: &Heap) -> bool {
        &&& self.base() == other.base()
        &&& self.size() == other.size()
        &&& self.shards() == other.shards()
        &&& self.kind().len() == other.kind().len()
        &&& self.lists().len() == other.lists().len()
        &&& other.carved() <= self.carved()
        &&& forall|s: int|
            0 <= s < other.kind().len() && other.kind()[s] !is Loose ==> #[trigger] self.kind()[s]
                == other.kind()[s]
    }

    pub(crate) proof fn lemma_grown_refl(&self)
        ensures
            self.grown(self),
            self.same_runs(self),
    {
    }

    pub(crate) proof fn lemma_grown_trans(&self, mid: &Heap, first: &Heap)
        requires
            self.grown(mid),
            mid.grown(first),
        ensures
            self.grown(first),
    {
        assert forall|s: int| 0 <= s < first.kind().len() && first.kind()[s] !is Loose implies #[trigger] self.kind()[s]
            == first.kind()[s] by {
            assert(mid.kind()[s] == first.kind()[s]);
        }
    }

    /// What is gained over a heap is gained over any other with the same live
    /// objects.
    pub(crate) proof fn lemma_gained_after(&self, fresh: &Heap, last: &Heap, c: int, part: Seq<usize>)
        requires
            forall|b: int, d: int| #[trigger] fresh.live(b, d) <==> self.live(b, d),
            last.gained_all(fresh, c, part),
        ensures
            last.gained_all(self, c, part),
    {
        assert forall|k: int| 0 <= k < part.len() implies !self.live(#[trigger] part[k] as int, c)
            && last.live(part[k] as int, c) by {
            assert(fresh.live(part[k] as int, c) <==> self.live(part[k] as int, c));
        }
        assert forall|b: int, d: int| #[trigger] last.live(b, d) <==> self.live(b, d) || (d == c && 0
            <= b <= usize::MAX && part.contains(b as usize)) by {
            assert(fresh.live(b, d) <==> self.live(b, d));
        }
    }

    /// Nothing but internal bookkeeping differs from `other`: spans, objects and
    /// stacks are the same.
    pub open spec fn idle_since(&self, other: &Heap) -> bool {
        &&& self.same_spans(other)
        &&& self.place() == other.place()
        &&& self.slab() == other.slab()
    }

    /// A take that gained nothing changed nothing.
    pub(crate) proof fn lemma_idle(&self, before: &Heap, c: int, part: Seq<usize>)
        requires
            before.wf(),
            self.wf(),
            self.same_spans(before),
            self.slab() == before.slab(),
            only_taken(before.kind(), before.place(), self.place()),
            self.gained_all(before, c, part),
            part.len() == 0,
        ensures
            self.idle_since(before),
    {
        let base = self.base();
        let kind = self.kind();
        assert forall|s: int| 0 <= s < kind.len() implies self.place()[s] == before.place()[s] by {
            assert(self.place@[s].len() == SPAN_SLOTS);
            assert(before.place@[s].len() == SPAN_SLOTS);
            assert forall|i: int| 0 <= i < SPAN_SLOTS implies self.place()[s][i] == before.place()[s][i] by {
                if self.place()[s][i] != before.place()[s][i] {
                    assert(slot_is_free(kind, before.place(), s, i));
                    assert(kind_ok(kind, before.arena.carved(), before.num_shards as int, s));
                    lemma_slot_is_obj(base, kind, s, i);
                    let a = slot_addr(base, s, i, kind[s]->class);
                    assert(self.live(a, kind[s]->class));
                    assert(!before.live(a, kind[s]->class));
                    assert(part.contains(a as usize));
                }
            }
            assert(self.place()[s] =~= before.place()[s]);
        }
        assert(self.place() =~= before.place());
    }

    /// Exactly the objects of class `c` at the addresses in `part` have become
    /// live, each of them once.
    pub open spec fn gained_all(&self, other: &Heap, c: int, part: Seq<usize>) -> bool {
        &&& part.no_duplicates()
        &&& forall|k: int|
            0 <= k < part.len() ==> !other.live(#[trigger] part[k] as int, c) && self.live(
                part[k] as int,
                c,
            )
        &&& forall|b: int, d: int|
            #[trigger] self.live(b, d) <==> other.live(b, d) || (d == c && 0 <= b <= usize::MAX
                && part.contains(b as usize))
    }

    pub(crate) proof fn lemma_gained_compose(&self, mid: &Heap, first: &Heap, c: int, p: Seq<usize>, q: Seq<usize>)
        requires
            mid.gained_all(first, c, p),
            self.gained_all(mid, c, q),
        ensures
            self.gained_all(first, c, p + q),
    {
        let pq = p + q;
        assert forall|k: int| 0 <= k < pq.len() implies !first.live(#[trigger] pq[k] as int, c)
            && self.live(pq[k] as int, c) by {
            if k < p.len() {
                assert(pq[k] == p[k]);
                assert(mid.live(p[k] as int, c));
            } else {
                assert(pq[k] == q[k - p.len()]);
                assert(!mid.live(q[k - p.len()] as int, c));
            }
        }
        assert(pq.no_duplicates()) by {
            assert forall|i: int, j: int| 0 <= i < pq.len() && 0 <= j < pq.len() && i != j implies pq[i]
                != pq[j] by {
                if i < p.len() && j >= p.len() {
                    assert(mid.live(p[i] as int, c));
                    assert(!mid.live(q[j - p.len()] as int, c));
                } else if j < p.len() && i >= p.len() {
                    assert(mid.live(p[j] as int, c));
                    assert(!mid.live(q[i - p.len()] as int, c));
                }
            }
        }
        assert forall|b: int, d: int| #[trigger] self.live(b, d) <==> first.live(b, d) || (d == c && 0
            <= b <= usize::MAX && pq.contains(b as usize)) by {
            assert(self.live(b, d) <==> mid.live(b, d) || (d == c && 0 <= b <= usize::MAX
                && q.contains(b as usize)));
            assert(mid.live(b, d) <==> first.live(b, d) || (d == c && 0 <= b <= usize::MAX
                && p.contains(b as usize)));
            if 0 <= b <= usize::MAX {
                let x = b as usize;
                if p.contains(x) {
                    assert(pq[p.index_of(x)] == x);
                }
                if q.contains(x) {
                    assert(pq[p.len() + q.index_of(x)] == x);
                }
                if pq.contains(x) {
                    let k = pq.index_of(x);
                    if k < p.len() {
                        assert(p[k] == x);
                    } else {
                        assert(q[k - p.len()] == x);
                    }
                }
            }
        }
    }

    /// What a scan does to the live objects.
    proof fn lemma_scan_gains(&self, before: &Heap, span: int, c: int, stop: int)
        requires
            before.wf(),
            self.same_spans(before),
            is_class(c),
            0 <= span < before.kind().len(),
            before.kind()[span] is Tile ==> before.kind()[span]->class == c,
            0 <= stop <= SPAN_SLOTS,
            self.place() == before.place().update(
                span,
                taken_row(before.kind(), before.place(), span, stop),
            ),
        ensures
            self.gained_all(
                before,
                c,
                free_below(before.base(), before.kind(), before.place(), span, stop),
            ),
    {
        let base = before.base();
        let kind = before.kind();
        let place = before.place();
        let part = free_below(base, kind, place, span, stop);
        assert(kind_ok(kind, before.arena.carved(), before.num_shards as int, span));
        if kind[span] is Tile {
            before.arena.lemma_carved();
            lemma_tiling(c);
            lemma_free_below(base, kind, place, span, stop, before.size());
            assert forall|k: int| 0 <= k < part.len() implies !before.live(#[trigger] part[k] as int, c)
                && self.live(part[k] as int, c) by {}
            assert forall|b: int, d: int| #[trigger] self.live(b, d) <==> before.live(b, d) || (d == c
                && 0 <= b <= usize::MAX && part.contains(b as usize)) by {
                if obj_at(base, kind, b, d) {
                    lemma_tiling(d);
                    let s = span_index(base, b);
                    let i = slot_index(base, b, d);
                    before.lemma_object_bounds(b, d);
                    if s == span && i < stop && slot_is_free(kind, place, s, i) {
                        assert(part.contains(slot_addr(base, s, i, c) as usize));
                    }
                }
                if 0 <= b <= usize::MAX && part.contains(b as usize) {
                    let k = part.index_of(b as usize);
                    assert(part[k] == b as usize);
                }
            }
        } else {
            lemma_free_skip(base, kind, place, span, 0, stop);
            assert(part =~= Seq::<usize>::empty());
            assert(taken_row(kind, place, span, stop) =~= place[span]);
            assert(self.place() =~= place);
        }
    }

    /// The span that a refill of class `c` from list `j` scans first: the list's
    /// hint, where it still holds that class and spans of it have at most 64
    /// slots.
    pub open spec fn hinted(&self, j: int, c: int) -> Option<u32> {
        let h = self.hint(j);
        if slots_of(c) <= 64 && h != NO_SPAN && self.tag(h as int) is Some && self.tag(
            h as int,
        ).unwrap().0 == c {
            Some(h)
        } else {
            None
        }
    }

    /// The addresses of the free objects a refill of class `c` from list `j` may
    /// take, in the order it takes them: the hinted span first, then the spans of
    /// the list, each from its lowest address up.
    pub open spec fn take_order(&self, j: int, c: int) -> Seq<usize> {
        let first = match self.hinted(j, c) {
            Some(h) => free_in_span(self.base(), self.kind(), self.place(), h as int),
            None => Seq::empty(),
        };
        first + free_in_list(
            self.base(),
            self.kind(),
            self.place(),
            self.lists()[j],
            self.hinted(j, c),
            self.lists()[j].len() as int,
        )
    }

    /// Take free objects of class `class` from the list with index `j` until
    /// `out` holds `want` addresses or no free object is left in reach.
    #[verifier::rlimit(60)]
    pub(crate) fn central_take(
        &mut self,
        j: usize,
        class: usize,
        out: &mut [usize],
        had: usize,
        want: usize,
    ) -> (n: usize)
        requires
            old(self).wf(),
            is_class(class as int),
            j < old(self).lists().len(),
            j % NUM_CLASSES == class,
            had <= want <= old(out)@.len(),
        ensures
            final(self).wf(),
            final(self).same_spans(old(self)),
            final(self).slab() == old(self).slab(),
            ({
                let order = old(self).take_order(j as int, class as int);
                let room = want - had;
                let m = if room < order.len() {
                    room
                } else {
                    order.len() as int
                };
                &&& n == had + m
                &&& final(out)@.take(n as int) == old(out)@.take(had as int) + order.take(m)
                &&& final(self).gained_all(old(self), class as int, order.take(m))
            }),
            final(out)@.len() == old(out)@.len(),
            forall|k: int| n <= k < old(out)@.len() ==> #[trigger] final(out)@[k] == old(out)@[k],
            only_taken(old(self).kind(), old(self).place(), final(self).place()),
            want - had >= old(self).take_order(j as int, class as int).len() ==> final(self).take_order(j as int, class as int).len() == 0,
    {
        let ghost before = *self;
        let ghost all0 = out@;
        let ghost out0 = out@.take(had as int);
        let ghost mut outs = out0;
        let mut n: usize = had;
        let ghost c = class as int;
        let ghost base = before.base();
        let ghost kind = before.kind@;
        let ghost place = before.place@;
        let ghost l = before.lists@[j as int];
        let ghost skip = before.hinted(j as int, c);
        let ghost order = before.take_order(j as int, c);
        let ghost first = match skip {
            Some(h) => free_in_span(base, kind, place, h as int),
            None => Seq::<usize>::empty(),
        };
        let h: u32 = self.hints.at(j);
        let mut hint: u32 = NO_SPAN;
        assert(self.gained_all(&before, c, Seq::<usize>::empty()));
        assert(only_taken(kind, place, self.place@));
        if slots_per_span(class) <= 64 && h != NO_SPAN {
            proof {
                self.bitmaps.lemma_span_base(h as int);
            }
            let at: usize = self.bitmaps.span_base(h);
            proof {
                self.arena.lemma_carved();
            }
            let tag = self.spans.lookup(at);
            let matches_class: bool = match tag {
                Some(t) => t.0 as usize == class,
                None => false,
            };
            if matches_class {
                proof {
                    assert(tag_ok(&self.spans, kind, self.arena.carved(), h as int));
                    assert(kind_ok(kind, self.arena.carved(), self.num_shards as int, h as int));
                }
                hint = h;
                let (m, stop) = self.scan_span(h, out, n, want, class);
                n = m;
                proof {
                    outs = out@.take(n as int);
                    self.lemma_scan_gains(&before, h as int, c, stop@);
                    assert(place[h as int].len() == SPAN_SLOTS);
                    lemma_free_prefix(base, kind, place, h as int, stop@, SPAN_SLOTS as int);
                    assert(Seq::<usize>::empty() + free_below(base, kind, place, h as int, stop@)
                        =~= free_below(base, kind, place, h as int, stop@));
                }
            }
        }
        proof {
            assert(skip == (if hint == NO_SPAN {
                None::<u32>
            } else {
                Some(hint)
            }));
            assert(list_ok(&before.bitmaps, before.heads@, before.lists@, kind, j as int));
        }
        let mut span: u32 = self.heads.at(j);
        let ghost mut k: int = 0;
        proof {
            let m = outs.len() - out0.len();
            assert(order.take(m) =~= first.take(m));
            assert(outs =~= out0 + order.take(m));
            if outs.len() < want {
                assert(first.take(m) =~= first);
                assert(order.take(m) =~= first + free_in_list(base, kind, place, l, skip, 0));
            }
            assert forall|i: int| 0 <= i < l.len() && skip != Some(l[i]) implies self.place@[#[trigger] l[i] as int]
                == place[l[i] as int] by {
                assert(link_ok(&before.bitmaps, l, kind, j as int, i));
            }
        }
        while n < want && span != NO_SPAN
            invariant
                before.wf(),
                self.wf(),
                self.same_spans(&before),
                *self == (Heap { bitmaps: self.bitmaps, place: self.place, ..before }),
                self.bitmaps.same_lists(&before.bitmaps),
                is_class(c),
                c == class,
                base == before.base(),
                kind == before.kind@,
                place == before.place@,
                j < before.lists@.len(),
                j % NUM_CLASSES == class,
                l == before.lists@[j as int],
                skip == before.hinted(j as int, c),
                order == before.take_order(j as int, c),
                first == (match skip {
                    Some(h) => free_in_span(base, kind, place, h as int),
                    None => Seq::<usize>::empty(),
                }),
                skip == (if hint == NO_SPAN {
                    None::<u32>
                } else {
                    Some(hint)
                }),
                list_ok(&before.bitmaps, before.heads@, before.lists@, kind, j as int),
                0 <= k <= l.len(),
                span == (if k < l.len() {
                    l[k]
                } else {
                    NO_SPAN
                }),
                outs == out@.take(n as int),
                had <= n <= want <= out@.len(),
                out@.len() == all0.len(),
                forall|i: int| n <= i < all0.len() ==> #[trigger] out@[i] == all0[i],
                out0.len() == had,
                outs.len() - out0.len() <= order.len(),
                outs == out0 + order.take(outs.len() - out0.len()),
                self.gained_all(&before, c, order.take(outs.len() - out0.len())),
                only_taken(kind, place, self.place@),
                outs.len() < want ==> order.take(outs.len() - out0.len()) == first + free_in_list(
                    base,
                    kind,
                    place,
                    l,
                    skip,
                    k,
                ),
                forall|i: int|
                    k <= i < l.len() && skip != Some(l[i]) ==> self.place@[#[trigger] l[i] as int]
                        == place[l[i] as int],
            decreases l.len() - k,
        {
            let ghost mid = *self;
            let ghost m0 = outs.len() - out0.len();
            proof {
                assert(link_ok(&before.bitmaps, l, kind, j as int, k));
                lemma_list_prefix(base, kind, place, l, skip, k + 1, l.len() as int);
            }
            let ghost upto = first + free_in_list(base, kind, place, l, skip, k + 1);
            proof {
                assert(order.take(upto.len() as int) =~= upto);
            }
            if span != hint {
                let (m, stop) = self.scan_span(span, out, n, want, class);
                n = m;
                proof {
                    outs = out@.take(n as int);
                    let part = free_below(base, kind, place, span as int, stop@);
                    lemma_same_free(base, kind, place, mid.place@, span as int, stop@);
                    self.lemma_scan_gains(&mid, span as int, c, stop@);
                    assert(mid.place@[span as int].len() == SPAN_SLOTS);
                    assert(only_taken(kind, place, self.place@)) by {
                        assert forall|s: int, i: int| 0 <= s < place.len() && 0 <= i < SPAN_SLOTS implies #[trigger] self.place@[s][i]
                            == place[s][i] || (slot_is_free(kind, place, s, i) && self.place@[s][i] is Live) by {
                            assert(mid.place@[s][i] == place[s][i] || (slot_is_free(kind, place, s, i)
                                && mid.place@[s][i] is Live));
                        }
                    }
                    self.lemma_gained_compose(&mid, &before, c, order.take(m0), part);
                    lemma_free_prefix(base, kind, place, span as int, stop@, SPAN_SLOTS as int);
                    let m1 = outs.len() - out0.len();
                    let whole = free_in_span(base, kind, place, span as int);
                    assert(part == whole.take(part.len() as int));
                    assert(upto == order.take(m0) + whole) by {
                        assert(upto =~= (first + free_in_list(base, kind, place, l, skip, k)) + whole);
                    }
                    assert(order.take(m1) =~= order.take(m0) + part) by {
                        assert(order.take(m1) =~= upto.take(m1));
                    }
                    assert(outs =~= out0 + order.take(m1));
                    if outs.len() < want {
                        assert(part == whole);
                    }
                    assert forall|i: int| k + 1 <= i < l.len() && skip != Some(l[i]) implies self.place@[#[trigger] l[i] as int]
                        == place[l[i] as int] by {
                        assert(link_ok(&before.bitmaps, l, kind, j as int, i));
                        assert(l[i] != l[k]);
                    }
                }
            } else {
                proof {
                    assert(upto =~= first + free_in_list(base, kind, place, l, skip, k));
                }
            }
            proof {
                assert(self.bitmaps.same_lists(&before.bitmaps)) by {
                    assert forall|s: int| 0 <= s < kind.len() implies #[trigger] self.bitmaps.link(s)
                        == before.bitmaps.link(s) by {
                        assert(mid.bitmaps.link(s) == before.bitmaps.link(s));
                    }
                    assert forall|s: int| 0 <= s < kind.len() implies #[trigger] self.bitmaps.listed(s)
                        == before.bitmaps.listed(s) by {
                        assert(mid.bitmaps.listed(s) == before.bitmaps.listed(s));
                    }
                }
                k = k + 1;
            }
            span = self.bitmaps.next(span);
        }
        proof {
            let m1 = outs.len() - out0.len();
            if outs.len() < want {
                if k < l.len() {
                    assert(link_ok(&before.bitmaps, l, kind, j as int, k));
                }
                assert(order =~= first + free_in_list(base, kind, place, l, skip, l.len() as int));
                assert(order.take(m1) == order);
            }
            if want - out0.len() >= order.len() {
                assert(order.take(m1) =~= order);
                self.lemma_order_exhausted(&before, j as int, c);
            }
        }
        n
    }

    /// A free object of the hinted span, or of a span on the list, is in the
    /// order.
    pub proof fn lemma_in_order(&self, j: int, c: int, s: int, i: int)
        requires
            self.wf(),
            slot_is_free(self.kind(), self.place(), s, i),
            self.hinted(j, c) == Some(s as u32) || self.lists()[j].contains(s as u32),
            0 <= i < SPAN_SLOTS,
            0 <= s <= u32::MAX,
        ensures
            self.take_order(j, c).contains(
                slot_addr(self.base(), s, i, self.kind()[s]->class) as usize,
            ),
    {
        let base = self.base();
        let kind = self.kind();
        let place = self.place();
        let l = self.lists()[j];
        let skip = self.hinted(j, c);
        let x = slot_addr(base, s, i, kind[s]->class) as usize;
        self.arena.lemma_carved();
        assert(kind_ok(kind, self.arena.carved(), self.num_shards as int, s));
        let f = free_in_span(base, kind, place, s);
        lemma_free_below(base, kind, place, s, SPAN_SLOTS as int, self.size());
        assert(f.contains(x));
        let q = f.index_of(x);
        let first = match skip {
            Some(h) => free_in_span(base, kind, place, h as int),
            None => Seq::<usize>::empty(),
        };
        if skip == Some(s as u32) {
            assert(self.take_order(j, c)[q] == x);
        } else {
            let k = l.index_of(s as u32);
            assert(l[k] == s as u32);
            let before = free_in_list(base, kind, place, l, skip, k);
            let upto = free_in_list(base, kind, place, l, skip, k + 1);
            let all = free_in_list(base, kind, place, l, skip, l.len() as int);
            lemma_list_prefix(base, kind, place, l, skip, k + 1, l.len() as int);
            assert(upto[before.len() + q] == x);
            assert(all[before.len() + q] == x) by {
                assert(all.take(upto.len() as int)[before.len() + q] == upto[before.len() + q]);
            }
            assert(self.take_order(j, c)[first.len() + before.len() + q] == x);
        }
    }

    /// What the order names are addresses of free objects of its class, in the hinted
    /// span or in a span of the list.
    pub proof fn lemma_order_free(&self, j: int, c: int, k: int) -> (at: (int, int))
        requires
            self.wf(),
            is_class(c),
            0 <= j < self.lists().len(),
            j % NUM_CLASSES as int == c,
            0 <= k < self.take_order(j, c).len(),
        ensures
            0 <= at.0 < self.kind().len(),
            self.kind()[at.0] is Tile,
            self.kind()[at.0]->class == c,
            0 <= at.1,
            self.take_order(j, c)[k] == self.base() + at.0 * 65536 + at.1
                * crate::sizeclass::CLASS_SIZES@[c],
            self.place()[at.0][at.1] is Free,
            self.is_object(self.take_order(j, c)[k] as int, c),
    {
        let base = self.base();
        let kind = self.kind();
        let place = self.place();
        let l = self.lists()[j];
        let skip = self.hinted(j, c);
        let first = match skip {
            Some(h) => free_in_span(base, kind, place, h as int),
            None => Seq::<usize>::empty(),
        };
        let x = self.take_order(j, c)[k];
        self.lemma_lens();
        self.arena.lemma_carved();
        let s: int = if k < first.len() {
            let h = skip->0 as int;
            assert(self.hints@[j] == NO_SPAN || self.hints@[j] < self.kind@.len());
            assert(tag_ok(&self.spans, kind, self.arena.carved(), h));
            if kind[h] !is Tile {
                lemma_free_skip(base, kind, place, h, 0, SPAN_SLOTS as int);
            }
            h
        } else {
            let m = lemma_list_member(base, kind, place, l, skip, l.len() as int, k - first.len());
            assert(free_in_span(base, kind, place, l[m] as int).contains(x));
            self.lemma_on_list(j, m);
            self.lemma_listed(l[m] as int);
            l[m] as int
        };
        assert(free_in_span(base, kind, place, s).contains(x)) by {
            if k < first.len() {
                assert(first[k] == x);
            }
        }
        assert(kind_ok(kind, self.arena.carved(), self.num_shards as int, s));
        let f = free_in_span(base, kind, place, s);
        lemma_free_below(base, kind, place, s, SPAN_SLOTS as int, self.size());
        let q = f.index_of(x);
        assert(f[q] == x);
        let i = slot_index(base, x as int, c);
        crate::subheap::tiling::lemma_locate(base, s, i, c);
        (s, i)
    }

    /// The order names each object once: those of a span by ascending address, the hinted
    /// span first, and then the spans of the list in the list's order.
    pub proof fn lemma_order(&self, j: int, c: int, k1: int, k2: int)
        requires
            self.wf(),
            is_class(c),
            0 <= j < self.lists().len(),
            j % NUM_CLASSES as int == c,
            0 <= k1 < k2 < self.take_order(j, c).len(),
        ensures
            ({
                let a = self.take_order(j, c)[k1];
                let b = self.take_order(j, c)[k2];
                let s = (a - self.base()) / 65536;
                let t = (b - self.base()) / 65536;
                let l = self.lists()[j];
                &&& a != b
                &&& s == t ==> a < b
                &&& s != t ==> self.hint(j) == s || exists|m: int, n: int|
                    0 <= m < n < l.len() && #[trigger] l[m] == s && #[trigger] l[n] == t
            }),
    {
        let base = self.base();
        let kind = self.kind();
        let place = self.place();
        let l = self.lists()[j];
        let skip = self.hinted(j, c);
        let first = match skip {
            Some(h) => free_in_span(base, kind, place, h as int),
            None => Seq::<usize>::empty(),
        };
        let a = self.take_order(j, c)[k1];
        let b = self.take_order(j, c)[k2];
        self.lemma_lens();
        self.arena.lemma_carved();
        if k1 < first.len() {
            let h = skip->0 as int;
            assert(self.hints@[j] == NO_SPAN || self.hints@[j] < self.kind@.len());
            assert(tag_ok(&self.spans, kind, self.arena.carved(), h));
            if kind[h] !is Tile {
                lemma_free_skip(base, kind, place, h, 0, SPAN_SLOTS as int);
            }
            assert(kind_ok(kind, self.arena.carved(), self.num_shards as int, h));
            lemma_free_below(base, kind, place, h, SPAN_SLOTS as int, self.size());
            assert(first[k1] == a);
            if k2 < first.len() {
                lemma_free_ascending(base, kind, place, h, SPAN_SLOTS as int, self.size(), k1, k2);
                assert(first[k2] == b);
            } else {
                let m = lemma_list_member(base, kind, place, l, skip, l.len() as int, k2 - first.len());
                let t = l[m] as int;
                self.lemma_on_list(j, m);
                self.lemma_listed(t);
                assert(kind_ok(kind, self.arena.carved(), self.num_shards as int, t));
                lemma_free_below(base, kind, place, t, SPAN_SLOTS as int, self.size());
                let f = free_in_span(base, kind, place, t);
                let q = f.index_of(b);
                assert(f.contains(b));
                assert(f[q] == b);
            }
        } else {
            let (m, n, p, q) = lemma_list_order(
                base,
                kind,
                place,
                l,
                skip,
                l.len() as int,
                k1 - first.len(),
                k2 - first.len(),
            );
            let s = l[m] as int;
            let t = l[n] as int;
            self.lemma_on_list(j, m);
            self.lemma_on_list(j, n);
            self.lemma_listed(s);
            self.lemma_listed(t);
            assert(kind_ok(kind, self.arena.carved(), self.num_shards as int, s));
            assert(kind_ok(kind, self.arena.carved(), self.num_shards as int, t));
            lemma_free_below(base, kind, place, s, SPAN_SLOTS as int, self.size());
            lemma_free_below(base, kind, place, t, SPAN_SLOTS as int, self.size());
            assert(free_in_span(base, kind, place, s)[p] == a);
            assert(free_in_span(base, kind, place, t)[q] == b);
            assert(list_ok(&self.bitmaps, self.heads@, self.lists@, self.kind@, j));
            if m == n {
                lemma_free_ascending(base, kind, place, s, SPAN_SLOTS as int, self.size(), p, q);
            } else {
                assert(l[m] != l[n]);
            }
        }
    }

    /// Once every object of the order was taken, none is left.
    proof fn lemma_order_exhausted(&self, before: &Heap, j: int, c: int)
        requires
            before.wf(),
            self.wf(),
            self.same_spans(before),
            only_taken(before.kind(), before.place(), self.place()),
            self.gained_all(before, c, before.take_order(j, c)),
            0 <= j < before.lists().len(),
            is_class(c),
            j % NUM_CLASSES as int == c,
        ensures
            self.take_order(j, c).len() == 0,
    {
        let base = self.base();
        let kind = self.kind();
        let order = before.take_order(j, c);
        let l = self.lists()[j];
        let skip = self.hinted(j, c);
        assert forall|s: int, i: int|
            0 <= s <= u32::MAX && (skip == Some(s as u32) || l.contains(s as u32)) && 0 <= i < SPAN_SLOTS implies !#[trigger] slot_is_free(
            kind,
            self.place(),
            s,
            i,
        ) by {
            if slot_is_free(kind, self.place(), s, i) {
                assert(self.place()[s][i] == before.place()[s][i]);
                before.lemma_in_order(j, c, s, i);
                let d = kind[s]->class;
                assert(kind_ok(kind, self.arena.carved(), self.num_shards as int, s));
                let a = slot_addr(base, s, i, d);
                lemma_slot_is_obj(base, kind, s, i);
                self.lemma_object_bounds(a, d);
                lemma_tiling(d);
                let x = a as usize;
                let q = order.index_of(x);
                assert(order[q] == x);
                assert(self.live(order[q] as int, c));
                // The live object at that address is this one.
                assert(kind[s]->class == c);
            }
        }
        match skip {
            Some(h) => {
                assert forall|i: int| 0 <= i < SPAN_SLOTS implies !#[trigger] slot_is_free(
                    kind,
                    self.place(),
                    h as int,
                    i,
                ) by {
                    assert(skip == Some((h as int) as u32));
                }
                lemma_free_skip(base, kind, self.place(), h as int, 0, SPAN_SLOTS as int);
            },
            None => {},
        }
        assert forall|k: int| 0 <= k < l.len() implies free_in_span(
            base,
            kind,
            self.place(),
            #[trigger] l[k] as int,
        ).len() == 0 by {
            assert(l.contains(l[k]));
            assert forall|i: int| 0 <= i < SPAN_SLOTS implies !#[trigger] slot_is_free(
                kind,
                self.place(),
                l[k] as int,
                i,
            ) by {
                assert(l.contains((l[k] as int) as u32));
            }
            lemma_free_skip(base, kind, self.place(), l[k] as int, 0, SPAN_SLOTS as int);
        }
        lemma_list_empty(base, kind, self.place(), l, skip, l.len() as int);
    }
}

proof fn lemma_list_empty(
    base: int,
    kind: Seq<SpanKind>,
    place: Seq<Seq<Place>>,
    l: Seq<u32>,
    skip: Option<u32>,
    n: int,
)
    requires
        0 <= n <= l.len(),
        forall|k: int|
            0 <= k < l.len() ==> free_in_span(base, kind, place, #[trigger] l[k] as int).len() == 0,
    ensures
        free_in_list(base, kind, place, l, skip, n).len() == 0,
    decreases n,
{
    if n > 0 {
        lemma_list_empty(base, kind, place, l, skip, n - 1);
        assert(free_in_span(base, kind, place, l[n - 1] as int).len() == 0);
    }
}

/// A span's free list depends on that span's row alone.
proof fn lemma_same_free(
    base: int,
    kind: Seq<SpanKind>,
    p: Seq<Seq<Place>>,
    q: Seq<Seq<Place>>,
    s: int,
    n: int,
)
    requires
        p[s] == q[s],
    ensures
        free_below(base, kind, p, s, n) == free_below(base, kind, q, s, n),
    decreases n,
{
    if n > 0 {
        lemma_same_free(base, kind, p, q, s, n - 1);
    }
}

/// Tags agree with the spans' uses, but for the spans in `[lo, hi)`, which are
/// tagged `c`.
pub open spec fn tags_but(
    spans: &SpanTable,
    kind: Seq<SpanKind>,
    carved: int,
    lo: int,
    hi: int,
    c: int,
) -> bool {
    forall|s: int|
        0 <= s < kind.len() ==> if lo <= s < hi {
            (#[trigger] spans.tag(s)) is Some && spans.tag(s).unwrap().0 == c
        } else {
            tag_ok(spans, kind, carved, s)
        }
}

/// The pool holds exactly the carved spans that are not in use, but for those in
/// `[lo, hi)`.
pub open spec fn pool_but(pool: &SpanPool, kind: Seq<SpanKind>, carved: int, lo: int, hi: int) -> bool {
    forall|s: int|
        #[trigger] pool.covers(s) <==> 0 <= s < carved && kind[s] is Loose && !(lo <= s < hi)
}

/// Mark the `slots` lowest slots of span `span` free.
fn mark_free(maps: &mut SpanBitmaps, span: u32, slots: usize)
    requires
        old(maps).wf(),
        span < old(maps).span_count(),
        slots <= SPAN_SLOTS,
    ensures
        final(maps).wf(),
        final(maps).same_lists(old(maps)),
        forall|s: int, i: int|
            0 <= s < final(maps).span_count() && 0 <= i < SPAN_SLOTS ==> #[trigger] final(maps).slot_free(
                s,
                i,
            ) == (old(maps).slot_free(s, i) || (s == span && i < slots)),
{
    let ghost before = *maps;
    let nwords: usize = slots / 64;
    let rem: usize = slots % 64;
    let mut w: usize = 0;
    while w < nwords
        invariant
            w <= nwords <= SPAN_BITMAP_WORDS,
            before.wf(),
            maps.wf(),
            maps.same_lists(&before),
            span < before.span_count(),
            forall|s: int, i: int|
                0 <= s < maps.span_count() && 0 <= i < SPAN_SLOTS ==> #[trigger] maps.slot_free(s, i)
                    == (before.slot_free(s, i) || (s == span && i < 64 * w)),
        decreases nwords - w,
    {
        let ghost mid = *maps;
        maps.alloc_set_mask(span, w, u64::MAX);
        proof {
            lemma_bit_ones();
            lemma_lists_twice(maps, &mid, &before);
            assert forall|s: int, i: int| 0 <= s < maps.span_count() && 0 <= i < SPAN_SLOTS implies #[trigger] maps.slot_free(
                s,
                i,
            ) == (before.slot_free(s, i) || (s == span && i < 64 * (w + 1))) by {
                assert(mid.slot_free(s, i) == (before.slot_free(s, i) || (s == span && i < 64 * w)));
                assert(bit(u64::MAX, i % 64));
            }
        }
        w = w + 1;
    }
    if rem != 0 {
        let ghost mid = *maps;
        let mask: u64 = mask_below(rem as u32);
        maps.alloc_set_mask(span, nwords, mask);
        proof {
            lemma_lists_twice(maps, &mid, &before);
            assert forall|s: int, i: int| 0 <= s < maps.span_count() && 0 <= i < SPAN_SLOTS implies #[trigger] maps.slot_free(
                s,
                i,
            ) == (before.slot_free(s, i) || (s == span && i < slots)) by {
                assert(mid.slot_free(s, i) == (before.slot_free(s, i) || (s == span && i < 64
                    * nwords)));
                assert(bit(mask, i % 64) == (i % 64 < rem));
            }
        }
    }
}

proof fn lemma_lists_twice(a: &SpanBitmaps, b: &SpanBitmaps, c: &SpanBitmaps)
    requires
        a.same_lists(b),
        b.same_lists(c),
    ensures
        a.same_lists(c),
{
    assert forall|s: int| 0 <= s < a.span_count() implies #[trigger] a.link(s) == c.link(s) by {
        assert(b.link(s) == c.link(s));
    }
    assert forall|s: int| 0 <= s < a.span_count() implies #[trigger] a.listed(s) == c.listed(s) by {
        assert(b.listed(s) == c.listed(s));
    }
}

/// The uses after the `len` spans from `s` on have become a group of `class` on
/// the list of `shard`.
pub open spec fn tiled(kind: Seq<SpanKind>, s: int, class: int, shard: int) -> Seq<SpanKind> {
    Seq::new(
        kind.len(),
        |t: int|
            if t == s {
                SpanKind::Tile { class, shard }
            } else if s < t < s + group_of(class) {
                SpanKind::Tail { head: s }
            } else {
                kind[t]
            },
    )
}

/// A row of free objects.
pub open spec fn all_free() -> Seq<Place> {
    Seq::new(SPAN_SLOTS as nat, |i: int| Place::Free)
}

impl Heap {
    /// The invariant while the spans in `[lo, hi)` have left the pool or arena,
    /// tagged `c`, and are not in use yet.
    pub(crate) closed spec fn wf_but(&self, lo: int, hi: int, c: int) -> bool {
        &&& self.geometry()
        &&& 0 <= lo <= hi <= self.arena.carved()
        &&& forall|s: int| lo <= s < hi ==> (#[trigger] self.kind@[s]) is Loose
        &&& kinds_ok(self.kind@, self.arena.carved(), self.num_shards as int)
        &&& tags_but(&self.spans, self.kind@, self.arena.carved(), lo, hi, c)
        &&& pool_but(&self.pool, self.kind@, self.arena.carved(), lo, hi)
        &&& bits_ok(&self.bitmaps, self.kind@, self.place@)
        &&& slab_ok(&self.slab, self.arena.base(), self.kind@, self.place@)
        &&& lists_ok(&self.bitmaps, self.heads@, self.lists@, self.kind@)
        &&& runs_ok(self.run_spans@, self.kind@)
    }

    /// With no span left in between, the invariant holds.
    proof fn lemma_settled(&self, at: int, c: int)
        requires
            self.wf_but(at, at, c),
        ensures
            self.wf(),
    {
        assert forall|s: int| 0 <= s < self.kind@.len() implies #[trigger] tag_ok(
            &self.spans,
            self.kind@,
            self.arena.carved(),
            s,
        ) by {
            let t = self.spans.tag(s);
        }
    }

    /// Whether `count` adjacent spans can be had, from the pool or the arena.
    pub open spec fn run_available(&self, count: int) -> bool {
        crate::spanpool::first_nonempty(self.pool().stacks(), count).is_some() || count
            <= self.arena().whole_left()
    }

    /// Whether the pool has a run of at least `count` spans.
    pub open spec fn pooled(&self, count: int) -> bool {
        crate::spanpool::first_nonempty(self.pool().stacks(), count).is_some()
    }

    /// The first of the next `count` spans in a row: that of the run on top of the
    /// pool's smallest bucket that is large enough, else the next one of the arena.
    pub open spec fn run_start(&self, count: int) -> int {
        match crate::spanpool::first_nonempty(self.pool().stacks(), count) {
            Some(m) => self.pool().stacks()[m][0] as int,
            None => self.carved(),
        }
    }

    /// Exactly the spans in `[lo, hi)` have been tagged, and they came from the
    /// arena, which has carved them, or else from the pool, which has served them.
    pub open spec fn spans_tagged(
        &self,
        other: &Heap,
        lo: int,
        hi: int,
        fresh: bool,
        tag: u16,
        home: u16,
    ) -> bool {
        &&& self.base() == other.base()
        &&& self.size() == other.size()
        &&& self.carved() == other.carved() + if fresh {
            hi - lo
        } else {
            0
        }
        &&& self.pool().stacks() == (if fresh {
            other.pool().stacks()
        } else {
            crate::spanpool::served(
                other.pool().stacks(),
                hi - lo,
                crate::spanpool::first_nonempty(other.pool().stacks(), hi - lo).unwrap(),
            )
        })
        &&& forall|s: int|
            0 <= s < other.kind().len() ==> #[trigger] self.tag(s) == (if lo <= s < hi {
                Some((tag, home))
            } else {
                other.tag(s)
            })
    }

    /// Obtain exactly `count` adjacent spans, from the pool if it has a run that
    /// large, else fresh from the arena, and tag them.
    pub(crate) fn acquire_run(&mut self, count: u32, tag: u16, home: u16) -> (r: Option<u32>)
        requires
            old(self).wf(),
            count >= 1,
            tag != 0,
        ensures
            r.is_some() <==> old(self).run_available(count as int),
            r is None ==> *final(self) == *old(self),
            r matches Some(h) ==> {
                &&& h == old(self).run_start(count as int)
                &&& final(self).spans_tagged(
                    old(self),
                    h as int,
                    h + count,
                    !old(self).pooled(count as int),
                    tag,
                    home,
                )
                &&& final(self).wf_but(h as int, h + count, tag as int)
                &&& final(self).only_spans_moved(old(self))
                &&& h + count <= final(self).carved()
                &&& old(self).carved() <= final(self).carved()
                &&& forall|s: int| h <= s < h + count ==> (#[trigger] old(self).kind()[s]) is Loose
            },
    {
        let ghost before = *self;
        proof {
            self.arena.lemma_carved();
            crate::spanpool::lemma_first_nonempty(self.pool.stacks(), count as int);
        }
        let h: u32 = match self.pool.allocate(count) {
            Some(h) => {
                proof {
                    assert(before.pool.covers(h + count - 1));
                }
                h
            },
            None => {
                if count as usize > usize::MAX / SPAN_BYTES {
                    return None;
                }
                let run_bytes: usize = (count as usize) * SPAN_BYTES;
                match self.arena.carve_run(run_bytes) {
                    Some(start) => {
                        proof {
                            self.arena.lemma_carved();
                        }
                        let at: u32 = self.bitmaps.span_of(start);
                        assert(at == before.arena.carved());
                        assert forall|s: int| #[trigger] self.pool.covers(s) <==> before.pool.covers(s) && !(at
                            <= s < at + count) by {
                            assert(before.pool.covers(s) ==> s < before.arena.carved());
                        }
                        at
                    },
                    None => {
                        return None;
                    },
                }
            },
        };
        proof {
            self.arena.lemma_carved();
            assert(h + count <= self.arena.carved());
        }
        let start: usize = self.bitmaps.span_base(h);
        self.spans.assign_range(start, (count as usize) * SPAN_BYTES, tag, home);
        proof {
            crate::meta::lemma_tag_roundtrip(tag, home);
            self.lemma_acquired(&before, h as int, h + count, tag as int);
        }
        Some(h)
    }

    /// Only the arena, the pool and the tags differ from `other`'s.
    pub(crate) closed spec fn only_spans_moved(&self, other: &Heap) -> bool {
        *self == (Heap { arena: self.arena, pool: self.pool, spans: self.spans, ..*other })
            && self.arena.base() == other.arena.base() && self.arena.size() == other.arena.size()
    }

    proof fn lemma_acquired(&self, before: &Heap, lo: int, hi: int, c: int)
        requires
            before.wf(),
            self.geometry(),
            self.only_spans_moved(before),
            0 <= lo < hi <= self.arena.carved(),
            before.arena.carved() <= self.arena.carved(),
            forall|s: int| #[trigger] self.pool.covers(s) <==> before.pool.covers(s) && !(lo <= s < hi),
            forall|s: int|
                lo <= s < hi && s < before.arena.carved() ==> #[trigger] before.pool.covers(s),
            before.arena.carved() == self.arena.carved() || (lo == before.arena.carved() && hi
                == self.arena.carved()),
            forall|s: int|
                0 <= s < self.kind@.len() ==> #[trigger] self.spans.tag(s) == (if lo <= s < hi {
                    self.spans.tag(lo)
                } else {
                    before.spans.tag(s)
                }),
            self.spans.tag(lo) is Some,
            self.spans.tag(lo).unwrap().0 == c,
        ensures
            self.wf_but(lo, hi, c),
            forall|s: int| lo <= s < hi ==> (#[trigger] before.kind()[s]) is Loose,
    {
        let kind = self.kind@;
        let shards = self.num_shards as int;
        self.arena.lemma_carved();
        assert forall|s: int| lo <= s < hi implies (#[trigger] kind[s]) is Loose by {
            if s < before.arena.carved() {
                assert(before.pool.covers(s));
            } else {
                assert(kind_ok(kind, before.arena.carved(), shards, s));
                match kind[s] {
                    SpanKind::Tail { head } => {
                        assert(kind_ok(kind, before.arena.carved(), shards, head));
                    },
                    SpanKind::Tile { class, .. } => {
                        lemma_tiling(class);
                    },
                    _ => {},
                }
            }
        }
        assert forall|s: int| 0 <= s < kind.len() implies #[trigger] kind_ok(
            kind,
            self.arena.carved(),
            shards,
            s,
        ) by {
            assert(kind_ok(kind, before.arena.carved(), shards, s));
        }
        assert forall|s: int| 0 <= s < kind.len() && !(lo <= s < hi) implies #[trigger] tag_ok(
            &self.spans,
            kind,
            self.arena.carved(),
            s,
        ) by {
            assert(tag_ok(&before.spans, kind, before.arena.carved(), s));
            assert(self.spans.tag(s) == before.spans.tag(s));
        }
        assert forall|s: int| #[trigger] self.pool.covers(s) <==> 0 <= s < self.arena.carved()
            && kind[s] is Loose && !(lo <= s < hi) by {
            assert(before.pool.covers(s) <==> 0 <= s < before.arena.carved() && kind[s] is Loose);
        }
    }
}

impl Heap {
    /// Live objects and large runs are those of `other`.
    pub open spec fn same_live(&self, other: &Heap) -> bool {
        &&& forall|b: int, d: int| #[trigger] self.live(b, d) <==> other.live(b, d)
        &&& forall|b: int, len: int| #[trigger] self.live_run(b, len) <==> other.live_run(b, len)
    }

    /// How many of up to `want` adjacent spans can be had: all, if the pool has a
    /// run that large, else as many as the arena still has.
    pub open spec fn spans_had(&self, want: int) -> int {
        if self.pooled(want) || want < self.arena().whole_left() {
            want
        } else {
            self.arena().whole_left()
        }
    }

    /// Obtain up to `want` adjacent spans and tag them: exactly `want` from the
    /// pool if it has a run that large, else as many as the arena still has.
    pub(crate) fn carve_or_reuse_spans(&mut self, want: u32, tag: u16, home: u16) -> (r: (u32, u32))
        requires
            old(self).wf(),
            want >= 1,
            tag != 0,
        ensures
            r.0 <= r.1,
            r.0 < r.1 <==> crate::spanpool::first_nonempty(
                old(self).pool().stacks(),
                want as int,
            ).is_some() || old(self).arena().whole_left() >= 1,
            r.0 == r.1 ==> *final(self) == *old(self),
            r.0 < r.1 ==> {
                &&& r.0 == old(self).run_start(want as int)
                &&& r.1 - r.0 == old(self).spans_had(want as int)
                &&& final(self).spans_tagged(
                    old(self),
                    r.0 as int,
                    r.1 as int,
                    !old(self).pooled(want as int),
                    tag,
                    home,
                )
                &&& final(self).wf_but(r.0 as int, r.1 as int, tag as int)
                &&& final(self).only_spans_moved(old(self))
                &&& r.1 <= final(self).carved()
                &&& old(self).carved() <= final(self).carved()
                &&& forall|s: int| r.0 <= s < r.1 ==> (#[trigger] old(self).kind()[s]) is Loose
            },
    {
        let ghost before = *self;
        proof {
            self.arena.lemma_carved();
            crate::spanpool::lemma_first_nonempty(self.pool.stacks(), want as int);
        }
        match self.pool.allocate(want) {
            Some(h) => {
                proof {
                    assert(before.pool.covers(h + want - 1));
                }
                let start: usize = self.bitmaps.span_base(h);
                self.spans.assign_range(start, (want as usize) * SPAN_BYTES, tag, home);
                proof {
                    crate::meta::lemma_tag_roundtrip(tag, home);
                    self.lemma_acquired(&before, h as int, h + want, tag as int);
                }
                (h, h + want)
            },
            None => {
                let (start, end) = self.arena.carve_spans(want as usize, tag, home, &mut self.spans);
                if end <= start {
                    assert(self.spans == before.spans && self.arena == before.arena);
                    return (0, 0);
                }
                proof {
                    self.arena.lemma_carved();
                }
                let lo: u32 = self.bitmaps.span_of(start);
                let hi: u32 = lo + ((end - start) / SPAN_BYTES) as u32;
                proof {
                    assert(lo == before.arena.carved());
                    assert(hi == self.arena.carved());
                    assert forall|s: int| #[trigger] self.pool.covers(s) <==> before.pool.covers(s) && !(lo
                        <= s < hi) by {
                        assert(before.pool.covers(s) ==> s < before.arena.carved());
                    }
                    crate::meta::lemma_tag_roundtrip(tag, home);
                    self.lemma_acquired(&before, lo as int, hi as int, tag as int);
                }
                (lo, hi)
            },
        }
    }

    /// Put the span group at the front of the spans in between to use for
    /// `class`: all its slots become free, and it goes to the front of list `j`.
    #[verifier::rlimit(40)]
    pub(crate) fn adopt(&mut self, span: u32, class: usize, j: usize, hi: Ghost<int>)
        requires
            old(self).wf_but(span as int, hi@, class as int),
            is_class(class as int),
            span + group_of(class as int) <= hi@,
            j < old(self).lists().len(),
            j % NUM_CLASSES == class,
        ensures
            final(self).wf_but(span + group_of(class as int), hi@, class as int),
            final(self).same_live(old(self)),
            final(self).slab() == old(self).slab(),
            final(self).arena() == old(self).arena(),
            final(self).pool() == old(self).pool(),
            final(self).shards() == old(self).shards(),
            final(self).kind() == tiled(
                old(self).kind(),
                span as int,
                class as int,
                j as int / NUM_CLASSES as int,
            ),
            final(self).place() == old(self).place().update(span as int, all_free()),
            final(self).lists() == old(self).lists().update(
                j as int,
                seq![span] + old(self).lists()[j as int],
            ),
            forall|s: int| #[trigger] final(self).tag(s) == old(self).tag(s),
            forall|k: int| #[trigger] final(self).hint(k) == old(self).hint(k),
    {
        let ghost before = *self;
        let slots: usize = slots_per_span(class);
        proof {
            lemma_tiling(class as int);
            self.arena.lemma_carved();
            assert(self.kind@[span as int] is Loose);
        }
        mark_free(&mut self.bitmaps, span, slots);
        let ghost marked = *self;
        proof {
            assert(before.bitmaps.listed(span as int) == false);
            assert(marked.bitmaps.listed(span as int) == before.bitmaps.listed(span as int));
        }
        if !self.bitmaps.is_on_list(span) {
            let head: u32 = self.heads.at(j);
            let h: u32 = self.bitmaps.link_front(span, head);
            self.heads.put(j, h);
        }
        proof {
            assert forall|s: int, i: int|
                0 <= s < self.bitmaps.span_count() && 0 <= i < SPAN_SLOTS implies #[trigger] self.bitmaps.slot_free(
                s,
                i,
            ) == (before.bitmaps.slot_free(s, i) || (s == span && i < slots)) by {
                assert(self.bitmaps.slot_free(s, i) == marked.bitmaps.slot_free(s, i));
            }
            assert forall|s: int| 0 <= s < self.bitmaps.span_count() implies #[trigger] self.bitmaps.link(s)
                == (if s == span {
                before.heads@[j as int]
            } else {
                before.bitmaps.link(s)
            }) by {
                assert(marked.bitmaps.link(s) == before.bitmaps.link(s));
            }
            assert forall|s: int| 0 <= s < self.bitmaps.span_count() implies #[trigger] self.bitmaps.listed(s)
                == (s == span || before.bitmaps.listed(s)) by {
                assert(marked.bitmaps.listed(s) == before.bitmaps.listed(s));
            }
            self.kind@ = tiled(before.kind@, span as int, class as int, j as int / NUM_CLASSES as int);
            self.place@ = before.place@.update(span as int, all_free());
            self.lists@ = before.lists@.update(j as int, seq![span] + before.lists@[j as int]);
            self.lemma_adopted(&before, span as int, class as int, j as int, hi@);
        }
    }

    proof fn lemma_adopted(&self, before: &Heap, span: int, class: int, j: int, hi: int)
        requires
            before.wf_but(span, hi, class),
            is_class(class),
            span + group_of(class) <= hi,
            0 <= j < before.lists@.len(),
            j % NUM_CLASSES as int == class,
            *self == (Heap {
                bitmaps: self.bitmaps,
                heads: self.heads,
                kind: Ghost(tiled(before.kind@, span, class, j / NUM_CLASSES as int)),
                place: Ghost(before.place@.update(span, all_free())),
                lists: Ghost(before.lists@.update(j, seq![span as u32] + before.lists@[j])),
                ..*before
            }),
            self.heads@ == before.heads@.update(j, span as u32),
            self.bitmaps.wf(),
            self.bitmaps.base() == before.bitmaps.base(),
            self.bitmaps.span_count() == before.bitmaps.span_count(),
            forall|s: int|
                0 <= s < self.bitmaps.span_count() ==> #[trigger] self.bitmaps.link(s) == (if s == span {
                    before.heads@[j]
                } else {
                    before.bitmaps.link(s)
                }),
            forall|s: int|
                0 <= s < self.bitmaps.span_count() ==> #[trigger] self.bitmaps.listed(s) == (s == span
                    || before.bitmaps.listed(s)),
            forall|s: int, i: int|
                0 <= s < self.bitmaps.span_count() && 0 <= i < SPAN_SLOTS ==> #[trigger] self.bitmaps.slot_free(
                    s,
                    i,
                ) == (before.bitmaps.slot_free(s, i) || (s == span && i < slots_of(class))),
        ensures
            self.wf_but(span + group_of(class), hi, class),
            self.same_live(before),
    {
        let base = self.arena.base();
        let k0 = before.kind@;
        let k1 = self.kind@;
        let p0 = before.place@;
        let p1 = self.place@;
        let carved = self.arena.carved();
        let shards = self.num_shards as int;
        let shard = j / NUM_CLASSES as int;
        let lo1 = span + group_of(class);
        self.arena.lemma_carved();
        lemma_tiling(class);
        assert(0 <= shard < shards);
        // The spans put to use were loose, and every other keeps its use.
        assert forall|s: int| span <= s < lo1 implies (#[trigger] k0[s]) is Loose by {}
        assert forall|s: int| 0 <= s < k0.len() && !(span <= s < lo1) implies #[trigger] k1[s] == k0[s] by {}
        assert forall|s: int| 0 <= s < k1.len() implies #[trigger] kind_ok(k1, carved, shards, s) by {
            assert(kind_ok(k0, carved, shards, s));
            if span < s < lo1 {
                assert(k1[span] is Tile);
            } else if s != span {
                match k0[s] {
                    SpanKind::Tile { class: d, .. } => {
                        lemma_tiling(d);
                        assert forall|t: int| s < t < s + group_of(d) implies #[trigger] k1[t] == (SpanKind::Tail {
                            head: s,
                        }) by {
                            assert(k0[t] == (SpanKind::Tail { head: s }));
                        }
                    },
                    SpanKind::Big { len } => {
                        assert forall|t: int| s < t < s + len implies #[trigger] k1[t] == (SpanKind::Tail {
                            head: s,
                        }) by {
                            assert(k0[t] == (SpanKind::Tail { head: s }));
                        }
                    },
                    SpanKind::Tail { head } => {
                        assert(k1[head] == k0[head]);
                    },
                    SpanKind::Loose => {},
                }
            }
        }
        assert forall|s: int| 0 <= s < k1.len() implies if lo1 <= s < hi {
            (#[trigger] self.spans.tag(s)) is Some && self.spans.tag(s).unwrap().0 == class
        } else {
            tag_ok(&self.spans, k1, carved, s)
        } by {
            assert(before.spans.tag(s) == self.spans.tag(s));
            if !(span <= s < hi) {
                assert(tag_ok(&before.spans, k0, carved, s));
                assert(kind_ok(k0, carved, shards, s));
                match k0[s] {
                    SpanKind::Tail { head } => {
                        assert(k1[head] == k0[head]);
                    },
                    _ => {},
                }
            }
        }
        assert forall|s: int| #[trigger] self.pool.covers(s) <==> 0 <= s < carved && k1[s] is Loose && !(lo1
            <= s < hi) by {
            assert(before.pool.covers(s) <==> 0 <= s < carved && k0[s] is Loose && !(span <= s < hi));
        }
        assert forall|s: int| 0 <= s < p1.len() implies (#[trigger] p1[s]).len() == SPAN_SLOTS by {
            assert(p0[s].len() == SPAN_SLOTS);
        }
        assert forall|s: int, i: int| is_obj(k1, s, i) implies (s == span && 0 <= i < slots_of(class)
            && p1[s][i] is Free) || (is_obj(k0, s, i) && p1[s][i] == p0[s][i] && k1[s] == k0[s]) by {
            if s == span {
            } else {
                assert(k1[s] == k0[s]);
            }
        }
        assert(bits_ok(&self.bitmaps, k1, p1)) by {
            assert forall|s: int, i: int| 0 <= s < k1.len() && 0 <= i < SPAN_SLOTS implies (#[trigger] self.bitmaps.slot_free(
                s,
                i,
            ) <==> is_obj(k1, s, i) && p1[s][i] is Free) by {
                assert(before.bitmaps.slot_free(s, i) <==> is_obj(k0, s, i) && p0[s][i] is Free);
            }
        }
        assert(slab_ok(&self.slab, base, k1, p1)) by {
            assert forall|cpu: int, d: int, k: int|
                0 <= cpu < self.slab.cpus() && 0 <= d < NUM_CLASSES && 0 <= k < self.slab.stack(cpu, d).len() implies #[trigger] cached_ok(
                &self.slab,
                base,
                k1,
                p1,
                cpu,
                d,
                k,
            ) by {
                assert(cached_ok(&before.slab, base, k0, p0, cpu, d, k));
            }
            assert forall|s: int, i: int| is_obj(k1, s, i) implies #[trigger] cache_entry(
                &self.slab,
                base,
                k1,
                p1,
                s,
                i,
            ) by {
                if is_obj(k0, s, i) {
                    assert(cache_entry(&before.slab, base, k0, p0, s, i));
                }
            }
        }
        self.lemma_adopted_lists(before, span, class, j);
        assert(runs_ok(self.run_spans@, k1)) by {
            assert forall|s: int| 0 <= s < k1.len() implies #[trigger] self.run_spans@[s] == (match k1[s] {
                SpanKind::Big { len } => len,
                _ => 0,
            }) by {
                assert(before.run_spans@[s] == (match k0[s] {
                    SpanKind::Big { len } => len,
                    _ => 0,
                }));
            }
        }
        assert forall|b: int, d: int| #[trigger] self.live(b, d) <==> before.live(b, d) by {
            if obj_at(base, k0, b, d) {
                let s = span_index(base, b);
                assert(k1[s] == k0[s]);
            }
        }
        assert forall|b: int, len: int| #[trigger] self.live_run(b, len) <==> before.live_run(b, len) by {}
    }

    proof fn lemma_adopted_lists(&self, before: &Heap, span: int, class: int, j: int)
        requires
            lists_ok(&before.bitmaps, before.heads@, before.lists@, before.kind@),
            before.heads@.len() == before.lists@.len(),
            before.lists@.len() == before.num_shards * NUM_CLASSES,
            kinds_ok(before.kind@, before.arena.carved(), before.num_shards as int),
            0 <= span < before.kind@.len() < NO_SPAN,
            is_class(class),
            0 <= j < before.lists@.len(),
            j % NUM_CLASSES as int == class,
            forall|s: int|
                span <= s < span + group_of(class) ==> (#[trigger] before.kind@[s]) is Loose,
            self.kind@ == tiled(before.kind@, span, class, j / NUM_CLASSES as int),
            self.lists@ == before.lists@.update(j, seq![span as u32] + before.lists@[j]),
            self.heads@ == before.heads@.update(j, span as u32),
            self.bitmaps.span_count() == before.kind@.len(),
            forall|s: int|
                0 <= s < self.bitmaps.span_count() ==> #[trigger] self.bitmaps.link(s) == (if s == span {
                    before.heads@[j]
                } else {
                    before.bitmaps.link(s)
                }),
            forall|s: int|
                0 <= s < self.bitmaps.span_count() ==> #[trigger] self.bitmaps.listed(s) == (s == span
                    || before.bitmaps.listed(s)),
        ensures
            lists_ok(&self.bitmaps, self.heads@, self.lists@, self.kind@),
    {
        let k0 = before.kind@;
        let k1 = self.kind@;
        lemma_tiling(class);
        assert(k0[span] is Loose);
        assert(list_ok(&before.bitmaps, before.heads@, before.lists@, k0, j));
        assert forall|q: int| 0 <= q < self.lists@.len() implies #[trigger] list_ok(
            &self.bitmaps,
            self.heads@,
            self.lists@,
            k1,
            q,
        ) by {
            assert(list_ok(&before.bitmaps, before.heads@, before.lists@, k0, q));
            let l0 = before.lists@[q];
            let l1 = self.lists@[q];
            assert forall|k: int| 0 <= k < l1.len() implies #[trigger] link_ok(
                &self.bitmaps,
                l1,
                k1,
                q,
                k,
            ) by {
                if q == j {
                    if k > 0 {
                        assert(link_ok(&before.bitmaps, l0, k0, q, k - 1));
                        assert(l1[k] == l0[k - 1]);
                        if k + 1 < l1.len() {
                            assert(l1[k + 1] == l0[k]);
                        }
                    } else if l0.len() > 0 {
                        assert(l1[1] == l0[0]);
                    }
                } else {
                    assert(link_ok(&before.bitmaps, l0, k0, q, k));
                }
            }
            if q == j {
                assert forall|x: int, y: int| 0 <= x < l1.len() && 0 <= y < l1.len() && x != y implies l1[x]
                    != l1[y] by {
                    if x > 0 {
                        assert(link_ok(&before.bitmaps, l0, k0, q, x - 1));
                        assert(l1[x] == l0[x - 1]);
                    }
                    if y > 0 {
                        assert(link_ok(&before.bitmaps, l0, k0, q, y - 1));
                        assert(l1[y] == l0[y - 1]);
                    }
                }
            }
        }
        assert forall|s: int| 0 <= s < k1.len() && k1[s] is Tile implies (#[trigger] self.lists@[list_index(
            k1[s]->shard,
            k1[s]->class,
        )]).contains(s as u32) by {
            let q = list_index(k1[s]->shard, k1[s]->class);
            if s == span {
                assert(q == j);
                assert(self.lists@[j][0] == s as u32);
            } else {
                assert(k0[s] == k1[s]);
                assert(kind_ok(k0, before.arena.carved(), before.num_shards as int, s));
                let l0 = before.lists@[q];
                assert(l0.contains(s as u32));
                let k = l0.index_of(s as u32);
                if q == j {
                    assert(self.lists@[q][k + 1] == s as u32);
                } else {
                    assert(self.lists@[q][k] == s as u32);
                }
            }
        }
        assert forall|s: int| 0 <= s < k1.len() implies (#[trigger] self.bitmaps.listed(s) <==> k1[s] is Tile) by {
            assert(before.bitmaps.listed(s) <==> k0[s] is Tile);
        }
    }
}

impl Heap {
    /// Whether a refill of class `c` can obtain new spans: for a class of more
    /// than a span, a whole group; for any other, a pooled run for the whole
    /// batch, or at least one fresh span.
    pub open spec fn can_carve(&self, c: int) -> bool {
        if class_size(c) > SPAN_BYTES {
            self.run_available(group_of(c))
        } else {
            crate::spanpool::first_nonempty(self.pool().stacks(), carve_spans_of(c)).is_some()
                || self.arena().whole_left() >= 1
        }
    }

    /// Spans in use are used as in `other`, and so are their objects; everything
    /// else may have been put to use.
    pub open spec fn extends(&self, other: &Heap) -> bool {
        &&& self.base() == other.base()
        &&& self.size() == other.size()
        &&& self.shards() == other.shards()
        &&& self.kind().len() == other.kind().len()
        &&& self.lists().len() == other.lists().len()
        &&& other.carved() <= self.carved()
        &&& forall|s: int|
            0 <= s < other.kind().len() && other.kind()[s] !is Loose ==> #[trigger] self.kind()[s]
                == other.kind()[s] && self.place()[s] == other.place()[s]
        &&& forall|j: int| #[trigger] self.hint(j) == other.hint(j)
    }

    /// How many groups of spans are put to use at once for class `c`: one, where an
    /// object takes more than a span; else as many spans as a batch needs, as far
    /// as they can be had.
    pub open spec fn groups_had(&self, c: int) -> int {
        if class_size(c) > SPAN_BYTES {
            1
        } else {
            self.spans_had(carve_spans_of(c))
        }
    }

    /// New spans have been put to use for class `c`: their objects are free, and
    /// they stand in front of the list with index `j`, the last one first.
    pub open spec fn put_to_use(&self, other: &Heap, j: int, c: int, home: u16) -> bool {
        let lo = other.run_start(carve_spans_of(c));
        let n = other.groups_had(c);
        let hi = lo + n * group_of(c);
        &&& n >= 1
        &&& 0 <= lo
        &&& hi <= self.carved()
        &&& self.spans_tagged(
            other,
            lo,
            hi,
            !other.pooled(carve_spans_of(c)),
            c as u16,
            home,
        )
        &&& self.lists() == other.lists().update(j, fronted(other.lists()[j], lo, n))
        &&& forall|s: int|
            lo <= s < hi ==> (#[trigger] other.kind()[s]) is Loose
        &&& forall|s: int|
            lo <= s < lo + n ==> #[trigger] self.kind()[s] == (SpanKind::Tile {
                class: c,
                shard: j / NUM_CLASSES as int,
            }) && self.place()[s] == all_free()
        &&& forall|s: int| lo + n <= s < hi ==> (#[trigger] self.kind()[s]) is Tail
        &&& forall|s: int|
            0 <= s < other.kind().len() && !(lo <= s < hi) ==> #[trigger] self.kind()[s]
                == other.kind()[s]
    }

    /// The span whose objects come first once new spans were put to use for class
    /// `c` on the list with index `j`: the hinted one if it is among them, else
    /// the last.
    pub open spec fn carve_pick(&self, j: int, c: int) -> int {
        let lo = self.run_start(carve_spans_of(c));
        let n = self.groups_had(c);
        if slots_of(c) <= 64 && lo <= self.hint(j) < lo + n {
            self.hint(j) as int
        } else {
            lo + n - 1
        }
    }

    /// Put new spans to use for class `class`, on the list with index `j`, tagged
    /// with `home`. Returns the number of objects they hold, 0 if there are no
    /// spans to be had.
    #[verifier::rlimit(80)]
    #[verifier::spinoff_prover]
    pub(crate) fn central_carve(&mut self, j: usize, class: usize, home: u16) -> (carved: usize)
        requires
            old(self).wf(),
            is_class(class as int),
            j < old(self).lists().len(),
            j % NUM_CLASSES == class,
        ensures
            final(self).wf(),
            final(self).same_live(old(self)),
            final(self).slab() == old(self).slab(),
            final(self).extends(old(self)),
            carved > 0 <==> old(self).can_carve(class as int),
            carved == 0 ==> *final(self) == *old(self),
            carved == old(self).groups_had(class as int) * slots_of(class as int) || carved == 0,
            carved > 0 ==> final(self).put_to_use(old(self), j as int, class as int, home),
    {
        let ghost before = *self;
        let ghost c = class as int;
        proof {
            lemma_tiling(c);
            self.lemma_lens();
        }
        let slots: usize = slots_per_span(class);
        if size_of_class(class) > SPAN_BYTES {
            let group: u32 = group_spans(class);
            match self.acquire_run(group, class as u16, home) {
                Some(h) => {
                    let ghost mid = *self;
                    proof {
                        mid.arena.lemma_carved();
                    }
                    self.adopt(h, class, j, Ghost(h + group));
                    proof {
                        self.lemma_settled(h + group, c);
                        assert(seq![h] + before.lists()[j as int] =~= fronted(
                            before.lists()[j as int],
                            h as int,
                            1,
                        ));
                        assert(self.spans_tagged(
                            &before,
                            h as int,
                            h + group,
                            !before.pooled(group as int),
                            class as u16,
                            home,
                        )) by {
                            assert forall|s: int| 0 <= s < before.kind().len() implies #[trigger] self.tag(s)
                                == (if h <= s < h + group {
                                Some((class as u16, home))
                            } else {
                                before.tag(s)
                            }) by {
                                assert(self.tag(s) == mid.tag(s));
                            }
                        }
                        assert(slots_of(c) == 1);
                        assert(self.put_to_use(&before, j as int, c, home));
                    }
                    return 1;
                },
                None => {
                    return 0;
                },
            }
        }
        let batch: usize = batch_for(class);
        let want: u32 = ((batch + (slots - 1)) / slots) as u32;
        proof {
            assert(want == carve_spans_of(c) && 1 <= want <= 64) by (nonlinear_arith)
                requires
                    want == (batch + (slots - 1)) / slots as int,
                    carve_spans_of(c) == (batch + slots - 1) / slots as int,
                    4 <= batch <= 64,
                    1 <= slots,
            ;
        }
        let (lo, hi) = self.carve_or_reuse_spans(want, class as u16, home);
        if hi <= lo {
            return 0;
        }
        proof {
            self.arena.lemma_carved();
        }
        let mut carved: usize = 0;
        let mut span: u32 = lo;
        proof {
            assert(fronted(before.lists()[j as int], lo as int, 0) =~= before.lists()[j as int]);
            assert(before.lists().update(j as int, before.lists()[j as int]) =~= before.lists());
        }
        while span < hi
            invariant
                before.wf(),
                is_class(c),
                c == class,
                class_size(c) <= SPAN_BYTES,
                lo <= span <= hi,
                hi - lo <= 64,
                carved == (span - lo) * slots,
                slots == slots_of(c) <= SPAN_SLOTS,
                slots >= 1,
                j < self.lists@.len(),
                j % NUM_CLASSES == class,
                forall|s: int| lo <= s < hi ==> (#[trigger] before.kind@[s]) is Loose,
                hi <= before.kind@.len(),
                self.wf_but(span as int, hi as int, c),
                self.same_live(&before),
                self.slab == before.slab,
                self.extends(&before),
                lo == before.run_start(carve_spans_of(c)),
                hi - lo == before.groups_had(c),
                group_of(c) == 1,
                self.spans_tagged(
                    &before,
                    lo as int,
                    hi as int,
                    !before.pooled(carve_spans_of(c)),
                    class as u16,
                    home,
                ),
                self.lists() == before.lists().update(
                    j as int,
                    fronted(before.lists()[j as int], lo as int, span - lo),
                ),
                forall|s: int|
                    lo <= s < span ==> #[trigger] self.kind()[s] == (SpanKind::Tile {
                        class: c,
                        shard: j as int / NUM_CLASSES as int,
                    }) && self.place()[s] == all_free(),
                forall|s: int|
                    0 <= s < before.kind().len() && !(lo <= s < span) ==> #[trigger] self.kind()[s]
                        == before.kind()[s],
            decreases hi - span,
        {
            let ghost cur = *self;
            proof {
                lemma_tiling(c);
                assert((span - lo) * slots <= 64 * 8192) by (nonlinear_arith)
                    requires
                        0 <= span - lo <= 64,
                        1 <= slots <= 8192,
                ;
                assert((span + 1 - lo) * slots == (span - lo) * slots + slots) by (nonlinear_arith);
            }
            self.adopt(span, class, j, Ghost(hi as int));
            proof {
                assert(seq![span] + fronted(before.lists()[j as int], lo as int, span - lo)
                    =~= fronted(before.lists()[j as int], lo as int, span + 1 - lo));
                assert(self.lists() =~= before.lists().update(
                    j as int,
                    fronted(before.lists()[j as int], lo as int, span + 1 - lo),
                ));
                assert forall|s: int| 0 <= s < before.kind().len() && before.kind()[s] !is Loose implies #[trigger] self.kind()[s]
                    == before.kind()[s] && self.place()[s] == before.place()[s] by {
                    assert(before.kind@[span as int] is Loose);
                    assert(s != span);
                    assert(cur.kind()[s] == before.kind()[s] && cur.place()[s] == before.place()[s]);
                    assert(self.kind()[s] == cur.kind()[s]);
                    assert(self.place()[s] == cur.place()[s]);
                }
                assert forall|q: int| #[trigger] self.hint(q) == before.hint(q) by {
                    assert(cur.hint(q) == before.hint(q));
                }
                assert(self.base() == before.base());
                assert(self.size() == before.size());
                assert(self.shards() == before.shards());
                assert(self.kind().len() == before.kind().len());
                assert(self.lists().len() == before.lists().len());
                assert(before.carved() <= self.carved());
                assert(self.extends(&before));
                assert forall|s: int| 0 <= s < before.kind().len() implies #[trigger] self.tag(s) == (if lo
                    <= s < hi {
                    Some((class as u16, home))
                } else {
                    before.tag(s)
                }) by {
                    assert(self.tag(s) == cur.tag(s));
                }
                assert forall|s: int| lo <= s < span + 1 implies #[trigger] self.kind()[s] == (SpanKind::Tile {
                    class: c,
                    shard: j as int / NUM_CLASSES as int,
                }) && self.place()[s] == all_free() by {
                    if s < span {
                        assert(cur.kind()[s] == (SpanKind::Tile {
                            class: c,
                            shard: j as int / NUM_CLASSES as int,
                        }));
                    }
                }
                assert forall|s: int| 0 <= s < before.kind().len() && !(lo <= s < span + 1) implies #[trigger] self.kind()[s]
                    == before.kind()[s] by {
                    assert(cur.kind()[s] == before.kind()[s]);
                }
            }
            carved = carved + slots;
            span = span + 1;
        }
        proof {
            self.lemma_settled(hi as int, c);
            assert((hi - lo) * slots >= 1) by (nonlinear_arith)
                requires
                    hi > lo,
                    slots >= 1,
            ;
            let n = before.groups_had(c);
            let g = group_of(c);
            assert(n * g == n) by (nonlinear_arith)
                requires
                    g == 1,
            ;
            assert(self.put_to_use(&before, j as int, c, home));
        }
        carved
    }

    /// The lengths the invariant fixes.
    pub proof fn lemma_lens(&self)
        requires
            self.wf(),
        ensures
            self.kind().len() == spans_in(self.size()),
            self.place().len() == self.kind().len(),
            self.kind().len() < NO_SPAN,
            self.lists().len() == self.shards() * NUM_CLASSES,
            self.shards() >= 1,
            0 <= self.carved() <= self.kind().len(),
    {
        self.arena.lemma_carved();
    }
}

/// A list with the `n` spans from `lo` on in front, the last one first.
pub open spec fn fronted(l: Seq<u32>, lo: int, n: int) -> Seq<u32> {
    Seq::new(n as nat, |k: int| (lo + n - 1 - k) as u32) + l
}

/// The uses after the `len` spans from `s` on have become loose.
pub open spec fn loosened(kind: Seq<SpanKind>, s: int, len: int) -> Seq<SpanKind> {
    Seq::new(
        kind.len(),
        |t: int|
            if s <= t < s + len {
                SpanKind::Loose
            } else {
                kind[t]
            },
    )
}

/// The uses after the `len` spans from `s` on have become a large run.
pub open spec fn run_made(kind: Seq<SpanKind>, s: int, len: int) -> Seq<SpanKind> {
    Seq::new(
        kind.len(),
        |t: int|
            if t == s {
                SpanKind::Big { len }
            } else if s < t < s + len {
                SpanKind::Tail { head: s }
            } else {
                kind[t]
            },
    )
}

/// Whether span `s` is tiled and every object of it is free.
pub open spec fn fully_free(kind: Seq<SpanKind>, place: Seq<Seq<Place>>, s: int) -> bool {
    &&& 0 <= s < kind.len()
    &&& kind[s] is Tile
    &&& forall|i: int| 0 <= i < slots_of(kind[s]->class) ==> (#[trigger] place[s][i]) is Free
}

/// Releasing a group or run keeps the other uses consistent.
proof fn lemma_loosened(kind: Seq<SpanKind>, carved: int, shards: int, s: int)
    requires
        kinds_ok(kind, carved, shards),
        0 <= s < kind.len(),
        carved <= kind.len(),
        kind[s] is Tile || kind[s] is Big,
    ensures
        kinds_ok(loosened(kind, s, run_len(kind[s])), carved, shards),
        1 <= run_len(kind[s]),
        s + run_len(kind[s]) <= carved,
        forall|t: int| s <= t < s + run_len(kind[s]) ==> (#[trigger] kind[t]) !is Loose,
        forall|t: int| s < t < s + run_len(kind[s]) ==> (#[trigger] kind[t]) is Tail,
{
    let n = run_len(kind[s]);
    let k1 = loosened(kind, s, n);
    assert(kind_ok(kind, carved, shards, s));
    if kind[s] is Tile {
        lemma_tiling(kind[s]->class);
    }
    assert forall|t: int| s < t < s + n implies (#[trigger] kind[t]) == (SpanKind::Tail { head: s }) by {}
    assert forall|u: int| 0 <= u < k1.len() implies #[trigger] kind_ok(k1, carved, shards, u) by {
        assert(kind_ok(kind, carved, shards, u));
        if !(s <= u < s + n) {
            match kind[u] {
                SpanKind::Tile { class, .. } => {
                    lemma_tiling(class);
                    assert forall|t: int| u < t < u + group_of(class) implies #[trigger] k1[t] == (SpanKind::Tail {
                        head: u,
                    }) by {
                        assert(kind[t] == (SpanKind::Tail { head: u }));
                    }
                },
                SpanKind::Big { len } => {
                    assert forall|t: int| u < t < u + len implies #[trigger] k1[t] == (SpanKind::Tail {
                        head: u,
                    }) by {
                        assert(kind[t] == (SpanKind::Tail { head: u }));
                    }
                },
                SpanKind::Tail { head } => {
                    // A further span of another group: its head was not released.
                    if s <= head < s + n {
                        if head == s {
                        } else {
                            assert(kind[head] == (SpanKind::Tail { head: s }));
                        }
                    }
                },
                SpanKind::Loose => {},
            }
        }
    }
}

impl Heap {
    /// Take the fully free span group at position `k` of list `j` out of use: it
    /// leaves the list and goes to the pool.
    #[verifier::rlimit(60)]
    pub(crate) fn retire(&mut self, span: u32, prev: u32, j: usize, class: usize, k: Ghost<int>)
        requires
            old(self).wf(),
            is_class(class as int),
            j < old(self).lists().len(),
            j % NUM_CLASSES == class,
            0 <= k@ < old(self).lists()[j as int].len(),
            span == old(self).lists()[j as int][k@],
            prev == (if k@ > 0 {
                old(self).lists()[j as int][k@ - 1]
            } else {
                NO_SPAN
            }),
            fully_free(old(self).kind(), old(self).place(), span as int),
        ensures
            final(self).wf(),
            final(self).same_live(old(self)),
            final(self).slab() == old(self).slab(),
            final(self).arena() == old(self).arena(),
            final(self).shards() == old(self).shards(),
            final(self).kind() == loosened(old(self).kind(), span as int, group_of(class as int)),
            final(self).place() == old(self).place(),
            final(self).lists() == old(self).lists().update(
                j as int,
                old(self).lists()[j as int].remove(k@),
            ),
            forall|s: int|
                #[trigger] final(self).pool().covers(s) <==> old(self).pool().covers(s) || span <= s
                    < span + group_of(class as int),
            forall|s: int|
                0 <= s < old(self).kind().len() ==> #[trigger] final(self).tag(s) == (if span <= s
                    < span + group_of(class as int) {
                    Some((LARGE_CLASS, 0u16))
                } else {
                    old(self).tag(s)
                }),
            forall|q: int|
                0 <= q < old(self).lists().len() ==> #[trigger] final(self).hint(q) == (if q == j
                    && old(self).hint(q) == span {
                    NO_SPAN
                } else {
                    old(self).hint(q)
                }),
    {
        let ghost before = *self;
        let ghost c = class as int;
        let ghost sp = span as int;
        let ghost kind = self.kind@;
        let ghost l = self.lists@[j as int];
        let slots: usize = slots_per_span(class);
        let group: u32 = group_spans(class);
        proof {
            self.arena.lemma_carved();
            assert(list_ok(&self.bitmaps, self.heads@, self.lists@, kind, j as int));
            assert(link_ok(&self.bitmaps, l, kind, j as int, k@));
            if k@ > 0 {
                assert(link_ok(&self.bitmaps, l, kind, j as int, k@ - 1));
                assert(l[k@ - 1] != l[k@]);
            }
            lemma_tiling(c);
            lemma_loosened(kind, self.arena.carved(), self.num_shards as int, sp);
        }
        let head: u32 = self.heads.at(j);
        let new_head: u32 = self.bitmaps.unlink_active(span, prev, head);
        self.heads.put(j, new_head);
        if self.hints.at(j) == span {
            self.hints.put(j, NO_SPAN);
        }
        let ghost unlinked = *self;
        let at: usize = self.bitmaps.span_base(span);
        self.spans.assign_range(at, (group as usize) * SPAN_BYTES, LARGE_CLASS, 0);
        self.bitmaps.reset_bitmaps(span, (slots + 63) / 64);
        self.pool.free(span, group);
        proof {
            crate::meta::lemma_tag_roundtrip(LARGE_CLASS, 0);
            assert forall|s: int, i: int|
                0 <= s < self.bitmaps.span_count() && 0 <= i < SPAN_SLOTS implies #[trigger] self.bitmaps.slot_free(
                s,
                i,
            ) == (before.bitmaps.slot_free(s, i) && s != sp) by {
                assert(unlinked.bitmaps.slot_free(s, i) == before.bitmaps.slot_free(s, i));
                assert(before.bitmaps.slot_free(s, i) <==> is_obj(kind, s, i) && before.place@[s][i] is Free);
            }
            assert forall|s: int| 0 <= s < self.bitmaps.span_count() implies #[trigger] self.bitmaps.link(s)
                == unlinked.bitmaps.link(s) by {}
            assert forall|s: int| 0 <= s < self.bitmaps.span_count() implies #[trigger] self.bitmaps.listed(s)
                == unlinked.bitmaps.listed(s) by {}
            self.kind@ = loosened(kind, sp, group_of(c));
            self.lists@ = before.lists@.update(j as int, l.remove(k@));
            self.lemma_retired(&before, sp, c, j as int, k@);
        }
    }

    proof fn lemma_retired(&self, before: &Heap, span: int, class: int, j: int, k: int)
        requires
            before.wf(),
            is_class(class),
            0 <= j < before.lists@.len(),
            j % NUM_CLASSES as int == class,
            0 <= k < before.lists@[j].len(),
            span == before.lists@[j][k],
            fully_free(before.kind@, before.place@, span),
            self.pool.wf(),
            self.pool.span_count() == before.pool.span_count(),
            forall|s: int|
                #[trigger] self.pool.covers(s) <==> before.pool.covers(s) || span <= s < span + group_of(
                    class,
                ),
            self.spans.wf(),
            self.spans.base() == before.spans.base(),
            self.spans.size() == before.spans.size(),
            forall|s: int|
                0 <= s < before.kind@.len() ==> #[trigger] self.spans.tag(s) == (if span <= s < span
                    + group_of(class) {
                    Some((LARGE_CLASS, 0u16))
                } else {
                    before.spans.tag(s)
                }),
            self.hints@.len() == before.hints@.len(),
            forall|q: int|
                0 <= q < self.hints@.len() ==> #[trigger] self.hints@[q] == before.hints@[q] || self.hints@[q]
                    == NO_SPAN,
            self.heads@.len() == before.heads@.len(),
            forall|q: int|
                0 <= q < self.heads@.len() && q != j ==> #[trigger] self.heads@[q] == before.heads@[q],
            self.heads@[j] == (if k == 0 {
                before.bitmaps.link(span)
            } else {
                before.heads@[j]
            }),
            self.bitmaps.wf(),
            self.bitmaps.base() == before.bitmaps.base(),
            self.bitmaps.span_count() == before.bitmaps.span_count(),
            forall|s: int|
                0 <= s < self.bitmaps.span_count() ==> #[trigger] self.bitmaps.link(s) == (if s == span {
                    NO_SPAN
                } else if k > 0 && s == before.lists@[j][k - 1] {
                    before.bitmaps.link(span)
                } else {
                    before.bitmaps.link(s)
                }),
            forall|s: int|
                0 <= s < self.bitmaps.span_count() ==> #[trigger] self.bitmaps.listed(s) == (s != span
                    && before.bitmaps.listed(s)),
            forall|s: int, i: int|
                0 <= s < self.bitmaps.span_count() && 0 <= i < SPAN_SLOTS ==> #[trigger] self.bitmaps.slot_free(
                    s,
                    i,
                ) == (before.bitmaps.slot_free(s, i) && s != span),
            *self == (Heap {
                bitmaps: self.bitmaps,
                heads: self.heads,
                hints: self.hints,
                spans: self.spans,
                pool: self.pool,
                kind: Ghost(loosened(before.kind@, span, group_of(class))),
                lists: Ghost(before.lists@.update(j, before.lists@[j].remove(k))),
                ..*before
            }),
        ensures
            self.wf(),
            self.same_live(before),
    {
        let base = self.arena.base();
        let k0 = before.kind@;
        let k1 = self.kind@;
        let p = self.place@;
        let carved = self.arena.carved();
        let shards = self.num_shards as int;
        let n = group_of(class);
        self.arena.lemma_carved();
        lemma_tiling(class);
        assert(list_ok(&before.bitmaps, before.heads@, before.lists@, k0, j));
        assert(link_ok(&before.bitmaps, before.lists@[j], k0, j, k));
        lemma_loosened(k0, carved, shards, span);
        assert forall|s: int| 0 <= s < k1.len() implies #[trigger] tag_ok(&self.spans, k1, carved, s) by {
            assert(tag_ok(&before.spans, k0, carved, s));
            assert(kind_ok(k0, carved, shards, s));
            assert(kind_ok(k1, carved, shards, s));
            let t = self.spans.tag(s);
            if !(span <= s < span + n) {
                match k0[s] {
                    SpanKind::Tail { head } => {
                        assert(k1[head] == k0[head]);
                    },
                    _ => {},
                }
            }
        }
        assert forall|s: int| #[trigger] self.pool.covers(s) <==> 0 <= s < carved && k1[s] is Loose by {
            assert(before.pool.covers(s) <==> 0 <= s < carved && k0[s] is Loose);
        }
        assert(bits_ok(&self.bitmaps, k1, p)) by {
            assert forall|s: int, i: int| 0 <= s < k1.len() && 0 <= i < SPAN_SLOTS implies (#[trigger] self.bitmaps.slot_free(
                s,
                i,
            ) <==> is_obj(k1, s, i) && p[s][i] is Free) by {
                assert(before.bitmaps.slot_free(s, i) <==> is_obj(k0, s, i) && p[s][i] is Free);
            }
        }
        assert(slab_ok(&self.slab, base, k1, p)) by {
            assert forall|cpu: int, d: int, q: int|
                0 <= cpu < self.slab.cpus() && 0 <= d < NUM_CLASSES && 0 <= q < self.slab.stack(cpu, d).len() implies #[trigger] cached_ok(
                &self.slab,
                base,
                k1,
                p,
                cpu,
                d,
                q,
            ) by {
                assert(cached_ok(&before.slab, base, k0, p, cpu, d, q));
            }
            assert forall|s: int, i: int| is_obj(k1, s, i) implies #[trigger] cache_entry(
                &self.slab,
                base,
                k1,
                p,
                s,
                i,
            ) by {
                assert(cache_entry(&before.slab, base, k0, p, s, i));
            }
        }
        self.lemma_retired_lists(before, span, class, j, k);
        assert(runs_ok(self.run_spans@, k1)) by {
            assert forall|s: int| 0 <= s < k1.len() implies #[trigger] self.run_spans@[s] == (match k1[s] {
                SpanKind::Big { len } => len,
                _ => 0,
            }) by {
                assert(before.run_spans@[s] == (match k0[s] {
                    SpanKind::Big { len } => len,
                    _ => 0,
                }));
            }
        }
        assert forall|b: int, d: int| #[trigger] self.live(b, d) <==> before.live(b, d) by {
            if obj_at(base, k0, b, d) {
                let s = span_index(base, b);
                if s == span {
                    assert(p[s][slot_index(base, b, d)] is Free);
                }
            }
        }
        assert forall|b: int, len: int| #[trigger] self.live_run(b, len) <==> before.live_run(b, len) by {}
    }

    #[verifier::rlimit(40)]
    proof fn lemma_retired_lists(&self, before: &Heap, span: int, class: int, j: int, k: int)
        requires
            lists_ok(&before.bitmaps, before.heads@, before.lists@, before.kind@),
            before.lists@.len() == before.num_shards * NUM_CLASSES,
            before.heads@.len() == before.lists@.len(),
            self.heads@.len() == before.heads@.len(),
            before.kind@.len() < NO_SPAN,
            kinds_ok(before.kind@, before.arena.carved(), before.num_shards as int),
            is_class(class),
            0 <= j < before.lists@.len(),
            j % NUM_CLASSES as int == class,
            0 <= k < before.lists@[j].len(),
            span == before.lists@[j][k],
            forall|t: int| span < t < span + group_of(class) ==> (#[trigger] before.kind@[t]) is Tail,
            self.kind@ == loosened(before.kind@, span, group_of(class)),
            self.lists@ == before.lists@.update(j, before.lists@[j].remove(k)),
            forall|q: int|
                0 <= q < self.heads@.len() && q != j ==> #[trigger] self.heads@[q] == before.heads@[q],
            self.heads@[j] == (if k == 0 {
                before.bitmaps.link(span)
            } else {
                before.heads@[j]
            }),
            self.bitmaps.span_count() == before.kind@.len(),
            forall|s: int|
                0 <= s < self.bitmaps.span_count() ==> #[trigger] self.bitmaps.link(s) == (if s == span {
                    NO_SPAN
                } else if k > 0 && s == before.lists@[j][k - 1] {
                    before.bitmaps.link(span)
                } else {
                    before.bitmaps.link(s)
                }),
            forall|s: int|
                0 <= s < self.bitmaps.span_count() ==> #[trigger] self.bitmaps.listed(s) == (s != span
                    && before.bitmaps.listed(s)),
        ensures
            lists_ok(&self.bitmaps, self.heads@, self.lists@, self.kind@),
    {
        let k0 = before.kind@;
        let k1 = self.kind@;
        let l = before.lists@[j];
        lemma_tiling(class);
        assert(list_ok(&before.bitmaps, before.heads@, before.lists@, k0, j));
        assert(link_ok(&before.bitmaps, l, k0, j, k));
        assert forall|q: int| 0 <= q < self.lists@.len() implies #[trigger] list_ok(
            &self.bitmaps,
            self.heads@,
            self.lists@,
            k1,
            q,
        ) by {
            assert(list_ok(&before.bitmaps, before.heads@, before.lists@, k0, q));
            let l0 = before.lists@[q];
            let l1 = self.lists@[q];
            assert forall|x: int| 0 <= x < l1.len() implies #[trigger] link_ok(
                &self.bitmaps,
                l1,
                k1,
                q,
                x,
            ) by {
                if q == j {
                    let y = if x < k {
                        x
                    } else {
                        x + 1
                    };
                    assert(l1[x] == l0[y]);
                    assert(link_ok(&before.bitmaps, l0, k0, q, y));
                    assert(l0[y] != l0[k]);
                    if k > 0 && x != k - 1 {
                        assert(l0[y] != l0[k - 1]);
                    }
                    if x + 1 < l1.len() {
                        assert(l1[x + 1] == l0[if x + 1 < k {
                            x + 1
                        } else {
                            x + 2
                        }]);
                    }
                } else {
                    assert(link_ok(&before.bitmaps, l0, k0, q, x));
                    if k > 0 {
                        assert(link_ok(&before.bitmaps, l, k0, j, k - 1));
                    }
                }
            }
            if q == j {
                assert(l1.no_duplicates());
                if l1.len() > 0 && k == 0 {
                    assert(l1[0] == l0[1]);
                }
            }
        }
        assert forall|s: int| 0 <= s < k1.len() && k1[s] is Tile implies (#[trigger] self.lists@[list_index(
            k1[s]->shard,
            k1[s]->class,
        )]).contains(s as u32) by {
            let q = list_index(k1[s]->shard, k1[s]->class);
            assert(k0[s] == k1[s]);
            assert(kind_ok(k0, before.arena.carved(), before.num_shards as int, s));
            let l0 = before.lists@[q];
            assert(l0.contains(s as u32));
            let x = l0.index_of(s as u32);
            if q == j {
                assert(s != span);
                let y = if x < k {
                    x
                } else {
                    x - 1
                };
                assert(self.lists@[q][y] == s as u32);
            } else {
                assert(self.lists@[q][x] == s as u32);
            }
        }
        assert forall|s: int| 0 <= s < k1.len() implies (#[trigger] self.bitmaps.listed(s) <==> k1[s] is Tile) by {
            assert(before.bitmaps.listed(s) <==> k0[s] is Tile);
        }
    }
}

/// What is left of list `l` after a sweep that takes at most `m` fully free spans
/// out of it, front to back.
pub open spec fn swept(kind: Seq<SpanKind>, place: Seq<Seq<Place>>, l: Seq<u32>, m: int) -> Seq<u32>
    decreases l.len(),
{
    if l.len() == 0 {
        l
    } else if m > 0 && fully_free(kind, place, l[0] as int) {
        swept(kind, place, l.drop_first(), m - 1)
    } else {
        seq![l[0]] + swept(kind, place, l.drop_first(), m)
    }
}

/// A sweep takes no more spans than it may, and stops short only where no fully
/// free span is left.
proof fn lemma_swept(kind: Seq<SpanKind>, place: Seq<Seq<Place>>, l: Seq<u32>, m: int)
    requires
        m >= 0,
    ensures
        swept(kind, place, l, m).len() <= l.len(),
        l.len() - swept(kind, place, l, m).len() <= m,
        l.len() - swept(kind, place, l, m).len() < m ==> forall|k: int|
            0 <= k < swept(kind, place, l, m).len() ==> !fully_free(
                kind,
                place,
                #[trigger] swept(kind, place, l, m)[k] as int,
            ),
    decreases l.len(),
{
    if l.len() > 0 {
        let rest = l.drop_first();
        if m > 0 && fully_free(kind, place, l[0] as int) {
            lemma_swept(kind, place, rest, m - 1);
        } else {
            lemma_swept(kind, place, rest, m);
            let t = swept(kind, place, rest, m);
            let all = seq![l[0]] + t;
            if l.len() - all.len() < m {
                assert forall|k: int| 0 <= k < all.len() implies !fully_free(
                    kind,
                    place,
                    #[trigger] all[k] as int,
                ) by {
                    if k > 0 {
                        assert(all[k] == t[k - 1]);
                    }
                }
            }
        }
    }
}

/// How many of the first `n` spans start a tiled group.
pub open spec fn tiles(kind: Seq<SpanKind>, n: int) -> int
    decreases n,
{
    if n <= 0 {
        0
    } else {
        tiles(kind, n - 1) + if kind[n - 1] is Tile {
            1int
        } else {
            0
        }
    }
}

proof fn lemma_tiles_bound(kind: Seq<SpanKind>, n: int)
    requires
        0 <= n,
    ensures
        0 <= tiles(kind, n) <= n,
    decreases n,
{
    if n > 0 {
        lemma_tiles_bound(kind, n - 1);
    }
}

proof fn lemma_tiles_loosened(kind: Seq<SpanKind>, s: int, len: int, n: int)
    requires
        0 <= s,
        s + len <= kind.len(),
        len >= 1,
        kind[s] is Tile,
        forall|t: int| s < t < s + len ==> (#[trigger] kind[t]) is Tail,
        0 <= n <= kind.len(),
    ensures
        tiles(loosened(kind, s, len), n) == tiles(kind, n) - if s < n {
            1int
        } else {
            0
        },
    decreases n,
{
    if n > 0 {
        lemma_tiles_loosened(kind, s, len, n - 1);
        if s < n - 1 < s + len {
            assert(kind[n - 1] is Tail);
        }
    }
}

/// Most spans that one pass over a list takes out of use.
pub const SWEEP_MAX: usize = 32;

/// How many spans a pass that is allowed `cap` may take.
pub open spec fn sweep_limit(cap: int) -> int {
    if cap < SWEEP_MAX {
        cap
    } else {
        SWEEP_MAX as int
    }
}

/// Whether span `s` belongs to a tiled group all of whose objects are free.
pub open spec fn in_free_group(kind: Seq<SpanKind>, place: Seq<Seq<Place>>, s: int) -> bool {
    match kind[s] {
        SpanKind::Tail { head } => fully_free(kind, place, head),
        _ => fully_free(kind, place, s),
    }
}

/// How many of the first `n` spans start a tiled group all of whose objects are
/// free.
pub open spec fn free_groups(kind: Seq<SpanKind>, place: Seq<Seq<Place>>, n: int) -> int
    decreases n,
{
    if n <= 0 {
        0
    } else {
        free_groups(kind, place, n - 1) + if fully_free(kind, place, n - 1) {
            1int
        } else {
            0
        }
    }
}

/// A list without its fully free spans.
pub open spec fn unfree(kind: Seq<SpanKind>, place: Seq<Seq<Place>>, l: Seq<u32>) -> Seq<u32>
    decreases l.len(),
{
    if l.len() == 0 {
        l
    } else if fully_free(kind, place, l.last() as int) {
        unfree(kind, place, l.drop_last())
    } else {
        unfree(kind, place, l.drop_last()).push(l.last())
    }
}

/// Taking a fully free span out of a list leaves the others.
proof fn lemma_unfree_remove(kind: Seq<SpanKind>, place: Seq<Seq<Place>>, l: Seq<u32>, k: int)
    requires
        0 <= k < l.len(),
        fully_free(kind, place, l[k] as int),
    ensures
        unfree(kind, place, l.remove(k)) == unfree(kind, place, l),
    decreases l.len(),
{
    let r = l.remove(k);
    if k == l.len() - 1 {
        assert(r =~= l.drop_last());
    } else {
        lemma_unfree_remove(kind, place, l.drop_last(), k);
        assert(r.drop_last() =~= l.drop_last().remove(k));
        assert(r.last() == l.last());
    }
}

/// A list without fully free spans stays as it is.
proof fn lemma_unfree_none(kind: Seq<SpanKind>, place: Seq<Seq<Place>>, l: Seq<u32>)
    requires
        forall|k: int| 0 <= k < l.len() ==> !fully_free(kind, place, #[trigger] l[k] as int),
    ensures
        unfree(kind, place, l) == l,
    decreases l.len(),
{
    if l.len() > 0 {
        let r = l.drop_last();
        assert forall|k: int| 0 <= k < r.len() implies !fully_free(kind, place, #[trigger] r[k] as int) by {
            assert(r[k] == l[k]);
        }
        lemma_unfree_none(kind, place, r);
        assert(l[l.len() - 1] == l.last());
        assert(r.push(l.last()) =~= l);
    }
}

/// What is left of a list depends on the fully free spans of the list alone.
proof fn lemma_unfree_same(
    kind: Seq<SpanKind>,
    kind2: Seq<SpanKind>,
    place: Seq<Seq<Place>>,
    l: Seq<u32>,
)
    requires
        forall|k: int|
            0 <= k < l.len() ==> fully_free(kind, place, #[trigger] l[k] as int) == fully_free(
                kind2,
                place,
                l[k] as int,
            ),
    ensures
        unfree(kind, place, l) == unfree(kind2, place, l),
    decreases l.len(),
{
    if l.len() > 0 {
        let r = l.drop_last();
        assert forall|k: int| 0 <= k < r.len() implies fully_free(kind, place, #[trigger] r[k] as int)
            == fully_free(kind2, place, r[k] as int) by {
            assert(r[k] == l[k]);
        }
        lemma_unfree_same(kind, kind2, place, r);
        assert(l[l.len() - 1] == l.last());
    }
}

proof fn lemma_groups_gone(
    kind: Seq<SpanKind>,
    kind2: Seq<SpanKind>,
    place: Seq<Seq<Place>>,
    n: int,
)
    requires
        n <= kind.len(),
        forall|s: int|
            0 <= s < n ==> #[trigger] kind2[s] == (if in_free_group(kind, place, s) {
                SpanKind::Loose
            } else {
                kind[s]
            }),
    ensures
        tiles(kind, n) - tiles(kind2, n) == free_groups(kind, place, n),
    decreases n,
{
    if n > 0 {
        lemma_groups_gone(kind, kind2, place, n - 1);
        assert(kind2[n - 1] == (if in_free_group(kind, place, n - 1) {
            SpanKind::Loose
        } else {
            kind[n - 1]
        }));
    }
}

/// Where no group is fully free, none is counted.
pub proof fn lemma_no_free_groups(kind: Seq<SpanKind>, place: Seq<Seq<Place>>, n: int)
    requires
        forall|s: int| 0 <= s < kind.len() ==> !#[trigger] fully_free(kind, place, s),
    ensures
        free_groups(kind, place, n) == 0,
    decreases n,
{
    if n > 0 {
        lemma_no_free_groups(kind, place, n - 1);
        assert(!fully_free(kind, place, n - 1));
    }
}

impl Heap {
    /// Whether the hint of list `j` names a fully free span of that list.
    pub open spec fn hint_free(&self, j: int) -> bool {
        self.lists()[j].contains(self.hint(j)) && fully_free(
            self.kind(),
            self.place(),
            self.hint(j) as int,
        )
    }

    /// Some of the fully free groups of `other` went to the pool: they left their
    /// lists, and their spans are tagged as holding no class. Nothing else changed.
    pub open spec fn partly_reclaimed(&self, other: &Heap) -> bool {
        &&& self.released_from(other)
        &&& forall|s: int|
            0 <= s < other.kind().len() ==> #[trigger] self.kind()[s] == other.kind()[s] || (
            self.kind()[s] is Loose && in_free_group(other.kind(), other.place(), s))
        &&& forall|s: int|
            0 <= s < other.kind().len() ==> #[trigger] self.tag(s) == (if self.kind()[s]
                == other.kind()[s] {
                other.tag(s)
            } else {
                Some((LARGE_CLASS, 0u16))
            })
        &&& forall|j: int|
            0 <= j < other.lists().len() ==> unfree(
                other.kind(),
                other.place(),
                #[trigger] self.lists()[j],
            ) == unfree(other.kind(), other.place(), other.lists()[j])
        &&& forall|j: int|
            0 <= j < other.lists().len() ==> #[trigger] self.hint(j) == (if other.hint_free(j)
                && !self.lists()[j].contains(other.hint(j)) {
                NO_SPAN
            } else {
                other.hint(j)
            })
    }

    /// Exactly the fully free groups of `other` went to the pool: each left its
    /// list, and its spans are tagged as holding no class. Every other span keeps
    /// its use and tag, and the lists keep their order.
    pub open spec fn reclaimed(&self, other: &Heap) -> bool {
        let kind = other.kind();
        let place = other.place();
        &&& self.released_from(other)
        &&& forall|s: int|
            0 <= s < kind.len() ==> #[trigger] self.kind()[s] == (if in_free_group(kind, place, s) {
                SpanKind::Loose
            } else {
                kind[s]
            })
        &&& forall|s: int|
            0 <= s < kind.len() ==> #[trigger] self.tag(s) == (if in_free_group(kind, place, s) {
                Some((LARGE_CLASS, 0u16))
            } else {
                other.tag(s)
            })
        &&& forall|s: int| #[trigger]
            self.pool().covers(s) <==> other.pool().covers(s) || (0 <= s < kind.len()
                && in_free_group(kind, place, s))
        &&& forall|j: int|
            0 <= j < other.lists().len() ==> #[trigger] self.lists()[j] == unfree(
                kind,
                place,
                other.lists()[j],
            )
        &&& forall|j: int|
            0 <= j < other.lists().len() ==> #[trigger] self.hint(j) == (if other.hint_free(j) {
                NO_SPAN
            } else {
                other.hint(j)
            })
    }

    proof fn lemma_partly_refl(&self)
        ensures
            self.partly_reclaimed(self),
    {
    }

    /// The group of span `span`, fully free, went to the pool from position `k` of
    /// list `j`.
    proof fn lemma_partly_retired(
        &self,
        cur: &Heap,
        before: &Heap,
        span: int,
        c: int,
        j: int,
        k: int,
    )
        requires
            before.wf(),
            cur.wf(),
            self.wf(),
            cur.partly_reclaimed(before),
            self.released_from(before),
            is_class(c),
            0 <= j < cur.lists().len(),
            j % NUM_CLASSES as int == c,
            0 <= k < cur.lists()[j].len(),
            span == cur.lists()[j][k],
            fully_free(cur.kind(), cur.place(), span),
            self.kind() == loosened(cur.kind(), span, group_of(c)),
            self.lists() == cur.lists().update(j, cur.lists()[j].remove(k)),
            forall|s: int|
                0 <= s < cur.kind().len() ==> #[trigger] self.tag(s) == (if span <= s < span
                    + group_of(c) {
                    Some((LARGE_CLASS, 0u16))
                } else {
                    cur.tag(s)
                }),
            forall|q: int|
                0 <= q < cur.lists().len() ==> #[trigger] self.hint(q) == (if q == j && cur.hint(q)
                    == span {
                    NO_SPAN
                } else {
                    cur.hint(q)
                }),
        ensures
            self.partly_reclaimed(before),
    {
        let l = cur.lists()[j];
        cur.lemma_on_list(j, k);
        before.lemma_lens();
        cur.lemma_lens();
        lemma_tiling(c);
        assert(list_ok(&cur.bitmaps, cur.heads@, cur.lists@, cur.kind@, j));
        assert(link_ok(&cur.bitmaps, l, cur.kind@, j, k));
        assert(cur.kind()[span] == before.kind()[span]);
        assert(fully_free(before.kind(), before.place(), span));
        assert(kind_ok(before.kind@, before.arena.carved(), before.num_shards as int, span));
        assert(kind_ok(cur.kind@, cur.arena.carved(), cur.num_shards as int, span));
        assert forall|s: int| 0 <= s < before.kind().len() implies #[trigger] self.kind()[s]
            == before.kind()[s] || (self.kind()[s] is Loose && in_free_group(
            before.kind(),
            before.place(),
            s,
        )) by {
            assert(cur.kind()[s] == before.kind()[s] || (cur.kind()[s] is Loose && in_free_group(
                before.kind(),
                before.place(),
                s,
            )));
            if span < s < span + group_of(c) {
                assert(before.kind()[s] == (SpanKind::Tail { head: span }));
            }
        }
        assert forall|s: int| 0 <= s < before.kind().len() implies #[trigger] self.tag(s) == (if self.kind()[s]
            == before.kind()[s] {
            before.tag(s)
        } else {
            Some((LARGE_CLASS, 0u16))
        }) by {
            assert(cur.tag(s) == (if cur.kind()[s] == before.kind()[s] {
                before.tag(s)
            } else {
                Some((LARGE_CLASS, 0u16))
            }));
            if span < s < span + group_of(c) {
                assert(before.kind()[s] == (SpanKind::Tail { head: span }));
            }
        }
        lemma_unfree_remove(before.kind(), before.place(), l, k);
        assert forall|q: int| 0 <= q < before.lists().len() implies unfree(
            before.kind(),
            before.place(),
            #[trigger] self.lists()[q],
        ) == unfree(before.kind(), before.place(), before.lists()[q]) by {
            assert(unfree(before.kind(), before.place(), cur.lists()[q]) == unfree(
                before.kind(),
                before.place(),
                before.lists()[q],
            ));
        }
        assert forall|q: int| 0 <= q < before.lists().len() implies #[trigger] self.hint(q) == (if before.hint_free(
            q,
        ) && !self.lists()[q].contains(before.hint(q)) {
            NO_SPAN
        } else {
            before.hint(q)
        }) by {
            let h = before.hint(q);
            assert(cur.hint(q) == (if before.hint_free(q) && !cur.lists()[q].contains(h) {
                NO_SPAN
            } else {
                h
            }));
            if q == j {
                let r = l.remove(k);
                assert(l.no_duplicates());
                if l.contains(h) && h != span {
                    let i = l.index_of(h);
                    assert(r[if i < k {
                        i
                    } else {
                        i - 1
                    }] == h);
                    assert(r.contains(h));
                }
                if r.contains(h) {
                    let i = r.index_of(h);
                    assert(l[if i < k {
                        i
                    } else {
                        i + 1
                    }] == h);
                    assert(l.contains(h));
                    assert(h != span);
                }
                if h == span {
                    before.lemma_listed(span);
                    assert(l.contains(h));
                }
            }
        }
    }

    proof fn lemma_partly_trans(&self, mid: &Heap, first: &Heap)
        requires
            first.wf(),
            mid.wf(),
            self.wf(),
            self.partly_reclaimed(mid),
            mid.partly_reclaimed(first),
        ensures
            self.partly_reclaimed(first),
    {
        let k0 = first.kind();
        let k1 = mid.kind();
        let place = first.place();
        self.lemma_released_trans(mid, first);
        self.lemma_lens();
        mid.lemma_lens();
        first.lemma_lens();
        assert forall|s: int| 0 <= s < k0.len() implies #[trigger] self.kind()[s] == k0[s] || (
        self.kind()[s] is Loose && in_free_group(k0, place, s)) by {
            assert(k1[s] == k0[s] || (k1[s] is Loose && in_free_group(k0, place, s)));
            if let SpanKind::Tail { head } = k1[s] {
                assert(kind_ok(mid.kind@, mid.arena.carved(), mid.num_shards as int, s));
                assert(k1[head] == k0[head] || k1[head] is Loose);
            }
        }
        assert forall|s: int| 0 <= s < k0.len() implies #[trigger] self.tag(s) == (if self.kind()[s]
            == k0[s] {
            first.tag(s)
        } else {
            Some((LARGE_CLASS, 0u16))
        }) by {
            assert(k1[s] == k0[s] || (k1[s] is Loose && in_free_group(k0, place, s)));
            assert(mid.tag(s) == (if k1[s] == k0[s] {
                first.tag(s)
            } else {
                Some((LARGE_CLASS, 0u16))
            }));
            assert(self.kind()[s] == k1[s] || self.kind()[s] is Loose);
        }
        assert forall|j: int| 0 <= j < first.lists().len() implies unfree(
            k0,
            place,
            #[trigger] self.lists()[j],
        ) == unfree(k0, place, first.lists()[j]) by {
            let l1 = mid.lists()[j];
            let l2 = self.lists()[j];
            assert forall|k: int| 0 <= k < l1.len() implies fully_free(k0, place, #[trigger] l1[k] as int)
                == fully_free(k1, place, l1[k] as int) by {
                mid.lemma_on_list(j, k);
                assert(k1[l1[k] as int] == k0[l1[k] as int]);
            }
            assert forall|k: int| 0 <= k < l2.len() implies fully_free(k0, place, #[trigger] l2[k] as int)
                == fully_free(k1, place, l2[k] as int) by {
                self.lemma_on_list(j, k);
                let s = l2[k] as int;
                assert(self.kind()[s] == k1[s]);
                assert(k1[s] == k0[s]);
            }
            lemma_unfree_same(k0, k1, place, l1);
            lemma_unfree_same(k0, k1, place, l2);
            assert(unfree(k1, place, self.lists()[j]) == unfree(k1, place, mid.lists()[j]));
            assert(unfree(k0, place, mid.lists()[j]) == unfree(k0, place, first.lists()[j]));
        }
        assert forall|j: int| 0 <= j < first.lists().len() implies #[trigger] self.hint(j) == (if first.hint_free(
            j,
        ) && !self.lists()[j].contains(first.hint(j)) {
            NO_SPAN
        } else {
            first.hint(j)
        }) by {
            let h = first.hint(j);
            assert(mid.hint(j) == (if first.hint_free(j) && !mid.lists()[j].contains(h) {
                NO_SPAN
            } else {
                h
            }));
            assert(self.hint(j) == (if mid.hint_free(j) && !self.lists()[j].contains(mid.hint(j)) {
                NO_SPAN
            } else {
                mid.hint(j)
            }));
            if mid.lists()[j].contains(h) {
                let k = mid.lists()[j].index_of(h);
                mid.lemma_on_list(j, k);
                assert(k1[h as int] == k0[h as int]);
                first.lemma_listed(h as int);
            }
            if self.lists()[j].contains(h) {
                let k = self.lists()[j].index_of(h);
                self.lemma_on_list(j, k);
                assert(self.kind()[h as int] == k1[h as int]);
                mid.lemma_listed(h as int);
            }
            if mid.lists()[j].contains(NO_SPAN) {
                let k = mid.lists()[j].index_of(NO_SPAN);
                mid.lemma_on_list(j, k);
            }
        }
    }

    /// Once no group is fully free, exactly those that were are gone.
    proof fn lemma_all_reclaimed(&self, first: &Heap)
        requires
            first.wf(),
            self.wf(),
            self.partly_reclaimed(first),
            forall|s: int|
                0 <= s < self.kind().len() ==> !#[trigger] fully_free(self.kind(), self.place(), s),
        ensures
            self.reclaimed(first),
            tiles(first.kind(), first.kind().len() as int) - tiles(
                self.kind(),
                self.kind().len() as int,
            ) == free_groups(first.kind(), first.place(), first.kind().len() as int),
    {
        let k0 = first.kind();
        let kind = self.kind();
        let place = first.place();
        self.lemma_lens();
        first.lemma_lens();
        assert forall|s: int| 0 <= s < k0.len() implies #[trigger] kind[s] == (if in_free_group(
            k0,
            place,
            s,
        ) {
            SpanKind::Loose
        } else {
            k0[s]
        }) && (in_free_group(k0, place, s) ==> kind[s] != k0[s]) by {
            assert(kind[s] == k0[s] || (kind[s] is Loose && in_free_group(k0, place, s)));
            assert(!fully_free(kind, place, s));
            if in_free_group(k0, place, s) && kind[s] == k0[s] {
                if let SpanKind::Tail { head } = k0[s] {
                    assert(kind_ok(self.kind@, self.arena.carved(), self.num_shards as int, s));
                    assert(kind[head] == k0[head] || kind[head] is Loose);
                    assert(!fully_free(kind, place, head));
                }
            }
        }
        assert forall|s: int| 0 <= s < k0.len() implies #[trigger] self.tag(s) == (if in_free_group(
            k0,
            place,
            s,
        ) {
            Some((LARGE_CLASS, 0u16))
        } else {
            first.tag(s)
        }) by {
            assert(kind[s] == (if in_free_group(k0, place, s) {
                SpanKind::Loose
            } else {
                k0[s]
            }));
        }
        assert forall|s: int| #[trigger] self.pool().covers(s) <==> first.pool().covers(s) || (0 <= s
            < k0.len() && in_free_group(k0, place, s)) by {
            assert(self.pool.covers(s) <==> 0 <= s < self.arena.carved() && kind[s] is Loose);
            assert(first.pool.covers(s) <==> 0 <= s < first.arena.carved() && k0[s] is Loose);
            if 0 <= s < k0.len() {
                assert(kind[s] == (if in_free_group(k0, place, s) {
                    SpanKind::Loose
                } else {
                    k0[s]
                }));
                if in_free_group(k0, place, s) {
                    assert(kind_ok(first.kind@, first.arena.carved(), first.num_shards as int, s));
                    if let SpanKind::Tail { head } = k0[s] {
                        assert(kind_ok(
                            first.kind@,
                            first.arena.carved(),
                            first.num_shards as int,
                            head,
                        ));
                    } else {
                        lemma_tiling(k0[s]->class);
                    }
                }
            }
        }
        assert forall|j: int| 0 <= j < first.lists().len() implies #[trigger] self.lists()[j] == unfree(
            k0,
            place,
            first.lists()[j],
        ) by {
            let l = self.lists()[j];
            assert forall|k: int| 0 <= k < l.len() implies !fully_free(k0, place, #[trigger] l[k] as int) by {
                self.lemma_on_list(j, k);
                let s = l[k] as int;
                assert(kind[s] == k0[s]);
                assert(!fully_free(kind, place, s));
            }
            lemma_unfree_none(k0, place, l);
            assert(unfree(k0, place, self.lists()[j]) == unfree(k0, place, first.lists()[j]));
        }
        assert forall|j: int| 0 <= j < first.lists().len() implies #[trigger] self.hint(j) == (if first.hint_free(
            j,
        ) {
            NO_SPAN
        } else {
            first.hint(j)
        }) by {
            let h = first.hint(j);
            if first.hint_free(j) && self.lists()[j].contains(h) {
                let k = self.lists()[j].index_of(h);
                self.lemma_on_list(j, k);
                assert(kind[h as int] == k0[h as int]);
                assert(!fully_free(kind, place, h as int));
            }
        }
        lemma_groups_gone(k0, kind, place, k0.len() as int);
    }
}

impl Heap {
    /// Spans that were loose are loose, others keep their use or became loose,
    /// and no object moved.
    pub open spec fn released_from(&self, other: &Heap) -> bool {
        &&& self.same_live(other)
        &&& self.slab() == other.slab()
        &&& self.arena() == other.arena()
        &&& self.base() == other.base()
        &&& self.size() == other.size()
        &&& self.carved() == other.carved()
        &&& self.shards() == other.shards()
        &&& self.place() == other.place()
        &&& self.kind().len() == other.kind().len()
        &&& self.lists().len() == other.lists().len()
        &&& forall|s: int|
            0 <= s < other.kind().len() ==> #[trigger] self.kind()[s] == other.kind()[s]
                || self.kind()[s] is Loose
    }

    /// Take fully free span groups of the list with index `j` out of use, at most
    /// `cap` (and never more than [`SWEEP_MAX`]), front to back. Returns how many.
    #[verifier::rlimit(60)]
    pub(crate) fn reclaim_cell(&mut self, j: usize, class: usize, cap: usize) -> (n: usize)
        requires
            old(self).wf(),
            is_class(class as int),
            j < old(self).lists().len(),
            j % NUM_CLASSES == class,
        ensures
            final(self).wf(),
            final(self).released_from(old(self)),
            final(self).partly_reclaimed(old(self)),
            final(self).lists() == old(self).lists().update(
                j as int,
                swept(
                    old(self).kind(),
                    old(self).place(),
                    old(self).lists()[j as int],
                    sweep_limit(cap as int),
                ),
            ),
            n == old(self).lists()[j as int].len() - final(self).lists()[j as int].len(),
            n <= sweep_limit(cap as int),
            tiles(final(self).kind(), final(self).kind().len() as int) == tiles(
                old(self).kind(),
                old(self).kind().len() as int,
            ) - n,
            forall|s: int|
                0 <= s < old(self).kind().len() && old(self).kind()[s] is Tile && list_index(
                    old(self).kind()[s]->shard,
                    old(self).kind()[s]->class,
                ) != j ==> #[trigger] final(self).kind()[s] == old(self).kind()[s],
            ({
                let left = final(self).lists()[j as int];
                forall|k: int|
                    0 <= k < left.len() ==> final(self).kind()[#[trigger] left[k] as int] == old(self).kind()[left[k] as int]
            }),
    {
        let ghost before = *self;
        let ghost c = class as int;
        let ghost jj = j as int;
        let ghost l = before.lists@[jj];
        let ghost m = sweep_limit(cap as int);
        let limit: usize = if cap < SWEEP_MAX {
            cap
        } else {
            SWEEP_MAX
        };
        let slots: usize = slots_per_span(class);
        let mut n: usize = 0;
        let mut prev: u32 = NO_SPAN;
        proof {
            assert(list_ok(&before.bitmaps, before.heads@, before.lists@, before.kind@, jj));
        }
        let mut span: u32 = self.heads.at(j);
        let ghost mut done: Seq<u32> = Seq::empty();
        let ghost mut rest: Seq<u32> = l;
        proof {
            assert(done + rest =~= l);
            assert(done + swept(before.kind@, before.place@, rest, m - n) =~= swept(
                before.kind@,
                before.place@,
                l,
                m,
            ));
            assert(self.lists@ =~= before.lists@.update(jj, done + rest));
        }
        while span != NO_SPAN && n < limit
            invariant
                before.wf(),
                self.wf(),
                is_class(c),
                c == class,
                jj == j,
                j < before.lists@.len(),
                j % NUM_CLASSES == class,
                slots == slots_of(c),
                limit == m,
                m == sweep_limit(cap as int),
                l == before.lists@[jj],
                n <= limit,
                n + done.len() + rest.len() == l.len(),
                tiles(self.kind@, self.kind@.len() as int) == tiles(
                    before.kind@,
                    before.kind@.len() as int,
                ) - n,
                self.released_from(&before),
                self.partly_reclaimed(&before),
                self.lists@ == before.lists@.update(jj, done + rest),
                span == (if rest.len() > 0 {
                    rest[0]
                } else {
                    NO_SPAN
                }),
                prev == (if done.len() > 0 {
                    done.last()
                } else {
                    NO_SPAN
                }),
                done + swept(before.kind@, before.place@, rest, m - n) == swept(
                    before.kind@,
                    before.place@,
                    l,
                    m,
                ),
                forall|s: int|
                    0 <= s < before.kind@.len() && before.kind@[s] is Tile && list_index(
                        before.kind@[s]->shard,
                        before.kind@[s]->class,
                    ) != jj ==> #[trigger] self.kind@[s] == before.kind@[s],
                forall|k: int|
                    0 <= k < rest.len() ==> self.kind@[#[trigger] rest[k] as int]
                        == before.kind@[rest[k] as int],
                forall|k: int|
                    0 <= k < done.len() ==> self.kind@[#[trigger] done[k] as int]
                        == before.kind@[done[k] as int],
            decreases rest.len(),
        {
            let ghost cur = *self;
            let ghost pos = done.len() as int;
            let ghost all = done + rest;
            proof {
                self.lemma_lens();
                assert(list_ok(&self.bitmaps, self.heads@, self.lists@, self.kind@, jj));
                assert(self.lists@[jj] == all);
                if rest.len() == 0 {
                    assert(span == NO_SPAN);
                }
                assert(link_ok(&self.bitmaps, all, self.kind@, jj, pos));
                assert(all[pos] == rest[0]);
                if rest.len() > 1 {
                    assert(all[pos + 1] == rest[1]);
                }
                lemma_tiling(c);
            }
            let next: u32 = self.bitmaps.next(span);
            proof {
                assert forall|i: int| slots <= i < SPAN_SLOTS implies !self.bitmaps.slot_free(span as int, i) by {}
            }
            let empty: bool = self.bitmaps.is_fully_free(span, slots);
            proof {
                let row = cur.place@[span as int];
                assert(cur.place@.update(span as int, row) =~= cur.place@);
                assert(bits_ok(&self.bitmaps, self.kind@, self.place@)) by {
                    assert forall|s: int, i: int| 0 <= s < self.kind@.len() && 0 <= i < SPAN_SLOTS implies (#[trigger] self.bitmaps.slot_free(
                        s,
                        i,
                    ) <==> is_obj(self.kind@, s, i) && self.place@[s][i] is Free) by {
                        assert(cur.bitmaps.slot_free(s, i) <==> is_obj(cur.kind@, s, i)
                            && cur.place@[s][i] is Free);
                    }
                }
                assert(row.len() == SPAN_SLOTS);
                self.lemma_row(&cur, span as int, row);
                assert(empty <==> fully_free(self.kind@, self.place@, span as int)) by {
                    assert forall|i: int| 0 <= i < slots implies (cur.bitmaps.slot_free(span as int, i)
                        <==> (#[trigger] cur.place@[span as int][i]) is Free) by {}
                    if empty {
                        assert forall|i: int| 0 <= i < slots implies (#[trigger] self.place@[span as int][i]) is Free by {
                            assert(cur.bitmaps.slot_free(span as int, i));
                        }
                    }
                    if fully_free(self.kind@, self.place@, span as int) {
                        assert forall|i: int| 0 <= i < slots implies cur.bitmaps.slot_free(
                            span as int,
                            i,
                        ) by {
                            assert(self.place@[span as int][i] is Free);
                        }
                    }
                }
                assert(fully_free(self.kind@, self.place@, span as int) == fully_free(
                    before.kind@,
                    before.place@,
                    rest[0] as int,
                ));
            }
            let ghost folded = *self;
            proof {
                assert(list_ok(&folded.bitmaps, folded.heads@, folded.lists@, folded.kind@, jj));
                assert(folded.released_from(&before)) by {
                    assert forall|b: int, d: int| #[trigger] folded.live(b, d) <==> before.live(b, d) by {
                        assert(folded.live(b, d) <==> cur.live(b, d));
                    }
                    assert forall|b: int, len: int| #[trigger] folded.live_run(b, len)
                        <==> before.live_run(b, len) by {
                        assert(folded.live_run(b, len) <==> cur.live_run(b, len));
                    }
                    assert forall|s: int| 0 <= s < before.kind().len() implies #[trigger] folded.kind()[s]
                        == before.kind()[s] || folded.kind()[s] is Loose by {
                        assert(folded.kind()[s] == cur.kind()[s]);
                    }
                }
                assert(folded.partly_reclaimed(&before)) by {
                    assert(folded.lists() == cur.lists() && folded.kind() == cur.kind());
                    assert forall|s: int| #[trigger] folded.tag(s) == cur.tag(s) by {}
                    assert forall|q: int| #[trigger] folded.hint(q) == cur.hint(q) by {}
                    assert forall|s: int| 0 <= s < before.kind().len() implies #[trigger] folded.kind()[s]
                        == before.kind()[s] || (folded.kind()[s] is Loose && in_free_group(
                        before.kind(),
                        before.place(),
                        s,
                    )) by {
                        assert(cur.kind()[s] == folded.kind()[s]);
                    }
                    assert forall|s: int| 0 <= s < before.kind().len() implies #[trigger] folded.tag(s) == (
                    if folded.kind()[s] == before.kind()[s] {
                        before.tag(s)
                    } else {
                        Some((LARGE_CLASS, 0u16))
                    }) by {
                        assert(cur.tag(s) == folded.tag(s));
                    }
                    assert forall|q: int| 0 <= q < before.lists().len() implies #[trigger] folded.hint(q)
                        == (if before.hint_free(q) && !folded.lists()[q].contains(before.hint(q)) {
                        NO_SPAN
                    } else {
                        before.hint(q)
                    }) by {
                        assert(cur.hint(q) == folded.hint(q));
                    }
                }
            }
            if empty {
                self.retire(span, prev, j, class, Ghost(pos));
                proof {
                    assert(self.released_from(&before)) by {
                        assert forall|b: int, d: int| #[trigger] self.live(b, d) <==> before.live(b, d) by {
                            assert(self.live(b, d) <==> folded.live(b, d));
                        }
                        assert forall|b: int, len: int| #[trigger] self.live_run(b, len)
                            <==> before.live_run(b, len) by {
                            assert(self.live_run(b, len) <==> folded.live_run(b, len));
                        }
                        assert forall|s: int| 0 <= s < before.kind().len() implies #[trigger] self.kind()[s]
                            == before.kind()[s] || self.kind()[s] is Loose by {
                            assert(folded.kind()[s] == before.kind()[s] || folded.kind()[s] is Loose);
                        }
                    }
                    let r1 = rest.drop_first();
                    self.lemma_partly_retired(&folded, &before, span as int, c, jj, pos);
                    assert(all.remove(pos) =~= done + r1);
                    assert(self.lists@ =~= before.lists@.update(jj, done + r1));
                    lemma_loosened(
                        folded.kind@,
                        folded.arena.carved(),
                        folded.num_shards as int,
                        span as int,
                    );
                    folded.arena.lemma_carved();
                    lemma_tiles_loosened(
                        folded.kind@,
                        span as int,
                        group_of(c),
                        folded.kind@.len() as int,
                    );
                    assert forall|s: int|
                        0 <= s < before.kind@.len() && before.kind@[s] is Tile && list_index(
                            before.kind@[s]->shard,
                            before.kind@[s]->class,
                        ) != jj implies #[trigger] self.kind@[s] == before.kind@[s] by {
                        assert(folded.kind@[s] == before.kind@[s]);
                    }
                    assert forall|k: int| 0 <= k < r1.len() implies self.kind@[#[trigger] r1[k] as int]
                        == before.kind@[r1[k] as int] by {
                        assert(r1[k] == rest[k + 1]);
                        assert(all[pos + 1 + k] == rest[k + 1]);
                        assert(link_ok(&folded.bitmaps, all, folded.kind@, jj, pos + 1 + k));
                        assert(all[pos + 1 + k] != all[pos]);
                    }
                    assert forall|k: int| 0 <= k < done.len() implies self.kind@[#[trigger] done[k] as int]
                        == before.kind@[done[k] as int] by {
                        assert(all[k] == done[k]);
                        assert(link_ok(&folded.bitmaps, all, folded.kind@, jj, k));
                        assert(all[k] != all[pos]);
                    }
                    rest = r1;
                }
                n = n + 1;
            } else {
                proof {
                    let d1 = done.push(rest[0]);
                    let r1 = rest.drop_first();
                    assert(d1 + r1 =~= done + rest);
                    assert(done + (seq![rest[0]] + swept(before.kind@, before.place@, r1, m - n))
                        =~= d1 + swept(before.kind@, before.place@, r1, m - n));
                    assert forall|k: int| 0 <= k < d1.len() implies self.kind@[#[trigger] d1[k] as int]
                        == before.kind@[d1[k] as int] by {
                        if k < done.len() {
                            assert(d1[k] == done[k]);
                        } else {
                            assert(d1[k] == rest[0]);
                        }
                    }
                    assert forall|k: int| 0 <= k < r1.len() implies self.kind@[#[trigger] r1[k] as int]
                        == before.kind@[r1[k] as int] by {
                        assert(r1[k] == rest[k + 1]);
                    }
                    done = d1;
                    rest = r1;
                }
                prev = span;
            }
            span = next;
        }
        proof {
            if n >= limit {
                lemma_swept_zero(before.kind@, before.place@, rest);
            } else {
                if rest.len() > 0 {
                    assert(list_ok(&self.bitmaps, self.heads@, self.lists@, self.kind@, jj));
                    assert(link_ok(&self.bitmaps, done + rest, self.kind@, jj, done.len() as int));
                    assert((done + rest)[done.len() as int] == rest[0]);
                }
            }
            assert(done + rest == swept(before.kind@, before.place@, l, m));
            lemma_swept(before.kind@, before.place@, l, m);
            assert forall|k: int| 0 <= k < (done + rest).len() implies self.kind@[#[trigger] (done + rest)[k] as int]
                == before.kind@[(done + rest)[k] as int] by {
                if k < done.len() {
                    assert((done + rest)[k] == done[k]);
                } else {
                    assert((done + rest)[k] == rest[k - done.len()]);
                }
            }
        }
        n
    }
}

proof fn lemma_swept_zero(kind: Seq<SpanKind>, place: Seq<Seq<Place>>, l: Seq<u32>)
    ensures
        swept(kind, place, l, 0) == l,
    decreases l.len(),
{
    if l.len() > 0 {
        lemma_swept_zero(kind, place, l.drop_first());
        assert(seq![l[0]] + l.drop_first() =~= l);
    }
}

impl Heap {
    /// Put `count` adjacent spans to use as one large run. Returns its first
    /// span, or `None` if neither pool nor arena has them.
    #[verifier::rlimit(40)]
    pub(crate) fn make_run(&mut self, count: u32) -> (r: Option<u32>)
        requires
            old(self).wf(),
            count >= 1,
        ensures
            final(self).wf(),
            final(self).slab() == old(self).slab(),
            r.is_some() <==> old(self).run_available(count as int),
            r is None ==> *final(self) == *old(self),
            r matches Some(h) ==> {
                &&& h == old(self).run_start(count as int)
                &&& final(self).extends(old(self))
                &&& final(self).spans_tagged(
                    old(self),
                    h as int,
                    h + count,
                    !old(self).pooled(count as int),
                    LARGE_CLASS,
                    0,
                )
                &&& final(self).lists() == old(self).lists()
                &&& h + count <= final(self).carved()
                &&& final(self).kind() == run_made(old(self).kind(), h as int, count as int)
                &&& final(self).place() == old(self).place()
                &&& forall|s: int| h <= s < h + count ==> (#[trigger] old(self).kind()[s]) is Loose
                &&& forall|b: int, d: int| #[trigger] final(self).live(b, d) <==> old(self).live(b, d)
                &&& forall|b: int, len: int|
                    #[trigger] final(self).live_run(b, len) <==> old(self).live_run(b, len) || (b
                        == old(self).base() + h * SPAN_BYTES && len == count)
            },
    {
        let ghost before = *self;
        proof {
            self.lemma_lens();
        }
        match self.acquire_run(count, LARGE_CLASS, 0) {
            None => None,
            Some(h) => {
                let ghost mid = *self;
                proof {
                    self.arena.lemma_carved();
                }
                self.run_spans.put(h as usize, count);
                proof {
                    self.kind@ = run_made(mid.kind@, h as int, count as int);
                    self.lemma_run_made(&mid, h as int, count as int);
                    let base = self.base();
                    assert forall|b: int, d: int| #[trigger] self.live(b, d) <==> before.live(b, d) by {
                        if obj_at(base, before.kind@, b, d) {
                            let s = span_index(base, b);
                            assert(self.kind@[s] == before.kind@[s]);
                        }
                    }
                    assert forall|b: int, len: int| #[trigger] self.live_run(b, len)
                        <==> before.live_run(b, len) || (b == base + h * SPAN_BYTES && len == count) by {
                        assert(span_index(base, base + h * SPAN_BYTES) == h);
                    }
                    assert(self.extends(&before));
                    assert(self.spans_tagged(
                        &before,
                        h as int,
                        h + count,
                        !before.pooled(count as int),
                        LARGE_CLASS,
                        0,
                    )) by {
                        assert forall|s: int| #[trigger] self.tag(s) == mid.tag(s) by {}
                        assert(self.pool() == mid.pool() && self.arena() == mid.arena());
                    }
                }
                Some(h)
            },
        }
    }

    proof fn lemma_run_made(&self, before: &Heap, h: int, len: int)
        requires
            before.wf_but(h, h + len, LARGE_CLASS as int),
            len >= 1,
            self.run_spans@ == before.run_spans@.update(h, len as u32),
            0 <= len <= u32::MAX,
            *self == (Heap {
                run_spans: self.run_spans,
                kind: Ghost(run_made(before.kind@, h, len)),
                ..*before
            }),
        ensures
            self.wf(),
    {
        let base = self.arena.base();
        let k0 = before.kind@;
        let k1 = self.kind@;
        let p = self.place@;
        let carved = self.arena.carved();
        let shards = self.num_shards as int;
        self.arena.lemma_carved();
        assert forall|s: int| 0 <= s < k1.len() implies #[trigger] kind_ok(k1, carved, shards, s) by {
            assert(kind_ok(k0, carved, shards, s));
            if h < s < h + len {
                assert(k1[h] is Big);
            } else if s != h {
                match k0[s] {
                    SpanKind::Tile { class: d, .. } => {
                        lemma_tiling(d);
                        assert forall|t: int| s < t < s + group_of(d) implies #[trigger] k1[t] == (SpanKind::Tail {
                            head: s,
                        }) by {
                            assert(k0[t] == (SpanKind::Tail { head: s }));
                        }
                    },
                    SpanKind::Big { len: n } => {
                        assert forall|t: int| s < t < s + n implies #[trigger] k1[t] == (SpanKind::Tail {
                            head: s,
                        }) by {
                            assert(k0[t] == (SpanKind::Tail { head: s }));
                        }
                    },
                    SpanKind::Tail { head } => {
                        assert(k1[head] == k0[head]);
                    },
                    SpanKind::Loose => {},
                }
            }
        }
        assert forall|s: int| 0 <= s < k1.len() implies #[trigger] tag_ok(&self.spans, k1, carved, s) by {
            let t = before.spans.tag(s);
            if !(h <= s < h + len) {
                assert(tag_ok(&before.spans, k0, carved, s));
                assert(kind_ok(k0, carved, shards, s));
                match k0[s] {
                    SpanKind::Tail { head } => {
                        assert(k1[head] == k0[head]);
                    },
                    _ => {},
                }
            }
        }
        assert forall|s: int| #[trigger] self.pool.covers(s) <==> 0 <= s < carved && k1[s] is Loose by {
            assert(before.pool.covers(s) <==> 0 <= s < carved && k0[s] is Loose && !(h <= s < h + len));
        }
        assert(bits_ok(&self.bitmaps, k1, p)) by {
            assert forall|s: int, i: int| 0 <= s < k1.len() && 0 <= i < SPAN_SLOTS implies (#[trigger] self.bitmaps.slot_free(
                s,
                i,
            ) <==> is_obj(k1, s, i) && p[s][i] is Free) by {
                assert(before.bitmaps.slot_free(s, i) <==> is_obj(k0, s, i) && p[s][i] is Free);
            }
        }
        assert(slab_ok(&self.slab, base, k1, p)) by {
            assert forall|cpu: int, d: int, q: int|
                0 <= cpu < self.slab.cpus() && 0 <= d < NUM_CLASSES && 0 <= q < self.slab.stack(cpu, d).len() implies #[trigger] cached_ok(
                &self.slab,
                base,
                k1,
                p,
                cpu,
                d,
                q,
            ) by {
                assert(cached_ok(&before.slab, base, k0, p, cpu, d, q));
            }
            assert forall|s: int, i: int| is_obj(k1, s, i) implies #[trigger] cache_entry(
                &self.slab,
                base,
                k1,
                p,
                s,
                i,
            ) by {
                assert(cache_entry(&before.slab, base, k0, p, s, i));
            }
        }
        lemma_lists_kinds(&self.bitmaps, self.heads@, self.lists@, k0, k1);
        assert(runs_ok(self.run_spans@, k1)) by {
            assert forall|s: int| 0 <= s < k1.len() implies #[trigger] self.run_spans@[s] == (match k1[s] {
                SpanKind::Big { len: n } => n,
                _ => 0,
            }) by {
                assert(before.run_spans@[s] == (match k0[s] {
                    SpanKind::Big { len: n } => n,
                    _ => 0,
                }));
            }
        }
    }

    /// Take the large run that starts at span `h` out of use: its spans go to the
    /// pool. Returns its length in spans.
    #[verifier::rlimit(40)]
    pub(crate) fn release_run(&mut self, h: u32) -> (count: u32)
        requires
            old(self).wf(),
            h < old(self).kind().len(),
            old(self).kind()[h as int] is Big,
        ensures
            final(self).wf(),
            final(self).slab() == old(self).slab(),
            final(self).arena() == old(self).arena(),
            final(self).shards() == old(self).shards(),
            final(self).base() == old(self).base(),
            final(self).size() == old(self).size(),
            final(self).carved() == old(self).carved(),
            count >= 1,
            old(self).kind()[h as int] == (SpanKind::Big { len: count as int }),
            final(self).kind() == loosened(old(self).kind(), h as int, count as int),
            final(self).place() == old(self).place(),
            final(self).lists() == old(self).lists(),
            forall|j: int| #[trigger] final(self).hint(j) == old(self).hint(j),
            forall|s: int| #[trigger] final(self).tag(s) == old(self).tag(s),
            final(self).pool().stacks() == old(self).pool().returned(h as int, count as int),
            forall|s: int|
                #[trigger] final(self).pool().covers(s) <==> old(self).pool().covers(s) || h <= s < h
                    + count,
            forall|b: int, d: int| #[trigger] final(self).live(b, d) <==> old(self).live(b, d),
            forall|b: int, len: int|
                #[trigger] final(self).live_run(b, len) <==> old(self).live_run(b, len) && b != old(
                    self,
                ).base() + h * SPAN_BYTES,
    {
        let ghost before = *self;
        let ghost k0 = self.kind@;
        let ghost carved = self.arena.carved();
        let ghost shards = self.num_shards as int;
        proof {
            self.arena.lemma_carved();
            assert(kind_ok(k0, carved, shards, h as int));
            assert(self.run_spans@[h as int] == k0[h as int]->len);
            lemma_loosened(k0, carved, shards, h as int);
        }
        let count: u32 = self.run_spans.at(h as usize);
        self.run_spans.put(h as usize, 0);
        self.pool.free(h, count);
        proof {
            let base = self.arena.base();
            let p = self.place@;
            let k1 = loosened(k0, h as int, count as int);
            self.kind@ = k1;
            assert forall|s: int| 0 <= s < k1.len() implies #[trigger] tag_ok(
                &self.spans,
                k1,
                carved,
                s,
            ) by {
                assert(tag_ok(&before.spans, k0, carved, s));
                assert(kind_ok(k0, carved, shards, s));
                assert(kind_ok(k1, carved, shards, s));
                if h < s < h + count {
                    assert(k0[s] == (SpanKind::Tail { head: h as int }));
                }
                if !(h <= s < h + count) {
                    match k0[s] {
                        SpanKind::Tail { head } => {
                            assert(k1[head] == k0[head]);
                        },
                        _ => {},
                    }
                }
            }
            assert forall|s: int| #[trigger] self.pool.covers(s) <==> 0 <= s < carved && k1[s] is Loose by {
                assert(before.pool.covers(s) <==> 0 <= s < carved && k0[s] is Loose);
            }
            assert(bits_ok(&self.bitmaps, k1, p)) by {
                assert forall|s: int, i: int| 0 <= s < k1.len() && 0 <= i < SPAN_SLOTS implies (#[trigger] self.bitmaps.slot_free(
                    s,
                    i,
                ) <==> is_obj(k1, s, i) && p[s][i] is Free) by {
                    assert(before.bitmaps.slot_free(s, i) <==> is_obj(k0, s, i) && p[s][i] is Free);
                }
            }
            assert(slab_ok(&self.slab, base, k1, p)) by {
                assert forall|cpu: int, d: int, q: int|
                    0 <= cpu < self.slab.cpus() && 0 <= d < NUM_CLASSES && 0 <= q < self.slab.stack(cpu, d).len() implies #[trigger] cached_ok(
                    &self.slab,
                    base,
                    k1,
                    p,
                    cpu,
                    d,
                    q,
                ) by {
                    assert(cached_ok(&before.slab, base, k0, p, cpu, d, q));
                }
                assert forall|s: int, i: int| is_obj(k1, s, i) implies #[trigger] cache_entry(
                    &self.slab,
                    base,
                    k1,
                    p,
                    s,
                    i,
                ) by {
                    assert(cache_entry(&before.slab, base, k0, p, s, i));
                }
            }
            lemma_lists_kinds(&self.bitmaps, self.heads@, self.lists@, k0, k1);
            assert(runs_ok(self.run_spans@, k1)) by {
                assert forall|s: int| 0 <= s < k1.len() implies #[trigger] self.run_spans@[s] == (match k1[s] {
                    SpanKind::Big { len: n } => n,
                    _ => 0,
                }) by {
                    assert(before.run_spans@[s] == (match k0[s] {
                        SpanKind::Big { len: n } => n,
                        _ => 0,
                    }));
                }
            }
            assert forall|b: int, d: int| #[trigger] self.live(b, d) <==> before.live(b, d) by {}
            assert forall|b: int, len: int| #[trigger] self.live_run(b, len) <==> before.live_run(b, len)
                && b != base + h * SPAN_BYTES by {
                assert(span_index(base, base + h * SPAN_BYTES) == h);
            }
        }
        count
    }
}

/// The lists hold under any uses that tile the same spans alike.
proof fn lemma_lists_kinds(
    maps: &SpanBitmaps,
    heads: Seq<u32>,
    lists: Seq<Seq<u32>>,
    k0: Seq<SpanKind>,
    k1: Seq<SpanKind>,
)
    requires
        lists_ok(maps, heads, lists, k0),
        k0.len() == k1.len(),
        forall|s: int|
            0 <= s < k0.len() && (k0[s] is Tile || k1[s] is Tile) ==> #[trigger] k0[s] == k1[s],
    ensures
        lists_ok(maps, heads, lists, k1),
{
    assert forall|j: int| 0 <= j < lists.len() implies #[trigger] list_ok(maps, heads, lists, k1, j) by {
        assert(list_ok(maps, heads, lists, k0, j));
        let l = lists[j];
        assert forall|k: int| 0 <= k < l.len() implies #[trigger] link_ok(maps, l, k1, j, k) by {
            assert(link_ok(maps, l, k0, j, k));
            assert(k0[l[k] as int] == k1[l[k] as int]);
        }
    }
    assert forall|s: int| 0 <= s < k1.len() && k1[s] is Tile implies (#[trigger] lists[list_index(
        k1[s]->shard,
        k1[s]->class,
    )]).contains(s as u32) by {
        assert(k0[s] == k1[s]);
    }
    assert forall|s: int| 0 <= s < k1.len() implies (#[trigger] maps.listed(s) <==> k1[s] is Tile) by {
        assert(maps.listed(s) <==> k0[s] is Tile);
        assert(k0[s] is Tile || k1[s] is Tile ==> k0[s] == k1[s]);
    }
}

impl Heap {
    /// An empty heap over the arena `[base, base + bytes)`, with `slab`'s stacks
    /// empty and `num_shards` shards.
    pub(crate) fn new(base: usize, bytes: usize, num_shards: u32, slab: SlabLayout) -> (heap: Heap)
        requires
            0 < base,
            base + bytes <= usize::MAX,
            spans_in(bytes as int) < NO_SPAN,
            1 <= num_shards,
            num_shards * NUM_CLASSES <= crate::sys::max_elements(),
            slab.wf(),
            slab.class_count() == NUM_CLASSES,
            forall|cpu: int, c: int|
                0 <= cpu < slab.cpus() && 0 <= c < NUM_CLASSES ==> #[trigger] slab.stack(cpu, c)
                    == Seq::<usize>::empty(),
        ensures
            heap.wf(),
            heap.base() == base,
            heap.size() == bytes,
            heap.carved() == 0,
            heap.shards() == num_shards,
            heap.slab() == slab,
            heap.lists().len() == num_shards * NUM_CLASSES,
            forall|s: int| 0 <= s < heap.kind().len() ==> (#[trigger] heap.kind()[s]) is Loose,
            heap.kind().len() == spans_in(bytes as int),
            forall|s: int| !(#[trigger] heap.pool().covers(s)),
            forall|n: int|
                0 <= n < heap.pool().stacks().len() ==> (#[trigger] heap.pool().stacks()[n]).len()
                    == 0,
            forall|s: int| 0 <= s < heap.kind().len() ==> (#[trigger] heap.tag(s)) is None,
            forall|j: int|
                0 <= j < heap.lists().len() ==> (#[trigger] heap.lists()[j]).len() == 0,
            forall|j: int| 0 <= j < heap.lists().len() ==> #[trigger] heap.hint(j) == NO_SPAN,
    {
        let n: usize = crate::meta::span_grid(bytes);
        let m: usize = if n == 0 {
            1
        } else {
            n
        };
        let cells: usize = (num_shards as usize) * NUM_CLASSES;
        let heap = Heap {
            slab,
            heads: SysBoxSlice::<u32>::filled(cells, NO_SPAN),
            hints: SysBoxSlice::<u32>::filled(cells, NO_SPAN),
            bitmaps: SpanBitmaps::new(base, bytes),
            num_shards,
            arena: BumpArena::new(base, bytes),
            spans: SpanTable::new(base, bytes),
            pool: SpanPool::new(m),
            run_spans: SysBoxSlice::<u32>::filled(m, 0),
            kind: Ghost(Seq::new(n as nat, |s: int| SpanKind::Loose)),
            place: Ghost(
                Seq::new(n as nat, |s: int| Seq::new(SPAN_SLOTS as nat, |i: int| Place::Live)),
            ),
            lists: Ghost(Seq::new(cells as nat, |j: int| Seq::<u32>::empty())),
        };
        proof {
            let kind = heap.kind@;
            assert forall|s: int| 0 <= s < kind.len() implies #[trigger] tag_ok(
                &heap.spans,
                kind,
                heap.arena.carved(),
                s,
            ) by {
                assert(heap.spans.tag(s) is None);
            }
            assert forall|s: int| 0 <= s < kind.len() implies #[trigger] kind_ok(
                kind,
                heap.arena.carved(),
                num_shards as int,
                s,
            ) by {}
            assert(lists_ok(&heap.bitmaps, heap.heads@, heap.lists@, kind));
            assert(slab_ok(&heap.slab, base as int, kind, heap.place@));
        }
        heap
    }
}

impl Heap {
    /// Bytes of whole spans carved so far.
    pub(crate) fn carved_bytes(&self, budget: usize) -> (n: usize)
        requires
            self.wf(),
            budget == self.size(),
        ensures
            n == self.carved() * SPAN_BYTES,
    {
        self.arena.carved_bytes(budget)
    }

    /// The shard of a thread's shard number.
    pub(crate) fn shard_of(&self, shard_id: u32) -> (s: u32)
        requires
            self.wf(),
        ensures
            s == shard_id as int % self.shards(),
            s < self.shards(),
    {
        shard_id % self.num_shards
    }

    /// Index of the list of a thread's shard number and a class.
    pub(crate) fn cell(&self, shard_id: u32, class: usize) -> (j: usize)
        requires
            self.wf(),
            class < NUM_CLASSES,
        ensures
            j == list_index(shard_id as int % self.shards(), class as int),
            j < self.lists().len(),
            j % NUM_CLASSES == class,
    {
        (shard_id % self.num_shards) as usize * NUM_CLASSES + class
    }

    /// The span that holds an address of the arena.
    pub(crate) fn span_of(&self, addr: usize) -> (s: u32)
        requires
            self.wf(),
            self.base() <= addr < self.base() + self.size(),
        ensures
            s == span_index(self.base(), addr as int),
            s < self.kind().len(),
    {
        self.bitmaps.span_of(addr)
    }

    /// Whether an address lies in the arena.
    pub(crate) fn owns(&self, addr: usize) -> (b: bool)
        requires
            self.wf(),
        ensures
            b == (self.base() <= addr < self.base() + self.size()),
    {
        self.spans.contains(addr)
    }
}

impl Heap {
    /// Once new spans were put to use for a list that had nothing left, the refill
    /// order starts with the first object of one of them.
    pub(crate) proof fn lemma_order_fresh(&self, before: &Heap, j: int, c: int, home: u16)
        requires
            before.wf(),
            self.wf(),
            is_class(c),
            0 <= j < before.lists().len(),
            self.extends(before),
            self.put_to_use(before, j, c, home),
            before.take_order(j, c).len() == 0,
        ensures
            self.take_order(j, c).len() > 0,
            self.take_order(j, c)[0] == self.base() + before.carve_pick(j, c) * SPAN_BYTES,
    {
        let base = self.base();
        let kind = self.kind();
        let place = self.place();
        let l = self.lists()[j];
        let lo = before.run_start(carve_spans_of(c));
        let n = before.groups_had(c);
        let last = lo + n - 1;
        let pick = before.carve_pick(j, c);
        let skip = self.hinted(j, c);
        self.lemma_lens();
        before.lemma_lens();
        assert(self.hint(j) == before.hint(j));
        assert(self.hint(j) == NO_SPAN || self.hint(j) < kind.len());
        lemma_tiling(c);
        let g = group_of(c);
        assert(n * g >= n) by (nonlinear_arith)
            requires
                n >= 1,
                g >= 1,
        ;
        assert(l[0] == last as u32 && last as u32 == last);
        assert(kind[last] == (SpanKind::Tile { class: c, shard: j / NUM_CLASSES as int }));
        self.lemma_first_object(last, c);
        match skip {
            Some(h) => {
                if lo <= h < lo + n {
                    assert(kind[h as int] == (SpanKind::Tile {
                        class: c,
                        shard: j / NUM_CLASSES as int,
                    }));
                    self.lemma_first_object(h as int, c);
                } else {
                    assert forall|i: int| 0 <= i < SPAN_SLOTS implies !#[trigger] slot_is_free(
                        kind,
                        place,
                        h as int,
                        i,
                    ) by {
                        if slot_is_free(kind, place, h as int, i) {
                            assert(kind[h as int] is Tile);
                            assert(kind[h as int] == before.kind()[h as int]);
                            assert(self.tag(h as int) == before.tag(h as int));
                            assert(before.hinted(j, c) == Some(h));
                            assert(slot_is_free(before.kind(), before.place(), h as int, i));
                            lemma_free_prefix(
                                base,
                                before.kind(),
                                before.place(),
                                h as int,
                                i + 1,
                                SPAN_SLOTS as int,
                            );
                        }
                    }
                    lemma_free_skip(base, kind, place, h as int, 0, SPAN_SLOTS as int);
                }
            },
            None => {
                if slots_of(c) <= 64 && lo <= self.hint(j) < lo + n {
                    assert(self.tag(self.hint(j) as int) == Some((c as u16, home)));
                }
            },
        }
        if pick == last && skip != Some(l[0]) {
            assert(free_in_list(base, kind, place, l, skip, 1) =~= free_in_span(base, kind, place, last))
                by {
                reveal_with_fuel(free_in_list, 2);
            }
            lemma_list_prefix(base, kind, place, l, skip, 1, l.len() as int);
            let part = free_in_list(base, kind, place, l, skip, l.len() as int);
            assert(part.take(free_in_span(base, kind, place, last).len() as int)[0] == part[0]);
            assert(self.take_order(j, c) =~= part);
        }
    }

    /// Once new spans were put to use for a list that had nothing left, the refill
    /// order has no objects but theirs.
    pub(crate) proof fn lemma_order_new(&self, before: &Heap, j: int, c: int, home: u16, k: int)
        requires
            before.wf(),
            self.wf(),
            is_class(c),
            0 <= j < before.lists().len(),
            self.extends(before),
            self.put_to_use(before, j, c, home),
            before.take_order(j, c).len() == 0,
            0 <= k < self.take_order(j, c).len(),
        ensures
            ({
                let s = span_index(self.base(), self.take_order(j, c)[k] as int);
                0 <= s < before.kind().len() && before.kind()[s] is Loose
            }),
    {
        let base = self.base();
        let kind = self.kind();
        let place = self.place();
        let l = self.lists()[j];
        let skip = self.hinted(j, c);
        let x = self.take_order(j, c)[k];
        let lo = before.run_start(carve_spans_of(c));
        let n = before.groups_had(c);
        self.lemma_lens();
        before.lemma_lens();
        lemma_tiling(c);
        assert(n * group_of(c) >= n) by (nonlinear_arith)
            requires
                n >= 1,
                group_of(c) >= 1,
        ;
        let first = match skip {
            Some(h) => free_in_span(base, kind, place, h as int),
            None => Seq::<usize>::empty(),
        };
        let (s, m) = if k < first.len() {
            (skip->0 as int, -1)
        } else {
            let m = lemma_list_member(base, kind, place, l, skip, l.len() as int, k - first.len());
            self.lemma_on_list(j, m);
            (l[m] as int, m)
        };
        let f = free_in_span(base, kind, place, s);
        assert(f.contains(x));
        self.arena.lemma_carved();
        assert(self.hint(j) == before.hint(j));
        assert(0 <= s < kind.len());
        assert(kind_ok(kind, self.arena.carved(), self.num_shards as int, s));
        if !(kind[s] is Tile) {
            lemma_free_skip(base, kind, place, s, 0, SPAN_SLOTS as int);
        }
        lemma_free_below(base, kind, place, s, SPAN_SLOTS as int, self.size());
        let q = f.index_of(x);
        assert(f[q] == x);
        let i = slot_index(base, x as int, kind[s]->class);
        assert(span_index(base, x as int) == s && slot_is_free(kind, place, s, i));
        if before.kind()[s] !is Loose {
            assert(kind[s] == before.kind()[s] && place[s] == before.place()[s]);
            assert(self.tag(s) == before.tag(s));
            if m >= 0 {
                assert(before.lists()[j][m - n] == s as u32);
                assert(before.lists()[j].contains(s as u32));
            } else {
                assert(before.hinted(j, c) == Some(s as u32));
            }
            before.lemma_in_order(j, c, s, i);
        }
    }

    /// Spans put to use since `took` were put to use since `before`, where nothing
    /// but bookkeeping happened in between.
    pub(crate) proof fn lemma_put_to_use_idle(
        &self,
        took: &Heap,
        before: &Heap,
        j: int,
        c: int,
        home: u16,
    )
        requires
            self.put_to_use(took, j, c, home),
            self.extends(took),
            took.idle_since(before),
        ensures
            self.put_to_use(before, j, c, home),
            self.extends(before),
    {
        assert forall|s: int| 0 <= s < before.kind().len() implies #[trigger] self.tag(s) == (if
            took.run_start(carve_spans_of(c)) <= s < took.run_start(carve_spans_of(c))
            + took.groups_had(c) * group_of(c) {
            Some((c as u16, home))
        } else {
            before.tag(s)
        }) by {
            assert(took.tag(s) == before.tag(s));
        }
        assert forall|q: int| #[trigger] self.hint(q) == before.hint(q) by {
            assert(took.hint(q) == before.hint(q));
        }
        assert forall|s: int|
            0 <= s < before.kind().len() && before.kind()[s] !is Loose implies #[trigger] self.kind()[s]
            == before.kind()[s] && self.place()[s] == before.place()[s] by {
            assert(took.kind()[s] == before.kind()[s]);
        }
    }

    /// The first object of a span all of whose objects are free.
    proof fn lemma_first_object(&self, s: int, c: int)
        requires
            self.wf(),
            is_class(c),
            0 <= s < self.kind().len(),
            self.kind()[s] is Tile,
            self.kind()[s]->class == c,
            self.place()[s] == all_free(),
        ensures
            free_in_span(self.base(), self.kind(), self.place(), s).len() > 0,
            free_in_span(self.base(), self.kind(), self.place(), s)[0] == self.base() + s * SPAN_BYTES,
    {
        let base = self.base();
        let kind = self.kind();
        let place = self.place();
        lemma_tiling(c);
        self.arena.lemma_carved();
        assert(kind_ok(kind, self.arena.carved(), self.num_shards as int, s));
        assert(slot_is_free(kind, place, s, 0));
        let one = free_below(base, kind, place, s, 1);
        assert(one =~= seq![slot_addr(base, s, 0, c) as usize]) by {
            reveal_with_fuel(free_below, 2);
        }
        lemma_free_prefix(base, kind, place, s, 1, SPAN_SLOTS as int);
        let all = free_in_span(base, kind, place, s);
        assert(all.take(1)[0] == all[0]);
        assert(slot_addr(base, s, 0, c) == base + s * SPAN_BYTES);
    }

    /// The home field of the tag of the span that holds an object.
    pub(crate) fn home_of(&self, addr: usize, class: usize) -> (home: u16)
        requires
            self.wf(),
            self.is_object(addr as int, class as int),
        ensures
            self.tag(span_index(self.base(), addr as int)) is Some,
            home == self.tag(span_index(self.base(), addr as int)).unwrap().1,
    {
        proof {
            self.lemma_object_bounds(addr as int, class as int);
            lemma_tiling(class as int);
            let s = span_index(self.base(), addr as int);
            assert(tag_ok(&self.spans, self.kind@, self.arena.carved(), s));
        }
        self.spans.home_relaxed(addr)
    }

    /// Locate an object as `(span, word, bit)`.
    pub(crate) fn locate(&self, addr: usize, class: usize) -> (r: (u32, usize, u32))
        requires
            self.wf(),
            self.is_object(addr as int, class as int),
        ensures
            r.0 == span_index(self.base(), addr as int),
            r.0 < self.kind().len(),
            r.0 != NO_SPAN,
            r.1 < SPAN_BITMAP_WORDS,
            r.2 < 64,
            64 * r.1 + r.2 == slot_index(self.base(), addr as int, class as int),
            is_obj(self.kind(), r.0 as int, 64 * r.1 + r.2),
    {
        proof {
            self.lemma_object_bounds(addr as int, class as int);
            lemma_tiling(class as int);
        }
        self.bitmaps.locate(addr, size_of_class(class))
    }

    /// The tag of the span that holds an address; `None` outside the arena or
    /// where the span was never carved.
    pub(crate) fn lookup(&self, addr: usize) -> (r: Option<(u16, u16)>)
        requires
            self.wf(),
        ensures
            r == (if self.base() <= addr < self.base() + self.size() {
                self.tag(span_index(self.base(), addr as int))
            } else {
                None
            }),
    {
        self.spans.lookup(addr)
    }

    /// Set the span that a refill from list `j` scans first.
    pub(crate) fn set_hint(&mut self, j: usize, span: u32)
        requires
            old(self).wf(),
            j < old(self).lists().len(),
            span == NO_SPAN || span < old(self).kind().len(),
        ensures
            final(self).wf(),
            final(self).arena() == old(self).arena(),
            final(self).pool() == old(self).pool(),
            final(self).base() == old(self).base(),
            final(self).size() == old(self).size(),
            final(self).carved() == old(self).carved(),
            final(self).shards() == old(self).shards(),
            final(self).kind() == old(self).kind(),
            final(self).place() == old(self).place(),
            final(self).lists() == old(self).lists(),
            final(self).slab() == old(self).slab(),
            forall|s: int| #[trigger] final(self).tag(s) == old(self).tag(s),
            forall|k: int|
                0 <= k < old(self).lists().len() ==> #[trigger] final(self).hint(k) == (if k == j {
                    span
                } else {
                    old(self).hint(k)
                }),
    {
        self.hints.put(j, span);
    }

    /// The home shard of a span in use.
    pub(crate) fn home_shard(&self, span: u32) -> (s: u32)
        requires
            self.wf(),
            span < self.kind().len(),
            self.kind()[span as int] is Tile,
        ensures
            self.tag(span as int) is Some,
            s == self.tag(span as int).unwrap().1 as int % self.shards(),
    {
        proof {
            self.arena.lemma_carved();
            assert(tag_ok(&self.spans, self.kind@, self.arena.carved(), span as int));
            assert(kind_ok(self.kind@, self.arena.carved(), self.num_shards as int, span as int));
            lemma_tiling(self.kind@[span as int]->class);
        }
        let at: usize = self.bitmaps.span_base(span);
        (self.spans.home_relaxed(at) as u32) % self.num_shards
    }

    /// Pop the top cached object of class `class` from `cpu`'s stack, whatever
    /// its stop flag, and make it live.
    pub(crate) fn take_cached_from(&mut self, cpu: u32, class: usize) -> (r: Option<usize>)
        requires
            old(self).wf(),
            cpu < old(self).slab().cpus(),
            is_class(class as int),
        ensures
            final(self).wf(),
            final(self).same_spans(old(self)),
            final(self).slab().same_shape(&old(self).slab()),
            r.is_some() <==> old(self).slab().stack(cpu as int, class as int).len() > 0,
            r is None ==> *final(self) == *old(self),
            r matches Some(a) ==> {
                &&& a == old(self).slab().stack(cpu as int, class as int).last()
                &&& final(self).slab().stack(cpu as int, class as int) == old(self).slab().stack(
                    cpu as int,
                    class as int,
                ).drop_last()
                &&& final(self).slab().same_stacks_but(&old(self).slab(), cpu as int, class as int)
                &&& final(self).gained(old(self), a as int, class as int)
            },
    {
        let ghost before = *self;
        let ghost c = class as int;
        let ghost st = before.slab.stack(cpu as int, c);
        proof {
            if st.len() > 0 {
                assert(cached_ok(
                    &before.slab,
                    before.base(),
                    before.kind@,
                    before.place@,
                    cpu as int,
                    c,
                    st.len() - 1,
                ));
            }
        }
        let r = self.slab.pop_slot(cpu, class);
        proof {
            if r.is_some() {
                let a = r.unwrap();
                let base = self.arena.base();
                let s = span_index(base, a as int);
                let i = slot_index(base, a as int, c);
                self.slab.lemma_same_shape(&before.slab);
                lemma_tiling(c);
                self.place@ = moved(before.place@, s, i, Place::Live);
                self.lemma_take_cached(&before, cpu as int, c, a);
                assert forall|b: int, d: int| !(b == a && d == c) implies (#[trigger] self.live(b, d)
                    <==> before.live(b, d)) by {
                    if obj_at(base, self.kind@, b, d) {
                        lemma_moved(base, self.kind@, before.place@, a as int, c, Place::Live, b, d);
                    }
                }
                lemma_moved(base, self.kind@, before.place@, a as int, c, Place::Live, a as int, c);
            }
        }
        r
    }

    /// No stack of a size class holds a zero on top.
    pub(crate) proof fn lemma_cached_nonzero(&self, cpu: int, c: int)
        requires
            self.wf(),
            0 <= cpu < self.slab().cpus(),
            is_class(c),
            self.slab().stack(cpu, c).len() > 0,
        ensures
            self.slab().stack(cpu, c).last() != 0,
    {
        let k = self.slab.stack(cpu, c).len() - 1;
        assert(cached_ok(&self.slab, self.arena.base(), self.kind@, self.place@, cpu, c, k));
    }

    /// Set or clear a CPU's stop flag.
    pub(crate) fn set_stopped(&mut self, cpu: u32, stopped: bool)
        requires
            old(self).wf(),
        ensures
            final(self).wf(),
            final(self).same_spans(old(self)),
            final(self).place() == old(self).place(),
            final(self).slab().cpus() == old(self).slab().cpus(),
            forall|k: int, c: int| #[trigger] final(self).slab().stack(k, c) == old(self).slab().stack(k, c),
            forall|k: int|
                0 <= k < final(self).slab().cpus() ==> #[trigger] final(self).slab().is_stopped_at(k) == (if k
                    == cpu || (cpu >= final(self).slab().cpus() && k == final(self).slab().cpus() - 1) {
                    stopped
                } else {
                    old(self).slab().is_stopped_at(k)
                }),
    {
        let ghost before = *self;
        self.slab.set_stopped(cpu, stopped);
        proof {
            let base = self.arena.base();
            let kind = self.kind@;
            let place = self.place@;
            assert forall|k2: int, d: int, k: int|
                0 <= k2 < self.slab.cpus() && 0 <= d < NUM_CLASSES && 0 <= k < self.slab.stack(k2, d).len() implies #[trigger] cached_ok(
                &self.slab,
                base,
                kind,
                place,
                k2,
                d,
                k,
            ) by {
                assert(cached_ok(&before.slab, base, kind, place, k2, d, k));
            }
            assert forall|s: int, i: int| is_obj(kind, s, i) implies #[trigger] cache_entry(
                &self.slab,
                base,
                kind,
                place,
                s,
                i,
            ) by {
                assert(cache_entry(&before.slab, base, kind, place, s, i));
            }
        }
    }

    /// Number of CPU blocks of the slab.
    pub(crate) fn num_cpus(&self) -> (n: u32)
        ensures
            n == self.slab().cpus(),
    {
        self.slab.num_cpus()
    }

    /// A handle on the slab for a thread, its CPU resolved now.
    pub(crate) fn bind(&self, seen: ThreadView) -> (s: CpuStack)
        requires
            self.wf(),
        ensures
            s.seen() == seen,
            s.fits(self.slab().cpus()),
            s.bound(self.slab().cpus()) == bound_cpu(seen, self.slab().cpus()),
            s.serving(&self.slab()) == serving_cpu(seen, &self.slab()),
            0 <= s.serving(&self.slab()) < self.slab().cpus(),
    {
        let s = CpuStack::current(&self.slab, seen);
        proof {
            s.lemma_serving(&self.slab);
        }
        s
    }

    /// A handle on the slab for a thread, its CPU left to the fast path.
    pub(crate) fn bind_fast(&self, seen: ThreadView) -> (s: CpuStack)
        requires
            self.wf(),
        ensures
            s.seen() == seen,
            s.fits(self.slab().cpus()),
            s.bound(self.slab().cpus()) == bound_cpu(seen, self.slab().cpus()),
            s.serving(&self.slab()) == serving_cpu(seen, &self.slab()),
            0 <= s.serving(&self.slab()) < self.slab().cpus(),
    {
        let s = CpuStack::current_fast(&self.slab, seen);
        proof {
            s.lemma_serving(&self.slab);
        }
        s
    }

    /// The CPU a handle is bound to.
    pub(crate) fn cpu_of(&self, stack: &CpuStack) -> (cpu: u32)
        requires
            self.wf(),
            stack.fits(self.slab().cpus()),
        ensures
            cpu == stack.bound(self.slab().cpus()),
            cpu < self.slab().cpus(),
    {
        stack.cpu(&self.slab)
    }
}

proof fn lemma_multiple(x: int, y: int, m: int)
    requires
        m > 0,
        y % m == 0,
    ensures
        (x * y) % m == 0,
{
    vstd::arithmetic::div_mod::lemma_mul_mod_noop_right(x, y, m);
    assert(x * 0 == 0);
    vstd::arithmetic::div_mod::lemma_small_mod(0, m as nat);
}

impl Heap {
    /// Every tiled span is on the list of its shard and class.
    pub(crate) proof fn lemma_listed(&self, s: int)
        requires
            self.wf(),
            0 <= s < self.kind().len(),
            self.kind()[s] is Tile,
        ensures
            0 <= list_index(self.kind()[s]->shard, self.kind()[s]->class) < self.lists().len(),
            self.lists()[list_index(self.kind()[s]->shard, self.kind()[s]->class)].contains(s as u32),
            is_class(self.kind()[s]->class),
    {
        assert(kind_ok(self.kind@, self.arena.carved(), self.num_shards as int, s));
    }

    /// A span that belongs to another's group or run is behind its first one, which is
    /// tiled or the start of a run.
    pub(crate) proof fn lemma_tail(&self, s: int)
        requires
            self.wf(),
            0 <= s < self.kind().len(),
            self.kind()[s] is Tail,
        ensures
            0 <= self.kind()[s]->head < s,
            self.kind()[self.kind()[s]->head] is Tile || self.kind()[self.kind()[s]->head] is Big,
    {
        assert(kind_ok(self.kind@, self.arena.carved(), self.num_shards as int, s));
    }

    /// Every span of a list is tiled by the list's class.
    pub(crate) proof fn lemma_on_list(&self, j: int, k: int)
        requires
            self.wf(),
            0 <= j < self.lists().len(),
            0 <= k < self.lists()[j].len(),
        ensures
            self.lists()[j][k] < self.kind().len(),
            self.kind()[self.lists()[j][k] as int] is Tile,
            list_index(
                self.kind()[self.lists()[j][k] as int]->shard,
                self.kind()[self.lists()[j][k] as int]->class,
            ) == j,
    {
        assert(list_ok(&self.bitmaps, self.heads@, self.lists@, self.kind@, j));
        assert(link_ok(&self.bitmaps, self.lists@[j], self.kind@, j, k));
    }

    pub(crate) proof fn lemma_released_trans(&self, mid: &Heap, first: &Heap)
        requires
            self.released_from(mid),
            mid.released_from(first),
        ensures
            self.released_from(first),
    {
        assert forall|b: int, d: int| #[trigger] self.live(b, d) <==> first.live(b, d) by {
            assert(mid.live(b, d) <==> first.live(b, d));
        }
        assert forall|b: int, len: int| #[trigger] self.live_run(b, len) <==> first.live_run(b, len) by {
            assert(mid.live_run(b, len) <==> first.live_run(b, len));
        }
        assert forall|s: int| 0 <= s < first.kind().len() implies #[trigger] self.kind()[s]
            == first.kind()[s] || self.kind()[s] is Loose by {
            assert(mid.kind()[s] == first.kind()[s] || mid.kind()[s] is Loose);
        }
    }

    /// No span of list `j` is fully free.
    pub open spec fn cell_swept(&self, j: int) -> bool {
        forall|k: int|
            0 <= k < self.lists()[j].len() ==> !fully_free(
                self.kind(),
                self.place(),
                #[trigger] self.lists()[j][k] as int,
            )
    }

    /// Take fully free span groups of every list out of use, `cap` at a time,
    /// going on with a list while it yields a full pass. Returns how many.
    #[verifier::rlimit(40)]
    pub(crate) fn reclaim_all(&mut self, cap: usize) -> (n: usize)
        requires
            old(self).wf(),
            1 <= cap <= SWEEP_MAX,
        ensures
            final(self).wf(),
            final(self).reclaimed(old(self)),
            n == free_groups(old(self).kind(), old(self).place(), old(self).kind().len() as int),
            forall|s: int|
                0 <= s < final(self).kind().len() ==> !#[trigger] fully_free(
                    final(self).kind(),
                    final(self).place(),
                    s,
                ),
    {
        let ghost before = *self;
        let cells: usize = (self.num_shards as usize) * NUM_CLASSES;
        let ghost total = before.kind@.len() as int;
        let mut reclaimed: usize = 0;
        let mut j: usize = 0;
        proof {
            self.lemma_lens();
            lemma_tiles_bound(before.kind@, total);
        }
        proof {
            self.lemma_partly_refl();
        }
        while j < cells
            invariant
                self.wf(),
                1 <= cap <= SWEEP_MAX,
                total == before.kind@.len(),
                total < NO_SPAN,
                tiles(before.kind@, total) <= total,
                cells == self.lists().len(),
                cells == self.num_shards * NUM_CLASSES,
                j <= cells,
                self.partly_reclaimed(&before),
                before.wf(),
                reclaimed == tiles(before.kind@, total) - tiles(self.kind@, total),
                forall|q: int|
                    0 <= q < j && is_class(q % NUM_CLASSES as int) ==> #[trigger] self.cell_swept(q),
            decreases cells - j,
        {
            let class: usize = j % NUM_CLASSES;
            if class != 0 {
                let mut more: bool = true;
                while more
                    invariant
                        self.wf(),
                        1 <= cap <= SWEEP_MAX,
                        class == j % NUM_CLASSES,
                        is_class(class as int),
                        total == before.kind@.len(),
                        total < NO_SPAN,
                        tiles(before.kind@, total) <= total,
                        cells == self.lists().len(),
                        cells == self.num_shards * NUM_CLASSES,
                        j < cells,
                        self.partly_reclaimed(&before),
                        before.wf(),
                        reclaimed == tiles(before.kind@, total) - tiles(self.kind@, total),
                        forall|q: int|
                            0 <= q < j && is_class(q % NUM_CLASSES as int) ==> #[trigger] self.cell_swept(q),
                        !more ==> self.cell_swept(j as int),
                    decreases self.lists@[j as int].len(), (if more { 1int } else { 0 }),
                {
                    let ghost cur = *self;
                    proof {
                        lemma_tiles_bound(cur.kind@, total);
                    }
                    let got: usize = self.reclaim_cell(j, class, cap);
                    proof {
                        lemma_tiles_bound(self.kind@, total);
                        self.lemma_partly_trans(&cur, &before);
                        let left = self.lists@[j as int];
                        lemma_swept(
                            cur.kind@,
                            cur.place@,
                            cur.lists@[j as int],
                            sweep_limit(cap as int),
                        );
                        assert forall|q: int| 0 <= q < j && is_class(q % NUM_CLASSES as int) implies #[trigger] self.cell_swept(
                            q,
                        ) by {
                            assert(cur.cell_swept(q));
                            assert(self.lists()[q] == cur.lists()[q]);
                            assert forall|k: int| 0 <= k < self.lists()[q].len() implies !fully_free(
                                self.kind(),
                                self.place(),
                                #[trigger] self.lists()[q][k] as int,
                            ) by {
                                cur.lemma_on_list(q, k);
                                let s = cur.lists()[q][k] as int;
                                assert(!fully_free(cur.kind(), cur.place(), s));
                                assert(self.kind()[s] == cur.kind()[s]);
                            }
                        }
                        if got < cap {
                            assert forall|k: int| 0 <= k < left.len() implies !fully_free(
                                self.kind(),
                                self.place(),
                                #[trigger] self.lists()[j as int][k] as int,
                            ) by {
                                assert(!fully_free(cur.kind@, cur.place@, left[k] as int));
                                assert(self.kind()[left[k] as int] == cur.kind()[left[k] as int]);
                            }
                        }
                    }
                    reclaimed = reclaimed + got;
                    if got < cap {
                        more = false;
                    }
                }
            }
            j = j + 1;
        }
        proof {
            assert forall|s: int| 0 <= s < self.kind().len() implies !#[trigger] fully_free(
                self.kind(),
                self.place(),
                s,
            ) by {
                if self.kind()[s] is Tile {
                    self.lemma_listed(s);
                    let q = list_index(self.kind()[s]->shard, self.kind()[s]->class);
                    assert(q % NUM_CLASSES as int == self.kind()[s]->class);
                    assert(self.cell_swept(q));
                    let k = self.lists()[q].index_of(s as u32);
                    assert(self.lists()[q][k] == s as u32);
                }
            }
            self.lemma_all_reclaimed(&before);
        }
        reclaimed
    }
}

impl Heap {
    /// No run of more spans than the grid has can be had.
    pub(crate) proof fn lemma_too_large(&self, count: int)
        requires
            self.wf(),
        ensures
            count > u32::MAX ==> !self.run_available(count),
    {
        self.arena.lemma_carved();
        self.pool.lemma_stack_count();
        if count > u32::MAX {
            crate::spanpool::lemma_first_nonempty(self.pool.stacks(), count);
        }
    }

    /// A span of the grid starts inside the arena.
    pub(crate) proof fn lemma_span_addr(&self, s: int)
        requires
            self.wf(),
            0 <= s < self.carved(),
        ensures
            self.base() + (s + 1) * SPAN_BYTES <= self.base() + self.size() <= usize::MAX,
            span_index(self.base(), self.base() + s * SPAN_BYTES) == s,
    {
        self.arena.lemma_carved();
    }

    /// Base address of a span.
    pub(crate) fn span_addr(&self, s: u32) -> (a: usize)
        requires
            self.wf(),
            s < self.kind().len(),
        ensures
            a == self.base() + s * SPAN_BYTES,
    {
        proof {
            self.bitmaps.lemma_span_base(s as int);
        }
        self.bitmaps.span_base(s)
    }

    /// A live run lies in the arena.
    pub proof fn lemma_run_bounds(&self, a: int, len: int)
        requires
            self.wf(),
            self.live_run(a, len),
        ensures
            1 <= len,
            self.base() <= a,
            a + len * SPAN_BYTES <= self.base() + self.size(),
            span_index(self.base(), a) + len <= self.carved() <= self.kind().len(),
            self.base() + self.size() <= usize::MAX,
    {
        let s = span_index(self.base(), a);
        self.arena.lemma_carved();
        assert(kind_ok(self.kind@, self.arena.carved(), self.num_shards as int, s));
    }
}

impl Heap {
    /// The groups or runs that start at two different spans do not overlap.
    proof fn lemma_groups_apart(&self, s: int, t: int)
        requires
            self.wf(),
            0 <= s < t < self.kind().len(),
            self.kind()[s] is Tile || self.kind()[s] is Big,
            self.kind()[t] is Tile || self.kind()[t] is Big,
        ensures
            s + run_len(self.kind()[s]) <= t,
    {
        assert(kind_ok(self.kind@, self.arena.carved(), self.num_shards as int, s));
        if t < s + run_len(self.kind@[s]) {
            assert(self.kind@[t] == (SpanKind::Tail { head: s }));
        }
    }

    /// No two objects overlap, whatever their classes.
    pub proof fn lemma_objects_disjoint(&self, a: int, c: int, b: int, d: int)
        requires
            self.wf(),
            self.is_object(a, c),
            self.is_object(b, d),
            !(a == b && c == d),
        ensures
            a + class_size(c) <= b || b + class_size(d) <= a,
    {
        let base = self.base();
        let (s, i) = (span_index(base, a), slot_index(base, a, c));
        let (t, j) = (span_index(base, b), slot_index(base, b, d));
        lemma_tiling(c);
        lemma_tiling(d);
        lemma_locate(base, s, i, c);
        lemma_locate(base, t, j, d);
        if s == t {
            if i < j {
                lemma_slots_apart(i, j, class_size(c));
            } else if j < i {
                lemma_slots_apart(j, i, class_size(c));
            }
        } else if s < t {
            self.lemma_groups_apart(s, t);
            assert(0 <= j * class_size(d));
        } else {
            self.lemma_groups_apart(t, s);
            assert(0 <= i * class_size(c));
        }
    }

    /// No object overlaps a live large run.
    pub proof fn lemma_object_run_disjoint(&self, a: int, c: int, b: int, len: int)
        requires
            self.wf(),
            self.is_object(a, c),
            self.live_run(b, len),
        ensures
            a + class_size(c) <= b || b + len * SPAN_BYTES <= a,
    {
        let base = self.base();
        let (s, i) = (span_index(base, a), slot_index(base, a, c));
        let t = span_index(base, b);
        lemma_tiling(c);
        lemma_locate(base, s, i, c);
        if s < t {
            self.lemma_groups_apart(s, t);
        } else {
            self.lemma_groups_apart(t, s);
        }
    }

    /// No two live large runs overlap.
    pub proof fn lemma_runs_disjoint(&self, a: int, m: int, b: int, n: int)
        requires
            self.wf(),
            self.live_run(a, m),
            self.live_run(b, n),
            a != b,
        ensures
            a + m * SPAN_BYTES <= b || b + n * SPAN_BYTES <= a,
    {
        let s = span_index(self.base(), a);
        let t = span_index(self.base(), b);
        if s < t {
            self.lemma_groups_apart(s, t);
        } else {
            self.lemma_groups_apart(t, s);
        }
    }

    /// The tag of the span that holds an object names its class, so a free needs
    /// the address alone; the tag of a large run's first span says so.
    pub proof fn lemma_tag_recovers(&self, a: int, c: int)
        requires
            self.wf(),
        ensures
            self.is_object(a, c) ==> self.tag(span_index(self.base(), a)) is Some && self.tag(
                span_index(self.base(), a),
            ).unwrap().0 == c,
            forall|len: int| #[trigger]
                self.live_run(a, len) ==> self.tag(span_index(self.base(), a)) is Some && self.tag(
                    span_index(self.base(), a),
                ).unwrap().0 == LARGE_CLASS,
    {
        let s = span_index(self.base(), a);
        self.arena.lemma_carved();
        if self.is_object(a, c) {
            self.lemma_object_bounds(a, c);
            assert(tag_ok(&self.spans, self.kind@, self.arena.carved(), s));
        }
        assert forall|len: int| #[trigger] self.live_run(a, len) implies self.tag(s) is Some && self.tag(
            s,
        ).unwrap().0 == LARGE_CLASS by {
            self.lemma_run_bounds(a, len);
            assert(tag_ok(&self.spans, self.kind@, self.arena.carved(), s));
        }
    }

    /// An object is aligned to every power of two (up to a span) that divides its
    /// class's size, as far as the arena's base is; and always to eight bytes.
    pub proof fn lemma_object_aligned(&self, a: int, c: int, align: int)
        requires
            self.wf(),
            self.is_object(a, c),
            align > 0,
            class_size(c) % align == 0,
            SPAN_BYTES as int % align == 0,
            self.base() % align == 0,
        ensures
            a % align == 0,
    {
        let s = span_index(self.base(), a);
        let i = slot_index(self.base(), a, c);
        let z = class_size(c);
        let base = self.base();
        let span = SPAN_BYTES as int;
        lemma_multiple(s, span, align);
        lemma_multiple(i, z, align);
        vstd::arithmetic::div_mod::lemma_add_mod_noop(base, s * span, align);
        vstd::arithmetic::div_mod::lemma_add_mod_noop(base + s * span, i * z, align);
        vstd::arithmetic::div_mod::lemma_small_mod(0, align as nat);
    }

    /// No stack holds more than its class's capacity.
    pub proof fn lemma_stack_bound(&self, cpu: int, c: int)
        requires
            self.wf(),
            0 <= cpu < self.slab().cpus(),
            0 <= c < NUM_CLASSES,
        ensures
            self.slab().stack(cpu, c).len() <= self.slab().cap(c),
    {
        self.slab.lemma_stack_bound(cpu, c);
    }

    /// What was carved never exceeds the arena.
    pub proof fn lemma_carved_bounded(&self)
        requires
            self.wf(),
        ensures
            0 <= self.carved() * SPAN_BYTES <= self.size(),
    {
        self.arena.lemma_carved();
    }

    /// The pool keeps its own invariant, over the spans of the arena.
    pub proof fn lemma_pool(&self)
        requires
            self.wf(),
        ensures
            self.pool().wf(),
            self.arena().wf(),
            self.pool().span_count() == if self.kind().len() == 0 {
                1
            } else {
                self.kind().len() as int
            },
            forall|s: int| #[trigger]
                self.pool().covers(s) <==> 0 <= s < self.carved() && self.kind()[s] is Loose,
    {
    }

    /// Every span of the carved part is in exactly one place: in the pool, or in
    /// a group or run that is in use. None is lost.
    pub proof fn lemma_no_span_lost(&self, s: int)
        requires
            self.wf(),
            0 <= s < self.carved(),
        ensures
            self.pool().covers(s) <==> self.kind()[s] is Loose,
            self.kind()[s] matches SpanKind::Tail { head } ==> 0 <= head < s && s < head + run_len(
                self.kind()[head],
            ) && (self.kind()[head] is Tile || self.kind()[head] is Big),
    {
        self.lemma_lens();
        assert(kind_ok(self.kind@, self.arena.carved(), self.num_shards as int, s));
    }
}

impl Heap {
    /// Where no fully free span is bound to a class, a carved span without a live
    /// or cached object and outside every large run is in the pool.
    pub proof fn lemma_swept_clean(&self, s: int)
        requires
            self.wf(),
            0 <= s < self.carved(),
            forall|t: int|
                0 <= t < self.kind().len() ==> !#[trigger] fully_free(self.kind(), self.place(), t),
            forall|a: int, c: int| !#[trigger] self.live(a, c),
            forall|a: int, len: int| !#[trigger] self.live_run(a, len),
            forall|cpu: int, c: int|
                0 <= cpu < self.slab().cpus() && 0 <= c < NUM_CLASSES ==> (
                #[trigger] self.slab().stack(cpu, c)).len() == 0,
        ensures
            self.pool().covers(s),
    {
        self.lemma_lens();
        self.lemma_no_span_lost(s);
        let h = match self.kind()[s] {
            SpanKind::Tail { head } => head,
            _ => s,
        };
        self.lemma_span_addr(h);
        match self.kind()[h] {
            SpanKind::Big { len } => {
                assert(self.live_run(self.base() + h * SPAN_BYTES, len));
            },
            SpanKind::Tile { class, shard } => {
                assert(kind_ok(self.kind@, self.arena.carved(), self.num_shards as int, h));
                assert(!fully_free(self.kind(), self.place(), h));
                let i = choose|i: int|
                    0 <= i < slots_of(class) && (#[trigger] self.place()[h][i]) !is Free;
                assert(is_obj(self.kind(), h, i));
                lemma_slot_is_obj(self.base(), self.kind(), h, i);
                assert(cache_entry(&self.slab, self.arena.base(), self.kind@, self.place@, h, i));
                assert(!self.live(slot_addr(self.base(), h, i, class), class));
                if let Place::Cached { cpu, pos } = self.place()[h][i] {
                    assert(self.slab().stack(cpu, class).len() == 0);
                }
            },
            _ => {},
        }
    }

    /// The uses of the spans are consistent.
    pub(crate) proof fn lemma_kinds(&self)
        requires
            self.wf(),
        ensures
            kinds_ok(self.kind(), self.carved(), self.shards()),
            self.kind().len() < NO_SPAN,
            0 <= self.base(),
    {
    }

    /// The CPU that serves a thread's stack handle is one of the slab's.
    pub(crate) proof fn lemma_stack_range(&self, stack: &CpuStack)
        requires
            self.wf(),
            stack.fits(self.slab().cpus()),
        ensures
            0 <= stack.serving(&self.slab()) < self.slab().cpus(),
    {
        stack.lemma_serving(&self.slab);
    }

    /// The CPU that serves a thread is one of the slab's, which has a stack for each
    /// class.
    pub proof fn lemma_serving_range(&self, seen: ThreadView)
        requires
            self.wf(),
        ensures
            0 <= serving_cpu(seen, &self.slab()) < self.slab().cpus(),
            self.slab().class_count() == NUM_CLASSES,
    {
        self.slab.lemma_bound_range(seen);
        crate::rseq::restart::lemma_committed_in_range(seen.attempts@, self.slab.cpus(), 0);
    }
}

} // verus!
