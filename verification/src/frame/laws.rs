//! What the frame pool's counts and movements come to.
//!
//! Frames lie side by side from the start of the region. A frame that is handed out leaves
//! one stack, a frame that is freed joins one, and what moves between the stacks besides is
//! neither lost nor doubled.

use vstd::prelude::*;
use crate::bits::is_pow2;
use crate::frame::cache::FrameCache;
use crate::frame::frames::{
    cached_count, cached_total, central_count, out_count, refill_moves, top_down, FramePlace,
    Frames,
};
use crate::frame::{
    built, occurrences, tables_fit, Frame, FrameMeta, FramePool, FramePoolError, Reclaim, RefCount,
    Region,
};
use crate::rseq::abi::ThreadView;
use crate::rseq::slab::SlabLayout;

verus! {

impl Frames {
    /// Frame `i` starts `i` times a frame's size behind the start of the region.
    pub proof fn lemma_frame_at(&self, i: int)
        requires
            self.size() > 0,
            0 <= i < self.count(),
        ensures
            self.is_frame(self.base() + i * self.size()),
            self.number(self.base() + i * self.size()) == i,
    {
        vstd::arithmetic::div_mod::lemma_div_by_multiple(i, self.size());
    }

    /// A frame that is handed out leaves the CPU's stack, or else the central one, from the
    /// top. In the second case the frames under it move to the CPU's stack, topmost first,
    /// fewer than 32 of them and all that there are unless it is 31; and nothing else moves.
    pub proof fn lemma_popped(&self, other: &Frames, cpu: int, a: usize)
        requires
            other.wf(),
            0 <= cpu < other.slab().cpus(),
            self.popped_from(other, cpu, Some(a)),
        ensures
            self.central().len() + self.cached(cpu).len() + 1 == other.central().len()
                + other.cached(cpu).len(),
            other.cached(cpu).len() > 0 ==> a == other.cached(cpu).last() && self.central()
                == other.central() && self.cached(cpu).len() == other.cached(cpu).len() - 1,
            other.cached(cpu).len() == 0 ==> {
                let c = other.central();
                let m = self.cached(cpu).len();
                &&& a == c.last()
                &&& m <= 31
                &&& m == 31 || m == c.len() - 1
                &&& forall|k: int| 0 <= k < m ==> #[trigger] self.cached(cpu)[k] == c[c.len() - 2 - k]
                &&& self.central() == c.take(c.len() - 1 - m)
            },
    {
        other.lemma_running(cpu);
        let c = other.central();
        if other.cached(cpu).len() == 0 {
            let m = refill_moves(c.len() as int, other.room(cpu));
            lemma_refill_moves(c.len() as int, other.room(cpu));
            lemma_top_down(c.drop_last(), m);
        }
    }

    /// No frame is handed out only where there is none on the CPU's stack, nor on the central
    /// one; and then nothing changes.
    pub proof fn lemma_none_popped(&self, other: &Frames, cpu: int)
        requires
            other.wf(),
            0 <= cpu < other.slab().cpus(),
            self.popped_from(other, cpu, None),
        ensures
            other.cached(cpu).len() == 0,
            other.central().len() == 0,
            *self == *other,
    {
        other.lemma_running(cpu);
    }

    /// A frame that is freed goes on top of the CPU's stack. One that holds 256 gives 16 to
    /// the central stack first, topmost first.
    pub proof fn lemma_pushed(&self, other: &Frames, cpu: int, a: usize)
        requires
            other.wf(),
            0 <= cpu < other.slab().cpus(),
            self.pushed_onto(other, cpu, a),
        ensures
            self.central().len() + self.cached(cpu).len() == other.central().len() + other.cached(
                cpu,
            ).len() + 1,
            self.cached(cpu).len() > 0,
            self.cached(cpu).last() == a,
            other.cached(cpu).len() < 256 ==> self.central() == other.central(),
            other.cached(cpu).len() == 256 ==> {
                &&& self.cached(cpu).len() == 241
                &&& forall|k: int|
                    0 <= k < 240 ==> #[trigger] self.cached(cpu)[k] == other.cached(cpu)[k]
                &&& forall|k: int|
                    0 <= k < 16 ==> #[trigger] self.central()[other.central().len() + k]
                        == other.cached(cpu)[255 - k]
            },
    {
        other.lemma_running(cpu);
        if other.cached(cpu).len() == 256 {
            lemma_top_down(other.cached(cpu), 16);
        }
    }
}

/// A refill moves as many frames as there are besides the one it hands out, up to 31 and to
/// the room there is.
pub proof fn lemma_refill_moves(len: int, room: int)
    requires
        1 <= len,
        0 <= room,
    ensures
        0 <= refill_moves(len, room) <= 31,
        refill_moves(len, room) <= room,
        refill_moves(len, room) <= len - 1,
        refill_moves(len, room) == 31 || refill_moves(len, room) == room || refill_moves(len, room)
            == len - 1,
{
}

/// The last frames of a stack, from the top down.
pub proof fn lemma_top_down(st: Seq<usize>, m: int)
    requires
        0 <= m <= st.len(),
    ensures
        top_down(st, m).len() == m,
        forall|k: int| 0 <= k < m ==> #[trigger] top_down(st, m)[k] == st[st.len() - 1 - k],
{
}

/// The frames that are counted as being somewhere are just those that are marked so.
pub proof fn lemma_place_counts(place: Seq<FramePlace>, cpu: int)
    ensures
        central_count(place, place.len() as int) == place.filter(|p: FramePlace| p is Central).len(),
        out_count(place, place.len() as int) == place.filter(|p: FramePlace| p is Out).len(),
        cached_count(place, cpu, place.len() as int) == place.filter(
            |p: FramePlace| p matches FramePlace::Cached { cpu: c, .. } && c == cpu,
        ).len(),
    decreases place.len(),
{
    reveal(Seq::filter);
    if place.len() > 0 {
        let rest = place.drop_last();
        lemma_place_counts(rest, cpu);
        lemma_counts_prefix(rest, place, cpu, rest.len() as int);
    }
}

proof fn lemma_counts_prefix(a: Seq<FramePlace>, b: Seq<FramePlace>, cpu: int, n: int)
    requires
        n <= a.len() <= b.len(),
        forall|i: int| 0 <= i < a.len() ==> #[trigger] a[i] == b[i],
    ensures
        central_count(a, n) == central_count(b, n),
        out_count(a, n) == out_count(b, n),
        cached_count(a, cpu, n) == cached_count(b, cpu, n),
    decreases n,
{
    if n > 0 {
        lemma_counts_prefix(a, b, cpu, n - 1);
        assert(a[n - 1] == b[n - 1]);
    }
}

/// The frames on the CPUs' stacks are those of each stack, added up.
pub proof fn lemma_cached_total(slab: &SlabLayout, n: nat)
    ensures
        cached_total(slab, n as int) == Seq::new(n, |k: int| slab.stack(k, 0).len() as int).fold_left(
            0int,
            |x: int, y: int| x + y,
        ),
    decreases n,
{
    if n > 0 {
        let m = (n - 1) as nat;
        lemma_cached_total(slab, m);
        assert(Seq::new(n, |k: int| slab.stack(k, 0).len() as int).drop_last() =~= Seq::new(
            m,
            |k: int| slab.stack(k, 0).len() as int,
        ));
    }
}

/// A refill of a cache takes 16 frames, or all that there are.
pub proof fn lemma_refill_count(available: int)
    requires
        0 <= available,
    ensures
        0 <= FrameCache::refill_count(available) <= 16,
        FrameCache::refill_count(available) <= available,
        FrameCache::refill_count(available) == 16 || FrameCache::refill_count(available) == available,
{
}

/// The frame that was freed last through a cache is the next one that it hands out, and
/// neither leaves the pool's stacks any different.
pub proof fn lemma_cache_reuses<M: FrameMeta>(
    first: &FrameCache,
    mid: &FrameCache,
    last: &FrameCache,
    before: &FramePool<M>,
    freed: &FramePool<M>,
    served: &FramePool<M>,
    seen: ThreadView,
    f: Frame,
    g: Frame,
)
    requires
        mid.took(first, freed, before, seen, f),
        last.gave(mid, served, freed, seen, g),
        0 <= f.addr() <= usize::MAX,
    ensures
        g.addr() == f.addr(),
        served.frames() == freed.frames(),
        first@.len() < 32 ==> last@ == first@ && served.frames() == before.frames(),
        first@.len() >= 32 ==> last@ == first@.take(16),
{
    assert(mid@.last() == f.addr() as usize);
    assert(mid@.drop_last() =~= last@);
    if first@.len() < 32 {
        assert(last@ =~= first@);
    } else {
        assert(last@ =~= first@.take(16));
    }
}

/// A pool is built exactly where the frame size is a power of two and the region holds one
/// frame; it then has as many as the region holds, from its start on, all of them free and
/// the last one on top. An error names what it is about.
pub proof fn lemma_built<M: FrameMeta>(
    region: Region,
    frame_size: int,
    num_cpus: int,
    r: Result<FramePool<M>, FramePoolError>,
)
    requires
        built(region, frame_size, num_cpus, r),
        0 <= region.size() <= usize::MAX,
        0 <= frame_size <= usize::MAX,
        region.start() + region.size() <= usize::MAX,
        0 <= region.start(),
        0 <= num_cpus,
    ensures
        r is Ok <==> is_pow2(frame_size) && frame_size <= region.size(),
        r matches Ok(p) ==> {
            let n = p.frames().count();
            &&& 1 <= n
            &&& n * frame_size <= region.size() < (n + 1) * frame_size
            &&& p.frames().base() == region.start()
            &&& p.frames().size() == frame_size
            &&& p.frames().central().len() == n
            &&& forall|i: int|
                0 <= i < n ==> #[trigger] p.frames().central()[i] == region.start() + i * frame_size
            &&& p.frames().slab().cpus() >= 1 && p.frames().slab().cpus() >= num_cpus
        },
        r matches Err(FramePoolError::FrameSizeNotPow2(x)) ==> !is_pow2(frame_size) && x == frame_size,
        r matches Err(FramePoolError::RegionTooSmall { len, frame_size: z }) ==> len == region.size()
            && z == frame_size && len < z,
        !(r matches Err(FramePoolError::Reserve(_))),
{
    if is_pow2(frame_size) && frame_size <= region.size() {
        let k = choose|k: nat| frame_size == #[trigger] vstd::arithmetic::power2::pow2(k);
        vstd::arithmetic::power2::lemma_pow2_pos(k);
        let len = region.size();
        let n = len / frame_size;
        assert(n * frame_size <= len < (n + 1) * frame_size && n >= 1) by (nonlinear_arith)
            requires
                n == len / frame_size,
                0 < frame_size <= len,
        ;
        let p = r->Ok_0;
        assert forall|i: int| 0 <= i < n implies #[trigger] p.frames().central()[i] == region.start()
            + i * frame_size by {
            assert(0 <= i * frame_size <= n * frame_size) by (nonlinear_arith)
                requires
                    0 <= i < n,
                    frame_size > 0,
            ;
        }
    }
}

/// A counted frame is handed out with one reference. Each release takes one off; the frame
/// is kept while any is left, and is free with the last.
pub proof fn lemma_counted_release(was: RefCount, now: RefCount, r: Reclaim)
    ensures
        was.allocated(&now) ==> now.strong() == 1 && now.refs() == 1,
        was.released(&now, r) && was.strong() > 1 ==> r is Keep && now.strong() == was.strong() - 1
            && now.refs() == was.refs() - 1,
        was.released(&now, r) && was.strong() == 1 ==> r is Free && now.strong() == 0,
{
}

/// A frame occurs in a list as often as the list names it.
pub proof fn lemma_occurrences(frames: Seq<Frame>, a: int)
    ensures
        occurrences(frames, 0, a) == frames.filter(|f: Frame| f.addr() == a).len(),
    decreases frames.len(),
{
    reveal(Seq::filter);
    if frames.len() > 0 {
        let rest = frames.drop_last();
        lemma_occurrences(rest, a);
        lemma_occurrences_last(frames, 0, a);
    }
}

proof fn lemma_occurrences_last(frames: Seq<Frame>, k: int, a: int)
    requires
        frames.len() > 0,
        0 <= k <= frames.len() - 1,
    ensures
        occurrences(frames, k, a) == occurrences(frames.drop_last(), k, a) + if frames.last().addr()
            == a {
            1int
        } else {
            0int
        },
    decreases frames.len() - k,
{
    if k < frames.len() - 1 {
        lemma_occurrences_last(frames, k + 1, a);
        assert(frames.drop_last()[k] == frames[k]);
    } else {
        assert(occurrences(frames, k + 1, a) == 0);
    }
}

/// The tables of a pool fit wherever a word per byte of its region would, and so would a page
/// per CPU; of a pool that is built they have a word per frame.
pub proof fn lemma_tables_fit(len: int, frame_size: int, num_cpus: int)
    requires
        0 <= len,
        0 <= frame_size,
        0 <= num_cpus,
    ensures
        len <= isize::MAX as int / 16 && num_cpus * 512 <= isize::MAX as int / 16 ==> tables_fit(
            len,
            frame_size,
            num_cpus,
        ),
        !is_pow2(frame_size) || len < frame_size ==> tables_fit(len, frame_size, num_cpus),
        tables_fit(len, frame_size, num_cpus) && is_pow2(frame_size) && frame_size <= len ==> len
            / frame_size <= isize::MAX as int / 16,
{
    if is_pow2(frame_size) {
        let k = choose|k: nat| frame_size == #[trigger] vstd::arithmetic::power2::pow2(k);
        vstd::arithmetic::power2::lemma_pow2_pos(k);
        assert(len / frame_size <= len) by (nonlinear_arith)
            requires
                frame_size >= 1,
                len >= 0,
        ;
    }
}

} // verus!
