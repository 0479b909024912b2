//! A pool of fixed-size frames with out-of-band metadata.
//!
//! A region is divided into equal frames of a power-of-two size. Each frame has
//! a slot in a parallel array of metadata, found by the frame's index. Nothing
//! about a frame is kept in its body, so that a device may write over all of it.
//! Any CPU may free any frame: frames have no home.

pub mod buf;
pub mod cache;
pub mod frames;
pub mod handle;
pub mod laws;
pub mod named;

use vstd::prelude::*;
use vstd::string::StringExecFns;
use crate::bits::{exact_log2, is_pow2};
use crate::frame::frames::{out_count, Frames};
use crate::rseq::abi::ThreadView;
use crate::rseq::slab::{serving_cpu, CpuStack, SlabLayout};
use crate::sys::diag::{append_dec, dec_text};
use crate::sys::max_elements;
use crate::sys::reserve::{Reservation, ReserveError, ReserveOpts};

verus! {

/// What a release of a frame asks the pool to do.
#[derive(Clone, Copy, Debug, PartialEq, Eq, Structural)]
pub enum Reclaim {
    /// Take the frame back: nothing refers to it any more.
    Free,
    /// Leave the frame out: other references remain.
    Keep,
}

/// Metadata of a frame, and when its release reclaims it. `Default` gives the
/// value of a frame that was never handed out.
pub trait FrameMeta: Default {
    /// What a hand-out does to the metadata; anything, unless an implementation
    /// says more.
    open spec fn allocated(&self, after: &Self) -> bool {
        true
    }

    /// What a release does to the metadata, and what it asks for; anything, unless
    /// an implementation says more.
    open spec fn released(&self, after: &Self, r: Reclaim) -> bool {
        true
    }

    /// A number of releases that the metadata is good for: while it is above one,
    /// a release keeps the frame and takes one off it.
    open spec fn refs(&self) -> int {
        1
    }

    /// The frame is handed out.
    fn on_alloc(&mut self)
        ensures
            old(self).allocated(final(self)),
    ;

    /// One reference to the frame is released.
    fn on_free(&mut self) -> (r: Reclaim)
        ensures
            old(self).released(final(self), r),
            old(self).refs() > 1 ==> r is Keep && final(self).refs() == old(self).refs() - 1,
    ;
}

/// The trivial policy: a frame has one owner, and a free reclaims it.
impl FrameMeta for () {
    open spec fn allocated(&self, after: &Self) -> bool {
        true
    }

    open spec fn released(&self, after: &Self, r: Reclaim) -> bool {
        r is Free
    }

    open spec fn refs(&self) -> int {
        1
    }

    fn on_alloc(&mut self) {
    }

    fn on_free(&mut self) -> (r: Reclaim) {
        Reclaim::Free
    }
}

/// A reference count: a hand-out sets it to one, and the release of the last
/// reference reclaims the frame.
#[derive(Debug)]
pub struct RefCount(usize);

impl RefCount {
    pub closed spec fn strong(&self) -> usize {
        self.0
    }

    /// Take one more reference.
    pub fn retain(&mut self)
        ensures
            final(self).strong() == old(self).strong().wrapping_add(1),
    {
        self.0 = self.0.wrapping_add(1);
    }

    /// Release one reference: `Free` if it was the last one.
    pub fn release(&mut self) -> (r: Reclaim)
        ensures
            final(self).strong() == old(self).strong().wrapping_sub(1),
            r is Free <==> old(self).strong() == 1,
    {
        let before: usize = self.0;
        self.0 = before.wrapping_sub(1);
        if before != 1 {
            return Reclaim::Keep;
        }
        Reclaim::Free
    }

    /// The number of references.
    pub fn count(&self) -> (n: usize)
        ensures
            n == self.strong(),
    {
        self.0
    }
}

impl Default for RefCount {
    fn default() -> (r: Self)
        ensures
            r.strong() == 0,
    {
        RefCount(0)
    }
}

impl FrameMeta for RefCount {
    open spec fn allocated(&self, after: &Self) -> bool {
        after.strong() == 1
    }

    open spec fn released(&self, after: &Self, r: Reclaim) -> bool {
        &&& after.strong() == self.strong().wrapping_sub(1)
        &&& r is Free <==> self.strong() == 1
    }

    open spec fn refs(&self) -> int {
        self.strong() as int
    }

    fn on_alloc(&mut self) {
        self.0 = 1;
    }

    fn on_free(&mut self) -> (r: Reclaim) {
        self.release()
    }
}

/// The memory that a pool divides.
#[derive(Debug)]
pub enum Region {
    /// Memory of the pool's own.
    Owned(Reservation),
    /// Memory that belongs to the caller, such as one registered with a device.
    Borrowed { base: usize, len: usize },
}

impl Region {
    pub open spec fn start(&self) -> int {
        match *self {
            Region::Owned(r) => r.start(),
            Region::Borrowed { base, len: _ } => base as int,
        }
    }

    pub open spec fn size(&self) -> int {
        match *self {
            Region::Owned(r) => r.size(),
            Region::Borrowed { base: _, len } => len as int,
        }
    }

    /// Memory that exists: not at address zero, and inside the address space.
    pub open spec fn wf(&self) -> bool {
        0 < self.start() && self.start() + self.size() <= usize::MAX
    }

    fn base(&self) -> (b: usize)
        ensures
            b == self.start(),
    {
        match self {
            Region::Owned(r) => r.as_ptr(),
            Region::Borrowed { base, len: _ } => *base,
        }
    }

    fn len(&self) -> (n: usize)
        ensures
            n == self.size(),
    {
        match self {
            Region::Owned(r) => r.len(),
            Region::Borrowed { base: _, len } => *len,
        }
    }
}

/// A frame that was handed out: its first address. Whose it is, is the caller's
/// to know.
#[derive(Clone, Copy, Debug, PartialEq, Eq, Structural)]
pub struct Frame {
    ptr: usize,
}

impl Frame {
    pub closed spec fn addr(&self) -> int {
        self.ptr as int
    }

    /// The frame's first address.
    pub fn as_ptr(&self) -> (a: usize)
        ensures
            a == self.addr(),
    {
        self.ptr
    }

    /// The frame's first address.
    pub fn as_non_null(&self) -> (a: usize)
        ensures
            a == self.addr(),
    {
        self.ptr
    }

    pub(crate) proof fn lemma_range(&self)
        ensures
            0 <= self.addr() <= usize::MAX,
    {
    }

    /// A handle is its address.
    pub proof fn lemma_addr(f: Frame, g: Frame)
        ensures
            f == g <==> f.addr() == g.addr(),
    {
    }

    /// A handle to no frame, to fill an array with.
    pub fn dangling() -> (f: Frame)
        ensures
            f.addr() == 1,
    {
        Frame { ptr: 1 }
    }
}

/// Errors of building a pool.
#[derive(Clone, Copy, Debug)]
pub enum FramePoolError {
    /// The frame size was not a power of two.
    FrameSizeNotPow2(usize),
    /// The region does not hold one frame.
    RegionTooSmall { len: usize, frame_size: usize },
    /// The reservation failed.
    Reserve(ReserveError),
}

impl FramePoolError {
    /// The error in words, `os` being the system's text for its error number.
    pub open spec fn text(&self, os: Seq<char>) -> Seq<char> {
        match *self {
            FramePoolError::FrameSizeNotPow2(s) => "frame_size "@ + dec_text(s as nat)
                + " must be a power of two"@,
            FramePoolError::RegionTooSmall { len, frame_size } => "region of "@ + dec_text(
                len as nat,
            ) + " bytes holds no "@ + dec_text(frame_size as nat) + "-byte frame"@,
            FramePoolError::Reserve(e) => "frame pool reservation failed: "@ + e.text(os),
        }
    }

    /// The error in words.
    pub fn message(&self, os: &str) -> (m: String)
        ensures
            m@ == self.text(os@),
            *self matches FramePoolError::FrameSizeNotPow2(s) ==> m@ == "frame_size "@ + dec_text(
                s as nat,
            ) + " must be a power of two"@,
            *self matches FramePoolError::RegionTooSmall { len, frame_size } ==> m@ == "region of "@
                + dec_text(len as nat) + " bytes holds no "@ + dec_text(frame_size as nat)
                + "-byte frame"@,
            *self matches FramePoolError::Reserve(e) ==> m@ == "frame pool reservation failed: "@
                + e.text(os@),
    {
        match *self {
            FramePoolError::FrameSizeNotPow2(s) => {
                let mut m = String::from_str("frame_size ");
                append_dec(&mut m, s as u64);
                m.append(" must be a power of two");
                m
            },
            FramePoolError::RegionTooSmall { len, frame_size } => {
                let mut m = String::from_str("region of ");
                append_dec(&mut m, len as u64);
                m.append(" bytes holds no ");
                append_dec(&mut m, frame_size as u64);
                m.append("-byte frame");
                m
            },
            FramePoolError::Reserve(e) => {
                let mut m = String::from_str("frame pool reservation failed: ");
                m.append(e.message(os).as_str());
                m
            },
        }
    }
}

/// Whether the tables of a pool over `len` bytes fit the address space; those of one
/// that is not built do.
pub open spec fn tables_fit(len: int, frame_size: int, num_cpus: int) -> bool {
    is_pow2(frame_size) && frame_size <= len ==> len / frame_size <= max_elements() && num_cpus * 512
        <= max_elements()
}

/// Whether the tables of a pool over `len` bytes fit the address space.
pub fn can_build(len: usize, frame_size: usize, num_cpus: u32) -> (b: bool)
    ensures
        b == tables_fit(len as int, frame_size as int, num_cpus as int),
        len <= isize::MAX as int / 16 && num_cpus * 512 <= isize::MAX as int / 16 ==> b,
{
    proof {
        laws::lemma_tables_fit(len as int, frame_size as int, num_cpus as int);
    }
    match exact_log2(frame_size) {
        Some(s) => {
            proof {
                vstd::arithmetic::power2::lemma_pow2_pos(s as nat);
            }
        },
        None => {
            return true;
        },
    }
    if len < frame_size {
        return true;
    }
    let limit: u64 = (isize::MAX as u64) / 16;
    (len / frame_size) as u64 <= limit && num_cpus as u64 * 512 <= limit
}

/// A pool of frames with metadata `M`.
pub struct FramePool<M> {
    frames: Frames,
    meta: Vec<M>,
    region: Region,
}

/// The first addresses of frames.
pub open spec fn addrs(frames: Seq<Frame>) -> Seq<usize> {
    frames.map_values(|f: Frame| f.addr() as usize)
}

/// How often the frame at `a` occurs from position `k` on.
pub open spec fn occurrences(frames: Seq<Frame>, k: int, a: int) -> int
    decreases frames.len() - k,
{
    if 0 <= k < frames.len() {
        occurrences(frames, k + 1, a) + if frames[k].addr() == a {
            1int
        } else {
            0int
        }
    } else {
        0
    }
}

impl<M: FrameMeta> FramePool<M> {
    pub closed spec fn frames(&self) -> Frames {
        self.frames
    }

    /// The metadata of each frame.
    pub closed spec fn metas(&self) -> Seq<M> {
        self.meta@
    }

    pub closed spec fn region(&self) -> Region {
        self.region
    }

    pub closed spec fn wf(&self) -> bool {
        &&& self.frames.wf()
        &&& self.meta@.len() == self.frames.count()
    }

    /// Whether the frame is out.
    pub open spec fn out(&self, f: Frame) -> bool {
        self.frames().out(f.addr())
    }

    /// Index of a frame.
    pub open spec fn number(&self, f: Frame) -> int {
        self.frames().number(f.addr())
    }

    /// The CPU that serves the thread.
    pub open spec fn serving(&self, seen: ThreadView) -> int {
        serving_cpu(seen, &self.frames().slab())
    }

    /// Free frames that the thread can be handed: those on its CPU's stack and on
    /// the central one.
    pub open spec fn available(&self, seen: ThreadView) -> int {
        let cpu = self.serving(seen);
        self.frames().central().len() + if self.frames().slab().is_stopped_at(cpu) {
            0int
        } else {
            self.frames().cached(cpu).len() as int
        }
    }

    /// Region and division are those of `other`.
    pub open spec fn same_pool(&self, other: &FramePool<M>) -> bool {
        &&& self.frames().same_grid(&other.frames())
        &&& self.region() == other.region()
        &&& self.metas().len() == other.metas().len()
    }

    /// Only the metadata of frame `i` may differ from that of `other`.
    pub open spec fn meta_moved(&self, other: &FramePool<M>, i: int) -> bool {
        forall|j: int|
            0 <= j < other.metas().len() && j != i ==> #[trigger] self.metas()[j]
                == other.metas()[j]
    }

    /// Build a pool over memory of the caller's, for a machine of `num_cpus` CPUs.
    pub fn over(base: usize, len: usize, frame_size: usize, num_cpus: u32) -> (r: Result<
        FramePool<M>,
        FramePoolError,
    >)
        requires
            0 < base,
            base + len <= usize::MAX,
            tables_fit(len as int, frame_size as int, num_cpus as int),
        ensures
            built(Region::Borrowed { base, len }, frame_size as int, num_cpus as int, r),
            r is Ok <==> is_pow2(frame_size as int) && frame_size <= len,
            r matches Ok(pool) ==> {
                let n = pool.frames().count();
                &&& pool.frames().base() == base
                &&& pool.frames().size() == frame_size
                &&& n * frame_size <= len < (n + 1) * frame_size
                &&& pool.frames().central().len() == n
            },
    {
        proof {
            if is_pow2(frame_size as int) {
                let k = choose|k: nat| frame_size as int == #[trigger] vstd::arithmetic::power2::pow2(k);
                vstd::arithmetic::power2::lemma_pow2_pos(k);
                let n = len as int / frame_size as int;
                assert(n * frame_size <= len < (n + 1) * frame_size) by (nonlinear_arith)
                    requires
                        n == len as int / frame_size as int,
                        frame_size > 0,
                ;
            }
        }
        FramePool::build(Region::Borrowed { base, len }, frame_size, num_cpus)
    }

    /// The options of the reservation for `n_frames` frames of `frame_size` bytes:
    /// those given, with the length that the frames take.
    pub fn reserve_opts(n_frames: usize, frame_size: usize, opts: ReserveOpts) -> (r: Result<
        ReserveOpts,
        FramePoolError,
    >)
        requires
            n_frames * frame_size <= usize::MAX,
        ensures
            if is_pow2(frame_size as int) {
                r matches Ok(o) && o == (ReserveOpts {
                    len: (n_frames * frame_size) as usize,
                    ..opts
                })
            } else {
                r matches Err(e) && e == FramePoolError::FrameSizeNotPow2(frame_size)
            },
    {
        match exact_log2(frame_size) {
            Some(_) => Ok(ReserveOpts { len: n_frames * frame_size, ..opts }),
            None => Err(FramePoolError::FrameSizeNotPow2(frame_size)),
        }
    }

    /// Build a pool over what came of reserving memory for it.
    pub fn with_reservation(
        reserved: Result<Reservation, ReserveError>,
        frame_size: usize,
        num_cpus: u32,
    ) -> (r: Result<FramePool<M>, FramePoolError>)
        requires
            reserved matches Ok(res) ==> res.wf() && tables_fit(
                res.size(),
                frame_size as int,
                num_cpus as int,
            ),
        ensures
            if !is_pow2(frame_size as int) {
                r matches Err(e) && e == FramePoolError::FrameSizeNotPow2(frame_size)
            } else {
                match reserved {
                    Err(e) => r matches Err(x) && x == FramePoolError::Reserve(e),
                    Ok(res) => built(Region::Owned(res), frame_size as int, num_cpus as int, r),
                }
            },
            r is Ok <==> is_pow2(frame_size as int) && (reserved matches Ok(res) && frame_size
                <= res.size()),
            r matches Ok(pool) ==> {
                let n = pool.frames().count();
                &&& reserved matches Ok(res)
                &&& pool.frames().base() == res.start()
                &&& pool.frames().size() == frame_size
                &&& n * frame_size <= res.size() < (n + 1) * frame_size
            },
    {
        proof {
            if is_pow2(frame_size as int) {
                let k = choose|k: nat| frame_size as int == #[trigger] vstd::arithmetic::power2::pow2(k);
                vstd::arithmetic::power2::lemma_pow2_pos(k);
                if reserved is Ok {
                    let len = reserved->Ok_0.size();
                    let n = len / frame_size as int;
                    assert(n * frame_size <= len < (n + 1) * frame_size) by (nonlinear_arith)
                        requires
                            n == len / frame_size as int,
                            frame_size > 0,
                    ;
                }
            }
        }
        match exact_log2(frame_size) {
            Some(_) => {},
            None => {
                return Err(FramePoolError::FrameSizeNotPow2(frame_size));
            },
        }
        match reserved {
            Ok(res) => FramePool::build(Region::Owned(res), frame_size, num_cpus),
            Err(e) => Err(FramePoolError::Reserve(e)),
        }
    }

    fn build(region: Region, frame_size: usize, num_cpus: u32) -> (r: Result<
        FramePool<M>,
        FramePoolError,
    >)
        requires
            region.wf(),
            tables_fit(region.size(), frame_size as int, num_cpus as int),
        ensures
            built(region, frame_size as int, num_cpus as int, r),
    {
        let shift: u32 = match exact_log2(frame_size) {
            Some(s) => s,
            None => {
                return Err(FramePoolError::FrameSizeNotPow2(frame_size));
            },
        };
        proof {
            vstd::arithmetic::power2::lemma_pow2_pos(shift as nat);
        }
        let base: usize = region.base();
        let len: usize = region.len();
        let n_frames: usize = len / frame_size;
        assert(n_frames == 0 <==> len < frame_size) by (nonlinear_arith)
            requires
                n_frames == len / frame_size,
                frame_size > 0,
        ;
        if n_frames == 0 {
            return Err(FramePoolError::RegionTooSmall { len, frame_size });
        }
        assert(n_frames * frame_size <= len) by (nonlinear_arith)
            requires
                n_frames == len / frame_size,
                frame_size > 0,
        ;
        let frames = Frames::new(base, shift, frame_size, n_frames, num_cpus);
        let mut meta: Vec<M> = Vec::new();
        let mut i: usize = 0;
        while i < n_frames
            invariant
                i <= n_frames,
                meta@.len() == i,
                forall|j: int|
                    0 <= j < i ==> call_ensures(M::default, (), #[trigger] meta@[j]),
            decreases n_frames - i,
        {
            meta.push(M::default());
            i = i + 1;
        }
        let pool = FramePool { frames, meta, region };
        proof {
            assert(n_frames == region.size() / frame_size as int);
            assert(pool.frames().central() =~= Seq::new(
                (region.size() / frame_size as int) as nat,
                |i: int| (region.start() + i * frame_size) as usize,
            ));
            assert forall|f: Frame| !#[trigger] pool.out(f) by {}
        }
        Ok(pool)
    }

    /// Number of frames.
    pub fn capacity(&self) -> (n: usize)
        ensures
            n == self.frames().count(),
    {
        self.frames.frame_count()
    }

    /// Bytes of a frame.
    pub fn frame_size(&self) -> (n: usize)
        ensures
            n == self.frames().size(),
    {
        self.frames.frame_bytes()
    }

    /// The frame's index.
    pub fn frame_index(&self, f: &Frame) -> (i: usize)
        requires
            self.wf(),
            self.frames().is_frame(f.addr()),
        ensures
            i == self.number(*f),
            i < self.frames().count(),
    {
        proof {
            self.frames.lemma_frame(f.addr(), f.addr());
        }
        self.frames.index_of(f.ptr)
    }

    /// The frame's metadata.
    pub fn meta(&self, f: &Frame) -> (m: &M)
        requires
            self.wf(),
            self.frames().is_frame(f.addr()),
        ensures
            *m == self.metas()[self.number(*f)],
    {
        &self.meta[self.frame_index(f)]
    }

    /// The frame's metadata, to change it.
    pub fn meta_mut(&mut self, f: &Frame) -> (m: &mut M)
        requires
            old(self).wf(),
            old(self).frames().is_frame(f.addr()),
        ensures
            *m == old(self).metas()[old(self).number(*f)],
            final(self).wf(),
            final(self).frames() == old(self).frames(),
            final(self).region() == old(self).region(),
            final(self).metas() == old(self).metas().update(old(self).number(*f), *final(m)),
    {
        let i: usize = self.frame_index(f);
        &mut self.meta[i]
    }

    /// The frame's offset in the region.
    pub fn into_addr(&self, f: Frame) -> (offset: u64)
        requires
            self.wf(),
            self.frames().is_frame(f.addr()),
        ensures
            offset == f.addr() - self.frames().base(),
            offset == self.number(f) * self.frames().size(),
    {
        proof {
            self.frames.lemma_frame(f.addr(), f.addr());
        }
        (f.ptr - self.frames.first()) as u64
    }

    /// The frame at an offset in the region.
    pub fn from_addr(&self, offset: u64) -> (f: Frame)
        requires
            self.wf(),
            self.frames().is_frame(self.frames().base() + offset),
        ensures
            f.addr() == self.frames().base() + offset,
    {
        proof {
            self.frames.lemma_frame(
                self.frames.base() + offset,
                self.frames.base() + offset,
            );
            self.frames.lemma_shape();
        }
        Frame { ptr: self.frames.first() + offset as usize }
    }

    /// A frame is found again by its offset: the offset of a frame names a frame,
    /// and the frame at that offset is the same one.
    pub proof fn lemma_offset_roundtrip(&self, f: Frame, offset: u64, g: Frame)
        requires
            self.frames().is_frame(f.addr()),
            offset == f.addr() - self.frames().base(),
            g.addr() == self.frames().base() + offset,
        ensures
            self.frames().is_frame(self.frames().base() + offset),
            g == f,
    {
        Frame::lemma_addr(f, g);
    }
}

/// What building a pool over `region` gives.
pub open spec fn built<M: FrameMeta>(
    region: Region,
    frame_size: int,
    num_cpus: int,
    r: Result<FramePool<M>, FramePoolError>,
) -> bool {
    if !is_pow2(frame_size) {
        r matches Err(e) && e == FramePoolError::FrameSizeNotPow2(frame_size as usize)
    } else if region.size() < frame_size {
        r matches Err(e) && e == (FramePoolError::RegionTooSmall {
            len: region.size() as usize,
            frame_size: frame_size as usize,
        })
    } else {
        r matches Ok(pool) && {
            &&& pool.wf()
            &&& pool.region() == region
            &&& pool.frames().base() == region.start()
            &&& pool.frames().size() == frame_size
            &&& pool.frames().count() == region.size() / frame_size
            &&& pool.frames().slab().cpus() == if num_cpus == 0 {
                1
            } else {
                num_cpus
            }
            &&& pool.frames().central() == Seq::new(
                (region.size() / frame_size) as nat,
                |i: int| (region.start() + i * frame_size) as usize,
            )
            &&& forall|cpu: int|
                0 <= cpu < pool.frames().slab().cpus() ==> #[trigger] pool.frames().cached(cpu)
                    == Seq::<usize>::empty() && !pool.frames().slab().is_stopped_at(cpu)
            &&& forall|f: Frame| !#[trigger] pool.out(f)
            &&& forall|i: int|
                0 <= i < pool.metas().len() ==> call_ensures(
                    M::default,
                    (),
                    #[trigger] pool.metas()[i],
                )
        }
    }
}

impl<M: FrameMeta> FramePool<M> {
    /// The frame handed out as `r` is no longer free, and its metadata was told;
    /// nothing changed if there was none.
    pub open spec fn handed_out(
        &self,
        other: &FramePool<M>,
        seen: ThreadView,
        r: Option<Frame>,
    ) -> bool {
        let cpu = other.serving(seen);
        &&& self.same_pool(other)
        &&& self.frames().popped_from(
            &other.frames(),
            cpu,
            match r {
                Some(f) => Some(f.addr() as usize),
                None => None,
            },
        )
        &&& match r {
            Some(f) => {
                &&& self.meta_moved(other, other.number(f))
                &&& other.metas()[other.number(f)].allocated(&self.metas()[other.number(f)])
            },
            None => *self == *other,
        }
    }

    /// Hand out a free frame: the top of the stack of the CPU that serves the
    /// thread, else of the central one. `None` only if both are empty.
    pub fn allocate(&mut self, seen: &ThreadView) -> (r: Option<Frame>)
        requires
            old(self).wf(),
        ensures
            final(self).wf(),
            final(self).handed_out(old(self), *seen, r),
            r is None <==> old(self).available(*seen) == 0,
            r matches Some(f) ==> !old(self).out(f) && final(self).out(f) && final(
                self).available(*seen) == old(self).available(*seen) - 1,
            r is None <==> old(self).frames().central().len() == 0 && old(self).frames().cached(
                old(self).serving(*seen),
            ).len() == 0,
    {
        proof {
            self.frames.lemma_room(*seen);
            self.frames.lemma_running(self.serving(*seen));
        }
        let stack = self.frames.bind_fast(*seen);
        let ghost before = *self;
        match self.frames.pop_l2(&stack) {
            Some(a) => {
                let f = Frame { ptr: a };
                proof {
                    self.lemma_grid(&before, *seen);
                    self.lemma_less_available(&before, *seen, f);
                    assert(self.frames.out(a as int));
                }
                let i: usize = self.frame_index(&f);
                self.meta[i].on_alloc();
                Some(f)
            },
            None => None,
        }
    }

    /// How many frames are out.
    pub open spec fn out_total(&self) -> int {
        out_count(self.frames().place(), self.frames().count())
    }

    /// Where only one CPU was ever used, what its threads can be handed is all but
    /// the frames that are out.
    pub proof fn lemma_single_cpu(&self, seen: ThreadView)
        requires
            self.wf(),
            self.frames().alone(self.serving(seen)),
        ensures
            self.available(seen) == self.frames().count() - self.out_total(),
    {
        self.frames.lemma_running(self.serving(seen));
        self.frames.lemma_free_alone(self.serving(seen));
    }

    /// A new pool is used by no CPU yet, and no frame is out.
    pub proof fn lemma_fresh(
        &self,
        region: Region,
        frame_size: int,
        num_cpus: int,
        seen: ThreadView,
    )
        requires
            is_pow2(frame_size),
            region.size() >= frame_size,
            built(region, frame_size, num_cpus, Ok::<FramePool<M>, FramePoolError>(*self)),
        ensures
            self.frames().alone(self.serving(seen)),
            self.out_total() == 0,
    {
        let cpu = self.serving(seen);
        self.frames.lemma_room(seen);
        assert(self.frames().cached(cpu) == Seq::<usize>::empty());
        self.frames.lemma_free_alone(cpu);
        self.frames.lemma_shape();
    }

    /// A pool that only one CPU uses hands out exactly as many frames as it has: a
    /// request fails only if every frame is out, and else gives one that was not.
    pub proof fn lemma_hands_out_all(&self, other: &FramePool<M>, seen: ThreadView, r: Option<Frame>)
        requires
            other.wf(),
            self.wf(),
            other.frames().alone(other.serving(seen)),
            self.handed_out(other, seen, r),
        ensures
            self.frames().alone(other.serving(seen)),
            self.serving(seen) == other.serving(seen),
            r is None <==> other.out_total() == other.frames().count(),
            r is None ==> self.out_total() == other.out_total(),
            r matches Some(f) ==> {
                &&& !other.out(f)
                &&& self.out(f)
                &&& self.out_total() == other.out_total() + 1
                &&& 0 <= self.number(f) < self.frames().count()
                &&& f.addr() == self.frames().base() + self.number(f) * self.frames().size()
            },
    {
        let cpu = other.serving(seen);
        self.lemma_grid(other, seen);
        other.lemma_single_cpu(seen);
        other.frames.lemma_running(cpu);
        self.frames.lemma_alone_kept(&other.frames, cpu);
        self.lemma_single_cpu(seen);
        if let Some(f) = r {
            self.lemma_less_available(other, seen, f);
            f.lemma_range();
        }
    }

    /// A frame that a pool's only CPU puts back can be had again.
    pub proof fn lemma_takes_back(&self, other: &FramePool<M>, seen: ThreadView, f: Frame)
        requires
            other.wf(),
            self.wf(),
            other.frames().alone(other.serving(seen)),
            self.put_back(other, seen, f),
        ensures
            self.frames().alone(other.serving(seen)),
            self.serving(seen) == other.serving(seen),
            self.out_total() == other.out_total() - 1,
    {
        let cpu = other.serving(seen);
        self.lemma_grid(other, seen);
        other.lemma_single_cpu(seen);
        other.frames.lemma_running(cpu);
        self.frames.lemma_alone_kept(&other.frames, cpu);
        self.lemma_single_cpu(seen);
    }

    pub(crate) proof fn lemma_number(&self, f: Frame)
        requires
            self.wf(),
            self.frames().is_frame(f.addr()),
        ensures
            0 <= self.number(f) < self.metas().len(),
    {
    }

    pub(crate) proof fn lemma_pool(&self)
        requires
            self.wf(),
        ensures
            self.frames().wf(),
    {
    }

    pub(crate) proof fn lemma_metas(&self)
        requires
            self.wf(),
        ensures
            self.metas().len() == self.frames().count(),
    {
    }

    /// The serving CPU does not change while frames move.
    proof fn lemma_grid(&self, other: &FramePool<M>, seen: ThreadView)
        requires
            self.frames.same_grid(&other.frames),
        ensures
            self.serving(seen) == other.serving(seen),
            forall|cpu: int|
                #[trigger] self.frames.slab().is_stopped_at(cpu) == other.frames.slab().is_stopped_at(
                    cpu,
                ),
    {
        self.frames.slab().lemma_same_shape(&other.frames.slab());
    }

    proof fn lemma_less_available(&self, other: &FramePool<M>, seen: ThreadView, f: Frame)
        requires
            other.wf(),
            self.frames.same_grid(&other.frames),
            self.frames.popped_from(
                &other.frames,
                other.serving(seen),
                Some(f.addr() as usize),
            ),
        ensures
            self.available(seen) == other.available(seen) - 1,
    {
        let cpu = other.serving(seen);
        self.lemma_grid(other, seen);
        other.frames.lemma_room(seen);
        let c = other.frames.central();
        assert(c.len() > 0 ==> c.drop_last().len() == c.len() - 1);
    }

    /// The frame was put back among the free ones, and the thread can have it
    /// again.
    pub open spec fn put_back(&self, other: &FramePool<M>, seen: ThreadView, f: Frame) -> bool {
        &&& self.same_pool(other)
        &&& self.frames().pushed_onto(&other.frames(), other.serving(seen), f.addr() as usize)
        &&& other.frames().went_out(&self.frames(), f.addr())
        &&& self.available(seen) == other.available(seen) + 1
    }

    /// Release one reference to a frame. If its metadata says so, the frame goes
    /// back among the free ones, else it stays out.
    pub fn free(&mut self, seen: &ThreadView, f: Frame)
        requires
            old(self).wf(),
            old(self).out(f),
        ensures
            final(self).wf(),
            final(self).same_pool(old(self)),
            final(self).meta_moved(old(self), old(self).number(f)),
            ({
                let was = old(self).metas()[old(self).number(f)];
                let now = final(self).metas()[old(self).number(f)];
                ||| was.released(&now, Reclaim::Keep) && final(self).frames() == old(self).frames()
                ||| was.released(&now, Reclaim::Free) && final(self).put_back(
                    old(self),
                    *seen,
                    f,
                )
            }),
    {
        proof {
            self.frames.slab().lemma_same_shape_refl();
        }
        let i: usize = self.frame_index(&f);
        if self.meta[i].on_free() == Reclaim::Keep {
            return;
        }
        let stack = self.frames.bind(*seen);
        self.give_free(&stack, seen, f.ptr);
    }

    /// Put a frame that nothing refers to back among the free ones, without asking
    /// its metadata.
    pub fn recycle(&mut self, seen: &ThreadView, f: Frame)
        requires
            old(self).wf(),
            old(self).out(f),
        ensures
            final(self).wf(),
            final(self).put_back(old(self), *seen, f),
            final(self).metas() == old(self).metas(),
    {
        proof {
            self.frames.slab().lemma_same_shape_refl();
        }
        let stack = self.frames.bind(*seen);
        self.give_free(&stack, seen, f.ptr);
    }

    /// Hand out frames into `out`, as many as fit and are available to the thread.
    pub fn alloc_n(&mut self, seen: &ThreadView, out: &mut [Frame]) -> (n: usize)
        requires
            old(self).wf(),
        ensures
            final(self).wf(),
            final(self).same_pool(old(self)),
            n == if old(self).available(*seen) < old(out)@.len() {
                old(self).available(*seen)
            } else {
                old(out)@.len() as int
            },
            final(self).available(*seen) == old(self).available(*seen) - n,
            n <= old(out)@.len() && (n == old(out)@.len() || final(self).available(*seen) == 0),
            final(self).frames().popped_all(
                &old(self).frames(),
                old(self).serving(*seen),
                addrs(final(out)@.take(n as int)),
            ),
            final(out)@.len() == old(out)@.len(),
            forall|k: int| n <= k < old(out)@.len() ==> #[trigger] final(out)@[k] == old(out)@[k],
            forall|k: int|
                0 <= k < n ==> !old(self).out(#[trigger] final(out)@[k]) && final(self).out(
                    final(out)@[k],
                ),
            forall|j: int, k: int|
                0 <= j < k < n ==> (#[trigger] final(out)@[j]).addr() != (
                #[trigger] final(out)@[k]).addr(),
            forall|f: Frame| #[trigger]
                final(self).out(f) ==> old(self).out(f) || exists|k: int|
                    0 <= k < n && (#[trigger] final(out)@[k]).addr() == f.addr(),
            forall|f: Frame| #[trigger] old(self).out(f) ==> final(self).out(f),
            forall|k: int|
                0 <= k < n ==> {
                    let i = old(self).number(#[trigger] final(out)@[k]);
                    old(self).metas()[i].allocated(&final(self).metas()[i])
                },
            forall|i: int|
                0 <= i < old(self).metas().len() && (forall|k: int|
                    0 <= k < n ==> old(self).number(#[trigger] final(out)@[k]) != i)
                    ==> #[trigger] final(self).metas()[i] == old(self).metas()[i],
    {
        let stack = self.frames.bind_fast(*seen);
        let ghost before = *self;
        let ghost start = out@;
        let mut n: usize = 0;
        proof {
            before.frames.slab().lemma_same_shape_refl();
        }
        assert(addrs(out@.take(0)) =~= Seq::<usize>::empty());
        while n < out.len()
            invariant
                before.wf(),
                self.wf(),
                stack.fits(self.frames.slab().cpus()),
                forall|slab: &crate::rseq::slab::SlabLayout|
                    slab.same_shape(&before.frames.slab()) ==> #[trigger] stack.serving(slab)
                        == serving_cpu(*seen, slab),
                self.same_pool(&before),
                n <= out@.len(),
                out@.len() == start.len(),
                self.available(*seen) == before.available(*seen) - n,
                self.frames.popped_all(
                    &before.frames,
                    before.serving(*seen),
                    addrs(out@.take(n as int)),
                ),
                forall|k: int| n <= k < start.len() ==> #[trigger] out@[k] == start[k],
                forall|k: int|
                    0 <= k < n ==> !before.out(#[trigger] out@[k]) && self.out(out@[k]),
                forall|j: int, k: int|
                    0 <= j < k < n ==> (#[trigger] out@[j]).addr() != (#[trigger] out@[k]).addr(),
                forall|f: Frame| #[trigger]
                    self.out(f) ==> before.out(f) || exists|k: int|
                        0 <= k < n && (#[trigger] out@[k]).addr() == f.addr(),
                forall|f: Frame| #[trigger] before.out(f) ==> self.out(f),
                forall|k: int|
                    0 <= k < n ==> {
                        let i = before.number(#[trigger] out@[k]);
                        before.metas()[i].allocated(&self.metas()[i])
                    },
                forall|i: int|
                    0 <= i < before.metas().len() && (forall|k: int|
                        0 <= k < n ==> before.number(#[trigger] out@[k]) != i)
                        ==> #[trigger] self.metas()[i] == before.metas()[i],
            ensures
                n < out@.len() ==> self.available(*seen) == 0,
            decreases out@.len() - n,
        {
            let ghost cur = *self;
            let ghost had = out@;
            proof {
                cur.lemma_grid(&before, *seen);
                cur.frames.slab().lemma_same_shape(&before.frames.slab());
            }
            match self.frames.pop_l2(&stack) {
                Some(a) => {
                    let f = Frame { ptr: a };
                    proof {
                        self.frames.slab().lemma_same_shape_trans(
                            &cur.frames.slab(),
                            &before.frames.slab(),
                        );
                        self.frames.slab().lemma_same_shape(&before.frames.slab());
                        self.lemma_less_available(&cur, *seen, f);
                        assert(self.frames.out(a as int));
                        assert(!cur.frames.out(a as int));
                        assert(!cur.out(f));
                        assert forall|g: Frame| g.addr() != a implies (#[trigger] self.out(g)
                            <==> cur.out(g)) by {}
                    }
                    let i: usize = self.frame_index(&f);
                    self.meta[i].on_alloc();
                    out[n] = f;
                    n = n + 1;
                    proof {
                        let went = addrs(out@.take(n as int));
                        assert(went.drop_last() =~= addrs(had.take(n - 1)));
                        assert(went.last() == a);
                        assert(self.frames.popped_from(
                            &cur.frames,
                            before.serving(*seen),
                            Some(went.last()),
                        ));
                        assert forall|k: int| 0 <= k < n - 1 implies before.number(
                            #[trigger] out@[k],
                        ) != i by {
                            assert(out@[k] == had[k]);
                            assert(cur.out(had[k]));
                            cur.frames.lemma_frame(had[k].addr(), f.addr());
                        }
                        assert(before.metas()[i as int] == cur.metas()[i as int]) by {
                            assert forall|k: int| 0 <= k < n - 1 implies before.number(
                                #[trigger] had[k],
                            ) != i by {
                                assert(out@[k] == had[k]);
                            }
                        }
                        assert forall|k: int| 0 <= k < n implies {
                            let i = before.number(#[trigger] out@[k]);
                            before.metas()[i].allocated(&self.metas()[i])
                        } by {
                            if k < n - 1 {
                                assert(out@[k] == had[k]);
                                assert(before.number(had[k]) != i);
                            }
                        }
                        assert forall|g: Frame| #[trigger] self.out(g) implies before.out(g)
                            || exists|k: int| 0 <= k < n && (#[trigger] out@[k]).addr() == g.addr() by {
                            if g.addr() == a {
                                assert(out@[n - 1].addr() == g.addr());
                            } else {
                                assert(cur.out(g));
                                if !before.out(g) {
                                    let k = choose|k: int|
                                        0 <= k < n - 1 && (#[trigger] had[k]).addr() == g.addr();
                                    assert(out@[k] == had[k]);
                                }
                            }
                        }
                        assert forall|j: int|
                            0 <= j < before.metas().len() && (forall|k: int|
                                0 <= k < n ==> before.number(#[trigger] out@[k]) != j) implies #[trigger] self.metas()[j]
                            == before.metas()[j] by {
                            assert(before.number(out@[n - 1]) != j);
                            assert forall|k: int| 0 <= k < n - 1 implies before.number(
                                #[trigger] had[k],
                            ) != j by {
                                assert(out@[k] == had[k]);
                            }
                        }
                        assert forall|k: int| 0 <= k < n implies !before.out(#[trigger] out@[k])
                            && self.out(out@[k]) by {
                            if k < n - 1 {
                                assert(out@[k] == had[k]);
                                assert(cur.out(had[k]));
                            } else {
                                assert(out@[k] == f);
                                if before.out(f) {
                                    assert(cur.out(f));
                                }
                            }
                        }
                        assert forall|j: int, k: int| 0 <= j < k < n implies (
                        #[trigger] out@[j]).addr() != (#[trigger] out@[k]).addr() by {
                            assert(out@[j] == had[j]);
                            if k == n - 1 {
                                assert(cur.out(had[j]));
                            } else {
                                assert(out@[k] == had[k]);
                            }
                        }
                    }
                },
                None => {
                    break;
                },
            }
        }
        n
    }
}

proof fn lemma_occurrences(frames: Seq<Frame>, k: int, a: int)
    requires
        0 <= k <= frames.len(),
    ensures
        0 <= occurrences(frames, k, a),
        occurrences(frames, k, a) > 0 <==> exists|j: int|
            k <= j < frames.len() && (#[trigger] frames[j]).addr() == a,
    decreases frames.len() - k,
{
    if k < frames.len() {
        lemma_occurrences(frames, k + 1, a);
        if frames[k].addr() != a && occurrences(frames, k, a) > 0 {
            let j = choose|j: int| k + 1 <= j < frames.len() && (#[trigger] frames[j]).addr() == a;
            assert(k <= j < frames.len() && frames[j].addr() == a);
        }
    }
}

impl<M: FrameMeta> FramePool<M> {
    /// What one release of a frame does: its metadata is told, and as that says
    /// the frame is put back among the free ones of `cpu`, or stays out.
    pub open spec fn released_one(&self, other: &FramePool<M>, cpu: int, f: Frame) -> bool {
        let was = other.metas()[other.number(f)];
        let now = self.metas()[other.number(f)];
        &&& self.same_pool(other)
        &&& self.meta_moved(other, other.number(f))
        &&& was.released(&now, Reclaim::Keep) && self.frames() == other.frames() || (was.released(
            &now,
            Reclaim::Free,
        ) && self.frames().pushed_onto(&other.frames(), cpu, f.addr() as usize))
    }

    /// The frames listed were released one by one.
    pub open spec fn released_all(&self, other: &FramePool<M>, cpu: int, list: Seq<Frame>) -> bool
        decreases list.len(),
    {
        if list.len() == 0 {
            *self == *other
        } else {
            exists|mid: FramePool<M>|
                mid.released_all(other, cpu, list.drop_last()) && #[trigger] self.released_one(
                    &mid,
                    cpu,
                    list.last(),
                )
        }
    }

    /// Release one reference for each frame listed.
    ///
    /// A frame may be listed as often as references to it are held. Frames not
    /// listed stay as they are. A frame listed less often than its references
    /// stays out and has that many fewer. Whether another one goes back among the
    /// free ones, its last release says.
    pub fn free_n(&mut self, seen: &ThreadView, list: &[Frame])
        requires
            old(self).wf(),
            forall|k: int|
                0 <= k < list@.len() ==> old(self).out(#[trigger] list@[k]) && (occurrences(
                    list@,
                    0,
                    list@[k].addr(),
                ) == 1 || occurrences(list@, 0, list@[k].addr())
                    <= old(self).metas()[old(self).number(list@[k])].refs()),
        ensures
            final(self).wf(),
            final(self).same_pool(old(self)),
            final(self).released_all(old(self), old(self).serving(*seen), list@),
            forall|f: Frame| #[trigger] final(self).out(f) ==> old(self).out(f),
            forall|f: Frame|
                occurrences(list@, 0, f.addr()) == 0 ==> (#[trigger] final(self).out(f) <==> old(
                    self,
                ).out(f)),
            forall|f: Frame|
                old(self).frames().is_frame(f.addr()) && occurrences(list@, 0, f.addr()) == 0
                    ==> #[trigger] final(self).metas()[old(self).number(f)]
                    == old(self).metas()[old(self).number(f)],
            forall|f: Frame|
                old(self).out(f) && 0 < occurrences(list@, 0, f.addr())
                    < old(self).metas()[old(self).number(f)].refs() ==> #[trigger] final(self).out(f)
                    && final(self).metas()[old(self).number(f)].refs() == old(
                    self,
                ).metas()[old(self).number(f)].refs() - occurrences(list@, 0, f.addr()),
            forall|f: Frame|
                old(self).out(f) && occurrences(list@, 0, f.addr()) > 0 ==> last_release(
                    old(self).metas()[old(self).number(f)],
                    final(self).metas()[old(self).number(f)],
                    occurrences(list@, 0, f.addr()),
                    #[trigger] final(self).out(f),
                ),
    {
        let stack = self.frames.bind(*seen);
        let ghost before = *self;
        let ghost cpu = before.serving(*seen);
        let mut k: usize = 0;
        proof {
            before.frames.slab().lemma_same_shape_refl();
            assert forall|f: Frame| before.frames().is_frame(f.addr()) implies #[trigger] self.release_state(
                &before,
                list@,
                0,
                f,
            ) by {
                lemma_occurrences(list@, 0, f.addr());
                if occurrences(list@, 0, f.addr()) > 0 {
                    let j = choose|j: int|
                        0 <= j < list@.len() && (#[trigger] list@[j]).addr() == f.addr();
                    assert(before.out(list@[j]));
                }
            }
        }
        while k < list.len()
            invariant
                before.wf(),
                self.wf(),
                stack.fits(self.frames.slab().cpus()),
                self.same_pool(&before),
                cpu == before.serving(*seen),
                stack.serving(&self.frames.slab()) == cpu,
                self.released_all(&before, cpu, list@.take(k as int)),
                k <= list@.len(),
                forall|j: int|
                    0 <= j < list@.len() ==> before.out(#[trigger] list@[j]) && (occurrences(
                        list@,
                        0,
                        list@[j].addr(),
                    ) == 1 || occurrences(list@, 0, list@[j].addr())
                        <= before.metas()[before.number(list@[j])].refs()),
                forall|f: Frame|
                    before.frames().is_frame(f.addr()) ==> #[trigger] self.release_state(
                        &before,
                        list@,
                        k as int,
                        f,
                    ),
                forall|f: Frame| #[trigger] self.out(f) ==> before.out(f),
            decreases list@.len() - k,
        {
            let f: Frame = list[k];
            let ghost cur = *self;
            let ghost a = f.addr();
            let ghost left = occurrences(list@, k as int, a);
            proof {
                self.frames.slab().lemma_same_shape(&before.frames.slab());
                self.frames.slab().lemma_same_shape_refl();
                assert(list@[k as int] == f);
                lemma_occurrences(list@, k + 1, a);
                lemma_occurrences_split(list@, k as int, a);
                assert(before.out(f));
                assert(cur.release_state(&before, list@, k as int, f));
            }
            let i: usize = self.frame_index(&f);
            let r = self.meta[i].on_free();
            let ghost told = *self;
            if r == Reclaim::Free {
                self.frames.push_l2(&stack, f.ptr);
                proof {
                    self.frames.slab().lemma_same_shape_trans(
                        &cur.frames.slab(),
                        &before.frames.slab(),
                    );
                    self.frames.slab().lemma_same_shape(&cur.frames.slab());
                    assert(cur.frames.out(a));
                    assert(!self.frames.out(a));
                }
            }
            proof {
                assert forall|g: Frame| before.frames().is_frame(g.addr()) implies #[trigger] self.release_state(
                    &before,
                    list@,
                    k + 1,
                    g,
                ) by {
                    assert(cur.release_state(&before, list@, k as int, g));
                    before.frames.lemma_frame(g.addr(), a);
                    lemma_occurrences(list@, k as int, g.addr());
                    lemma_occurrences(list@, k + 1, g.addr());
                    lemma_occurrences_split(list@, k as int, g.addr());
                    if g.addr() != a {
                        assert(self.out(g) <==> cur.out(g));
                    } else {
                        assert(g == f);
                        let m = cur.metas()[i as int];
                        assert(cur.out(f));
                        assert(r is Keep <==> self.out(f));
                        assert(m.released(&self.metas()[i as int], answer(self.out(f))));
                    }
                }
                assert forall|g: Frame| #[trigger] self.out(g) implies before.out(g) by {
                    if g.addr() != a {
                        assert(cur.out(g));
                    } else {
                        assert(g == f);
                    }
                }
            }
            proof {
                assert(list@.take(k + 1).drop_last() =~= list@.take(k as int));
                assert(self.released_one(&cur, cpu, list@.take(k + 1).last()));
            }
            k = k + 1;
        }
        proof {
            assert(list@.take(k as int) =~= list@);
            assert forall|f: Frame| occurrences(list@, 0, f.addr()) == 0 implies (#[trigger] self.out(f)
                <==> before.out(f)) by {
                if before.frames().is_frame(f.addr()) {
                    assert(self.release_state(&before, list@, list@.len() as int, f));
                }
            }
            assert forall|f: Frame|
                before.frames().is_frame(f.addr()) && occurrences(list@, 0, f.addr()) == 0 implies #[trigger] self.metas()[before.number(
            f)] == before.metas()[before.number(f)] by {
                assert(self.release_state(&before, list@, list@.len() as int, f));
            }
            assert forall|f: Frame|
                before.out(f) && 0 < occurrences(list@, 0, f.addr()) < before.metas()[before.number(
                    f,
                )].refs() implies #[trigger] self.out(f) && self.metas()[before.number(f)].refs()
                == before.metas()[before.number(f)].refs() - occurrences(list@, 0, f.addr()) by {
                assert(self.release_state(&before, list@, list@.len() as int, f));
            }
            assert forall|f: Frame|
                before.out(f) && occurrences(list@, 0, f.addr()) > 0 implies last_release(
                before.metas()[before.number(f)],
                self.metas()[before.number(f)],
                occurrences(list@, 0, f.addr()),
                #[trigger] self.out(f),
            ) by {
                assert(self.release_state(&before, list@, list@.len() as int, f));
            }
        }
    }

    /// How a frame that was out stands when the first `k` frames of a list have
    /// been released.
    spec fn release_state(&self, before: &FramePool<M>, list: Seq<Frame>, k: int, f: Frame) -> bool {
        let i = before.number(f);
        let all = occurrences(list, 0, f.addr());
        let left = occurrences(list, k, f.addr());
        let was = before.metas()[i];
        let now = self.metas()[i];
        &&& left == all ==> (self.out(f) <==> before.out(f)) && now == was
        &&& left < all && all - left < was.refs() ==> self.out(f) && now.refs() == was.refs() - (all
            - left)
        &&& left > 0 ==> self.out(f)
        &&& left == 0 && all > 0 ==> last_release(was, now, all, self.out(f))
    }
}

/// The answer to a release that leaves a frame out, or does not.
pub open spec fn answer(out: bool) -> Reclaim {
    if out {
        Reclaim::Keep
    } else {
        Reclaim::Free
    }
}

/// How a frame stands after the last of its `n` releases, out or not, as that
/// release left it; the releases before it kept it.
pub open spec fn last_release<M: FrameMeta>(was: M, now: M, n: int, out: bool) -> bool {
    exists|m: M|
        {
            &&& #[trigger] m.released(&now, answer(out))
            &&& if n == 1 {
                m == was
            } else {
                m.refs() == was.refs() - (n - 1)
            }
        }
}

proof fn lemma_occurrences_split(frames: Seq<Frame>, k: int, a: int)
    requires
        0 <= k <= frames.len(),
    ensures
        occurrences(frames, k, a) <= occurrences(frames, 0, a),
    decreases k,
{
    if k > 0 {
        lemma_occurrences_split(frames, k - 1, a);
    }
}

impl<M: FrameMeta> FramePool<M> {
    /// Bind to the CPU that serves the thread.
    pub(crate) fn bind(&self, seen: ThreadView) -> (s: CpuStack)
        requires
            self.wf(),
        ensures
            s.fits(self.frames().slab().cpus()),
            forall|slab: &SlabLayout|
                slab.same_shape(&self.frames().slab()) ==> #[trigger] s.serving(slab)
                    == serving_cpu(seen, slab),
    {
        self.frames.bind(seen)
    }

    pub(crate) fn bind_fast(&self, seen: ThreadView) -> (s: CpuStack)
        requires
            self.wf(),
        ensures
            s.fits(self.frames().slab().cpus()),
            forall|slab: &SlabLayout|
                slab.same_shape(&self.frames().slab()) ==> #[trigger] s.serving(slab)
                    == serving_cpu(seen, slab),
    {
        self.frames.bind_fast(seen)
    }

    /// Take a free frame out without telling its metadata.
    pub(crate) fn take_free(&mut self, stack: &CpuStack, seen: &ThreadView) -> (r: Option<usize>)
        requires
            old(self).wf(),
            stack.fits(old(self).frames().slab().cpus()),
            stack.serving(&old(self).frames().slab()) == old(self).serving(*seen),
        ensures
            final(self).wf(),
            final(self).same_pool(old(self)),
            final(self).metas() == old(self).metas(),
            final(self).frames().popped_from(&old(self).frames(), old(self).serving(*seen), r),
            r is None <==> old(self).available(*seen) == 0,
            r is None ==> *final(self) == *old(self),
            r matches Some(a) ==> final(self).frames().went_out(&old(self).frames(), a as int)
                && final(self).available(*seen) == old(self).available(*seen) - 1,
            final(self).serving(*seen) == old(self).serving(*seen),
            stack.fits(final(self).frames().slab().cpus()),
    {
        let ghost before = *self;
        let r = self.frames.pop_l2(stack);
        proof {
            self.lemma_grid(&before, *seen);
            self.frames.slab().lemma_same_shape(&before.frames.slab());
            if let Some(a) = r {
                self.lemma_less_available(&before, *seen, Frame { ptr: a });
            }
        }
        r
    }

    /// Put a frame back among the free ones without telling its metadata.
    pub(crate) fn give_free(&mut self, stack: &CpuStack, seen: &ThreadView, a: usize)
        requires
            old(self).wf(),
            old(self).frames().out(a as int),
            stack.fits(old(self).frames().slab().cpus()),
            stack.serving(&old(self).frames().slab()) == old(self).serving(*seen),
        ensures
            final(self).wf(),
            final(self).same_pool(old(self)),
            final(self).metas() == old(self).metas(),
            final(self).frames().pushed_onto(&old(self).frames(), old(self).serving(*seen), a),
            final(self).available(*seen) == old(self).available(*seen) + 1,
            final(self).serving(*seen) == old(self).serving(*seen),
            stack.fits(final(self).frames().slab().cpus()),
    {
        let ghost before = *self;
        self.frames.push_l2(stack, a);
        proof {
            self.lemma_grid(&before, *seen);
            before.frames.lemma_room(*seen);
            self.frames.slab().lemma_same_shape(&before.frames.slab());
        }
    }

    /// Tell a frame's metadata that it is handed out.
    pub(crate) fn tell_alloc(&mut self, f: Frame)
        requires
            old(self).wf(),
            old(self).frames().is_frame(f.addr()),
        ensures
            final(self).wf(),
            final(self).frames() == old(self).frames(),
            final(self).region() == old(self).region(),
            final(self).metas().len() == old(self).metas().len(),
            final(self).meta_moved(old(self), old(self).number(f)),
            old(self).metas()[old(self).number(f)].allocated(
                &final(self).metas()[old(self).number(f)],
            ),
    {
        let i: usize = self.frame_index(&f);
        self.meta[i].on_alloc();
    }

    /// Tell a frame's metadata that one reference is released.
    pub(crate) fn tell_free(&mut self, f: Frame) -> (r: Reclaim)
        requires
            old(self).wf(),
            old(self).frames().is_frame(f.addr()),
        ensures
            final(self).wf(),
            final(self).frames() == old(self).frames(),
            final(self).region() == old(self).region(),
            final(self).metas().len() == old(self).metas().len(),
            final(self).meta_moved(old(self), old(self).number(f)),
            old(self).metas()[old(self).number(f)].released(
                &final(self).metas()[old(self).number(f)],
                r,
            ),
    {
        let i: usize = self.frame_index(&f);
        self.meta[i].on_free()
    }

    /// The handle of the frame at an address.
    pub(crate) fn frame_at(a: usize) -> (f: Frame)
        ensures
            f.addr() == a,
    {
        Frame { ptr: a }
    }
}

} // verus!
