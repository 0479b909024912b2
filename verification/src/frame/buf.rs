//! Byte buffers over pooled frames.
//!
//! A [`FrameMut`] is the only handle on a fresh frame and may write all of it.
//! Freezing it gives a [`FrameBuf`], a window on the bytes filled. Windows split
//! into disjoint ones that share the frame, and the frame goes back when the last
//! window is given up.

use vstd::prelude::*;
use crate::frame::handle::FrameSource;
use crate::frame::named::{NamedPool, PoolThread};
use crate::frame::{Frame, Reclaim, RefCount};

verus! {

/// The only handle on a fresh frame.
#[derive(Debug)]
pub struct FrameMut {
    frame: Frame,
    cap: u16,
}

impl FrameMut {
    pub closed spec fn at(&self) -> Frame {
        self.frame
    }

    /// Bytes that may be written.
    pub closed spec fn cap(&self) -> int {
        self.cap as int
    }

    /// Take a fresh frame, of which at most 65535 bytes are used; `None` if there
    /// is none for the thread.
    pub fn new<P: FrameSource>(src: &mut P, t: &mut PoolThread) -> (r: Option<FrameMut>)
        requires
            old(src).ready(old(t)),
        ensures
            final(src).ready(final(t)),
            final(src).frame_bytes() == old(src).frame_bytes(),
            final(src).same_layout(old(src)),
            final(t).seen == old(t).seen,
            r is None <==> old(src).spare(old(t)) == 0,
            final(src).spare(final(t)) == old(src).spare(old(t)) - if r is Some {
                1int
            } else {
                0int
            },
            match r {
                Some(w) => {
                    &&& !old(src).held(old(t)).contains_key(w.at())
                    &&& final(src).held(final(t)) == old(src).held(old(t)).insert(w.at(), 1)
                    &&& w.cap() == if old(src).frame_bytes() < u16::MAX {
                        old(src).frame_bytes()
                    } else {
                        u16::MAX as int
                    }
                    &&& w.cap() <= old(src).frame_bytes() && w.cap() <= 65535 && (w.cap() == old(
                        src,
                    ).frame_bytes() || w.cap() == 65535)
                },
                None => final(src).held(final(t)) == old(src).held(old(t)),
            },
    {
        match src.alloc_frame(t) {
            Some(frame) => {
                let bytes: usize = src.frame_capacity();
                let cap: u16 = if bytes < u16::MAX as usize {
                    bytes as u16
                } else {
                    u16::MAX
                };
                Some(FrameMut { frame, cap })
            },
            None => None,
        }
    }

    /// Bytes that may be written.
    pub fn capacity(&self) -> (n: usize)
        ensures
            n == self.cap(),
    {
        self.cap as usize
    }

    pub fn frame(&self) -> (f: Frame)
        ensures
            f == self.at(),
    {
        self.frame
    }

    /// Publish the first `len` bytes, or all there are, as a window.
    pub fn freeze(self, len: u16) -> (b: FrameBuf)
        ensures
            b.wf(),
            b.at() == self.at(),
            b.start() == 0,
            b.size() == if len < self.cap() {
                len as int
            } else {
                self.cap()
            },
            b.size() <= len && b.size() <= self.cap() && (b.size() == len || b.size() == self.cap()),
    {
        let n: u16 = if len < self.cap {
            len
        } else {
            self.cap
        };
        FrameBuf { frame: self.frame, offset: 0, len: n }
    }

    /// Give the frame back unused.
    pub fn discard<P: FrameSource>(self, src: &mut P, t: &mut PoolThread)
        requires
            old(src).ready(old(t)),
            old(src).held(old(t)).contains_key(self.at()),
        ensures
            final(src).ready(final(t)),
            final(src).frame_bytes() == old(src).frame_bytes(),
            final(src).same_layout(old(src)),
            final(t).seen == old(t).seen,
            final(src).spare(final(t)) == old(src).spare(old(t)) + 1,
            final(src).held(final(t)) == old(src).held(old(t)).remove(self.at()),
    {
        let ghost before = src.held(t);
        let ghost first = *src;
        src.release(t, self.frame);
        let ghost mid = *src;
        src.recycle_frame(t, self.frame);
        proof {
            src.lemma_layout_kept(&mid, &first);
            assert(before.insert(self.frame, before[self.frame].wrapping_sub(1)).remove(self.frame)
                =~= before.remove(self.frame));
        }
    }
}

/// A window on the bytes of a frame.
#[derive(Debug)]
pub struct FrameBuf {
    frame: Frame,
    offset: u16,
    len: u16,
}

impl FrameBuf {
    pub closed spec fn at(&self) -> Frame {
        self.frame
    }

    /// Where the window starts in the frame.
    pub closed spec fn start(&self) -> int {
        self.offset as int
    }

    /// Bytes of the window.
    pub closed spec fn size(&self) -> int {
        self.len as int
    }

    /// Where the window ends in the frame.
    pub open spec fn end(&self) -> int {
        self.start() + self.size()
    }

    pub closed spec fn wf(&self) -> bool {
        self.offset + self.len <= u16::MAX
    }

    /// Two windows have no byte in common.
    pub open spec fn apart(&self, other: &FrameBuf) -> bool {
        self.at() != other.at() || self.end() <= other.start() || other.end() <= self.start()
    }

    pub fn len(&self) -> (n: usize)
        ensures
            n == self.size(),
    {
        self.len as usize
    }

    pub fn is_empty(&self) -> (b: bool)
        ensures
            b == (self.size() == 0),
    {
        self.len == 0
    }

    pub fn frame(&self) -> (f: Frame)
        ensures
            f == self.at(),
    {
        self.frame
    }

    /// Offset of the window in its frame.
    pub fn offset(&self) -> (n: usize)
        ensures
            n == self.start(),
    {
        self.offset as usize
    }

    /// The number of windows on the frame.
    pub fn ref_count<P: FrameSource>(&self, src: &P, t: &PoolThread) -> (n: usize)
        requires
            src.ready(t),
            src.held(t).contains_key(self.at()),
        ensures
            n == src.held(t)[self.at()],
    {
        src.refcount(t, self.frame)
    }

    /// Split the window: what is returned has its first `at` bytes, and this one
    /// keeps the rest. The two are disjoint and together are the old one.
    pub fn split_to<P: FrameSource>(&mut self, src: &mut P, t: &PoolThread, at: u16) -> (head: FrameBuf)
        requires
            old(self).wf(),
            old(src).ready(t),
            old(src).held(t).contains_key(old(self).at()),
            at <= old(self).size(),
        ensures
            final(self).wf(),
            head.wf(),
            split_in(old(self), &head, final(self)),
            head.size() == at,
            head.apart(final(self)),
            final(src).ready(t),
            final(src).frame_bytes() == old(src).frame_bytes(),
            final(src).same_layout(old(src)),
            final(src).spare(t) == old(src).spare(t),
            final(src).held(t) == old(src).held(t).insert(
                old(self).at(),
                old(src).held(t)[old(self).at()].wrapping_add(1),
            ),
    {
        let head_offset: u16 = self.offset;
        self.offset = self.offset + at;
        self.len = self.len - at;
        src.retain(t, self.frame);
        FrameBuf { frame: self.frame, offset: head_offset, len: at }
    }

    /// Keep the first `len` bytes.
    pub fn truncate(&mut self, len: u16)
        requires
            old(self).wf(),
        ensures
            final(self).wf(),
            final(self).at() == old(self).at(),
            final(self).start() == old(self).start(),
            final(self).size() == if len < old(self).size() {
                len as int
            } else {
                old(self).size()
            },
            final(self).size() <= len && final(self).size() <= old(self).size() && (final(self).size()
                == len || final(self).size() == old(self).size()),
    {
        if len < self.len {
            self.len = len;
        }
    }

    /// Drop the first `len` bytes.
    pub fn advance(&mut self, len: u16)
        requires
            old(self).wf(),
            len <= old(self).size(),
        ensures
            final(self).wf(),
            final(self).at() == old(self).at(),
            final(self).start() == old(self).start() + len,
            final(self).end() == old(self).end(),
    {
        self.offset = self.offset + len;
        self.len = self.len - len;
    }

    /// Give the window up; with the last one the frame goes back to the pool.
    pub fn close<P: FrameSource>(self, src: &mut P, t: &mut PoolThread)
        requires
            old(src).ready(old(t)),
            old(src).held(old(t)).contains_key(self.at()),
        ensures
            final(src).ready(final(t)),
            final(src).frame_bytes() == old(src).frame_bytes(),
            final(src).same_layout(old(src)),
            final(t).seen == old(t).seen,
            final(src).spare(final(t)) == old(src).spare(old(t)) + if old(src).held(
                old(t),
            )[self.at()] == 1 {
                1int
            } else {
                0int
            },
            final(src).held(final(t)) == if old(src).held(old(t))[self.at()] == 1 {
                old(src).held(old(t)).remove(self.at())
            } else {
                old(src).held(old(t)).insert(
                    self.at(),
                    old(src).held(old(t))[self.at()].wrapping_sub(1),
                )
            },
    {
        let ghost before = src.held(t);
        let ghost first = *src;
        if src.release(t, self.frame) == Reclaim::Free {
            let ghost mid = *src;
            src.recycle_frame(t, self.frame);
            proof {
                src.lemma_layout_kept(&mid, &first);
                assert(before.insert(self.frame, before[self.frame].wrapping_sub(1)).remove(
                    self.frame,
                ) =~= before.remove(self.frame));
            }
        }
    }
}

/// The window `whole` has been split: `head` is its first part, and `rest` what is
/// left of it.
pub open spec fn split_in(whole: &FrameBuf, head: &FrameBuf, rest: &FrameBuf) -> bool {
    &&& head.at() == whole.at()
    &&& rest.at() == whole.at()
    &&& head.start() == whole.start()
    &&& rest.start() == head.end()
    &&& rest.end() == whole.end()
}

/// The window `part` lies inside `whole`, as one does that was truncated or
/// advanced.
pub open spec fn narrowed(whole: &FrameBuf, part: &FrameBuf) -> bool {
    &&& part.at() == whole.at()
    &&& whole.start() <= part.start()
    &&& part.end() <= whole.end()
}

/// One operation on the windows `a` of a frame gave `b`: one of them was split,
/// truncated or advanced, or given up.
pub open spec fn window_step(a: Seq<FrameBuf>, b: Seq<FrameBuf>) -> bool {
    exists|i: int, head: FrameBuf, rest: FrameBuf|
        {
            &&& 0 <= i < a.len()
            &&& {
                ||| #[trigger] split_in(&a[i], &head, &rest) && b == a.update(i, rest).push(head)
                ||| narrowed(&a[i], &rest) && b == a.update(i, rest)
                ||| b == a.remove(i)
            }
        }
}

/// The windows `ws` are what `n` operations made of the window `frozen`.
pub open spec fn windows_of(frozen: FrameBuf, ws: Seq<FrameBuf>, n: nat) -> bool
    decreases n,
{
    if n == 0 {
        ws == seq![frozen]
    } else {
        exists|prev: Seq<FrameBuf>| #[trigger]
            window_step(prev, ws) && windows_of(frozen, prev, (n - 1) as nat)
    }
}

/// Bytes of some windows together.
pub open spec fn total_size(ws: Seq<FrameBuf>) -> int
    decreases ws.len(),
{
    if ws.len() == 0 {
        0
    } else {
        total_size(ws.drop_last()) + ws.last().size()
    }
}

proof fn lemma_total_update(ws: Seq<FrameBuf>, i: int, w: FrameBuf)
    requires
        0 <= i < ws.len(),
    ensures
        total_size(ws.update(i, w)) == total_size(ws) - ws[i].size() + w.size(),
    decreases ws.len(),
{
    let u = ws.update(i, w);
    if i == ws.len() - 1 {
        assert(u.drop_last() =~= ws.drop_last());
    } else {
        lemma_total_update(ws.drop_last(), i, w);
        assert(u.drop_last() =~= ws.drop_last().update(i, w));
    }
}

proof fn lemma_total_remove(ws: Seq<FrameBuf>, i: int)
    requires
        0 <= i < ws.len(),
    ensures
        total_size(ws.remove(i)) == total_size(ws) - ws[i].size(),
    decreases ws.len(),
{
    let u = ws.remove(i);
    if i == ws.len() - 1 {
        assert(u =~= ws.drop_last());
    } else {
        lemma_total_remove(ws.drop_last(), i);
        assert(u.drop_last() =~= ws.drop_last().remove(i));
        assert(u.last() == ws.last());
    }
}

/// However a frozen buffer is split, truncated and advanced, its windows stay
/// inside it, no two of them have a byte in common, and together they have no more
/// bytes than it had.
pub proof fn lemma_windows_disjoint(frozen: FrameBuf, ws: Seq<FrameBuf>, n: nat)
    requires
        windows_of(frozen, ws, n),
    ensures
        forall|i: int|
            0 <= i < ws.len() ==> narrowed(&frozen, #[trigger] &ws[i]) && ws[i].size() >= 0,
        forall|i: int, j: int|
            0 <= i < ws.len() && 0 <= j < ws.len() && i != j ==> (#[trigger] ws[i]).apart(
                #[trigger] &ws[j],
            ),
        total_size(ws) <= frozen.size(),
    decreases n,
{
    if n == 0 {
        assert(ws.drop_last() =~= Seq::<FrameBuf>::empty());
        assert(total_size(ws.drop_last()) == 0);
    } else {
        let prev = choose|prev: Seq<FrameBuf>| #[trigger]
            window_step(prev, ws) && windows_of(frozen, prev, (n - 1) as nat);
        lemma_windows_disjoint(frozen, prev, (n - 1) as nat);
        lemma_step_disjoint(frozen, prev, ws);
    }
}

proof fn lemma_step_disjoint(frozen: FrameBuf, a: Seq<FrameBuf>, b: Seq<FrameBuf>)
    requires
        window_step(a, b),
        forall|i: int|
            0 <= i < a.len() ==> narrowed(&frozen, #[trigger] &a[i]) && a[i].size() >= 0,
        forall|i: int, j: int|
            0 <= i < a.len() && 0 <= j < a.len() && i != j ==> (#[trigger] a[i]).apart(
                #[trigger] &a[j],
            ),
    ensures
        forall|i: int|
            0 <= i < b.len() ==> narrowed(&frozen, #[trigger] &b[i]) && b[i].size() >= 0,
        forall|i: int, j: int|
            0 <= i < b.len() && 0 <= j < b.len() && i != j ==> (#[trigger] b[i]).apart(
                #[trigger] &b[j],
            ),
        total_size(b) <= total_size(a),
{
    let (i, head, rest) = choose|i: int, head: FrameBuf, rest: FrameBuf|
        {
            &&& 0 <= i < a.len()
            &&& {
                ||| #[trigger] split_in(&a[i], &head, &rest) && b == a.update(i, rest).push(head)
                ||| narrowed(&a[i], &rest) && b == a.update(i, rest)
                ||| b == a.remove(i)
            }
        };
    if b == a.remove(i) {
        lemma_total_remove(a, i);
        assert forall|p: int| 0 <= p < b.len() implies #[trigger] b[p] == a[if p < i {
            p
        } else {
            p + 1
        }] by {}
    } else {
        lemma_total_update(a, i, rest);
        if b.len() > a.len() {
            assert(b.drop_last() =~= a.update(i, rest));
        }
    }
}

/// A pool of byte frames, with their bytes.
pub struct BufPool {
    src: NamedPool<RefCount>,
    bytes: Vec<u8>,
}

/// The bytes of some windows are those of each, added up.
pub proof fn lemma_total_size(ws: Seq<FrameBuf>)
    ensures
        total_size(ws) == ws.map_values(|b: FrameBuf| b.size()).fold_left(
            0int,
            |x: int, y: int| x + y,
        ),
    decreases ws.len(),
{
    if ws.len() > 0 {
        lemma_total_size(ws.drop_last());
        assert(ws.map_values(|b: FrameBuf| b.size()).drop_last() =~= ws.drop_last().map_values(
            |b: FrameBuf| b.size(),
        ));
    }
}

/// Where the bytes of frame `i` start.
pub open spec fn byte_index(i: int, size: int) -> int {
    i * size
}

/// Bytes that were never written.
pub open spec fn zeros(n: nat) -> Seq<u8> {
    Seq::new(n, |i: int| 0u8)
}

proof fn lemma_byte_range(i: int, j: int, size: int, count: int)
    requires
        0 <= i < count,
        0 <= j < count,
        size > 0,
    ensures
        0 <= byte_index(i, size),
        byte_index(i, size) + size <= count * size,
        i < j ==> byte_index(i, size) + size <= byte_index(j, size),
        j < i ==> byte_index(j, size) + size <= byte_index(i, size),
{
    assert(0 <= i * size && i * size + size <= count * size) by (nonlinear_arith)
        requires
            0 <= i < count,
            size > 0,
    ;
    assert((i < j ==> i * size + size <= j * size) && (j < i ==> j * size + size <= i * size))
        by (nonlinear_arith)
        requires
            size > 0,
    ;
}

impl BufPool {
    pub closed spec fn source(&self) -> NamedPool<RefCount> {
        self.src
    }

    /// How many bytes there are.
    pub closed spec fn byte_count(&self) -> int {
        self.bytes@.len() as int
    }

    /// The pool and the thread's side of it are in order, and every frame has its
    /// bytes.
    pub open spec fn ready(&self, t: &PoolThread) -> bool {
        &&& self.source().ready(t)
        &&& self.source().inner() matches Some(p) ==> self.byte_count() == p.frames().count()
            * p.frames().size()
    }

    /// The frames that handles hold, each with its reference count.
    pub open spec fn held(&self, t: &PoolThread) -> Map<Frame, usize> {
        self.source().held(t)
    }

    /// The bytes of a frame.
    pub closed spec fn body(&self, f: Frame) -> Seq<u8> {
        let p = self.src.inner()->0;
        let at = byte_index(p.number(f), p.frames().size());
        self.bytes@.subrange(at, at + p.frames().size())
    }

    /// The bytes a window shows.
    pub open spec fn shown(&self, b: &FrameBuf) -> Seq<u8> {
        self.body(b.at()).subrange(b.start(), b.end())
    }

    /// A byte pool over a configured or unconfigured pool, all zero.
    pub fn over(src: NamedPool<RefCount>) -> (p: BufPool)
        requires
            src.inner() matches Some(q) ==> q.wf(),
        ensures
            p.source() == src,
            forall|t: &PoolThread| src.ready(t) ==> #[trigger] p.ready(t),
            src.inner() matches Some(q) ==> forall|f: Frame|
                q.frames().is_frame(f.addr()) ==> #[trigger] p.body(f) == zeros(
                    q.frames().size() as nat,
                ),
    {
        let mut n: usize = 0;
        match src.pool() {
            Some(q) => {
                proof {
                    q.frames().lemma_shape();
                    q.lemma_pool();
                }
                n = q.capacity() * q.frame_size();
            },
            None => {},
        }
        let mut bytes: Vec<u8> = Vec::new();
        let mut i: usize = 0;
        while i < n
            invariant
                i <= n,
                bytes@ == zeros(i as nat),
            decreases n - i,
        {
            bytes.push(0);
            i = i + 1;
        }
        let p = BufPool { src, bytes };
        proof {
            if let Some(q) = src.inner() {
                let size = q.frames().size();
                assert forall|f: Frame| q.frames().is_frame(f.addr()) implies #[trigger] p.body(f)
                    == zeros(size as nat) by {
                    q.lemma_pool();
                    q.frames().lemma_shape();
                    q.frames().lemma_frame(f.addr(), f.addr());
                    lemma_byte_range(q.number(f), q.number(f), size, q.frames().count());
                    assert(p.body(f) =~= zeros(size as nat));
                }
            }
        }
        p
    }

    /// The pool's frames, to take and give back handles.
    pub fn frames(&mut self) -> (s: &mut NamedPool<RefCount>)
        ensures
            *s == old(self).source(),
            final(self).source() == *final(s),
            forall|t: &PoolThread, u: &PoolThread|
                #![trigger old(self).ready(t), final(self).ready(u)]
                old(self).ready(t) && final(s).ready(u) && final(s).same_source(
                    &old(self).source(),
                ) ==> final(self).ready(u),
            final(s).same_source(&old(self).source()) ==> forall|f: Frame| #[trigger]
                final(self).body(f) == old(self).body(f),
    {
        &mut self.src
    }

    /// A held frame has all its bytes.
    pub proof fn lemma_body_len(&self, t: &PoolThread, f: Frame)
        requires
            self.ready(t),
            self.held(t).contains_key(f),
        ensures
            self.body(f).len() == self.source().frame_bytes(),
    {
        self.lemma_held(t, f);
    }

    /// The parts of a window that was split show its bytes: the head the first of
    /// them, and what is left the rest.
    pub proof fn lemma_split_shows(&self, t: &PoolThread, whole: &FrameBuf, head: &FrameBuf, rest: &FrameBuf)
        requires
            self.ready(t),
            self.held(t).contains_key(whole.at()),
            whole.wf(),
            whole.end() <= self.source().frame_bytes(),
            split_in(whole, head, rest),
        ensures
            self.shown(whole).len() == whole.size(),
            self.shown(head) == self.shown(whole).take(head.size()),
            self.shown(rest) == self.shown(whole).skip(head.size()),
            self.shown(whole) == self.shown(head) + self.shown(rest),
    {
        self.lemma_held(t, whole.at());
        assert(self.shown(head) =~= self.shown(whole).take(head.size()));
        assert(self.shown(rest) =~= self.shown(whole).skip(head.size()));
        assert(self.shown(whole) =~= self.shown(head) + self.shown(rest));
    }

    proof fn lemma_held(&self, t: &PoolThread, f: Frame)
        requires
            self.ready(t),
            self.held(t).contains_key(f),
        ensures
            self.src.inner() matches Some(p) && {
                let at = byte_index(p.number(f), p.frames().size());
                &&& p.wf()
                &&& p.frames().is_frame(f.addr())
                &&& p.frames().size() > 0
                &&& 0 <= at
                &&& at + p.frames().size() <= self.bytes@.len()
                &&& self.body(f).len() == p.frames().size()
                &&& self.bytes@.len() <= usize::MAX
            },
    {
        assert(self.src.lent_to(t, f));
        let p = self.src.inner()->0;
        p.lemma_pool();
        p.frames().lemma_shape();
        lemma_byte_range(p.number(f), p.number(f), p.frames().size(), p.frames().count());
    }

    fn first_byte(&self, t: &PoolThread, f: Frame) -> (at: usize)
        requires
            self.ready(t),
            self.held(t).contains_key(f),
        ensures
            self.src.inner() matches Some(p) && at == byte_index(p.number(f), p.frames().size()),
    {
        proof {
            self.lemma_held(t, f);
        }
        match self.src.pool() {
            Some(p) => {
                let i: usize = p.frame_index(&f);
                let size: usize = p.frame_size();
                proof {
                    p.lemma_pool();
                    p.frames().lemma_shape();
                }
                i * size
            },
            None => 0,
        }
    }

    /// The bytes of a window.
    pub fn payload(&self, t: &PoolThread, b: &FrameBuf) -> (s: &[u8])
        requires
            self.ready(t),
            self.held(t).contains_key(b.at()),
            b.wf(),
            b.end() <= self.source().frame_bytes(),
        ensures
            s@ == self.shown(b),
            s@.len() == b.size(),
            forall|k: int| 0 <= k < b.size() ==> #[trigger] s@[k] == self.body(b.at())[b.start() + k],
    {
        proof {
            self.lemma_body_len(t, b.at());
        }
        proof {
            self.lemma_held(t, b.at());
        }
        let first: usize = self.first_byte(t, b.frame());
        let from: usize = first + b.offset();
        let to: usize = from + b.len();
        let s: &[u8] = vstd::slice::slice_subrange(self.bytes.as_slice(), from, to);
        assert(s@ =~= self.shown(b));
        s
    }

    /// Write into a frame at an offset.
    fn write_at(&mut self, t: &PoolThread, f: Frame, at: usize, data: &[u8])
        requires
            old(self).ready(t),
            old(self).held(t).contains_key(f),
            at + data@.len() <= old(self).source().frame_bytes(),
        ensures
            final(self).ready(t),
            final(self).source() == old(self).source(),
            final(self).body(f) == old(self).body(f).take(at as int) + data@ + old(self).body(f).skip(
                at + data@.len(),
            ),
            forall|g: Frame|
                g != f && old(self).held(t).contains_key(g) ==> #[trigger] final(self).body(g)
                    == old(self).body(g),
    {
        let ghost before = *self;
        proof {
            self.lemma_held(t, f);
        }
        let first: usize = self.first_byte(t, f);
        let ghost size = self.src.frame_bytes();
        let from: usize = first + at;
        let mut k: usize = 0;
        while k < data.len()
            invariant
                before.ready(t),
                before.held(t).contains_key(f),
                self.src == before.src,
                self.bytes@.len() == before.bytes@.len(),
                from + data@.len() <= self.bytes@.len() <= usize::MAX,
                from == first + at,
                first + size <= self.bytes@.len(),
                at + data@.len() <= size,
                k <= data@.len(),
                forall|j: int|
                    0 <= j < self.bytes@.len() ==> #[trigger] self.bytes@[j] == if from <= j < from + k {
                        data@[j - from]
                    } else {
                        before.bytes@[j]
                    },
            decreases data@.len() - k,
        {
            self.bytes[from + k] = data[k];
            k = k + 1;
        }
        proof {
            assert(self.body(f) =~= before.body(f).take(at as int) + data@ + before.body(f).skip(
                at + data@.len(),
            ));
            assert forall|g: Frame|
                g != f && before.held(t).contains_key(g) implies #[trigger] self.body(g)
                == before.body(g) by {
                before.lemma_held(t, g);
                let p = before.src.inner()->0;
                Frame::lemma_addr(f, g);
                p.frames().lemma_frame(f.addr(), g.addr());
                lemma_byte_range(p.number(f), p.number(g), p.frames().size(), p.frames().count());
                assert(self.body(g) =~= before.body(g));
            }
        }
    }

    /// Write into a fresh frame at an offset.
    pub fn fill(&mut self, t: &PoolThread, w: &FrameMut, at: usize, data: &[u8])
        requires
            old(self).ready(t),
            old(self).held(t).contains_key(w.at()),
            w.cap() <= old(self).source().frame_bytes(),
            at + data@.len() <= w.cap(),
        ensures
            final(self).ready(t),
            final(self).source() == old(self).source(),
            final(self).body(w.at()) == old(self).body(w.at()).take(at as int) + data@ + old(
                self,
            ).body(w.at()).skip(at + data@.len()),
            forall|g: Frame|
                g != w.at() && old(self).held(t).contains_key(g) ==> #[trigger] final(self).body(g)
                    == old(self).body(g),
    {
        self.write_at(t, w.frame(), at, data);
    }

    /// Write into a window at an offset. Windows apart from this one show what
    /// they showed.
    pub fn payload_write(&mut self, t: &PoolThread, b: &FrameBuf, at: usize, data: &[u8])
        requires
            old(self).ready(t),
            old(self).held(t).contains_key(b.at()),
            b.wf(),
            b.end() <= old(self).source().frame_bytes(),
            at + data@.len() <= b.size(),
        ensures
            final(self).ready(t),
            final(self).source() == old(self).source(),
            final(self).shown(b) == old(self).shown(b).take(at as int) + data@ + old(
                self,
            ).shown(b).skip(at + data@.len()),
            forall|c: FrameBuf|
                c.wf() && old(self).held(t).contains_key(c.at()) && c.end() <= old(
                    self,
                ).source().frame_bytes() && c.apart(b) ==> #[trigger] final(self).shown(&c)
                    == old(self).shown(&c),
    {
        let ghost before = *self;
        proof {
            self.lemma_held(t, b.at());
        }
        let from: usize = b.offset() + at;
        self.write_at(t, b.frame(), from, data);
        proof {
            assert(self.shown(b) =~= before.shown(b).take(at as int) + data@ + before.shown(b).skip(
                at + data@.len(),
            ));
            assert forall|c: FrameBuf|
                c.wf() && before.held(t).contains_key(c.at()) && c.end()
                    <= before.source().frame_bytes() && c.apart(b) implies #[trigger] self.shown(&c)
                == before.shown(&c) by {
                before.lemma_held(t, c.at());
                if c.at() == b.at() {
                    assert(self.shown(&c) =~= before.shown(&c));
                } else {
                    assert(self.body(c.at()) == before.body(c.at()));
                }
            }
        }
    }
}

} // verus!
