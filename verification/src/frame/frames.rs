//! The free frames of a pool: which frames there are, and where each free one
//! lies.
//!
//! A free frame is on the central stack or on one CPU's stack; every other frame
//! is out. Only addresses move: nothing is ever written to a frame's body.

use vstd::prelude::*;
use vstd::arithmetic::power2::{lemma_pow2_pos, pow2};
use crate::bits::is_pow2;
use crate::rseq::abi::ThreadView;
use crate::rseq::slab::{serving_cpu, ClassLoc, CpuStack, Fast, SlabLayout};
use crate::sys::SysBoxSlice;

verus! {

/// How many frames move between a CPU's stack and the central stack at once.
pub const BATCH: usize = 32;

/// Frames cached per CPU.
pub const CAP_PER_CPU: u32 = 256;

/// log2 of the bytes of a CPU's block: the header, the lock and the slots.
pub const BLOCK_SHIFT: u32 = 12;

/// Where a frame is.
pub enum FramePlace {
    /// Not among the free frames.
    Out,
    /// At position `k` of the central stack.
    Central { k: int },
    /// At position `k` of a CPU's stack.
    Cached { cpu: int, k: int },
}

/// The index of the frame at `a`.
pub open spec fn frame_number(base: int, size: int, a: int) -> int {
    (a - base) / size
}

/// Whether `a` is the address of one of `count` frames.
pub open spec fn on_grid(base: int, size: int, count: int, a: int) -> bool {
    let i = frame_number(base, size, a);
    0 <= i < count && a == base + i * size
}

proof fn lemma_grid(base: int, size: int, count: int, i: int)
    requires
        size > 0,
        0 <= i < count,
    ensures
        frame_number(base, size, base + i * size) == i,
        on_grid(base, size, count, base + i * size),
        0 <= i * size,
        (i + 1) * size <= count * size,
        (i + 1) * size == i * size + size,
{
    vstd::arithmetic::div_mod::lemma_div_multiples_vanish(i, size);
    assert(i * size == size * i) by (nonlinear_arith);
    assert(0 <= i * size && (i + 1) * size <= count * size && (i + 1) * size == i * size + size)
        by (nonlinear_arith)
        requires
            0 <= i < count,
            size > 0,
    ;
}

/// The frame at position `k` of the central stack is marked as being there.
spec fn central_ok(slots: Seq<u64>, base: int, size: int, place: Seq<FramePlace>, k: int) -> bool {
    let a = slots[k] as int;
    &&& on_grid(base, size, place.len() as int, a)
    &&& place[frame_number(base, size, a)] == (FramePlace::Central { k })
}

/// The frame at position `k` of a CPU's stack is marked as being there.
spec fn cached_ok(
    slab: &SlabLayout,
    base: int,
    size: int,
    place: Seq<FramePlace>,
    cpu: int,
    k: int,
) -> bool {
    let a = slab.stack(cpu, 0)[k] as int;
    &&& on_grid(base, size, place.len() as int, a)
    &&& place[frame_number(base, size, a)] == (FramePlace::Cached { cpu, k })
}

/// Frame `i` is where its mark says.
spec fn place_ok(
    slots: Seq<u64>,
    top: int,
    slab: &SlabLayout,
    base: int,
    size: int,
    place: Seq<FramePlace>,
    i: int,
) -> bool {
    match place[i] {
        FramePlace::Out => true,
        FramePlace::Central { k } => 0 <= k < top && slots[k] == base + i * size,
        FramePlace::Cached { cpu, k } => {
            &&& 0 <= cpu < slab.cpus()
            &&& 0 <= k < slab.stack(cpu, 0).len()
            &&& slab.stack(cpu, 0)[k] == base + i * size
        },
    }
}

/// How many of the first `n` frames are on the central stack.
pub open spec fn central_count(place: Seq<FramePlace>, n: int) -> int
    decreases n,
{
    if n <= 0 {
        0
    } else {
        central_count(place, n - 1) + if place[n - 1] is Central {
            1int
        } else {
            0int
        }
    }
}

/// How many of the first `n` frames are on the stack of `cpu`.
pub open spec fn cached_count(place: Seq<FramePlace>, cpu: int, n: int) -> int
    decreases n,
{
    if n <= 0 {
        0
    } else {
        cached_count(place, cpu, n - 1) + if on_stack_of(place[n - 1], cpu) {
            1int
        } else {
            0int
        }
    }
}

pub open spec fn on_stack_of(p: FramePlace, cpu: int) -> bool {
    p matches FramePlace::Cached { cpu: c, .. } && c == cpu
}

proof fn lemma_cached_count(place: Seq<FramePlace>, i: int, v: FramePlace, cpu: int, n: int)
    requires
        0 <= i < place.len(),
        n <= place.len(),
    ensures
        cached_count(place.update(i, v), cpu, n) == cached_count(place, cpu, n) + if i < n {
            (if on_stack_of(v, cpu) {
                1int
            } else {
                0int
            }) - (if on_stack_of(place[i], cpu) {
                1int
            } else {
                0int
            })
        } else {
            0int
        },
    decreases n,
{
    if n > 0 {
        lemma_cached_count(place, i, v, cpu, n - 1);
    }
}

/// How many of the first `n` frames are out.
pub open spec fn out_count(place: Seq<FramePlace>, n: int) -> int
    decreases n,
{
    if n <= 0 {
        0
    } else {
        out_count(place, n - 1) + if place[n - 1] is Out {
            1int
        } else {
            0int
        }
    }
}

proof fn lemma_central_count(place: Seq<FramePlace>, i: int, v: FramePlace, n: int)
    requires
        0 <= i < place.len(),
        n <= place.len(),
    ensures
        central_count(place.update(i, v), n) == central_count(place, n) + if i < n {
            (if v is Central {
                1int
            } else {
                0int
            }) - (if place[i] is Central {
                1int
            } else {
                0int
            })
        } else {
            0int
        },
        0 <= central_count(place, n),
        n >= 0 ==> central_count(place, n) <= n,
        i < n && place[i] !is Central ==> central_count(place, n) < n,
    decreases n,
{
    if n > 0 {
        lemma_central_count(place, i, v, n - 1);
    }
}

/// The frames of a region and where the free ones lie.
pub struct Frames {
    base: usize,
    shift: u32,
    size: usize,
    count: usize,
    slab: SlabLayout,
    slots: SysBoxSlice<u64>,
    top: usize,
    place: Ghost<Seq<FramePlace>>,
}

impl Frames {
    pub closed spec fn base(&self) -> int {
        self.base as int
    }

    pub closed spec fn size(&self) -> int {
        self.size as int
    }

    pub closed spec fn count(&self) -> int {
        self.count as int
    }

    pub closed spec fn slab(&self) -> SlabLayout {
        self.slab
    }

    /// Where each frame is.
    pub closed spec fn place(&self) -> Seq<FramePlace> {
        self.place@
    }

    /// The central stack, bottom first.
    pub closed spec fn central(&self) -> Seq<usize> {
        Seq::new(self.top as nat, |k: int| self.slots@[k] as usize)
    }

    /// A CPU's stack, bottom first.
    pub open spec fn cached(&self, cpu: int) -> Seq<usize> {
        self.slab().stack(cpu, 0)
    }

    /// Whether `a` is the address of a frame.
    pub open spec fn is_frame(&self, a: int) -> bool {
        on_grid(self.base(), self.size(), self.count(), a)
    }

    /// Index of the frame at `a`.
    pub open spec fn number(&self, a: int) -> int {
        frame_number(self.base(), self.size(), a)
    }

    /// Whether `a` is the address of a frame that is out.
    pub open spec fn out(&self, a: int) -> bool {
        self.is_frame(a) && self.place()[self.number(a)] is Out
    }

    spec fn geometry(&self) -> bool {
        &&& self.base > 0
        &&& self.size > 0
        &&& self.count > 0
        &&& self.size == pow2(self.shift as nat)
        &&& self.shift < usize::BITS
        &&& self.base + self.count * self.size <= usize::MAX
        &&& self.slots@.len() == self.count
        &&& self.top <= self.count
        &&& self.slab.wf()
        &&& self.slab.class_count() == 1
        &&& self.slab.cap(0) == CAP_PER_CPU
        &&& self.place@.len() == self.count
        &&& forall|cpu: int| 0 <= cpu < self.slab.cpus() ==> !#[trigger] self.slab.is_stopped_at(cpu)
    }

    /// Every free frame lies in exactly one place, and is marked as being there. No
    /// CPU is ever stopped.
    pub closed spec fn wf(&self) -> bool {
        &&& self.geometry()
        &&& self.top == central_count(self.place@, self.count as int)
        &&& forall|cpu: int|
            0 <= cpu < self.slab.cpus() ==> #[trigger] self.slab.stack(cpu, 0).len()
                == cached_count(self.place@, cpu, self.count as int)
        &&& forall|k: int|
            0 <= k < self.top ==> #[trigger] central_ok(
                self.slots@,
                self.base as int,
                self.size as int,
                self.place@,
                k,
            )
        &&& forall|cpu: int, k: int|
            0 <= cpu < self.slab.cpus() && 0 <= k < self.slab.stack(cpu, 0).len()
                ==> #[trigger] cached_ok(
                &self.slab,
                self.base as int,
                self.size as int,
                self.place@,
                cpu,
                k,
            )
        &&& forall|i: int|
            0 <= i < self.count ==> #[trigger] place_ok(
                self.slots@,
                self.top as int,
                &self.slab,
                self.base as int,
                self.size as int,
                self.place@,
                i,
            )
    }

    /// Exactly the frame at `a` has gone out since `other`.
    pub open spec fn went_out(&self, other: &Frames, a: int) -> bool {
        &&& !other.out(a)
        &&& self.out(a)
        &&& forall|b: int| b != a ==> (#[trigger] self.out(b) <==> other.out(b))
    }

    /// The region and its division are those of `other`.
    pub open spec fn same_grid(&self, other: &Frames) -> bool {
        &&& self.base() == other.base()
        &&& self.size() == other.size()
        &&& self.count() == other.count()
        &&& self.place().len() == other.place().len()
        &&& self.slab().same_shape(&other.slab())
    }

    /// Push a frame that is out onto the central stack.
    fn central_push(&mut self, a: usize)
        requires
            old(self).wf(),
            old(self).out(a as int),
        ensures
            final(self).wf(),
            final(self).same_grid(old(self)),
            old(self).went_out(final(self), a as int),
            final(self).central() == old(self).central().push(a),
            final(self).slab() == old(self).slab(),
    {
        let ghost before = *self;
        let ghost i = frame_number(self.base as int, self.size as int, a as int);
        let ghost k = self.top as int;
        proof {
            lemma_central_count(self.place@, i, FramePlace::Central { k }, self.count as int);
            self.slab.lemma_same_shape_refl();
        }
        self.slots.put(self.top, a as u64);
        self.top = self.top + 1;
        proof {
            self.place@ = before.place@.update(i, FramePlace::Central { k });
            self.lemma_moved(&before, i);
            assert forall|j: int| 0 <= j < self.top implies #[trigger] central_ok(
                self.slots@,
                self.base as int,
                self.size as int,
                self.place@,
                j,
            ) by {
                if j < k {
                    assert(central_ok(
                        before.slots@,
                        self.base as int,
                        self.size as int,
                        before.place@,
                        j,
                    ));
                }
            }
            assert(self.central() =~= before.central().push(a));
            lemma_grid(self.base as int, self.size as int, self.count as int, i);
        }
    }

    /// Pop a frame off the central stack.
    fn central_pop(&mut self) -> (r: Option<usize>)
        requires
            old(self).wf(),
        ensures
            final(self).wf(),
            final(self).same_grid(old(self)),
            final(self).slab() == old(self).slab(),
            match r {
                None => old(self).central().len() == 0 && *final(self) == *old(self),
                Some(a) => {
                    &&& old(self).central().len() > 0
                    &&& a == old(self).central().last()
                    &&& final(self).central() == old(self).central().drop_last()
                    &&& final(self).went_out(old(self), a as int)
                },
            },
    {
        let ghost before = *self;
        proof {
            self.slab.lemma_same_shape_refl();
        }
        if self.top == 0 {
            return None;
        }
        self.top = self.top - 1;
        let word: u64 = self.slots.at(self.top);
        let a: usize = word as usize;
        proof {
            let k = self.top as int;
            assert(central_ok(self.slots@, self.base as int, self.size as int, before.place@, k));
            let i = frame_number(self.base as int, self.size as int, word as int);
            lemma_grid(self.base as int, self.size as int, self.count as int, i);
            assert(a == word);
            lemma_central_count(before.place@, i, FramePlace::Out, self.count as int);
            self.place@ = before.place@.update(i, FramePlace::Out);
            self.lemma_moved(&before, i);
            assert forall|j: int| 0 <= j < self.top implies #[trigger] central_ok(
                self.slots@,
                self.base as int,
                self.size as int,
                self.place@,
                j,
            ) by {
                assert(central_ok(
                    before.slots@,
                    self.base as int,
                    self.size as int,
                    before.place@,
                    j,
                ));
            }
            assert(self.central() =~= before.central().drop_last());
        }
        Some(a)
    }

    /// Moving frame `i` on or off the top of the central stack leaves the marks
    /// of the other frames and of all CPUs' stacks in order.
    proof fn lemma_moved(&self, before: &Frames, i: int)
        requires
            before.wf(),
            0 <= i < before.count,
            before.place@[i] !is Cached,
            self.place@[i] !is Cached,
            self.base == before.base,
            self.size == before.size,
            self.count == before.count,
            self.slab == before.slab,
            self.place@ == before.place@.update(i, self.place@[i]),
            forall|k: int|
                0 <= k < before.top && k < self.top ==> #[trigger] self.slots@[k]
                    == before.slots@[k],
            forall|k: int|
                self.top <= k < before.top ==> #[trigger] before.slots@[k] == before.base + i
                    * before.size,
        ensures
            forall|cpu: int|
                0 <= cpu < self.slab.cpus() ==> #[trigger] self.slab.stack(cpu, 0).len()
                    == cached_count(self.place@, cpu, self.count as int),
            forall|cpu: int, k: int|
                0 <= cpu < self.slab.cpus() && 0 <= k < self.slab.stack(cpu, 0).len()
                    ==> #[trigger] cached_ok(
                    &self.slab,
                    self.base as int,
                    self.size as int,
                    self.place@,
                    cpu,
                    k,
                ),
            forall|j: int|
                0 <= j < self.count && j != i ==> #[trigger] place_ok(
                    self.slots@,
                    self.top as int,
                    &self.slab,
                    self.base as int,
                    self.size as int,
                    self.place@,
                    j,
                ),
            forall|b: int|
                b != self.base + i * self.size ==> (#[trigger] self.out(b) <==> before.out(b)),
    {
        let base = self.base as int;
        let size = self.size as int;
        lemma_grid(base, size, self.count as int, i);
        assert forall|cpu: int| 0 <= cpu < self.slab.cpus() implies #[trigger] self.slab.stack(
            cpu,
            0,
        ).len() == cached_count(self.place@, cpu, self.count as int) by {
            lemma_cached_count(before.place@, i, self.place@[i], cpu, self.count as int);
        }
        assert forall|cpu: int, k: int|
            0 <= cpu < self.slab.cpus() && 0 <= k < self.slab.stack(cpu, 0).len() implies #[trigger] cached_ok(
            &self.slab,
            base,
            size,
            self.place@,
            cpu,
            k,
        ) by {
            assert(cached_ok(&before.slab, base, size, before.place@, cpu, k));
        }
        assert forall|j: int| 0 <= j < self.count && j != i implies #[trigger] place_ok(
            self.slots@,
            self.top as int,
            &self.slab,
            base,
            size,
            self.place@,
            j,
        ) by {
            lemma_grid(base, size, self.count as int, j);
            assert(place_ok(
                before.slots@,
                before.top as int,
                &before.slab,
                base,
                size,
                before.place@,
                j,
            ));
            if let FramePlace::Central { k } = before.place@[j] {
                assert(self.top <= k ==> before.slots@[k] == base + i * size);
            }
        }
        assert forall|b: int| b != base + i * size implies (#[trigger] self.out(b) <==> before.out(
            b,
        )) by {
            if frame_number(base, size, b) == i {
                assert(!before.is_frame(b));
            }
        }
    }
}

impl Frames {
    /// Pop a frame off the stack of the CPU that serves the thread.
    fn take_cached(&mut self, stack: &CpuStack) -> (r: Option<usize>)
        requires
            old(self).wf(),
            stack.fits(old(self).slab().cpus()),
        ensures
            final(self).wf(),
            final(self).same_grid(old(self)),
            final(self).central() == old(self).central(),
            ({
                let cpu = stack.serving(&old(self).slab());
                let st = old(self).cached(cpu);
                if old(self).slab().is_stopped_at(cpu) || st.len() == 0 {
                    r is None && *final(self) == *old(self)
                } else {
                    &&& r == Some(st.last())
                    &&& final(self).went_out(old(self), st.last() as int)
                    &&& final(self).cached(cpu) == st.drop_last()
                    &&& final(self).slab().same_stacks_but(&old(self).slab(), cpu, 0)
                }
            }),
    {
        let ghost before = *self;
        let ghost cpu = stack.serving(&before.slab);
        let ghost st = before.slab.stack(cpu, 0);
        let ghost k = st.len() - 1;
        proof {
            stack.lemma_serving(&before.slab);
            self.slab.lemma_same_shape_refl();
            if st.len() > 0 {
                assert(cached_ok(
                    &before.slab,
                    self.base as int,
                    self.size as int,
                    before.place@,
                    cpu,
                    k,
                ));
                let i = frame_number(self.base as int, self.size as int, st[k] as int);
                lemma_grid(self.base as int, self.size as int, self.count as int, i);
            }
        }
        match stack.pop(&mut self.slab, 0) {
            Fast::Done(a) => {
                proof {
                    let i = frame_number(self.base as int, self.size as int, a as int);
                    self.slab.lemma_same_shape(&before.slab);
                    lemma_central_count(before.place@, i, FramePlace::Out, self.count as int);
                    self.place@ = before.place@.update(i, FramePlace::Out);
                    self.lemma_cache_moved(&before, i, cpu);
                    assert(self.central() =~= before.central());
                }
                Some(a)
            },
            Fast::NeedsSlow => None,
        }
    }

    /// Push a frame that is out onto the stack of the CPU that serves the thread;
    /// `false` if that is full or stopped.
    fn put_cached(&mut self, stack: &CpuStack, a: usize) -> (done: bool)
        requires
            old(self).wf(),
            stack.fits(old(self).slab().cpus()),
            old(self).out(a as int),
        ensures
            final(self).wf(),
            final(self).same_grid(old(self)),
            final(self).central() == old(self).central(),
            ({
                let cpu = stack.serving(&old(self).slab());
                let st = old(self).cached(cpu);
                if old(self).slab().is_stopped_at(cpu) || st.len() >= CAP_PER_CPU {
                    !done && *final(self) == *old(self)
                } else {
                    &&& done
                    &&& old(self).went_out(final(self), a as int)
                    &&& final(self).cached(cpu) == st.push(a)
                    &&& final(self).slab().same_stacks_but(&old(self).slab(), cpu, 0)
                }
            }),
    {
        let ghost before = *self;
        let ghost cpu = stack.serving(&before.slab);
        let ghost st = before.slab.stack(cpu, 0);
        let ghost k = st.len() as int;
        let ghost i = frame_number(self.base as int, self.size as int, a as int);
        proof {
            stack.lemma_serving(&before.slab);
            self.slab.lemma_same_shape_refl();
            lemma_grid(self.base as int, self.size as int, self.count as int, i);
        }
        match stack.push(&mut self.slab, 0, a) {
            Fast::Done(_) => {
                proof {
                    self.slab.lemma_same_shape(&before.slab);
                    lemma_central_count(
                        before.place@,
                        i,
                        FramePlace::Cached { cpu, k },
                        self.count as int,
                    );
                    self.place@ = before.place@.update(i, FramePlace::Cached { cpu, k });
                    self.lemma_cache_moved(&before, i, cpu);
                    assert(self.central() =~= before.central());
                }
                true
            },
            Fast::NeedsSlow => false,
        }
    }

    /// Moving frame `i` on or off the top of a CPU's stack keeps the invariant.
    proof fn lemma_cache_moved(&self, before: &Frames, i: int, cpu: int)
        requires
            before.wf(),
            0 <= cpu < before.slab.cpus(),
            0 <= i < before.count,
            before.place@[i] !is Central,
            self.slab.wf(),
            self.slab.same_shape(&before.slab),
            self.slab.same_stacks_but(&before.slab, cpu, 0),
            *self == (Frames { slab: self.slab, place: self.place, ..*before }),
            self.place@ == before.place@.update(i, self.place@[i]),
            self.top == central_count(self.place@, self.count as int),
            ({
                let a = before.base + i * before.size;
                let st = before.slab.stack(cpu, 0);
                let now = self.slab.stack(cpu, 0);
                ||| before.place@[i] is Out && self.place@[i] == (FramePlace::Cached {
                    cpu,
                    k: st.len() as int,
                }) && now == st.push(a as usize)
                ||| st.len() > 0 && st.last() == a && self.place@[i] is Out && now
                    == st.drop_last()
            }),
        ensures
            self.wf(),
            forall|b: int|
                b != self.base + i * self.size ==> (#[trigger] self.out(b) <==> before.out(b)),
    {
        let base = self.base as int;
        let size = self.size as int;
        let st = before.slab.stack(cpu, 0);
        let now = self.slab.stack(cpu, 0);
        lemma_grid(base, size, self.count as int, i);
        self.slab.lemma_same_shape(&before.slab);
        if st.len() > 0 {
            assert(cached_ok(&before.slab, base, size, before.place@, cpu, st.len() - 1));
        }
        assert forall|c2: int| 0 <= c2 < self.slab.cpus() implies #[trigger] self.slab.stack(
            c2,
            0,
        ).len() == cached_count(self.place@, c2, self.count as int) by {
            lemma_cached_count(before.place@, i, self.place@[i], c2, self.count as int);
            assert(before.slab.stack(c2, 0).len() == cached_count(
                before.place@,
                c2,
                self.count as int,
            ));
            if c2 != cpu {
                assert(self.slab.stack(c2, 0) == before.slab.stack(c2, 0));
            }
        }
        assert forall|c2: int, k: int|
            0 <= c2 < self.slab.cpus() && 0 <= k < self.slab.stack(c2, 0).len() implies #[trigger] cached_ok(
            &self.slab,
            base,
            size,
            self.place@,
            c2,
            k,
        ) by {
            if c2 == cpu && k >= st.len() {
            } else {
                assert(cached_ok(&before.slab, base, size, before.place@, c2, k));
                if c2 != cpu {
                    assert(self.slab.stack(c2, 0) == before.slab.stack(c2, 0));
                }
                if st.len() > 0 {
                    assert(cached_ok(
                        &before.slab,
                        base,
                        size,
                        before.place@,
                        cpu,
                        st.len() - 1,
                    ));
                }
            }
        }
        assert forall|k: int| 0 <= k < self.top implies #[trigger] central_ok(
            self.slots@,
            base,
            size,
            self.place@,
            k,
        ) by {
            assert(central_ok(before.slots@, base, size, before.place@, k));
        }
        assert forall|j: int| 0 <= j < self.count implies #[trigger] place_ok(
            self.slots@,
            self.top as int,
            &self.slab,
            base,
            size,
            self.place@,
            j,
        ) by {
            lemma_grid(base, size, self.count as int, j);
            if j != i {
                assert(place_ok(
                    before.slots@,
                    before.top as int,
                    &before.slab,
                    base,
                    size,
                    before.place@,
                    j,
                ));
                if let FramePlace::Cached { cpu: c2, k } = before.place@[j] {
                    if c2 != cpu {
                        assert(self.slab.stack(c2, 0) == before.slab.stack(c2, 0));
                    }
                }
            }
        }
        assert forall|b: int| b != base + i * size implies (#[trigger] self.out(b) <==> before.out(
            b,
        )) by {
            if frame_number(base, size, b) == i {
                assert(!before.is_frame(b));
            }
        }
    }
}

/// How many frames a refill puts on a CPU's stack that has room for `room`, out
/// of a central stack of `len`, besides the one it hands out.
pub open spec fn refill_moves(len: int, room: int) -> int {
    let most = if len - 1 < BATCH - 1 {
        len - 1
    } else {
        BATCH - 1
    };
    if room < most {
        room
    } else {
        most
    }
}

/// The last `m` frames of a stack, from the top down.
pub open spec fn top_down(st: Seq<usize>, m: int) -> Seq<usize> {
    st.skip(st.len() - m).reverse()
}

impl Frames {
    /// Room left on the stack of a CPU; none while it is stopped.
    pub open spec fn room(&self, cpu: int) -> int {
        if self.slab().is_stopped_at(cpu) {
            0
        } else {
            CAP_PER_CPU - self.cached(cpu).len()
        }
    }

    /// Take a frame off the central stack, and move more of them to the stack of
    /// the CPU that serves the thread.
    fn refill(&mut self, stack: &CpuStack) -> (r: Option<usize>)
        requires
            old(self).wf(),
            stack.fits(old(self).slab().cpus()),
        ensures
            final(self).wf(),
            final(self).same_grid(old(self)),
            ({
                let cpu = stack.serving(&old(self).slab());
                let c = old(self).central();
                let m = refill_moves(c.len() as int, old(self).room(cpu));
                if c.len() == 0 {
                    r is None && *final(self) == *old(self)
                } else {
                    &&& r == Some(c.last())
                    &&& final(self).went_out(old(self), c.last() as int)
                    &&& final(self).central() == c.take(c.len() - 1 - m)
                    &&& final(self).cached(cpu) == old(self).cached(cpu) + top_down(
                        c.drop_last(),
                        m,
                    )
                    &&& final(self).slab().same_stacks_but(&old(self).slab(), cpu, 0)
                }
            }),
    {
        let ghost before = *self;
        let ghost cpu = stack.serving(&before.slab);
        let ghost c = before.central();
        let ghost st = before.cached(cpu);
        let ghost room = before.room(cpu);
        proof {
            stack.lemma_serving(&before.slab);
            before.slab.lemma_stack_bound(cpu, 0);
            before.slab.lemma_same_shape_refl();
        }
        let handed: usize = match self.central_pop() {
            Some(a) => a,
            None => {
                return None;
            },
        };
        let mut m: usize = 0;
        proof {
            assert(c.drop_last() =~= c.take(c.len() - 1));
            assert(st + top_down(c.drop_last(), 0) =~= st);
        }
        while m < BATCH - 1
            invariant
                before.wf(),
                self.wf(),
                stack.fits(self.slab.cpus()),
                cpu == stack.serving(&before.slab),
                0 <= cpu < before.slab.cpus(),
                c == before.central(),
                c.len() > 0,
                handed == c.last(),
                st == before.cached(cpu),
                room == before.room(cpu),
                0 <= room,
                m <= BATCH - 1,
                m <= room,
                m <= c.len() - 1,
                self.same_grid(&before),
                self.went_out(&before, handed as int),
                self.central() == c.take(c.len() - 1 - m),
                self.cached(cpu) == st + top_down(c.drop_last(), m as int),
                self.slab().same_stacks_but(&before.slab(), cpu, 0),
            ensures
                m == refill_moves(c.len() as int, room),
            decreases BATCH - 1 - m,
        {
            let ghost cur = *self;
            proof {
                self.slab.lemma_same_shape(&before.slab);
                stack.lemma_serving_same(&self.slab, &before.slab);
            }
            match self.central_pop() {
                None => {
                    break;
                },
                Some(p) => {
                    let ghost mid = *self;
                    if self.put_cached(stack, p) {
                        proof {
                            self.lemma_back(&mid, &cur, p as int);
                            self.slab.lemma_same_shape_trans(&mid.slab, &before.slab);
                            self.slab.lemma_same_shape(&before.slab);
                            assert(c.take(c.len() - 1 - m).drop_last() =~= c.take(
                                c.len() - 1 - (m + 1),
                            ));
                            assert(p == c[c.len() - 2 - m]);
                            assert(top_down(c.drop_last(), m + 1) =~= top_down(
                                c.drop_last(),
                                m as int,
                            ).push(p));
                            assert((st + top_down(c.drop_last(), m as int)).push(p) =~= st
                                + top_down(c.drop_last(), m + 1));
                            assert forall|k: int, d: int|
                                0 <= k < self.slab.cpus() && 0 <= d < self.slab.class_count() && !(k
                                    == cpu && d == 0) implies #[trigger] self.slab.stack(k, d)
                                == before.slab.stack(k, d) by {
                                assert(cur.slab.stack(k, d) == before.slab.stack(k, d));
                            }
                            self.lemma_out_trans(&cur, &before, handed as int);
                        }
                        m = m + 1;
                    } else {
                        self.central_push(p);
                        proof {
                            self.lemma_back(&mid, &cur, p as int);
                            self.lemma_out_trans(&cur, &before, handed as int);
                            assert(cur.central().drop_last().push(p) =~= cur.central());
                        }
                        break;
                    }
                },
            }
        }
        Some(handed)
    }

    /// A frame that went out and came back changes nothing in what is out.
    proof fn lemma_back(&self, mid: &Frames, first: &Frames, a: int)
        requires
            mid.went_out(first, a),
            mid.went_out(self, a),
        ensures
            forall|b: int| #[trigger] self.out(b) <==> first.out(b),
    {
        assert forall|b: int| #[trigger] self.out(b) <==> first.out(b) by {
            if b != a {
                assert(mid.out(b) <==> first.out(b));
                assert(mid.out(b) <==> self.out(b));
            }
        }
    }

    proof fn lemma_out_trans(&self, mid: &Frames, first: &Frames, a: int)
        requires
            mid.went_out(first, a),
            forall|b: int| #[trigger] self.out(b) <==> mid.out(b),
        ensures
            self.went_out(first, a),
    {
        assert forall|b: int| b != a implies (#[trigger] self.out(b) <==> first.out(b)) by {
            assert(mid.out(b) <==> first.out(b));
        }
        assert(self.out(a));
    }

    /// Put a frame that is out back among the free ones when the stack of the CPU
    /// that serves the thread took it not: drain half a batch of that stack to
    /// the central one first.
    fn drain(&mut self, stack: &CpuStack, a: usize)
        requires
            old(self).wf(),
            stack.fits(old(self).slab().cpus()),
            old(self).out(a as int),
            old(self).room(stack.serving(&old(self).slab())) == 0,
        ensures
            final(self).wf(),
            final(self).same_grid(old(self)),
            old(self).went_out(final(self), a as int),
            ({
                let cpu = stack.serving(&old(self).slab());
                let st = old(self).cached(cpu);
                let half = BATCH as int / 2;
                if old(self).slab().is_stopped_at(cpu) {
                    &&& final(self).central() == old(self).central().push(a)
                    &&& final(self).slab() == old(self).slab()
                } else {
                    &&& final(self).central() == old(self).central() + top_down(st, half)
                    &&& final(self).cached(cpu) == st.take(st.len() - half).push(a)
                    &&& final(self).slab().same_stacks_but(&old(self).slab(), cpu, 0)
                }
            }),
    {
        let ghost before = *self;
        let ghost cpu = stack.serving(&before.slab);
        let ghost c = before.central();
        let ghost st = before.cached(cpu);
        let ghost stopped = before.slab.is_stopped_at(cpu);
        let mut m: usize = 0;
        proof {
            stack.lemma_serving(&before.slab);
            before.slab.lemma_same_shape_refl();
            assert(st.take(st.len() as int) =~= st);
            assert(c + top_down(st, 0) =~= c);
        }
        while m < BATCH / 2
            invariant
                before.wf(),
                self.wf(),
                stack.fits(self.slab.cpus()),
                cpu == stack.serving(&before.slab),
                0 <= cpu < before.slab.cpus(),
                c == before.central(),
                st == before.cached(cpu),
                stopped == before.slab.is_stopped_at(cpu),
                !stopped ==> st.len() == CAP_PER_CPU,
                stopped ==> m == 0,
                m <= BATCH / 2,
                self.same_grid(&before),
                m == 0 ==> *self == before,
                forall|b: int| #[trigger] self.out(b) <==> before.out(b),
                self.central() == c + top_down(st, m as int),
                self.cached(cpu) == st.take(st.len() - m),
                self.slab().same_stacks_but(&before.slab(), cpu, 0),
            ensures
                !stopped ==> m == BATCH / 2,
            decreases BATCH / 2 - m,
        {
            let ghost cur = *self;
            proof {
                self.slab.lemma_same_shape(&before.slab);
                stack.lemma_serving_same(&self.slab, &before.slab);
            }
            match self.take_cached(stack) {
                Some(p) => {
                    let ghost mid = *self;
                    self.central_push(p);
                    proof {
                        self.lemma_back(&mid, &cur, p as int);
                        mid.slab.lemma_same_shape_trans(&cur.slab, &before.slab);
                        self.slab.lemma_same_shape_trans(&mid.slab, &before.slab);
                        self.slab.lemma_same_shape(&before.slab);
                        assert(st.take(st.len() - m).drop_last() =~= st.take(st.len() - (m + 1)));
                        assert(p == st[st.len() - 1 - m]);
                        assert(top_down(st, m + 1) =~= top_down(st, m as int).push(p));
                        assert((c + top_down(st, m as int)).push(p) =~= c + top_down(st, m + 1));
                        assert forall|b: int| #[trigger] self.out(b) <==> before.out(b) by {
                            assert(cur.out(b) <==> before.out(b));
                        }
                        assert forall|k: int, d: int|
                            0 <= k < self.slab.cpus() && 0 <= d < self.slab.class_count() && !(k
                                == cpu && d == 0) implies #[trigger] self.slab.stack(k, d)
                            == before.slab.stack(k, d) by {
                            assert(cur.slab.stack(k, d) == before.slab.stack(k, d));
                        }
                    }
                    m = m + 1;
                },
                None => {
                    break;
                },
            }
        }
        let ghost drained = *self;
        proof {
            self.slab.lemma_same_shape(&before.slab);
            stack.lemma_serving_same(&self.slab, &before.slab);
            assert(before.out(a as int));
            assert(self.out(a as int));
        }
        if !self.put_cached(stack, a) {
            self.central_push(a);
            proof {
                assert(c + top_down(st, 0) =~= c);
            }
        }
        proof {
            self.slab.lemma_same_shape(&drained.slab);
            self.slab.lemma_same_shape_trans(&drained.slab, &before.slab);
            assert forall|b: int| b != a implies (#[trigger] before.out(b) <==> self.out(b)) by {
                assert(drained.out(b) <==> before.out(b));
                assert(drained.out(b) <==> self.out(b));
            }
            if !stopped {
                assert forall|k: int, d: int|
                    0 <= k < self.slab.cpus() && 0 <= d < self.slab.class_count() && !(k == cpu && d
                        == 0) implies #[trigger] self.slab.stack(k, d) == before.slab.stack(k, d) by {
                    assert(drained.slab.stack(k, d) == before.slab.stack(k, d));
                }
            }
        }
    }
}

impl Frames {
    /// What an allocation on `cpu` does: the top of its stack, else of the central
    /// one, goes out; nothing only if both are empty.
    pub open spec fn popped_from(
        &self,
        other: &Frames,
        cpu: int,
        r: Option<usize>,
    ) -> bool {
        let st = other.cached(cpu);
        let c = other.central();
        let m = refill_moves(c.len() as int, other.room(cpu));
        if !other.slab().is_stopped_at(cpu) && st.len() > 0 {
            &&& r == Some(st.last())
            &&& self.went_out(other, st.last() as int)
            &&& self.central() == c
            &&& self.cached(cpu) == st.drop_last()
            &&& self.slab().same_stacks_but(&other.slab(), cpu, 0)
        } else if c.len() > 0 {
            &&& r == Some(c.last())
            &&& self.went_out(other, c.last() as int)
            &&& self.central() == c.take(c.len() - 1 - m)
            &&& self.cached(cpu) == st + top_down(c.drop_last(), m)
            &&& self.slab().same_stacks_but(&other.slab(), cpu, 0)
        } else {
            r is None && *self == *other
        }
    }

    /// The frames at `addrs` went out one by one, each as by an allocation on `cpu`.
    pub open spec fn popped_all(&self, other: &Frames, cpu: int, addrs: Seq<usize>) -> bool
        decreases addrs.len(),
    {
        if addrs.len() == 0 {
            *self == *other
        } else {
            exists|mid: Frames|
                mid.popped_all(other, cpu, addrs.drop_last()) && #[trigger] self.popped_from(
                    &mid,
                    cpu,
                    Some(addrs.last()),
                )
        }
    }

    /// What a free on `cpu` does: the frame at `a` goes on top of its stack; if
    /// that is full, half a batch of it moves to the central stack
    /// first; while the CPU is stopped, the frame goes to the central stack.
    pub open spec fn pushed_onto(&self, other: &Frames, cpu: int, a: usize) -> bool {
        let st = other.cached(cpu);
        let half = BATCH as int / 2;
        &&& other.went_out(self, a as int)
        &&& if other.slab().is_stopped_at(cpu) {
            &&& self.central() == other.central().push(a)
            &&& self.slab() == other.slab()
        } else {
            &&& self.slab().same_stacks_but(&other.slab(), cpu, 0)
            &&& if st.len() < CAP_PER_CPU {
                &&& self.central() == other.central()
                &&& self.cached(cpu) == st.push(a)
            } else {
                &&& self.central() == other.central() + top_down(st, half)
                &&& self.cached(cpu) == st.take(st.len() - half).push(a)
            }
        }
    }

    /// The frames at `addrs` went back one by one, each as by a free on `cpu`.
    pub open spec fn pushed_all(&self, other: &Frames, cpu: int, addrs: Seq<usize>) -> bool
        decreases addrs.len(),
    {
        if addrs.len() == 0 {
            *self == *other
        } else {
            exists|mid: Frames|
                mid.pushed_all(other, cpu, addrs.drop_last()) && #[trigger] self.pushed_onto(
                    &mid,
                    cpu,
                    addrs.last(),
                )
        }
    }

    /// Take a free frame out.
    pub(crate) fn pop_l2(&mut self, stack: &CpuStack) -> (r: Option<usize>)
        requires
            old(self).wf(),
            stack.fits(old(self).slab().cpus()),
        ensures
            final(self).wf(),
            final(self).same_grid(old(self)),
            final(self).popped_from(old(self), stack.serving(&old(self).slab()), r),
    {
        match self.take_cached(stack) {
            Some(a) => Some(a),
            None => self.refill(stack),
        }
    }

    /// Put a frame that is out back among the free ones.
    pub(crate) fn push_l2(&mut self, stack: &CpuStack, a: usize)
        requires
            old(self).wf(),
            stack.fits(old(self).slab().cpus()),
            old(self).out(a as int),
        ensures
            final(self).wf(),
            final(self).same_grid(old(self)),
            final(self).pushed_onto(old(self), stack.serving(&old(self).slab()), a),
    {
        proof {
            stack.lemma_serving(&self.slab);
            self.slab.lemma_stack_bound(stack.serving(&self.slab), 0);
        }
        if !self.put_cached(stack, a) {
            self.drain(stack, a);
        }
    }

    pub(crate) fn bind(&self, seen: ThreadView) -> (s: CpuStack)
        requires
            self.wf(),
        ensures
            s.seen() == seen,
            s.fits(self.slab().cpus()),
            forall|slab: &SlabLayout|
                slab.same_shape(&self.slab()) ==> #[trigger] s.serving(slab) == serving_cpu(
                    seen,
                    slab,
                ),
            s.serving(&self.slab()) == serving_cpu(seen, &self.slab()),
    {
        let s = CpuStack::current(&self.slab, seen);
        proof {
            assert forall|slab: &SlabLayout| slab.same_shape(&self.slab) implies #[trigger] s.serving(
                slab,
            ) == serving_cpu(seen, slab) by {
                slab.lemma_same_shape(&self.slab);
            }
        }
        s
    }

    pub(crate) fn bind_fast(&self, seen: ThreadView) -> (s: CpuStack)
        requires
            self.wf(),
        ensures
            s.seen() == seen,
            s.fits(self.slab().cpus()),
            forall|slab: &SlabLayout|
                slab.same_shape(&self.slab()) ==> #[trigger] s.serving(slab) == serving_cpu(
                    seen,
                    slab,
                ),
            s.serving(&self.slab()) == serving_cpu(seen, &self.slab()),
    {
        let s = CpuStack::current_fast(&self.slab, seen);
        proof {
            assert forall|slab: &SlabLayout| slab.same_shape(&self.slab) implies #[trigger] s.serving(
                slab,
            ) == serving_cpu(seen, slab) by {
                slab.lemma_same_shape(&self.slab);
            }
        }
        s
    }

    /// The index of the frame that holds an address.
    pub(crate) fn index_of(&self, a: usize) -> (i: usize)
        requires
            self.wf(),
            self.base() <= a,
        ensures
            i == self.number(a as int),
    {
        proof {
            vstd::bits::lemma_usize_shr_is_div((a - self.base) as usize, self.shift as usize);
            let x: usize = (a - self.base) as usize;
            let s: u32 = self.shift;
            let t: usize = self.shift as usize;
            assert(x >> s == x >> t) by (bit_vector)
                requires
                    s == t,
            ;
        }
        (a - self.base) >> self.shift
    }

    pub(crate) fn frame_count(&self) -> (n: usize)
        ensures
            n == self.count(),
    {
        self.count
    }

    pub(crate) fn frame_bytes(&self) -> (n: usize)
        ensures
            n == self.size(),
    {
        self.size
    }

    pub(crate) fn first(&self) -> (a: usize)
        ensures
            a == self.base(),
    {
        self.base
    }

    /// Frames are apart from each other, inside the region, and found by their
    /// index.
    pub proof fn lemma_frame(&self, a: int, b: int)
        requires
            self.wf(),
            self.is_frame(a),
            self.is_frame(b),
        ensures
            self.base() <= a,
            a + self.size() <= self.base() + self.count() * self.size(),
            self.number(a) == self.number(b) <==> a == b,
            a < b ==> a + self.size() <= b,
            (a - self.base()) % self.size() == 0,
    {
        let i = self.number(a);
        let j = self.number(b);
        lemma_grid(self.base(), self.size(), self.count(), i);
        lemma_grid(self.base(), self.size(), self.count(), j);
        let z = self.size();
        assert((i < j ==> (i + 1) * z <= j * z) && (j <= i ==> j * z <= i * z)) by (nonlinear_arith)
            requires
                z > 0,
        ;
        vstd::arithmetic::div_mod::lemma_mod_multiples_basic(i, z);
    }

    /// The serving CPU is one of the slab's, and its stack within its capacity.
    pub(crate) proof fn lemma_room(&self, seen: ThreadView)
        requires
            self.wf(),
        ensures
            0 <= serving_cpu(seen, &self.slab()) < self.slab().cpus(),
            self.cached(serving_cpu(seen, &self.slab())).len() <= CAP_PER_CPU,
    {
        crate::rseq::restart::lemma_committed_in_range(seen.attempts@, self.slab.cpus(), 0);
        self.slab.lemma_bound_range(seen);
        self.slab.lemma_stack_bound(serving_cpu(seen, &self.slab), 0);
    }

    /// What the invariant says of the pieces that other modules see.
    pub(crate) proof fn lemma_shape(&self)
        requires
            self.wf(),
        ensures
            self.place().len() == self.count(),
            self.count() > 0,
            self.size() > 0,
            self.base() > 0,
            self.base() + self.count() * self.size() <= usize::MAX,
            is_pow2(self.size()),
            self.slab().wf(),
    {
    }

    /// Divide a region of `len` bytes at `base` into frames of `2^shift` bytes,
    /// all free and on the central stack, the last one on top.
    pub(crate) fn new(base: usize, shift: u32, size: usize, count: usize, num_cpus: u32) -> (f: Frames)
        requires
            base > 0,
            shift < usize::BITS,
            size == pow2(shift as nat),
            count > 0,
            base + count * size <= usize::MAX,
            count <= crate::sys::max_elements(),
            num_cpus * 512 <= crate::sys::max_elements(),
        ensures
            f.wf(),
            f.base() == base,
            f.size() == size,
            f.count() == count,
            f.central() == Seq::new(count as nat, |i: int| (base + i * size) as usize),
            f.slab().cpus() == if num_cpus == 0 {
                1
            } else {
                num_cpus as int
            },
            forall|cpu: int|
                0 <= cpu < f.slab().cpus() ==> #[trigger] f.cached(cpu) == Seq::<usize>::empty()
                    && !f.slab().is_stopped_at(cpu),
            forall|a: int| !#[trigger] f.out(a),
    {
        let classes: [ClassLoc; 1] = [ClassLoc { header_off: 0, slots_off: 16, lock_off: 8 }];
        let caps: [u32; 1] = [CAP_PER_CPU];
        assert(1usize << 12u32 == 4096usize) by (bit_vector);
        let slab = SlabLayout::new(num_cpus, BLOCK_SHIFT, &classes, &caps);
        let ghost place = Seq::new(count as nat, |i: int| FramePlace::Central { k: i });
        let mut f = Frames {
            base,
            shift,
            size,
            count,
            slab,
            slots: SysBoxSlice::<u64>::filled(count, 0),
            top: 0,
            place: Ghost(place),
        };
        proof {
            lemma_pow2_pos(shift as nat);
        }
        let mut i: usize = 0;
        while i < count
            invariant
                i <= count,
                size > 0,
                base + count * size <= usize::MAX,
                f == (Frames { slots: f.slots, top: i, ..f }),
                f.base == base,
                f.size == size,
                f.shift == shift,
                f.count == count,
                f.slab == slab,
                f.place@ == place,
                f.slots@.len() == count,
                forall|j: int| 0 <= j < i ==> #[trigger] f.slots@[j] == base + j * size,
            decreases count - i,
        {
            proof {
                lemma_grid(base as int, size as int, count as int, i as int);
            }
            f.slots.put(i, (base + i * size) as u64);
            f.top = i + 1;
            i = i + 1;
        }
        proof {
            lemma_all_central(place, count as int);
            assert forall|cpu: int| 0 <= cpu < f.slab.cpus() implies #[trigger] f.slab.stack(
                cpu,
                0,
            ).len() == cached_count(place, cpu, count as int) by {
                lemma_none_cached(place, cpu, count as int);
            }
            assert forall|k: int| 0 <= k < count implies #[trigger] central_ok(
                f.slots@,
                base as int,
                size as int,
                place,
                k,
            ) by {
                lemma_grid(base as int, size as int, count as int, k);
            }
            assert forall|a: int| !#[trigger] f.out(a) by {}
            assert(f.central() =~= Seq::new(count as nat, |i: int| (base + i * size) as usize));
        }
        f
    }
}

/// Frames on the stacks of the first `n` CPUs.
pub open spec fn cached_total(slab: &SlabLayout, n: int) -> int
    decreases n,
{
    if n <= 0 {
        0
    } else {
        cached_total(slab, n - 1) + slab.stack(n - 1, 0).len()
    }
}

spec fn marked_total(place: Seq<FramePlace>, cpus: int, n: int) -> int
    decreases cpus,
{
    if cpus <= 0 {
        0
    } else {
        marked_total(place, cpus - 1, n) + cached_count(place, cpus - 1, n)
    }
}

proof fn lemma_marked_step(place: Seq<FramePlace>, cpus: int, n: int)
    requires
        0 < n <= place.len(),
    ensures
        marked_total(place, cpus, n) == marked_total(place, cpus, n - 1) + if place[n - 1] matches FramePlace::Cached {
        cpu, .. } && 0 <= cpu < cpus {
            1int
        } else {
            0int
        },
    decreases cpus,
{
    if cpus > 0 {
        lemma_marked_step(place, cpus - 1, n);
    }
}

proof fn lemma_partition(place: Seq<FramePlace>, cpus: int, n: int)
    requires
        0 <= n <= place.len(),
        forall|i: int|
            0 <= i < n ==> ((#[trigger] place[i]) matches FramePlace::Cached { cpu, .. } ==> 0 <= cpu
                < cpus),
    ensures
        out_count(place, n) + central_count(place, n) + marked_total(place, cpus, n) == n,
    decreases n,
{
    if n > 0 {
        lemma_partition(place, cpus, n - 1);
        lemma_marked_step(place, cpus, n);
        assert(place[n - 1] matches FramePlace::Cached { cpu, .. } ==> 0 <= cpu < cpus);
    } else {
        lemma_marked_none(place, cpus);
    }
}

proof fn lemma_marked_none(place: Seq<FramePlace>, cpus: int)
    ensures
        marked_total(place, cpus, 0) == 0,
    decreases cpus,
{
    if cpus > 0 {
        lemma_marked_none(place, cpus - 1);
    }
}

impl Frames {
    /// No frame is lost or doubled: the frames that are out, those on the central
    /// stack and those on the CPUs' stacks add up to all there are.
    pub proof fn lemma_conserved(&self)
        requires
            self.wf(),
        ensures
            out_count(self.place(), self.count()) + self.central().len() + cached_total(
                &self.slab(),
                self.slab().cpus(),
            ) == self.count(),
    {
        assert forall|i: int| 0 <= i < self.count implies ((
        #[trigger] self.place@[i]) matches FramePlace::Cached { cpu, .. } ==> 0 <= cpu
            < self.slab.cpus()) by {
            assert(place_ok(
                self.slots@,
                self.top as int,
                &self.slab,
                self.base as int,
                self.size as int,
                self.place@,
                i,
            ));
        }
        lemma_partition(self.place@, self.slab.cpus(), self.count as int);
        self.lemma_marks(self.slab.cpus());
    }

    proof fn lemma_marks(&self, n: int)
        requires
            self.wf(),
            n <= self.slab.cpus(),
        ensures
            cached_total(&self.slab, n) == marked_total(self.place@, n, self.count as int),
        decreases n,
    {
        if n > 0 {
            self.lemma_marks(n - 1);
            assert(self.slab.stack(n - 1, 0).len() == cached_count(
                self.place@,
                n - 1,
                self.count as int,
            ));
        }
    }
}

impl Frames {
    /// Whether only the stack of `cpu` may hold frames.
    pub open spec fn alone(&self, cpu: int) -> bool {
        &&& 0 <= cpu < self.slab().cpus()
        &&& forall|k: int|
            0 <= k < self.slab().cpus() && k != cpu ==> (#[trigger] self.cached(k)).len() == 0
    }

    /// No CPU is stopped.
    pub proof fn lemma_running(&self, cpu: int)
        requires
            self.wf(),
            0 <= cpu < self.slab().cpus(),
        ensures
            !self.slab().is_stopped_at(cpu),
    {
    }

    proof fn lemma_alone(&self, cpu: int, n: int)
        requires
            self.alone(cpu),
            n <= self.slab().cpus(),
        ensures
            cached_total(&self.slab(), n) == if cpu < n {
                self.cached(cpu).len() as int
            } else {
                0
            },
        decreases n,
    {
        if n > 0 {
            self.lemma_alone(cpu, n - 1);
            if n - 1 != cpu {
                assert(self.cached(n - 1).len() == 0);
            }
        }
    }

    /// Where only one CPU's stack holds frames, the free frames are those on it and
    /// on the central stack.
    pub proof fn lemma_free_alone(&self, cpu: int)
        requires
            self.wf(),
            self.alone(cpu),
        ensures
            self.central().len() + self.cached(cpu).len() == self.count() - out_count(
                self.place(),
                self.count(),
            ),
    {
        self.lemma_conserved();
        self.lemma_alone(cpu, self.slab().cpus());
    }

    /// A CPU that works alone stays alone, as frames go out and come back.
    pub proof fn lemma_alone_kept(&self, other: &Frames, cpu: int)
        requires
            other.alone(cpu),
            self.same_grid(other),
            *self == *other || self.slab().same_stacks_but(&other.slab(), cpu, 0),
            other.wf(),
        ensures
            self.alone(cpu),
    {
        self.slab().lemma_same_shape(&other.slab());
        assert forall|k: int| 0 <= k < self.slab().cpus() && k != cpu implies (#[trigger] self.cached(
            k,
        )).len() == 0 by {
            assert(other.cached(k).len() == 0);
        }
    }
}

proof fn lemma_none_cached(place: Seq<FramePlace>, cpu: int, n: int)
    requires
        0 <= n <= place.len(),
        forall|i: int| 0 <= i < n ==> (#[trigger] place[i]) is Central,
    ensures
        cached_count(place, cpu, n) == 0,
    decreases n,
{
    if n > 0 {
        lemma_none_cached(place, cpu, n - 1);
    }
}

proof fn lemma_all_central(place: Seq<FramePlace>, n: int)
    requires
        0 <= n <= place.len(),
        forall|i: int| 0 <= i < n ==> (#[trigger] place[i]) is Central,
    ensures
        central_count(place, n) == n,
    decreases n,
{
    if n > 0 {
        lemma_all_central(place, n - 1);
    }
}

} // verus!
