//! Per-CPU pointer-stack slab.
//!
//! Each logical CPU owns a block of per-size-class stacks of object addresses
//! (one 8-byte slot each). A push (free) and a pop (alloc) operate on the stack
//! for the CPU the calling thread runs on. A block is `2^shift` bytes; within
//! it a class has a header word (live count and capacity) at `header_off`, a
//! lock word at `lock_off` and an array of slots at `slots_off`, all in bytes
//! from the block's base.

use vstd::prelude::*;
use crate::rseq::abi::ThreadView;
use crate::rseq::restart::{self, committed_cpu, RseqResult};
use crate::sys::{max_elements, SysBoxSlice};

verus! {

/// Per-class location within a CPU block, in bytes from the block base.
#[derive(Clone, Copy, Debug)]
pub struct ClassLoc {
    /// Offset of this class's [`Header`].
    pub header_off: u32,
    /// Offset of slot 0 of this class's pointer array.
    pub slots_off: u32,
    /// Offset of the lock word guarding this class's stack.
    pub lock_off: u32,
}

/// Per-class stack header: `current` live count (top of stack), `capacity`
/// ceiling. Kept to 8 bytes so one word-store commits it.
#[derive(Clone, Copy, Debug, PartialEq, Eq, Structural)]
pub struct Header {
    pub current: u32,
    pub capacity: u32,
}

/// The word that holds a header: the count in the low half, the capacity in the
/// high half.
pub open spec fn header_word(h: Header) -> int {
    h.capacity * 0x1_0000_0000 + h.current
}

/// Words in a block of `2^shift` bytes.
pub open spec fn stride_of(shift: u32) -> int {
    ((1usize << shift) / 8) as int
}

/// First word of class `c`'s slots.
pub open spec fn slot_word(classes: Seq<ClassLoc>, c: int) -> int {
    classes[c].slots_off as int / 8
}

/// The header word of class `c`.
pub open spec fn head_word(classes: Seq<ClassLoc>, c: int) -> int {
    classes[c].header_off as int / 8
}

/// Whether `w` is one of class `c`'s slot words.
pub open spec fn is_slot(classes: Seq<ClassLoc>, caps: Seq<u32>, c: int, w: int) -> bool {
    slot_word(classes, c) <= w < slot_word(classes, c) + caps[c]
}

/// Headers and slot arrays of a block lie inside it and none overlaps another.
pub open spec fn geometry_ok(classes: Seq<ClassLoc>, caps: Seq<u32>, stride: int) -> bool {
    &&& classes.len() == caps.len()
    &&& forall|c: int|
        0 <= c < classes.len() ==> {
            &&& #[trigger] head_word(classes, c) < stride
            &&& slot_word(classes, c) + caps[c] <= stride
        }
    &&& forall|c: int, d: int|
        0 <= c < classes.len() && 0 <= d < classes.len() && c != d ==> #[trigger] head_word(
            classes,
            c,
        ) != #[trigger] head_word(classes, d)
    &&& forall|c: int, d: int|
        #![trigger head_word(classes, c), slot_word(classes, d)]
        0 <= c < classes.len() && 0 <= d < classes.len() ==> !is_slot(
            classes,
            caps,
            d,
            head_word(classes, c),
        )
    &&& forall|c: int, d: int|
        0 <= c < classes.len() && 0 <= d < classes.len() && c != d ==> #[trigger] slot_word(
            classes,
            c,
        ) + caps[c] <= #[trigger] slot_word(classes, d) || slot_word(classes, d) + caps[d]
            <= slot_word(classes, c)
}

/// Where the classes lie in a block: three offsets for each.
pub struct ClassTable {
    offs: SysBoxSlice<u32>,
}

impl ClassTable {
    /// The classes' locations, in order.
    pub closed spec fn view(&self) -> Seq<ClassLoc> {
        Seq::new(
            self.offs@.len() / 3,
            |c: int|
                ClassLoc {
                    header_off: self.offs@[3 * c],
                    slots_off: self.offs@[3 * c + 1],
                    lock_off: self.offs@[3 * c + 2],
                },
        )
    }

    /// The offsets' positions fit a machine word.
    #[verifier::type_invariant]
    spec fn bounded(&self) -> bool {
        self.offs@.len() <= max_elements()
    }

    /// A table of these locations.
    fn copied(locs: &[ClassLoc]) -> (t: ClassTable)
        requires
            3 * locs@.len() <= max_elements(),
        ensures
            t@ == locs@,
    {
        let n: usize = locs.len();
        let mut offs = SysBoxSlice::<u32>::filled(3 * n, 0);
        let mut c: usize = 0;
        while c < n
            invariant
                c <= n == locs@.len(),
                3 * n <= max_elements(),
                offs@.len() == 3 * n,
                forall|d: int|
                    0 <= d < c ==> (#[trigger] locs@[d]).header_off == offs@[3 * d]
                        && locs@[d].slots_off == offs@[3 * d + 1] && locs@[d].lock_off == offs@[3 * d
                        + 2],
            decreases n - c,
        {
            let loc: ClassLoc = locs[c];
            offs.put(3 * c, loc.header_off);
            offs.put(3 * c + 1, loc.slots_off);
            offs.put(3 * c + 2, loc.lock_off);
            c = c + 1;
        }
        let t = ClassTable { offs };
        assert(t@ =~= locs@);
        t
    }

    fn len(&self) -> (n: usize)
        ensures
            n == self@.len(),
    {
        self.offs.len() / 3
    }

    fn at(&self, c: usize) -> (loc: ClassLoc)
        requires
            c < self@.len(),
        ensures
            loc == self@[c as int],
    {
        proof {
            use_type_invariant(self);
        }
        ClassLoc {
            header_off: self.offs.at(3 * c),
            slots_off: self.offs.at(3 * c + 1),
            lock_off: self.offs.at(3 * c + 2),
        }
    }
}

/// The slab: geometry, the blocks' words, and per-CPU stop flags.
///
/// While a CPU's stop flag is set its slab is being mutated by the supervisor: an
/// operation that finds it set leaves the slab alone and goes to the central
/// list instead.
pub struct SlabLayout {
    num_cpus: u32,
    shift: u32,
    classes: ClassTable,
    caps: SysBoxSlice<u32>,
    mem: SysBoxSlice<u64>,
    stopped: SysBoxSlice<u32>,
}

/// log2 of the distance in bytes between the stop flags of neighbouring CPUs.
pub const STOP_SHIFT: u32 = 7;

/// Outcome of a fast-path attempt.
#[derive(Debug)]
pub enum Fast<T> {
    /// Committed with this value.
    Done(T),
    /// Stack empty (pop) or full (push); the caller must take the slow path.
    NeedsSlow,
}

proof fn lemma_word_index(a: int, i: int, b: int, j: int, stride: int)
    requires
        0 <= i < stride,
        0 <= j < stride,
        a * stride + i == b * stride + j,
    ensures
        a == b,
        i == j,
{
    if a < b {
        assert(a * stride + stride <= b * stride) by (nonlinear_arith)
            requires
                a < b,
                stride > 0,
        ;
    }
    if b < a {
        assert(b * stride + stride <= a * stride) by (nonlinear_arith)
            requires
                b < a,
                stride > 0,
        ;
    }
}

proof fn lemma_word_bound(a: int, n: int, i: int, stride: int)
    requires
        0 <= a < n,
        0 <= i < stride,
    ensures
        0 <= a * stride,
        0 <= a * stride + i < n * stride,
{
    assert(0 <= a * stride) by (nonlinear_arith)
        requires
            0 <= a,
            0 < stride,
    ;
    assert(a * stride + stride <= n * stride) by (nonlinear_arith)
        requires
            a < n,
            0 < stride,
    ;
}

impl SlabLayout {
    /// Number of CPU blocks.
    pub closed spec fn cpus(&self) -> int {
        self.num_cpus as int
    }

    /// Number of classes.
    pub closed spec fn class_count(&self) -> int {
        self.classes@.len() as int
    }

    /// Most addresses class `c`'s stack holds on each CPU.
    pub closed spec fn cap(&self, c: int) -> int {
        self.caps@[c] as int
    }

    spec fn stride(&self) -> int {
        stride_of(self.shift)
    }

    spec fn hidx(&self, cpu: int, c: int) -> int {
        cpu * self.stride() + head_word(self.classes@, c)
    }

    spec fn sidx(&self, cpu: int, c: int, i: int) -> int {
        cpu * self.stride() + slot_word(self.classes@, c) + i
    }

    spec fn current(&self, cpu: int, c: int) -> int {
        self.mem@[self.hidx(cpu, c)] as int % 0x1_0000_0000
    }

    /// The addresses on class `c`'s stack on `cpu`, bottom first.
    pub closed spec fn stack(&self, cpu: int, c: int) -> Seq<usize> {
        Seq::new(
            self.current(cpu, c) as nat,
            |i: int| self.mem@[self.sidx(cpu, c, i)] as usize,
        )
    }

    /// Whether `cpu` is stopped. A CPU past the last block counts as the last.
    pub closed spec fn is_stopped_at(&self, cpu: int) -> bool {
        self.stopped@[if cpu < self.stopped@.len() {
            cpu
        } else {
            self.stopped@.len() - 1
        }] != 0
    }

    spec fn header_ok(&self, cpu: int, c: int) -> bool {
        &&& self.mem@[self.hidx(cpu, c)] as int / 0x1_0000_0000 == self.caps@[c]
        &&& self.current(cpu, c) <= self.caps@[c]
    }

    /// The slab's invariant: the geometry fits the memory, every header carries
    /// its class's capacity, and no stack exceeds it.
    pub closed spec fn wf(&self) -> bool {
        &&& self.num_cpus >= 1
        &&& self.shift < usize::BITS
        &&& self.stride() >= 1
        &&& geometry_ok(self.classes@, self.caps@, self.stride())
        &&& self.mem@.len() == self.num_cpus * self.stride()
        &&& self.mem@.len() <= max_elements()
        &&& self.stopped@.len() == self.num_cpus
        &&& forall|cpu: int, c: int|
            0 <= cpu < self.num_cpus && 0 <= c < self.classes@.len() ==> #[trigger] self.header_ok(
                cpu,
                c,
            )
    }

    /// Geometry, capacities and stop flags are those of `other`.
    pub closed spec fn same_shape(&self, other: &SlabLayout) -> bool {
        &&& self.num_cpus == other.num_cpus
        &&& self.shift == other.shift
        &&& self.classes == other.classes
        &&& self.caps == other.caps
        &&& self.stopped == other.stopped
    }

    /// What having the same shape means for the public views.
    pub proof fn lemma_same_shape(&self, other: &SlabLayout)
        requires
            self.same_shape(other),
        ensures
            self.cpus() == other.cpus(),
            self.class_count() == other.class_count(),
            forall|c: int| #[trigger] self.cap(c) == other.cap(c),
            forall|cpu: int| #[trigger] self.is_stopped_at(cpu) == other.is_stopped_at(cpu),
    {
    }

    /// The CPU a thread is bound to is one of the slab's.
    pub proof fn lemma_bound_range(&self, seen: ThreadView)
        requires
            self.wf(),
        ensures
            0 <= bound_cpu(seen, self.cpus()) < self.cpus(),
    {
    }

    /// No stack holds more than its class's capacity.
    pub proof fn lemma_stack_bound(&self, cpu: int, c: int)
        requires
            self.wf(),
            0 <= cpu < self.cpus(),
            0 <= c < self.class_count(),
        ensures
            self.stack(cpu, c).len() <= self.cap(c),
    {
        assert(self.header_ok(cpu, c));
    }

    /// Having the same shape is transitive.
    pub proof fn lemma_same_shape_trans(&self, mid: &SlabLayout, other: &SlabLayout)
        requires
            self.same_shape(mid),
            mid.same_shape(other),
        ensures
            self.same_shape(other),
    {
    }

    /// A slab has its own shape.
    pub proof fn lemma_same_shape_refl(&self)
        ensures
            self.same_shape(self),
    {
    }

    /// Every stack but class `c`'s on `cpu` is that of `other`.
    pub open spec fn same_stacks_but(&self, other: &SlabLayout, cpu: int, c: int) -> bool {
        forall|k: int, d: int|
            0 <= k < self.cpus() && 0 <= d < self.class_count() && !(k == cpu && d == c)
                ==> #[trigger] self.stack(k, d) == other.stack(k, d)
    }

    /// Build a slab of `num_cpus` blocks (at least one) of `2^shift` bytes, with
    /// every stack empty and `caps[c]` slots for class `c`.
    pub fn new(num_cpus: u32, shift: u32, classes: &[ClassLoc], caps: &[u32]) -> (slab: SlabLayout)
        requires
            shift < usize::BITS,
            stride_of(shift) >= 1,
            geometry_ok(classes@, caps@, stride_of(shift)),
            (if num_cpus == 0 {
                1
            } else {
                num_cpus as int
            }) * stride_of(shift) <= max_elements(),
            num_cpus <= max_elements(),
            3 * classes@.len() <= max_elements(),
        ensures
            slab.wf(),
            slab.cpus() == if num_cpus == 0 {
                1
            } else {
                num_cpus as int
            },
            slab.class_count() == classes@.len(),
            forall|c: int| 0 <= c < classes@.len() ==> #[trigger] slab.cap(c) == caps@[c],
            forall|cpu: int, c: int|
                0 <= cpu < slab.cpus() && 0 <= c < classes@.len() ==> #[trigger] slab.stack(cpu, c)
                    == Seq::<usize>::empty(),
            forall|cpu: int| 0 <= cpu < slab.cpus() ==> !#[trigger] slab.is_stopped_at(cpu),
    {
        let n: u32 = if num_cpus == 0 {
            1
        } else {
            num_cpus
        };
        let stride: usize = (1usize << shift) / 8;
        let total: usize = (n as usize) * stride;
        let mut slab = SlabLayout {
            num_cpus: n,
            shift,
            classes: ClassTable::copied(classes),
            caps: SysBoxSlice::<u32>::copied(caps),
            mem: SysBoxSlice::<u64>::filled(total, 0),
            stopped: SysBoxSlice::<u32>::filled(n as usize, 0),
        };
        let mut cpu: u32 = 0;
        while cpu < n
            invariant
                cpu <= n,
                n == slab.num_cpus,
                n >= 1,
                slab.shift == shift < usize::BITS,
                slab.classes@ == classes@,
                slab.caps@ == caps@,
                slab.stride() >= 1,
                geometry_ok(slab.classes@, slab.caps@, slab.stride()),
                slab.mem@.len() == slab.num_cpus * slab.stride(),
                slab.mem@.len() <= max_elements(),
                slab.stopped@ == Seq::new(n as nat, |i: int| 0u32),
                forall|k: int, c: int|
                    0 <= k < cpu && 0 <= c < classes@.len() ==> #[trigger] slab.header_ok(k, c)
                        && slab.current(k, c) == 0,
            decreases n - cpu,
        {
            let mut c: usize = 0;
            while c < slab.classes.len()
                invariant
                    c <= classes@.len(),
                    cpu < n,
                    n == slab.num_cpus,
                    n >= 1,
                    slab.shift == shift < usize::BITS,
                    slab.classes@ == classes@,
                    slab.caps@ == caps@,
                    slab.stride() >= 1,
                    geometry_ok(slab.classes@, slab.caps@, slab.stride()),
                    slab.mem@.len() == slab.num_cpus * slab.stride(),
                    slab.mem@.len() <= max_elements(),
                    slab.stopped@ == Seq::new(n as nat, |i: int| 0u32),
                    forall|k: int, d: int|
                        0 <= k <= cpu && 0 <= d < classes@.len() && (k < cpu || d < c)
                            ==> #[trigger] slab.header_ok(k, d) && slab.current(k, d) == 0,
                decreases classes@.len() - c,
            {
                let ghost before = slab;
                let capacity: u32 = slab.caps.at(c);
                slab.store_header(cpu, c, Header { current: 0, capacity });
                proof {
                    assert forall|k: int, d: int|
                        0 <= k <= cpu && 0 <= d < classes@.len() && (k < cpu || d < c + 1) implies #[trigger] slab.header_ok(
                        k,
                        d,
                    ) && slab.current(k, d) == 0 by {
                        lemma_word_bound(k, n as int, head_word(classes@, d), slab.stride());
                        if slab.hidx(k, d) == slab.hidx(cpu as int, c as int) {
                            lemma_word_index(
                                k,
                                head_word(classes@, d),
                                cpu as int,
                                head_word(classes@, c as int),
                                slab.stride(),
                            );
                        } else {
                            assert(before.header_ok(k, d));
                        }
                    }
                }
                c = c + 1;
            }
            cpu = cpu + 1;
        }
        assert forall|k: int, c: int| 0 <= k < slab.cpus() && 0 <= c < classes@.len() implies #[trigger] slab.stack(
            k,
            c,
        ) == Seq::<usize>::empty() by {
            assert(slab.header_ok(k, c));
        }
        slab
    }

    /// The word index of a header, computed from the geometry.
    fn header_index(&self, cpu: u32, class: usize) -> (i: usize)
        requires
            cpu < self.num_cpus,
            class < self.classes@.len(),
            self.shift < usize::BITS,
            self.stride() >= 1,
            geometry_ok(self.classes@, self.caps@, self.stride()),
            self.mem@.len() == self.num_cpus * self.stride(),
            self.mem@.len() <= usize::MAX,
        ensures
            i == self.hidx(cpu as int, class as int),
            i < self.mem@.len(),
    {
        let stride: usize = (1usize << self.shift) / 8;
        proof {
            lemma_word_bound(
                cpu as int,
                self.num_cpus as int,
                head_word(self.classes@, class as int),
                self.stride(),
            );
        }
        (cpu as usize) * stride + (self.classes.at(class).header_off as usize) / 8
    }

    /// Overwrite one header word.
    fn store_header(&mut self, cpu: u32, class: usize, h: Header)
        requires
            cpu < old(self).num_cpus,
            class < old(self).classes@.len(),
            old(self).shift < usize::BITS,
            old(self).stride() >= 1,
            geometry_ok(old(self).classes@, old(self).caps@, old(self).stride()),
            old(self).mem@.len() == old(self).num_cpus * old(self).stride(),
            old(self).mem@.len() <= usize::MAX,
        ensures
            final(self).same_shape(old(self)),
            0 <= header_word(h) <= u64::MAX,
            0 <= old(self).hidx(cpu as int, class as int) < old(self).mem@.len(),
            final(self).mem@ == old(self).mem@.update(
                old(self).hidx(cpu as int, class as int),
                header_word(h) as u64,
            ),
    {
        let i: usize = self.header_index(cpu, class);
        let w: u64 = (h.capacity as u64) * 0x1_0000_0000 + (h.current as u64);
        self.mem.put(i, w);
    }
}

impl SlabLayout {
    proof fn lemma_header_update(&self, before: &SlabLayout, cpu: int, c: int, current: int)
        requires
            before.wf(),
            0 <= cpu < before.num_cpus,
            0 <= c < before.classes@.len(),
            self.same_shape(before),
            0 <= current <= before.caps@[c],
            self.mem@.len() == before.mem@.len(),
            forall|k: int|
                0 <= k < before.mem@.len() && k != before.hidx(cpu, c) ==> #[trigger] self.mem@[k]
                    == before.mem@[k],
            self.mem@[before.hidx(cpu, c)] == before.caps@[c] * 0x1_0000_0000 + current,
        ensures
            self.wf(),
            self.same_stacks_but(before, cpu, c),
            self.stack(cpu, c) == Seq::new(
                current as nat,
                |i: int| before.mem@[before.sidx(cpu, c, i)] as usize,
            ),
    {
        let st = self.stride();
        let classes = self.classes@;
        let caps = self.caps@;
        lemma_word_bound(cpu, self.num_cpus as int, head_word(classes, c), st);
        assert(before.header_ok(cpu, c));
        assert forall|k: int, d: int| 0 <= k < self.num_cpus && 0 <= d < classes.len() implies #[trigger] self.header_ok(
            k,
            d,
        ) by {
            assert(before.header_ok(k, d));
            lemma_word_bound(k, self.num_cpus as int, head_word(classes, d), st);
            if self.hidx(k, d) == self.hidx(cpu, c) {
                lemma_word_index(k, head_word(classes, d), cpu, head_word(classes, c), st);
            }
        }
        assert forall|k: int, d: int, i: int|
            0 <= k < self.num_cpus && 0 <= d < classes.len() && 0 <= i < caps[d] implies self.mem@[#[trigger] self.sidx(
            k,
            d,
            i,
        )] == before.mem@[before.sidx(k, d, i)] by {
            let w = slot_word(classes, d) + i;
            assert(head_word(classes, d) < st);
            lemma_word_bound(k, self.num_cpus as int, w, st);
            if self.sidx(k, d, i) == before.hidx(cpu, c) {
                lemma_word_index(k, w, cpu, head_word(classes, c), st);
                assert(is_slot(classes, caps, d, head_word(classes, c)));
            }
        }
        assert forall|k: int, d: int|
            0 <= k < self.cpus() && 0 <= d < self.class_count() && !(k == cpu && d == c) implies #[trigger] self.stack(
            k,
            d,
        ) == before.stack(k, d) by {
            assert(before.header_ok(k, d));
            lemma_word_bound(k, self.num_cpus as int, head_word(classes, d), st);
            if self.hidx(k, d) == self.hidx(cpu, c) {
                lemma_word_index(k, head_word(classes, d), cpu, head_word(classes, c), st);
            }
            assert(self.stack(k, d) =~= before.stack(k, d)) by {
                assert forall|i: int| 0 <= i < self.current(k, d) implies self.stack(k, d)[i]
                    == before.stack(k, d)[i] by {
                    assert(self.mem@[self.sidx(k, d, i)] == before.mem@[before.sidx(k, d, i)]);
                }
            }
        }
        assert(self.stack(cpu, c) =~= Seq::new(
            current as nat,
            |i: int| before.mem@[before.sidx(cpu, c, i)] as usize,
        )) by {
            assert forall|i: int| 0 <= i < current implies self.stack(cpu, c)[i] == before.mem@[before.sidx(
                cpu,
                c,
                i,
            )] as usize by {
                assert(self.mem@[self.sidx(cpu, c, i)] == before.mem@[before.sidx(cpu, c, i)]);
            }
        }
    }

    proof fn lemma_slot_update(&self, before: &SlabLayout, cpu: int, c: int, j: int)
        requires
            before.wf(),
            0 <= cpu < before.num_cpus,
            0 <= c < before.classes@.len(),
            before.current(cpu, c) <= j < before.caps@[c],
            self.same_shape(before),
            self.mem@.len() == before.mem@.len(),
            forall|k: int|
                0 <= k < before.mem@.len() && k != before.sidx(cpu, c, j) ==> #[trigger] self.mem@[k]
                    == before.mem@[k],
        ensures
            self.wf(),
            self.current(cpu, c) == before.current(cpu, c),
            forall|k: int, d: int|
                0 <= k < self.cpus() && 0 <= d < self.class_count() ==> #[trigger] self.stack(k, d)
                    == before.stack(k, d),
    {
        let st = self.stride();
        let classes = self.classes@;
        let caps = self.caps@;
        let w = slot_word(classes, c) + j;
        assert(head_word(classes, c) < st);
        lemma_word_bound(cpu, self.num_cpus as int, w, st);
        assert forall|k: int, d: int| 0 <= k < self.num_cpus && 0 <= d < classes.len() implies self.mem@[#[trigger] self.hidx(
            k,
            d,
        )] == before.mem@[before.hidx(k, d)] by {
            lemma_word_bound(k, self.num_cpus as int, head_word(classes, d), st);
            if self.hidx(k, d) == before.sidx(cpu, c, j) {
                lemma_word_index(k, head_word(classes, d), cpu, w, st);
                assert(is_slot(classes, caps, c, head_word(classes, d)));
            }
        }
        assert forall|k: int, d: int| 0 <= k < self.num_cpus && 0 <= d < classes.len() implies #[trigger] self.header_ok(
            k,
            d,
        ) by {
            assert(before.header_ok(k, d));
            assert(self.mem@[self.hidx(k, d)] == before.mem@[before.hidx(k, d)]);
        }
        assert(self.mem@[self.hidx(cpu, c)] == before.mem@[before.hidx(cpu, c)]);
        assert forall|k: int, d: int| 0 <= k < self.cpus() && 0 <= d < self.class_count() implies #[trigger] self.stack(
            k,
            d,
        ) == before.stack(k, d) by {
            assert(before.header_ok(k, d));
            assert(self.mem@[self.hidx(k, d)] == before.mem@[before.hidx(k, d)]);
            assert(self.stack(k, d) =~= before.stack(k, d)) by {
                assert forall|i: int| 0 <= i < self.current(k, d) implies self.stack(k, d)[i]
                    == before.stack(k, d)[i] by {
                    let v = slot_word(classes, d) + i;
                    assert(head_word(classes, d) < st);
                    lemma_word_bound(k, self.num_cpus as int, v, st);
                    if self.sidx(k, d, i) == before.sidx(cpu, c, j) {
                        lemma_word_index(k, v, cpu, w, st);
                        if d != c {
                            assert(slot_word(classes, c) + caps[c] <= slot_word(classes, d)
                                || slot_word(classes, d) + caps[d] <= slot_word(classes, c));
                        }
                    }
                }
            }
        }
    }

    fn slot_index(&self, cpu: u32, class: usize, i: u32) -> (k: usize)
        requires
            self.wf(),
            cpu < self.num_cpus,
            class < self.classes@.len(),
            i < self.caps@[class as int],
        ensures
            k == self.sidx(cpu as int, class as int, i as int),
            k < self.mem@.len(),
    {
        let stride: usize = (1usize << self.shift) / 8;
        proof {
            assert(head_word(self.classes@, class as int) < self.stride());
            lemma_word_bound(
                cpu as int,
                self.num_cpus as int,
                slot_word(self.classes@, class as int) + i,
                self.stride(),
            );
        }
        (cpu as usize) * stride + ((self.classes.at(class).slots_off as usize) / 8 + i as usize)
    }

    /// The header of a class's stack on a CPU.
    pub fn header(&self, cpu: u32, class: usize) -> (h: Header)
        requires
            self.wf(),
            cpu < self.cpus(),
            class < self.class_count(),
        ensures
            h.current == self.stack(cpu as int, class as int).len(),
            h.capacity == self.cap(class as int),
            h.current <= h.capacity,
    {
        proof {
            assert(self.header_ok(cpu as int, class as int));
        }
        let w: u64 = self.mem.at(self.header_index(cpu, class));
        Header { current: (w % 0x1_0000_0000) as u32, capacity: (w / 0x1_0000_0000) as u32 }
    }

    /// Slot `i` of a class's stack on a CPU, counted from the bottom.
    pub fn slot(&self, cpu: u32, class: usize, i: u32) -> (addr: usize)
        requires
            self.wf(),
            cpu < self.cpus(),
            class < self.class_count(),
            i < self.stack(cpu as int, class as int).len(),
        ensures
            addr == self.stack(cpu as int, class as int)[i as int],
    {
        proof {
            assert(self.header_ok(cpu as int, class as int));
        }
        self.mem.at(self.slot_index(cpu, class, i)) as usize
    }

    /// Cut a class's stack on a CPU down to its `current` lowest entries, by
    /// rewriting the header.
    pub fn truncate(&mut self, cpu: u32, class: usize, current: u32)
        requires
            old(self).wf(),
            cpu < old(self).cpus(),
            class < old(self).class_count(),
            current <= old(self).stack(cpu as int, class as int).len(),
        ensures
            final(self).wf(),
            final(self).same_shape(old(self)),
            final(self).same_stacks_but(old(self), cpu as int, class as int),
            final(self).stack(cpu as int, class as int) == old(self).stack(
                cpu as int,
                class as int,
            ).take(current as int),
    {
        let ghost before = *self;
        proof {
            assert(self.header_ok(cpu as int, class as int));
        }
        let capacity: u32 = self.caps.at(class);
        self.store_header(cpu, class, Header { current, capacity });
        proof {
            self.lemma_header_update(&before, cpu as int, class as int, current as int);
            assert(self.stack(cpu as int, class as int) =~= before.stack(
                cpu as int,
                class as int,
            ).take(current as int));
        }
    }

    /// Take the top address off a class's stack on a CPU, if it has one.
    pub fn pop_slot(&mut self, cpu: u32, class: usize) -> (r: Option<usize>)
        requires
            old(self).wf(),
            cpu < old(self).cpus(),
            class < old(self).class_count(),
        ensures
            final(self).wf(),
            final(self).same_shape(old(self)),
            final(self).same_stacks_but(old(self), cpu as int, class as int),
            r.is_some() <==> old(self).stack(cpu as int, class as int).len() > 0,
            r is None ==> *final(self) == *old(self),
            r matches Some(a) ==> {
                &&& a == old(self).stack(cpu as int, class as int).last()
                &&& final(self).stack(cpu as int, class as int) == old(self).stack(
                    cpu as int,
                    class as int,
                ).drop_last()
            },
    {
        let h = self.header(cpu, class);
        if h.current == 0 {
            return None;
        }
        let a: usize = self.slot(cpu, class, h.current - 1);
        self.truncate(cpu, class, h.current - 1);
        Some(a)
    }

    /// Put an address on top of a class's stack on a CPU, if it has room.
    pub fn push_slot(&mut self, cpu: u32, class: usize, addr: usize) -> (done: bool)
        requires
            old(self).wf(),
            cpu < old(self).cpus(),
            class < old(self).class_count(),
        ensures
            final(self).wf(),
            final(self).same_shape(old(self)),
            final(self).same_stacks_but(old(self), cpu as int, class as int),
            done <==> old(self).stack(cpu as int, class as int).len() < old(self).cap(class as int),
            !done ==> *final(self) == *old(self),
            done ==> final(self).stack(cpu as int, class as int) == old(self).stack(
                cpu as int,
                class as int,
            ).push(addr),
    {
        let h = self.header(cpu, class);
        if h.current >= h.capacity {
            return false;
        }
        let ghost before = *self;
        let k: usize = self.slot_index(cpu, class, h.current);
        self.mem.put(k, addr as u64);
        proof {
            self.lemma_slot_update(&before, cpu as int, class as int, h.current as int);
        }
        let ghost mid = *self;
        self.store_header(cpu, class, Header { current: h.current + 1, capacity: h.capacity });
        proof {
            self.lemma_header_update(&mid, cpu as int, class as int, h.current + 1);
            assert(mid.stack(cpu as int, class as int) == before.stack(cpu as int, class as int));
            assert(self.stack(cpu as int, class as int) =~= before.stack(
                cpu as int,
                class as int,
            ).push(addr)) by {
                assert forall|i: int| 0 <= i < h.current implies self.stack(cpu as int, class as int)[i]
                    == mid.stack(cpu as int, class as int)[i] by {}
            }
        }
        true
    }

    /// Set or clear a CPU's stop flag (supervisor only).
    pub fn set_stopped(&mut self, cpu: u32, stopped: bool)
        requires
            old(self).wf(),
        ensures
            final(self).wf(),
            final(self).cpus() == old(self).cpus(),
            final(self).class_count() == old(self).class_count(),
            forall|c: int| #[trigger] final(self).cap(c) == old(self).cap(c),
            forall|k: int, c: int| #[trigger] final(self).stack(k, c) == old(self).stack(k, c),
            forall|k: int|
                0 <= k < final(self).cpus() ==> #[trigger] final(self).is_stopped_at(k) == (if k == cpu
                    || (cpu >= final(self).cpus() && k == final(self).cpus() - 1) {
                    stopped
                } else {
                    old(self).is_stopped_at(k)
                }),
    {
        let ghost before = *self;
        let last: usize = (self.num_cpus - 1) as usize;
        let i: usize = if (cpu as usize) < last {
            cpu as usize
        } else {
            last
        };
        self.stopped.put(i, if stopped { 1 } else { 0 });
        proof {
            assert forall|k: int, c: int| 0 <= k < self.num_cpus && 0 <= c < self.classes@.len() implies #[trigger] self.header_ok(
                k,
                c,
            ) by {
                assert(before.header_ok(k, c));
            }
            assert forall|k: int, c: int| #[trigger] self.stack(k, c) == before.stack(k, c) by {
                assert(self.stack(k, c) =~= before.stack(k, c));
            }
        }
    }

    /// Whether a CPU is stopped.
    pub fn is_stopped(&self, cpu: u32) -> (b: bool)
        requires
            self.wf(),
        ensures
            b == self.is_stopped_at(cpu as int),
    {
        let last: usize = (self.num_cpus - 1) as usize;
        let i: usize = if (cpu as usize) < last {
            cpu as usize
        } else {
            last
        };
        self.stopped.at(i) != 0
    }

    pub fn num_cpus(&self) -> (n: u32)
        ensures
            n == self.cpus(),
    {
        self.num_cpus
    }

    pub fn num_classes(&self) -> (n: usize)
        ensures
            n == self.class_count(),
    {
        self.classes.len()
    }
}

/// The shard a thread is hashed onto, by its own address, when no CPU id is
/// available.
pub open spec fn fallback_of(anchor: usize, num_cpus: int) -> int {
    ((anchor / 64) as u32) as int % num_cpus
}

/// A fallback shard is one of those there are, the same for all of a cache line, and the
/// next one for the next line.
pub proof fn lemma_fallback(anchor: usize, next: usize, num_cpus: int)
    requires
        0 < num_cpus,
    ensures
        0 <= fallback_of(anchor, num_cpus) < num_cpus,
        anchor as int / 64 == next as int / 64 ==> fallback_of(anchor, num_cpus) == fallback_of(
            next,
            num_cpus,
        ),
        next as int / 64 == anchor as int / 64 + 1 && next as int / 64 <= u32::MAX ==> fallback_of(
            next,
            num_cpus,
        ) == fallback_of(anchor, num_cpus) + 1 || fallback_of(next, num_cpus) == 0 && fallback_of(
            anchor,
            num_cpus,
        ) == num_cpus - 1,
        anchor as int / 64 <= u32::MAX ==> fallback_of(anchor, num_cpus) == anchor as int / 64
            % num_cpus,
{
    let a = anchor as int / 64;
    vstd::arithmetic::div_mod::lemma_mod_bound(((anchor / 64) as u32) as int, num_cpus);
    vstd::arithmetic::div_mod::lemma_mod_bound(((next / 64) as u32) as int, num_cpus);
    if next as int / 64 == a + 1 && a + 1 <= u32::MAX {
        let q = a / num_cpus;
        let r = a % num_cpus;
        vstd::arithmetic::div_mod::lemma_fundamental_div_mod(a, num_cpus);
        if r < num_cpus - 1 {
            vstd::arithmetic::div_mod::lemma_fundamental_div_mod_converse(a + 1, num_cpus, q, r + 1);
        } else {
            assert(a + 1 == num_cpus * (q + 1)) by (nonlinear_arith)
                requires
                    a == num_cpus * q + r,
                    r == num_cpus - 1,
            ;
            vstd::arithmetic::mul::lemma_mul_is_commutative(num_cpus, q + 1);
            vstd::arithmetic::div_mod::lemma_fundamental_div_mod_converse(a + 1, num_cpus, q + 1, 0);
        }
    }
}

/// Hash a thread onto a shard when no CPU id is available. Deterministic per
/// thread, spreads load across blocks.
pub fn fallback_shard(anchor: usize, num_cpus: u32) -> (cpu: u32)
    ensures
        num_cpus > 0 ==> cpu == fallback_of(anchor, num_cpus as int) && cpu < num_cpus,
        num_cpus == 0 ==> cpu == 0,
        num_cpus > 0 && anchor as int / 64 <= u32::MAX ==> cpu == anchor as int / 64 % num_cpus as int,
{
    let n: u32 = if num_cpus == 0 {
        1
    } else {
        num_cpus
    };
    ((anchor / 64) as u32) % n
}

/// The CPU a thread is bound to outside of a restartable section: the one it
/// sees, where that is in range, else its fallback shard.
pub open spec fn bound_cpu(seen: ThreadView, num_cpus: int) -> int {
    match seen.cpu {
        Some(c) => if c < num_cpus {
            c as int
        } else {
            fallback_of(seen.anchor, num_cpus)
        },
        None => fallback_of(seen.anchor, num_cpus),
    }
}

fn resolve_cpu(seen: &ThreadView, num_cpus: u32) -> (cpu: u32)
    requires
        num_cpus > 0,
    ensures
        cpu == bound_cpu(*seen, num_cpus as int),
        cpu < num_cpus,
        seen.cpu matches Some(c) ==> (c < num_cpus ==> cpu == c),
{
    match seen.cpu {
        Some(c) => if c < num_cpus {
            c
        } else {
            fallback_shard(seen.anchor, num_cpus)
        },
        None => fallback_shard(seen.anchor, num_cpus),
    }
}

/// A handle on the slab as one thread sees it: the CPU it is bound to (or none
/// yet) and what it sees of the machine during the operation.
#[derive(Clone, Copy, Debug)]
pub struct CpuStack {
    cpu: u32,
    seen: ThreadView,
}

impl CpuStack {
    /// What the thread sees.
    pub closed spec fn seen(&self) -> ThreadView {
        self.seen
    }

    /// The CPU the locked path works on.
    pub closed spec fn bound(&self, num_cpus: int) -> int {
        if self.cpu == u32::MAX {
            bound_cpu(self.seen, num_cpus)
        } else {
            self.cpu as int
        }
    }

    /// The CPU whose stack an operation works on: the one its restartable section
    /// commits on, unless that section falls back.
    pub open spec fn serving(&self, layout: &SlabLayout) -> int {
        match committed_cpu(self.seen().attempts@, layout.cpus(), 0) {
            Some(cpu) => if layout.is_stopped_at(cpu as int) {
                self.bound(layout.cpus())
            } else {
                cpu as int
            },
            None => self.bound(layout.cpus()),
        }
    }

    /// The serving CPU is one of the slab's.
    pub proof fn lemma_serving(&self, layout: &SlabLayout)
        requires
            layout.wf(),
            self.fits(layout.cpus()),
        ensures
            0 <= self.serving(layout) < layout.cpus(),
            0 <= self.bound(layout.cpus()) < layout.cpus(),
    {
        restart::lemma_committed_in_range(self.seen().attempts@, layout.cpus(), 0);
    }

    /// The serving CPU depends on the CPU count and the stop flags alone.
    pub proof fn lemma_serving_same(&self, a: &SlabLayout, b: &SlabLayout)
        requires
            a.same_shape(b),
        ensures
            self.serving(a) == self.serving(b),
    {
        a.lemma_same_shape(b);
    }

    /// Whether the handle is one for a slab of `num_cpus` blocks.
    pub closed spec fn fits(&self, num_cpus: int) -> bool {
        self.cpu == u32::MAX || self.cpu < num_cpus
    }

    /// Bind to the CPU the calling thread is on.
    pub fn current(layout: &SlabLayout, seen: ThreadView) -> (s: CpuStack)
        requires
            layout.wf(),
        ensures
            s.seen() == seen,
            s.fits(layout.cpus()),
            s.bound(layout.cpus()) == bound_cpu(seen, layout.cpus()),
    {
        CpuStack { cpu: resolve_cpu(&seen, layout.num_cpus()), seen }
    }

    /// Bind without resolving the CPU: the restartable section finds its own, and
    /// only the locked path resolves one.
    pub fn current_fast(layout: &SlabLayout, seen: ThreadView) -> (s: CpuStack)
        requires
            layout.wf(),
        ensures
            s.seen() == seen,
            s.fits(layout.cpus()),
            s.bound(layout.cpus()) == bound_cpu(seen, layout.cpus()),
    {
        CpuStack { cpu: u32::MAX, seen }
    }

    /// The bound CPU, resolved now if binding deferred it.
    pub fn cpu(&self, layout: &SlabLayout) -> (cpu: u32)
        requires
            layout.wf(),
            self.fits(layout.cpus()),
        ensures
            cpu == self.bound(layout.cpus()),
            cpu < layout.cpus(),
    {
        if self.cpu == u32::MAX {
            resolve_cpu(&self.seen, layout.num_cpus())
        } else {
            self.cpu
        }
    }

    /// Pop one address from the bound CPU's stack for `class` (locked path). A
    /// zero in a live slot is dropped and counts as empty.
    pub fn pop_locked(&self, layout: &mut SlabLayout, class: usize) -> (r: Fast<usize>)
        requires
            old(layout).wf(),
            self.fits(old(layout).cpus()),
            class < old(layout).class_count(),
        ensures
            final(layout).wf(),
            final(layout).same_shape(old(layout)),
            popped(
                old(layout),
                final(layout),
                self.bound(old(layout).cpus()),
                class as int,
                r,
            ),
    {
        let cpu: u32 = self.cpu(layout);
        if layout.is_stopped(cpu) {
            return Fast::NeedsSlow;
        }
        match layout.pop_slot(cpu, class) {
            Some(addr) => if addr == 0 {
                Fast::NeedsSlow
            } else {
                Fast::Done(addr)
            },
            None => Fast::NeedsSlow,
        }
    }

    /// Push one address onto the bound CPU's stack for `class` (locked path).
    /// `NeedsSlow` if the stack is at capacity or the CPU is stopped.
    pub fn push_locked(&self, layout: &mut SlabLayout, class: usize, addr: usize) -> (r: Fast<()>)
        requires
            old(layout).wf(),
            self.fits(old(layout).cpus()),
            class < old(layout).class_count(),
        ensures
            final(layout).wf(),
            final(layout).same_shape(old(layout)),
            pushed(
                old(layout),
                final(layout),
                self.bound(old(layout).cpus()),
                class as int,
                addr,
                r,
            ),
    {
        let cpu: u32 = self.cpu(layout);
        if layout.is_stopped(cpu) {
            return Fast::NeedsSlow;
        }
        if layout.push_slot(cpu, class, addr) {
            Fast::Done(())
        } else {
            Fast::NeedsSlow
        }
    }

    /// Pop one address for `class`: in a restartable section where one commits,
    /// else on the locked path.
    pub fn pop(&self, layout: &mut SlabLayout, class: usize) -> (r: Fast<usize>)
        requires
            old(layout).wf(),
            self.fits(old(layout).cpus()),
            class < old(layout).class_count(),
        ensures
            final(layout).wf(),
            final(layout).same_shape(old(layout)),
            popped(old(layout), final(layout), self.serving(old(layout)), class as int, r),
    {
        self.pop_on(layout, class).0
    }

    /// Like [`CpuStack::pop`], and also returns the CPU to account the operation
    /// to: the one that served it, or the bound one if none did.
    pub fn pop_on(&self, layout: &mut SlabLayout, class: usize) -> (r: (Fast<usize>, u32))
        requires
            old(layout).wf(),
            self.fits(old(layout).cpus()),
            class < old(layout).class_count(),
        ensures
            final(layout).wf(),
            final(layout).same_shape(old(layout)),
            popped(old(layout), final(layout), self.serving(old(layout)), class as int, r.0),
            r.1 < old(layout).cpus(),
            r.0 is Done ==> r.1 == self.serving(old(layout)),
            r.0 is NeedsSlow && *final(layout) == *old(layout) ==> r.1 == self.bound(
                old(layout).cpus(),
            ),
    {
        match restart::pop(layout, &self.seen.attempts, class) {
            RseqResult::Done(addr, cpu) => {
                if addr == 0 {
                    (Fast::NeedsSlow, cpu)
                } else {
                    (Fast::Done(addr), cpu)
                }
            },
            RseqResult::NeedsSlow => (Fast::NeedsSlow, self.cpu(layout)),
            RseqResult::Fallback => {
                let r = self.pop_locked(layout, class);
                (r, self.cpu(layout))
            },
        }
    }

    /// Push one address for `class`: in a restartable section where one commits,
    /// else on the locked path.
    pub fn push(&self, layout: &mut SlabLayout, class: usize, addr: usize) -> (r: Fast<()>)
        requires
            old(layout).wf(),
            self.fits(old(layout).cpus()),
            class < old(layout).class_count(),
        ensures
            final(layout).wf(),
            final(layout).same_shape(old(layout)),
            pushed(old(layout), final(layout), self.serving(old(layout)), class as int, addr, r),
    {
        self.push_on(layout, class, addr).0
    }

    /// Like [`CpuStack::push`], and also returns the CPU to account the operation
    /// to.
    pub fn push_on(&self, layout: &mut SlabLayout, class: usize, addr: usize) -> (r: (
        Fast<()>,
        u32,
    ))
        requires
            old(layout).wf(),
            self.fits(old(layout).cpus()),
            class < old(layout).class_count(),
        ensures
            final(layout).wf(),
            final(layout).same_shape(old(layout)),
            pushed(old(layout), final(layout), self.serving(old(layout)), class as int, addr, r.0),
            r.1 < old(layout).cpus(),
            r.0 is Done ==> r.1 == self.serving(old(layout)),
            r.0 is NeedsSlow ==> r.1 == self.bound(old(layout).cpus()),
    {
        match restart::push(layout, &self.seen.attempts, class, addr) {
            RseqResult::Done(_, cpu) => (Fast::Done(()), cpu),
            RseqResult::NeedsSlow => (Fast::NeedsSlow, self.cpu(layout)),
            RseqResult::Fallback => {
                let r = self.push_locked(layout, class, addr);
                (r, self.cpu(layout))
            },
        }
    }
}

/// The CPU whose stack an operation of a thread works on: the one its
/// restartable section commits on, unless that is stopped, else the one it is
/// bound to.
pub open spec fn serving_cpu(seen: ThreadView, slab: &SlabLayout) -> int {
    match committed_cpu(seen.attempts@, slab.cpus(), 0) {
        Some(cpu) => if slab.is_stopped_at(cpu as int) {
            bound_cpu(seen, slab.cpus())
        } else {
            cpu as int
        },
        None => bound_cpu(seen, slab.cpus()),
    }
}

/// An operation works on the CPU that the thread ran on throughout, unless that is
/// stopped; else on the one that the thread sees, where there is such a CPU; and always on
/// one of those there are.
pub proof fn lemma_serving_cpu(seen: ThreadView, slab: &SlabLayout)
    requires
        slab.cpus() > 0,
    ensures
        0 <= serving_cpu(seen, slab) < slab.cpus(),
        seen.attempts@[0].cpu_id_start == seen.attempts@[0].cpu_id && seen.attempts@[0].cpu_id
            < slab.cpus() && !slab.is_stopped_at(seen.attempts@[0].cpu_id as int) ==> serving_cpu(
            seen,
            slab,
        ) == seen.attempts@[0].cpu_id,
        seen.attempts@[0].cpu_id_start >= slab.cpus() || (seen.attempts@[0].cpu_id_start
            == seen.attempts@[0].cpu_id && slab.is_stopped_at(seen.attempts@[0].cpu_id as int)) ==> (
        seen.cpu matches Some(c) ==> (c < slab.cpus() ==> serving_cpu(seen, slab) == c)),
{
    restart::lemma_committed_in_range(seen.attempts@, slab.cpus(), 0);
    restart::lemma_first_commit(seen.attempts@, slab.cpus(), 0, 0);
    lemma_fallback(seen.anchor, seen.anchor, slab.cpus());
}

impl SlabLayout {
    /// A CPU past the last one is stopped exactly where the last one is.
    pub proof fn lemma_stopped_past(&self, cpu: int)
        requires
            self.wf(),
            self.cpus() <= cpu,
        ensures
            self.is_stopped_at(cpu) == self.is_stopped_at(self.cpus() - 1),
    {
    }
}

/// What a pop of class `c` on `cpu` does: nothing while the CPU is stopped or the
/// stack empty, else the top address leaves the stack and is the result (unless
/// it is zero).
pub open spec fn popped(
    before: &SlabLayout,
    after: &SlabLayout,
    cpu: int,
    c: int,
    r: Fast<usize>,
) -> bool {
    let stack = before.stack(cpu, c);
    if before.is_stopped_at(cpu) || stack.len() == 0 {
        r is NeedsSlow && *after == *before
    } else {
        &&& after.stack(cpu, c) == stack.drop_last()
        &&& after.same_stacks_but(before, cpu, c)
        &&& if stack.last() == 0 {
            r is NeedsSlow
        } else {
            r == Fast::Done(stack.last())
        }
    }
}

/// What a push of `addr` for class `c` on `cpu` does: nothing while the CPU is
/// stopped or the stack full, else the address is on top.
pub open spec fn pushed(
    before: &SlabLayout,
    after: &SlabLayout,
    cpu: int,
    c: int,
    addr: usize,
    r: Fast<()>,
) -> bool {
    let stack = before.stack(cpu, c);
    if before.is_stopped_at(cpu) || stack.len() >= before.cap(c) {
        r is NeedsSlow && *after == *before
    } else {
        &&& after.stack(cpu, c) == stack.push(addr)
        &&& after.same_stacks_but(before, cpu, c)
        &&& r is Done
    }
}

/// Popping after a push on the same CPU gives the address back and restores every
/// stack.
pub proof fn lemma_push_pop(
    s0: &SlabLayout,
    s1: &SlabLayout,
    s2: &SlabLayout,
    cpu: int,
    c: int,
    addr: usize,
    r: Fast<usize>,
)
    requires
        0 <= cpu < s0.cpus(),
        0 <= c < s0.class_count(),
        s1.same_shape(s0),
        s2.same_shape(s1),
        addr != 0,
        pushed(s0, s1, cpu, c, addr, Fast::Done(())),
        popped(s1, s2, cpu, c, r),
    ensures
        r == Fast::Done(addr),
        forall|k: int, d: int|
            0 <= k < s0.cpus() && 0 <= d < s0.class_count() ==> #[trigger] s2.stack(k, d)
                == s0.stack(k, d),
{
    s1.lemma_same_shape(s0);
    s2.lemma_same_shape(s1);
    assert(s1.stack(cpu, c).drop_last() =~= s0.stack(cpu, c));
    assert forall|k: int, d: int| 0 <= k < s0.cpus() && 0 <= d < s0.class_count() implies #[trigger] s2.stack(
        k,
        d,
    ) == s0.stack(k, d) by {
        if !(k == cpu && d == c) {
            assert(s1.stack(k, d) == s0.stack(k, d));
        }
    }
}

} // verus!
