//! Live-object accounting, one cell per CPU.
//!
//! Each CPU has a pair of counters for its own operations and a pair that any
//! CPU may add to. A cell drifts freely (an object may be freed on another CPU
//! than it was allocated on); only the sum over all cells means anything, and
//! that modulo `2^64`, since every addition wraps.

use vstd::prelude::*;
use crate::sys::{max_elements, SysBoxSlice};

verus! {

pub const LOCAL_BYTES: usize = 0;
pub const LOCAL_OBJS: usize = 1;
pub const REMOTE_BYTES: usize = 2;
pub const REMOTE_OBJS: usize = 3;

/// `2^64`, at which the counters wrap.
pub open spec fn wrap() -> int {
    0x1_0000_0000_0000_0000
}

/// The sum of columns `col` and `col + 2` over the first `n` cells.
pub open spec fn column_sum(w: Seq<u64>, col: int, n: int) -> int
    decreases n,
{
    if n <= 0 {
        0
    } else {
        column_sum(w, col, n - 1) + w[4 * (n - 1) + col] + w[4 * (n - 1) + col + 2]
    }
}

proof fn lemma_column_update(w: Seq<u64>, i: int, v: u64, col: int, n: int)
    requires
        0 <= i < w.len(),
        0 <= col < 2,
        0 <= n,
        4 * n <= w.len(),
    ensures
        column_sum(w.update(i, v), col, n) == column_sum(w, col, n) + (if i < 4 * n && i % 2 == col {
            v - w[i]
        } else {
            0
        }),
    decreases n,
{
    if n > 0 {
        lemma_column_update(w, i, v, col, n - 1);
    }
}

/// Per-CPU live counters.
pub struct PerCpuCounters {
    cells: SysBoxSlice<u64>,
    num_cpus: u32,
    bytes: Ghost<int>,
    objs: Ghost<int>,
}

/// `v` added to `x`, as a counter does it.
fn wrapping_signed(x: u64, v: i64) -> (r: u64)
    ensures
        (r - (x + v)) % wrap() == 0,
{
    x.wrapping_add_signed(v)
}

impl PerCpuCounters {
    /// The true sum of all bytes added.
    pub closed spec fn bytes(&self) -> int {
        self.bytes@
    }

    /// The true sum of all objects added.
    pub closed spec fn objs(&self) -> int {
        self.objs@
    }

    /// The cells sum to the true totals, modulo the wrap.
    pub closed spec fn wf(&self) -> bool {
        &&& self.num_cpus >= 1
        &&& self.cells@.len() == 4 * self.num_cpus <= max_elements()
        &&& (column_sum(self.cells@, 0, self.num_cpus as int) - self.bytes@) % wrap() == 0
        &&& (column_sum(self.cells@, 1, self.num_cpus as int) - self.objs@) % wrap() == 0
    }

    /// Counters for `num_cpus` CPUs (at least one), all zero.
    pub fn new(num_cpus: u32) -> (c: PerCpuCounters)
        requires
            4 * num_cpus + 4 <= max_elements(),
        ensures
            c.wf(),
            c.bytes() == 0,
            c.objs() == 0,
    {
        let n: u32 = if num_cpus == 0 {
            1
        } else {
            num_cpus
        };
        let c = PerCpuCounters {
            cells: SysBoxSlice::<u64>::filled(4 * (n as usize), 0),
            num_cpus: n,
            bytes: Ghost(0),
            objs: Ghost(0),
        };
        proof {
            lemma_zero_columns(c.cells@, 0, n as int);
            lemma_zero_columns(c.cells@, 1, n as int);
        }
        c
    }

    /// Add to one counter of a CPU's cell; a CPU past the last counts as the last.
    fn bump(&mut self, cpu: u32, col: usize, v: i64)
        requires
            old(self).wf(),
            col < 4,
        ensures
            final(self).wf(),
            final(self).bytes() == old(self).bytes() + if col % 2 == 0 {
                v as int
            } else {
                0
            },
            final(self).objs() == old(self).objs() + if col % 2 == 1 {
                v as int
            } else {
                0
            },
    {
        let last: u32 = self.num_cpus - 1;
        let cell: u32 = if cpu < last {
            cpu
        } else {
            last
        };
        let i: usize = 4 * (cell as usize) + col;
        let x: u64 = self.cells.at(i);
        let y: u64 = wrapping_signed(x, v);
        let ghost before = *self;
        self.cells.put(i, y);
        proof {
            let n = self.num_cpus as int;
            lemma_column_update(before.cells@, i as int, y, 0, n);
            lemma_column_update(before.cells@, i as int, y, 1, n);
            if col % 2 == 0 {
                self.bytes@ = before.bytes@ + v;
                lemma_congruent(
                    column_sum(before.cells@, 0, n),
                    before.bytes@,
                    y - x,
                    v as int,
                );
            } else {
                self.objs@ = before.objs@ + v;
                lemma_congruent(column_sum(before.cells@, 1, n), before.objs@, y - x, v as int);
            }
        }
    }

    /// Count an operation of the CPU's own.
    pub fn add_local(&mut self, cpu: u32, bytes: i64, objs: i64)
        requires
            old(self).wf(),
        ensures
            final(self).wf(),
            final(self).bytes() == old(self).bytes() + bytes,
            final(self).objs() == old(self).objs() + objs,
    {
        self.bump(cpu, LOCAL_BYTES, bytes);
        self.bump(cpu, LOCAL_OBJS, objs);
    }

    /// Count an operation on the shared pair of a CPU's cell.
    pub fn add_remote(&mut self, cpu: u32, bytes: i64, objs: i64)
        requires
            old(self).wf(),
        ensures
            final(self).wf(),
            final(self).bytes() == old(self).bytes() + bytes,
            final(self).objs() == old(self).objs() + objs,
    {
        self.bump(cpu, REMOTE_BYTES, bytes);
        self.bump(cpu, REMOTE_OBJS, objs);
    }

    /// The sum of a column, modulo the wrap.
    fn total(&self, col: usize) -> (acc: u64)
        requires
            self.wf(),
            col < 2,
        ensures
            (acc - if col == 0 {
                self.bytes()
            } else {
                self.objs()
            }) % wrap() == 0,
    {
        let mut acc: u64 = 0;
        let mut i: u32 = 0;
        while i < self.num_cpus
            invariant
                self.wf(),
                col < 2,
                i <= self.num_cpus,
                (acc - column_sum(self.cells@, col as int, i as int)) % wrap() == 0,
            decreases self.num_cpus - i,
        {
            let a: u64 = self.cells.at(4 * (i as usize) + col);
            let b: u64 = self.cells.at(4 * (i as usize) + col + 2);
            acc = acc.wrapping_add(a).wrapping_add(b);
            i = i + 1;
        }
        acc
    }

    /// Total live bytes: the sum over all cells, or 0 where it is negative.
    pub fn total_bytes(&self) -> (r: usize)
        requires
            self.wf(),
        ensures
            0 <= self.bytes() <= isize::MAX ==> r == self.bytes(),
            -0x7fff_ffff_ffff_ffff <= self.bytes() < 0 ==> r == 0,
    {
        let acc: u64 = self.total(0);
        if acc <= i64::MAX as u64 {
            acc as usize
        } else {
            0
        }
    }

    /// Total live objects: the sum over all cells, or 0 where it is negative.
    pub fn total_objs(&self) -> (r: u64)
        requires
            self.wf(),
        ensures
            0 <= self.objs() <= i64::MAX ==> r == self.objs(),
            -0x7fff_ffff_ffff_ffff <= self.objs() < 0 ==> r == 0,
    {
        let acc: u64 = self.total(1);
        if acc <= i64::MAX as u64 {
            acc
        } else {
            0
        }
    }
}

proof fn lemma_zero_columns(w: Seq<u64>, col: int, n: int)
    requires
        0 <= col < 2,
        0 <= n,
        4 * n <= w.len(),
        forall|i: int| 0 <= i < w.len() ==> #[trigger] w[i] == 0,
    ensures
        column_sum(w, col, n) == 0,
    decreases n,
{
    if n > 0 {
        lemma_zero_columns(w, col, n - 1);
    }
}

proof fn lemma_congruent(sum: int, total: int, d: int, v: int)
    requires
        (sum - total) % wrap() == 0,
        (d - v) % wrap() == 0,
    ensures
        (sum + d - (total + v)) % wrap() == 0,
{
}

} // verus!
