//! System-allocator primitives below the rest of the allocator.
//!
//! The tables that the heap, the CPUs' stacks and the free frames keep about
//! themselves live in a [`SysBoxSlice`]: a fixed-length array whose storage comes
//! from the process's *system* allocator through `allocator_api2`, never from the
//! installed global allocator (which is this allocator, so a table of its own served
//! by itself would recurse). What callers give a frame pool to keep for each frame,
//! and the sub-heaps that a registry has built, are values of other types and stay
//! in ordinary vectors.

pub mod diag;
pub mod reserve;
pub mod text;

use vstd::prelude::*;

verus! {

/// A fixed-length array backed by the system allocator.
///
/// Opaque to the verifier: its contents are named by [`words`] (for `u64`
/// elements), [`indices`] (for `u32` elements) and [`entries`] (for named sizes),
/// and only the functions below touch them.
#[verifier::external_body]
#[verifier::reject_recursive_types(T)]
pub struct SysBoxSlice<T> {
    items: allocator_api2::vec::Vec<T, std::alloc::System>,
}

/// The elements held by an array of 64-bit words, in order.
pub uninterp spec fn words(v: SysBoxSlice<u64>) -> Seq<u64>;

/// The elements held by an array of 32-bit indices, in order.
pub uninterp spec fn indices(v: SysBoxSlice<u32>) -> Seq<u32>;

/// The elements held by a list of named sizes, in order.
pub uninterp spec fn entries(v: SysBoxSlice<(&'static str, usize)>) -> Seq<(&'static str, usize)>;

/// The number of elements an array may hold: doubling it must still give an
/// allocation of at most `isize::MAX` bytes at eight bytes per element.
pub open spec fn max_elements() -> int {
    isize::MAX as int / 16
}

/// `allocator_api2::vec::Vec::with_capacity_in`: an empty vector with room for
/// `n` words. Claims only that it starts empty; a request beyond the address
/// space, on which it would panic, is excluded.
#[verifier::external_body]
fn words_with_capacity(n: usize) -> (v: SysBoxSlice<u64>)
    requires
        n <= max_elements(),
    ensures
        words(v) == Seq::<u64>::empty(),
{
    SysBoxSlice { items: allocator_api2::vec::Vec::with_capacity_in(n, std::alloc::System) }
}

/// `allocator_api2::vec::Vec::with_capacity_in`, for indices.
#[verifier::external_body]
fn indices_with_capacity(n: usize) -> (v: SysBoxSlice<u32>)
    requires
        n <= max_elements(),
    ensures
        indices(v) == Seq::<u32>::empty(),
{
    SysBoxSlice { items: allocator_api2::vec::Vec::with_capacity_in(n, std::alloc::System) }
}

impl SysBoxSlice<u64> {
    /// The elements, in order.
    pub open spec fn view(&self) -> Seq<u64> {
        words(*self)
    }

    /// `allocator_api2::vec::Vec::push`: appends one word. The bound keeps the
    /// doubling of the vector's storage below the size on which it panics.
    #[verifier::external_body]
    fn push(&mut self, value: u64)
        requires
            words(*old(self)).len() < max_elements(),
        ensures
            words(*final(self)) == words(*old(self)).push(value),
    {
        self.items.push(value)
    }

    /// `allocator_api2::vec::Vec::len`: the number of words held.
    #[verifier::external_body]
    pub(crate) fn len(&self) -> (n: usize)
        ensures
            n == words(*self).len(),
    {
        self.items.len()
    }

    /// Indexing an `allocator_api2::vec::Vec`: the word at `i`.
    #[verifier::external_body]
    pub(crate) fn at(&self, i: usize) -> (value: u64)
        requires
            i < words(*self).len(),
        ensures
            value == words(*self)[i as int],
    {
        self.items[i]
    }

    /// Indexed assignment into an `allocator_api2::vec::Vec`: replaces the word
    /// at `i` and leaves every other one alone.
    #[verifier::external_body]
    pub(crate) fn put(&mut self, i: usize, value: u64)
        requires
            i < words(*old(self)).len(),
        ensures
            words(*final(self)) == words(*old(self)).update(i as int, value),
    {
        self.items[i] = value
    }

    /// Build an array of `n` words, each `value`. The allocation goes to the
    /// system allocator.
    pub fn filled(n: usize, value: u64) -> (v: SysBoxSlice<u64>)
        requires
            n <= max_elements(),
        ensures
            v@ == Seq::new(n as nat, |i: int| value),
    {
        let mut v = words_with_capacity(n);
        let mut i: usize = 0;
        while i < n
            invariant
                i <= n <= max_elements(),
                v@ == Seq::new(i as nat, |j: int| value),
            decreases n - i,
        {
            v.push(value);
            i = i + 1;
        }
        v
    }
}

impl SysBoxSlice<u32> {
    /// The elements, in order.
    pub open spec fn view(&self) -> Seq<u32> {
        indices(*self)
    }

    /// `allocator_api2::vec::Vec::push`: appends one index, under the same bound
    /// as for words.
    #[verifier::external_body]
    fn push(&mut self, value: u32)
        requires
            indices(*old(self)).len() < max_elements(),
        ensures
            indices(*final(self)) == indices(*old(self)).push(value),
    {
        self.items.push(value)
    }

    /// `allocator_api2::vec::Vec::len`: the number of indices held.
    #[verifier::external_body]
    pub(crate) fn len(&self) -> (n: usize)
        ensures
            n == indices(*self).len(),
    {
        self.items.len()
    }

    /// Indexing an `allocator_api2::vec::Vec`: the index stored at `i`.
    #[verifier::external_body]
    pub(crate) fn at(&self, i: usize) -> (value: u32)
        requires
            i < indices(*self).len(),
        ensures
            value == indices(*self)[i as int],
    {
        self.items[i]
    }

    /// Indexed assignment into an `allocator_api2::vec::Vec`: replaces the index
    /// stored at `i` and leaves every other one alone.
    #[verifier::external_body]
    pub(crate) fn put(&mut self, i: usize, value: u32)
        requires
            i < indices(*old(self)).len(),
        ensures
            indices(*final(self)) == indices(*old(self)).update(i as int, value),
    {
        self.items[i] = value
    }

    /// Build an array of `n` indices, each `value`. The allocation goes to the
    /// system allocator.
    pub fn filled(n: usize, value: u32) -> (v: SysBoxSlice<u32>)
        requires
            n <= max_elements(),
        ensures
            v@ == Seq::new(n as nat, |i: int| value),
    {
        let mut v = indices_with_capacity(n);
        let mut i: usize = 0;
        while i < n
            invariant
                i <= n <= max_elements(),
                v@ == Seq::new(i as nat, |j: int| value),
            decreases n - i,
        {
            v.push(value);
            i = i + 1;
        }
        v
    }

    /// Build an array of these indices. The allocation goes to the system allocator.
    pub fn copied(values: &[u32]) -> (v: SysBoxSlice<u32>)
        requires
            values@.len() <= max_elements(),
        ensures
            v@ == values@,
    {
        let n: usize = values.len();
        let mut v = indices_with_capacity(n);
        let mut i: usize = 0;
        while i < n
            invariant
                i <= n == values@.len(),
                n <= max_elements(),
                v@ == values@.take(i as int),
            decreases n - i,
        {
            v.push(values[i]);
            i = i + 1;
            assert(values@.take(i as int) =~= values@.take(i - 1).push(values@[i - 1]));
        }
        assert(values@.take(n as int) =~= values@);
        v
    }
}

impl SysBoxSlice<(&'static str, usize)> {
    /// The elements, in order.
    pub open spec fn view(&self) -> Seq<(&'static str, usize)> {
        entries(*self)
    }

    /// `allocator_api2::vec::Vec::new_in`: an empty list. The list allocates from
    /// the system allocator once something is pushed.
    #[verifier::external_body]
    pub(crate) fn no_entries() -> (v: SysBoxSlice<(&'static str, usize)>)
        ensures
            entries(v) == Seq::<(&'static str, usize)>::empty(),
    {
        SysBoxSlice { items: allocator_api2::vec::Vec::new_in(std::alloc::System) }
    }

    /// `allocator_api2::vec::Vec::push`: appends one entry. An entry takes three
    /// words, so the bound keeps the doubling of the list's storage below the
    /// size on which it panics.
    #[verifier::external_body]
    pub(crate) fn push(&mut self, entry: (&'static str, usize))
        requires
            entries(*old(self)).len() < max_entries(),
        ensures
            entries(*final(self)) == entries(*old(self)).push(entry),
    {
        self.items.push(entry)
    }

    /// `allocator_api2::vec::Vec::len`: the number of entries held.
    #[verifier::external_body]
    pub(crate) fn len(&self) -> (n: usize)
        ensures
            n == entries(*self).len(),
    {
        self.items.len()
    }

    /// Indexing an `allocator_api2::vec::Vec`: the entry at `i`.
    #[verifier::external_body]
    pub(crate) fn at(&self, i: usize) -> (entry: (&'static str, usize))
        requires
            i < entries(*self).len(),
        ensures
            entry == entries(*self)[i as int],
    {
        self.items[i]
    }
}

/// The number of CPUs to lay tables out for, on a machine that is configured with
/// `configured` of them, or else runs `parallel` threads at once: four, where it
/// says neither.
pub open spec fn machine_cpus(configured: i64, parallel: Option<usize>) -> u32 {
    if configured > 0 {
        (configured % 0x1_0000_0000) as u32
    } else {
        match parallel {
            Some(n) => (n as int % 0x1_0000_0000) as u32,
            None => 4,
        }
    }
}

/// A machine that says how many CPUs it has gets tables for just as many; one that only
/// says how many threads it runs, for as many as those.
pub proof fn lemma_machine_cpus(configured: i64, parallel: Option<usize>)
    ensures
        0 < configured <= u32::MAX ==> machine_cpus(configured, parallel) == configured,
        configured > 0 ==> (configured - machine_cpus(configured, parallel)) % 4294967296 == 0,
        configured <= 0 ==> (parallel matches Some(p) ==> (p <= u32::MAX ==> machine_cpus(
            configured,
            parallel,
        ) == p) && (p - machine_cpus(configured, parallel)) % 4294967296 == 0),
        configured <= 0 && parallel is None ==> machine_cpus(configured, parallel) == 4,
{
}

/// The number of CPUs to lay tables out for.
pub fn default_num_cpus(configured: i64, parallel: Option<usize>) -> (n: u32)
    ensures
        n == machine_cpus(configured, parallel),
        0 < configured <= u32::MAX ==> n == configured,
        configured <= 0 ==> (parallel matches Some(p) ==> (p <= u32::MAX ==> n == p)),
        configured <= 0 && parallel is None ==> n == 4,
{
    if configured > 0 {
        (configured % 0x1_0000_0000) as u32
    } else {
        match parallel {
            Some(n) => (n as u64 % 0x1_0000_0000) as u32,
            None => 4,
        }
    }
}

/// The number of entries a list may hold: doubling it must still give an
/// allocation of at most `isize::MAX` bytes at three words per entry.
pub open spec fn max_entries() -> int {
    isize::MAX as int / 48
}

/// Arrays and lists may grow until doubling them would exceed what can be allocated, and not
/// less.
pub proof fn lemma_limits()
    ensures
        16 * max_elements() <= isize::MAX < 16 * (max_elements() + 1),
        48 * max_entries() <= isize::MAX < 48 * (max_entries() + 1),
{
}

} // verus!
