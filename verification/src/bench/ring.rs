//! A ring between one producer and one consumer.
//!
//! Its storage is allocated once, so that the only allocations a run measures are
//! those of the buffers that pass through it. Positions count up and wrap around
//! the machine word; a slot is the remainder of its position.

use vstd::prelude::*;
use vstd::arithmetic::power2::{lemma_pow2_pos, lemma_pow2_unfold, pow2};
use crate::bits::is_pow2;

verus! {

/// A bounded first-in first-out ring.
pub struct SpscRing<T> {
    slots: Vec<Option<T>>,
    head: usize,
    tail: usize,
    cap: usize,
    items: Ghost<Seq<T>>,
}

/// The slot of a position.
spec fn slot_of(at: int, cap: int) -> int {
    at % cap
}

/// A power of two that fits the machine word divides the number of its values.
proof fn lemma_divides(k: nat)
    requires
        pow2(k) <= usize::MAX,
    ensures
        (usize::MAX as int + 1) % (pow2(k) as int) == 0,
{
    vstd::arithmetic::power2::lemma2_to64();
    vstd::arithmetic::power2::lemma2_to64_rest();
    let w: nat = usize::BITS as nat;
    assert(pow2(w) == usize::MAX as int + 1);
    if k > w {
        vstd::arithmetic::power2::lemma_pow2_strictly_increases(w, k);
    }
    vstd::arithmetic::power2::lemma_pow2_adds(k, (w - k) as nat);
    lemma_pow2_pos(k);
    vstd::arithmetic::div_mod::lemma_mod_multiples_basic(
        pow2((w - k) as nat) as int,
        pow2(k) as int,
    );
    vstd::arithmetic::mul::lemma_mul_is_commutative(
        pow2(k) as int,
        pow2((w - k) as nat) as int,
    );
}

/// A position that wrapped around finds the same slot.
proof fn lemma_wrapped(at: int, cap: int, k: nat)
    requires
        cap == pow2(k),
        0 < cap <= usize::MAX,
        0 <= at,
    ensures
        slot_of(at, cap) == slot_of(at % (usize::MAX as int + 1), cap),
{
    lemma_divides(k);
    let w = usize::MAX as int + 1;
    vstd::arithmetic::div_mod::lemma_fundamental_div_mod(w, cap);
    assert(w / cap > 0) by (nonlinear_arith)
        requires
            cap * (w / cap) == w,
            w > 0,
            cap > 0,
    ;
    vstd::arithmetic::div_mod::lemma_mod_mod(at, cap, w / cap);
}

impl<T> SpscRing<T> {
    /// What is in the ring, oldest first.
    pub closed spec fn view(&self) -> Seq<T> {
        self.items@
    }

    /// How much it holds.
    pub closed spec fn room(&self) -> int {
        self.cap as int
    }

    pub closed spec fn wf(&self) -> bool {
        &&& self.cap > 0
        &&& is_pow2(self.cap as int)
        &&& self.slots@.len() == self.cap
        &&& self.items@.len() <= self.cap
        &&& self.head == (self.tail + self.items@.len()) % (usize::MAX as int + 1)
        &&& forall|k: int|
            0 <= k < self.items@.len() ==> #[trigger] self.slots@[slot_of(
                self.tail + k,
                self.cap as int,
            )] == Some(self.items@[k])
    }

    /// An empty ring that holds the next power of two of at least `cap`.
    pub fn new(cap: usize) -> (r: SpscRing<T>)
        requires
            cap <= usize::MAX / 2,
        ensures
            r.wf(),
            r@ == Seq::<T>::empty(),
            is_pow2(r.room()),
            r.room() >= cap,
            r.room() == 1 || r.room() < 2 * cap,
    {
        let mut n: usize = 1;
        let ghost mut k: nat = 0;
        proof {
            vstd::arithmetic::power2::lemma2_to64();
        }
        while n < cap
            invariant
                n == pow2(k),
                n >= 1,
                n == 1 || n < 2 * cap,
                cap <= usize::MAX / 2,
            decreases usize::MAX - n,
        {
            proof {
                lemma_pow2_unfold(k + 1);
                k = k + 1;
            }
            n = n * 2;
        }
        let mut slots: Vec<Option<T>> = Vec::new();
        let mut i: usize = 0;
        while i < n
            invariant
                i <= n,
                slots@.len() == i,
            decreases n - i,
        {
            slots.push(None);
            i = i + 1;
        }
        proof {
            assert(is_pow2(n as int));
            vstd::arithmetic::div_mod::lemma_small_mod(0, (usize::MAX as int + 1) as nat);
        }
        SpscRing { slots, head: 0, tail: 0, cap: n, items: Ghost(Seq::empty()) }
    }

    /// Put a value in; it is handed back if the ring is full.
    pub fn push(&mut self, v: T) -> (r: Result<(), T>)
        requires
            old(self).wf(),
        ensures
            final(self).wf(),
            final(self).room() == old(self).room(),
            if old(self)@.len() < old(self).room() {
                r is Ok && final(self)@ == old(self)@.push(v)
            } else {
                r == Err::<(), T>(v) && *final(self) == *old(self)
            },
    {
        let ghost k = choose|k: nat| self.cap == #[trigger] pow2(k);
        let ghost n = self.items@.len() as int;
        let ghost w = usize::MAX as int + 1;
        proof {
            lemma_distance(self.tail as int, n, self.head as int);
        }
        if self.head.wrapping_sub(self.tail) >= self.cap {
            return Err(v);
        }
        let ghost before = *self;
        let i: usize = self.head % self.cap;
        proof {
            lemma_wrapped(self.tail + n, self.cap as int, k);
            assert(i == slot_of(self.tail + n, self.cap as int));
        }
        self.slots[i] = Some(v);
        self.head = self.head.wrapping_add(1);
        proof {
            self.items@ = before.items@.push(v);
            assert forall|j: int| 0 <= j < self.items@.len() implies #[trigger] self.slots@[slot_of(
                self.tail + j,
                self.cap as int,
            )] == Some(self.items@[j]) by {
                if j < n {
                    lemma_slots_apart(self.tail as int, j, n, self.cap as int);
                    assert(before.slots@[slot_of(self.tail + j, self.cap as int)] == Some(
                        before.items@[j],
                    ));
                }
            }
            lemma_step(self.tail + n, before.head as int);
        }
        Ok(())
    }

    /// Take the oldest value out.
    pub fn pop(&mut self) -> (r: Option<T>)
        requires
            old(self).wf(),
        ensures
            final(self).wf(),
            final(self).room() == old(self).room(),
            if old(self)@.len() > 0 {
                r == Some(old(self)@[0]) && final(self)@ == old(self)@.skip(1)
            } else {
                r is None && *final(self) == *old(self)
            },
    {
        let ghost k = choose|k: nat| self.cap == #[trigger] pow2(k);
        let ghost n = self.items@.len() as int;
        proof {
            lemma_distance(self.tail as int, n, self.head as int);
        }
        if self.tail == self.head {
            return None;
        }
        let ghost before = *self;
        let i: usize = self.tail % self.cap;
        let mut v: Option<T> = None;
        assert(self.slots@[slot_of(self.tail + 0, self.cap as int)] == Some(self.items@[0]));
        std::mem::swap(&mut v, &mut self.slots[i]);
        self.tail = self.tail.wrapping_add(1);
        proof {
            self.items@ = before.items@.skip(1);
            lemma_step(before.tail as int, before.tail as int);
            assert forall|j: int| 0 <= j < self.items@.len() implies #[trigger] self.slots@[slot_of(
                self.tail + j,
                self.cap as int,
            )] == Some(self.items@[j]) by {
                lemma_shifted(before.tail as int, self.tail as int, j, self.cap as int, k);
                lemma_slots_apart(before.tail as int, 0, j + 1, self.cap as int);
                assert(before.slots@[slot_of(before.tail + (j + 1), self.cap as int)] == Some(
                    before.items@[j + 1],
                ));
            }
            lemma_rebased(before.tail as int, self.tail as int, n);
        }
        v
    }
}

/// The wrapped distance of two positions is the number of items between them.
proof fn lemma_distance(tail: int, n: int, head: int)
    requires
        0 <= tail <= usize::MAX,
        0 <= n <= usize::MAX,
        head == (tail + n) % (usize::MAX as int + 1),
    ensures
        0 <= head <= usize::MAX,
        (head as usize).wrapping_sub(tail as usize) == n,
        head == tail <==> n == 0,
{
    let w = usize::MAX as int + 1;
    if tail + n < w {
        vstd::arithmetic::div_mod::lemma_small_mod((tail + n) as nat, w as nat);
    } else {
        vstd::arithmetic::div_mod::lemma_mod_sub_multiples_vanish(tail + n, w);
        vstd::arithmetic::div_mod::lemma_small_mod((tail + n - w) as nat, w as nat);
    }
}

/// Counting a position up wraps around the machine word.
proof fn lemma_step(at: int, now: int)
    requires
        0 <= at,
        now == at % (usize::MAX as int + 1),
    ensures
        0 <= now <= usize::MAX,
        (now as usize).wrapping_add(1) == (at + 1) % (usize::MAX as int + 1),
{
    let w = usize::MAX as int + 1;
    vstd::arithmetic::div_mod::lemma_add_mod_noop(at, 1, w);
    vstd::arithmetic::div_mod::lemma_small_mod(1, w as nat);
    if now + 1 < w {
        vstd::arithmetic::div_mod::lemma_small_mod((now + 1) as nat, w as nat);
    } else {
        vstd::arithmetic::div_mod::lemma_mod_self_0(w);
    }
}

/// Positions less than a ring apart have different slots.
proof fn lemma_slots_apart(tail: int, i: int, j: int, cap: int)
    requires
        0 <= tail,
        0 <= i < j,
        j - i < cap,
    ensures
        slot_of(tail + i, cap) != slot_of(tail + j, cap),
{
    if slot_of(tail + i, cap) == slot_of(tail + j, cap) {
        vstd::arithmetic::div_mod::lemma_fundamental_div_mod(tail + i, cap);
        vstd::arithmetic::div_mod::lemma_fundamental_div_mod(tail + j, cap);
        let a = (tail + i) / cap;
        let b = (tail + j) / cap;
        assert(cap * b - cap * a == j - i);
        assert(cap * b - cap * a == cap * (b - a)) by (nonlinear_arith);
        assert(b - a <= 0 ==> cap * (b - a) <= 0) by (nonlinear_arith)
            requires
                cap > 0,
        ;
        assert(b - a >= 1 ==> cap * (b - a) >= cap) by (nonlinear_arith)
            requires
                cap > 0,
        ;
    }
}

/// Positions counted from the next one.
proof fn lemma_shifted(tail: int, next: int, j: int, cap: int, k: nat)
    requires
        cap == pow2(k),
        0 < cap <= usize::MAX,
        0 <= tail <= usize::MAX,
        0 <= j,
        next == (tail + 1) % (usize::MAX as int + 1),
    ensures
        slot_of(next + j, cap) == slot_of(tail + (j + 1), cap),
{
    let w = usize::MAX as int + 1;
    lemma_wrapped(tail + 1 + j, cap, k);
    lemma_wrapped(next + j, cap, k);
    vstd::arithmetic::div_mod::lemma_add_mod_noop(tail + 1, j, w);
    vstd::arithmetic::div_mod::lemma_add_mod_noop(next, j, w);
    vstd::arithmetic::div_mod::lemma_mod_twice(tail + 1, w);
}

/// The end is the same, counted from the next position.
proof fn lemma_rebased(tail: int, next: int, n: int)
    requires
        0 <= tail <= usize::MAX,
        1 <= n,
        next == (tail + 1) % (usize::MAX as int + 1),
    ensures
        (next + (n - 1)) % (usize::MAX as int + 1) == (tail + n) % (usize::MAX as int + 1),
{
    let w = usize::MAX as int + 1;
    vstd::arithmetic::div_mod::lemma_add_mod_noop(tail + 1, n - 1, w);
    vstd::arithmetic::div_mod::lemma_add_mod_noop(next, n - 1, w);
    vstd::arithmetic::div_mod::lemma_mod_twice(tail + 1, w);
}

} // verus!
