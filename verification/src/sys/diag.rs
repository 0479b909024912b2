//! Decimal text for diagnostics.
//!
//! Notices written from inside the allocator must not allocate, so numbers are
//! formatted into a caller's buffer. Error messages, which are built outside of
//! it, append the same digits to a string.

use vstd::prelude::*;
use vstd::string::StringExecFns;
use crate::sys::text::{all_digits, digits_value, is_digit, number};

verus! {

/// Bytes the longest number takes.
pub const DEC_MAX: usize = 20;

/// The decimal digits of `n`, most significant first.
pub open spec fn dec(n: nat) -> Seq<u8>
    decreases n,
{
    if n < 10 {
        seq![(48 + n) as u8]
    } else {
        dec(n / 10).push((48 + n % 10) as u8)
    }
}

/// The decimal digits of `n` as characters.
pub open spec fn dec_text(n: nat) -> Seq<char> {
    dec(n).map_values(|b: u8| b as char)
}

proof fn lemma_dec_len(n: nat, k: nat)
    requires
        n < vstd::arithmetic::power::pow(10, k),
        k >= 1,
    ensures
        1 <= dec(n).len() <= k,
        forall|i: int| 0 <= i < dec(n).len() ==> 48 <= #[trigger] dec(n)[i] <= 57,
    decreases n,
{
    if n >= 10 {
        if k == 1 {
            vstd::arithmetic::power::lemma_pow1(10);
        } else {
            vstd::arithmetic::power::lemma_pow_adds(10, (k - 1) as nat, 1);
            vstd::arithmetic::power::lemma_pow1(10);
            lemma_dec_len(n / 10, (k - 1) as nat);
        }
    }
}

/// A 64-bit number has at most twenty digits.
pub proof fn lemma_dec(n: nat)
    requires
        n <= u64::MAX,
    ensures
        1 <= dec(n).len() <= DEC_MAX,
        forall|i: int| 0 <= i < dec(n).len() ==> 48 <= #[trigger] dec(n)[i] <= 57,
{
    assert(vstd::arithmetic::power::pow(10, 20) == 100_000_000_000_000_000_000int) by {
        reveal_with_fuel(vstd::arithmetic::power::pow, 21);
    }
    lemma_dec_len(n, 20);
}

/// The digit `k` places from the end counts how often `10^k` goes into what the digits
/// before it leave; there are as many digits as it takes, and the first is no zero
/// unless it is the only one.
pub proof fn lemma_dec_digits(n: nat, k: nat)
    ensures
        dec(n).len() >= 1,
        k < dec(n).len() ==> dec(n)[dec(n).len() - 1 - k] == '0' as int + n as int
            / vstd::arithmetic::power::pow(10, k) % 10,
        n > 0 ==> dec(n)[0] != '0' as int,
        n < vstd::arithmetic::power::pow(10, dec(n).len()),
        n > 0 ==> vstd::arithmetic::power::pow(10, (dec(n).len() - 1) as nat) <= n,
    decreases n,
{
    vstd::arithmetic::power::lemma_pow0(10);
    vstd::arithmetic::power::lemma_pow1(10);
    if n >= 10 {
        let m = (n / 10) as nat;
        let len = dec(m).len();
        let j: nat = if k > 0 {
            (k - 1) as nat
        } else {
            0
        };
        lemma_dec_digits(m, j);
        vstd::arithmetic::power::lemma_pow_adds(10, 1, len);
        vstd::arithmetic::power::lemma_pow_adds(10, 1, (len - 1) as nat);
        if k > 0 {
            let p = vstd::arithmetic::power::pow(10, j);
            vstd::arithmetic::power::lemma_pow_positive(10, j);
            vstd::arithmetic::power::lemma_pow_adds(10, 1, j);
            vstd::arithmetic::div_mod::lemma_div_denominator(n as int, 10, p);
        }
    }
}

/// A number that was written reads back as itself.
pub proof fn lemma_dec_reads_back(n: nat)
    ensures
        all_digits(dec_text(n)),
        digits_value(dec_text(n)) == n,
        n <= usize::MAX ==> number(dec_text(n)) == Some(n as usize),
    decreases n,
{
    let t = dec_text(n);
    if n < 10 {
        assert(t.drop_last() =~= Seq::<char>::empty());
        assert(digits_value(t.drop_last()) == 0);
    } else {
        let m = (n / 10) as nat;
        lemma_dec_reads_back(m);
        assert(t.drop_last() =~= dec_text(m));
        assert forall|i: int| 0 <= i < t.len() implies is_digit(#[trigger] t[i]) by {
            if i < t.len() - 1 {
                assert(dec_text(m)[i] == t[i]);
            }
        }
    }
    assert(is_digit(t[0]));
}

/// Format `n` in decimal into `buf`; the digits are the returned part of it.
pub fn usize_to_dec(n: usize, buf: &mut [u8; 20]) -> (digits: &[u8])
    ensures
        digits@ == dec(n as nat),
{
    if n == 0 {
        buf[0] = 48;
        let out: &[u8] = vstd::slice::slice_subrange(&*buf, 0, 1);
        assert(out@ =~= dec(0));
        return out;
    }
    let mut i: usize = DEC_MAX;
    let mut left: usize = n;
    let ghost all = dec(n as nat);
    proof {
        lemma_dec(n as nat);
    }
    while left > 0
        invariant
            all == dec(n as nat),
            n > 0,
            all.len() <= DEC_MAX,
            i <= DEC_MAX,
            DEC_MAX - i <= all.len(),
            left > 0 ==> dec(left as nat) == all.take(all.len() - (DEC_MAX - i)),
            left == 0 ==> DEC_MAX - i == all.len(),
            forall|k: int|
                i <= k < DEC_MAX ==> #[trigger] buf@[k] == all[k - DEC_MAX + all.len()],
        decreases left,
    {
        let ghost m = all.len() - (DEC_MAX - i);
        let ghost head = dec(left as nat);
        proof {
            lemma_dec(left as nat);
            assert(head.last() == all[m - 1]);
            if left < 10 {
                assert(head.len() == 1);
            } else {
                lemma_dec((left / 10) as nat);
                assert(head.drop_last() =~= dec((left / 10) as nat));
                assert(head.drop_last() =~= all.take(m - 1));
            }
        }
        i = i - 1;
        buf[i] = 48 + (left % 10) as u8;
        left = left / 10;
    }
    let out: &[u8] = vstd::slice::slice_subrange(&*buf, i, DEC_MAX);
    assert(out@ =~= all);
    out
}

/// Copy `bytes` into `out` from `at` on.
fn put_bytes(out: &mut [u8], at: usize, bytes: &[u8])
    requires
        at + bytes@.len() <= old(out)@.len(),
    ensures
        final(out)@ == old(out)@.take(at as int) + bytes@ + old(out)@.skip(at + bytes@.len()),
{
    let ghost start = out@;
    let room: usize = out.len();
    let mut k: usize = 0;
    while k < bytes.len()
        invariant
            k <= bytes@.len(),
            at + bytes@.len() <= start.len(),
            start.len() == room,
            out@ == start.take(at as int) + bytes@.take(k as int) + start.skip(at + k),
        decreases bytes@.len() - k,
    {
        out[at + k] = bytes[k];
        k = k + 1;
        assert(out@ =~= start.take(at as int) + bytes@.take(k as int) + start.skip(at + k));
    }
    assert(bytes@.take(k as int) =~= bytes@);
}

/// Write a fixed message into `out`, followed by a decimal number and a line break,
/// without allocating. Returns how many bytes that is.
pub fn write_msg_num(out: &mut [u8], prefix: &[u8], n: usize) -> (len: usize)
    requires
        prefix@.len() + DEC_MAX < old(out)@.len(),
    ensures
        len == prefix@.len() + dec(n as nat).len() + 1,
        len <= old(out)@.len(),
        final(out)@ == prefix@ + dec(n as nat).push(10u8) + old(out)@.skip(len as int),
{
    let ghost start = out@;
    let mut buf: [u8; 20] = [0; 20];
    let digits: &[u8] = usize_to_dec(n, &mut buf);
    proof {
        lemma_dec(n as nat);
    }
    let _room: usize = out.len();
    assert(prefix@.len() + DEC_MAX < _room);
    put_bytes(out, 0, prefix);
    put_bytes(out, prefix.len(), digits);
    let end: usize = prefix.len() + digits.len();
    out[end] = 10;
    assert(out@ =~= prefix@ + dec(n as nat).push(10u8) + start.skip(end + 1));
    end + 1
}

fn digit(d: u8) -> (s: &'static str)
    requires
        d < 10,
    ensures
        s@ == seq![(48 + d) as char],
{
    proof {
        reveal_strlit("0");
        reveal_strlit("1");
        reveal_strlit("2");
        reveal_strlit("3");
        reveal_strlit("4");
        reveal_strlit("5");
        reveal_strlit("6");
        reveal_strlit("7");
        reveal_strlit("8");
        reveal_strlit("9");
    }
    let s: &'static str = match d {
        0 => "0",
        1 => "1",
        2 => "2",
        3 => "3",
        4 => "4",
        5 => "5",
        6 => "6",
        7 => "7",
        8 => "8",
        _ => "9",
    };
    assert(s@ =~= seq![(48 + d) as char]);
    s
}

/// Append `n` in decimal to a string.
pub fn append_dec(text: &mut String, n: u64)
    ensures
        final(text)@ == old(text)@ + dec_text(n as nat),
    decreases n,
{
    let ghost before = text@;
    if n >= 10 {
        append_dec(text, n / 10);
    }
    text.append(digit((n % 10) as u8));
    proof {
        let last = (48 + n % 10) as char;
        if n >= 10 {
            assert(dec_text(n as nat) =~= dec_text((n / 10) as nat).push(last));
        } else {
            assert(dec_text(n as nat) =~= seq![last]);
        }
        assert(text@ =~= before + dec_text(n as nat));
    }
}

} // verus!
