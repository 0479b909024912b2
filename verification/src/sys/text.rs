//! Comparing names, and reading numbers out of arguments and of the small text
//! files that the kernel offers.

use vstd::prelude::*;
use vstd::string::StrSliceExecFns;

verus! {

/// White space, as Unicode has it.
pub open spec fn is_space(c: char) -> bool {
    let n = c as int;
    ||| 9 <= n <= 13
    ||| n == 0x20
    ||| n == 0x85
    ||| n == 0xA0
    ||| n == 0x1680
    ||| 0x2000 <= n <= 0x200A
    ||| n == 0x2028
    ||| n == 0x2029
    ||| n == 0x202F
    ||| n == 0x205F
    ||| n == 0x3000
}

/// White space is the tab, the line breaks and the blanks, and nothing that is printed.
pub proof fn lemma_spaces(c: char)
    ensures
        c == ' ' || c == '\t' || c == '\n' || c == '\r' || c == '\u{b}' || c == '\u{c}' || c == '\u{85}'
            || c == '\u{a0}' || c == '\u{1680}' || '\u{2000}' <= c <= '\u{200a}' || c == '\u{2028}'
            || c == '\u{2029}' || c == '\u{202f}' || c == '\u{205f}' || c == '\u{3000}' <==> is_space(c),
        '!' <= c <= '~' ==> !is_space(c),
        is_digit(c) <==> '0' <= c <= '9',
{
}

fn space(c: char) -> (b: bool)
    ensures
        b == is_space(c),
{
    let n: u32 = c as u32;
    (9 <= n && n <= 13) || n == 0x20 || n == 0x85 || n == 0xA0 || n == 0x1680 || (0x2000 <= n && n
        <= 0x200A) || n == 0x2028 || n == 0x2029 || n == 0x202F || n == 0x205F || n == 0x3000
}

pub open spec fn is_digit(c: char) -> bool {
    48 <= c as int <= 57
}

fn digit(c: char) -> (d: Option<usize>)
    ensures
        match d {
            Some(v) => is_digit(c) && v == c as int - 48,
            None => !is_digit(c),
        },
{
    let n: u32 = c as u32;
    if 48 <= n && n <= 57 {
        Some((n - 48) as usize)
    } else {
        None
    }
}

/// The characters of a text.
pub fn chars_of(s: &str) -> (v: Vec<char>)
    ensures
        v@ == s@,
{
    let n: usize = s.unicode_len();
    let mut v: Vec<char> = Vec::new();
    let mut i: usize = 0;
    while i < n
        invariant
            i <= n,
            n == s@.len(),
            v@ == s@.take(i as int),
        decreases n - i,
    {
        v.push(s.get_char(i));
        i = i + 1;
        assert(v@ =~= s@.take(i as int));
    }
    assert(s@.take(n as int) =~= s@);
    v
}

/// The first position from `i` on that holds no white space.
pub open spec fn space_end(s: Seq<char>, i: int) -> int
    decreases s.len() - i,
{
    if 0 <= i < s.len() && is_space(s[i]) {
        space_end(s, i + 1)
    } else {
        i
    }
}

/// The first position from `i` on that holds white space, or the end.
pub open spec fn word_end(s: Seq<char>, i: int) -> int
    decreases s.len() - i,
{
    if 0 <= i < s.len() && !is_space(s[i]) {
        word_end(s, i + 1)
    } else {
        i
    }
}

/// The word that starts at or after `i`, with the position behind it; nothing if
/// only white space is left.
pub open spec fn next_word(s: Seq<char>, i: int) -> Option<(Seq<char>, int)> {
    let a = space_end(s, i);
    let b = word_end(s, a);
    if a < s.len() {
        Some((s.subrange(a, b), b))
    } else {
        None
    }
}

proof fn lemma_space_end(s: Seq<char>, i: int)
    requires
        0 <= i <= s.len(),
    ensures
        i <= space_end(s, i) <= s.len(),
        forall|j: int| i <= j < space_end(s, i) ==> is_space(#[trigger] s[j]),
        space_end(s, i) < s.len() ==> !is_space(s[space_end(s, i)]),
    decreases s.len() - i,
{
    if i < s.len() && is_space(s[i]) {
        lemma_space_end(s, i + 1);
    }
}

proof fn lemma_word_end(s: Seq<char>, i: int)
    requires
        0 <= i <= s.len(),
    ensures
        i <= word_end(s, i) <= s.len(),
        forall|j: int| i <= j < word_end(s, i) ==> !is_space(#[trigger] s[j]),
        word_end(s, i) < s.len() ==> is_space(s[word_end(s, i)]),
    decreases s.len() - i,
{
    if i < s.len() && !is_space(s[i]) {
        lemma_word_end(s, i + 1);
    }
}

/// Characters without white space, with only white space before them and some, or the
/// end, behind them, are the next word; and where there is only white space, there is
/// none.
pub proof fn lemma_next_word(s: Seq<char>, i: int, a: int, b: int)
    requires
        0 <= i <= a <= b <= s.len(),
        forall|j: int| i <= j < a ==> is_space(#[trigger] s[j]),
        forall|j: int| a <= j < b ==> !is_space(#[trigger] s[j]),
        b == s.len() || is_space(s[b]),
        a == b ==> b == s.len(),
    ensures
        a < b ==> next_word(s, i) == Some((s.subrange(a, b), b)),
        a == b ==> next_word(s, i) is None,
{
    lemma_space_end(s, i);
    let x = space_end(s, i);
    lemma_word_end(s, x);
    let y = word_end(s, x);
    if x < a {
        assert(is_space(s[x]));
    }
    if a < b && a < x {
        assert(is_space(s[a]));
    }
    if a < b {
        assert(x == a);
        if y < b {
            assert(!is_space(s[y]));
        }
        if b < y {
            assert(!is_space(s[b]));
        }
    }
}

/// Bounds of the word that starts at or after `from`.
pub fn find_word(s: &[char], from: usize) -> (r: Option<(usize, usize)>)
    requires
        from <= s@.len(),
    ensures
        r matches Some((a, b)) ==> from <= a && (forall|j: int|
            from <= j < a ==> is_space(#[trigger] s@[j])) && (forall|j: int|
            a <= j < b ==> !is_space(#[trigger] s@[j])) && (b == s@.len() || is_space(s@[b as int])),
        r is None ==> forall|j: int| from <= j < s@.len() ==> is_space(#[trigger] s@[j]),
        match r {
            Some((a, b)) => a < b && b <= s@.len() && next_word(s@, from as int) == Some(
                (s@.subrange(a as int, b as int), b as int),
            ),
            None => next_word(s@, from as int) is None,
        },
{
    let mut a: usize = from;
    while a < s.len() && space(s[a])
        invariant
            from <= a <= s@.len(),
            space_end(s@, a as int) == space_end(s@, from as int),
            forall|j: int| from <= j < a ==> is_space(#[trigger] s@[j]),
        decreases s@.len() - a,
    {
        a = a + 1;
    }
    if a >= s.len() {
        return None;
    }
    let mut b: usize = a;
    while b < s.len() && !space(s[b])
        invariant
            a <= b <= s@.len(),
            b == a ==> a < s@.len() && !is_space(s@[a as int]),
            word_end(s@, b as int) == word_end(s@, a as int),
            forall|j: int| a <= j < b ==> !is_space(#[trigger] s@[j]),
        decreases s@.len() - b,
    {
        b = b + 1;
    }
    Some((a, b))
}

/// The number that decimal digits spell.
pub open spec fn digits_value(s: Seq<char>) -> nat
    decreases s.len(),
{
    if s.len() == 0 {
        0
    } else {
        (digits_value(s.drop_last()) * 10 + (s.last() as int - 48)) as nat
    }
}

pub open spec fn all_digits(s: Seq<char>) -> bool {
    forall|i: int| 0 <= i < s.len() ==> is_digit(#[trigger] s[i])
}

/// The number that a word spells: digits, with an optional plus sign, of a value
/// that fits the machine word.
pub open spec fn number(s: Seq<char>) -> Option<usize> {
    let d = if s.len() > 0 && s[0] == '+' {
        s.skip(1)
    } else {
        s
    };
    if d.len() > 0 && all_digits(d) && digits_value(d) <= usize::MAX {
        Some(digits_value(d) as usize)
    } else {
        None
    }
}

/// Digits count ten times as much for every digit behind them.
pub proof fn lemma_place_value(s: Seq<char>, k: int)
    requires
        0 <= k <= s.len(),
        all_digits(s),
    ensures
        digits_value(s) == digits_value(s.take(k)) * vstd::arithmetic::power::pow(
            10,
            (s.len() - k) as nat,
        ) + digits_value(s.skip(k)),
        s.len() == 1 ==> digits_value(s) == s[0] as int - '0' as int,
        s.len() == 0 ==> digits_value(s) == 0,
    decreases s.len() - k,
{
    let p = vstd::arithmetic::power::pow(10, (s.len() - k) as nat);
    if k == s.len() {
        assert(s.take(k) =~= s);
        assert(s.skip(k) =~= Seq::<char>::empty());
        vstd::arithmetic::power::lemma_pow0(10);
    } else {
        let n = s.len() - 1;
        let t = s.drop_last();
        assert(is_digit(s[n]));
        assert forall|i: int| 0 <= i < t.len() implies is_digit(#[trigger] t[i]) by {
            assert(t[i] == s[i]);
        }
        lemma_place_value(t, k);
        assert(t.take(k) =~= s.take(k));
        assert(s.skip(k).drop_last() =~= t.skip(k));
        assert(s.skip(k).last() == s.last());
        let q = vstd::arithmetic::power::pow(10, (n - k) as nat);
        vstd::arithmetic::power::lemma_pow_adds(10, (n - k) as nat, 1);
        vstd::arithmetic::power::lemma_pow1(10);
        let h = digits_value(s.take(k)) as int;
        assert(h * q * 10 == h * (q * 10)) by (nonlinear_arith);
    }
    if s.len() == 1 {
        assert(is_digit(s[0]));
        assert(s.drop_last() =~= Seq::<char>::empty());
    }
}

/// A word is a number exactly where it is made of digits, behind at most one plus sign,
/// and the value fits; the sign and leading zeros do not count.
pub proof fn lemma_number(d: Seq<char>)
    requires
        d.len() > 0,
        d[0] != '+',
    ensures
        number(seq!['+'] + d) == number(d),
        number(d) matches Some(n) ==> n == digits_value(d),
        number(d) is Some <==> (forall|i: int| 0 <= i < d.len() ==> '0' <= #[trigger] d[i] <= '9')
            && digits_value(d) <= usize::MAX,
        all_digits(d) ==> number(seq!['0'] + d) == number(d),
        number(Seq::<char>::empty()) is None,
        number(seq!['+']) is None,
{
    let p = seq!['+'] + d;
    assert(p.skip(1) =~= d);
    let z = seq!['0'] + d;
    assert(seq!['+'].skip(1) =~= Seq::<char>::empty());
    if all_digits(d) {
        assert forall|i: int| 0 <= i < z.len() implies is_digit(#[trigger] z[i]) by {
            if i > 0 {
                assert(z[i] == d[i - 1]);
            }
        }
        lemma_place_value(z, 1);
        assert(z.skip(1) =~= d);
        assert(z.take(1) =~= seq!['0']);
        assert(all_digits(seq!['0']));
        lemma_place_value(seq!['0'], 0);
        let k = vstd::arithmetic::power::pow(10, (z.len() - 1) as nat);
        assert(0 * k == 0);
    }
    if forall|i: int| 0 <= i < d.len() ==> '0' <= #[trigger] d[i] <= '9' {
        assert forall|i: int| 0 <= i < d.len() implies is_digit(#[trigger] d[i]) by {
            assert('0' <= d[i] <= '9');
        }
    }
    if all_digits(d) {
        assert forall|i: int| 0 <= i < d.len() implies '0' <= #[trigger] d[i] <= '9' by {
            assert(is_digit(d[i]));
        }
    }
}

proof fn lemma_prefix_value(s: Seq<char>, k: int)
    requires
        0 <= k <= s.len(),
        all_digits(s),
    ensures
        digits_value(s.take(k)) <= digits_value(s),
    decreases s.len() - k,
{
    if k < s.len() {
        lemma_prefix_value(s, k + 1);
        assert(s.take(k + 1).drop_last() =~= s.take(k));
        assert(is_digit(s[k]));
        assert(s.take(k + 1).last() == s[k]);
    } else {
        assert(s.take(k) =~= s);
    }
}

/// Parse a number.
pub fn parse_usize(s: &[char]) -> (r: Option<usize>)
    ensures
        r == number(s@),
{
    let start: usize = if s.len() > 0 && s[0] == '+' {
        1
    } else {
        0
    };
    let ghost d = s@.skip(start as int);
    assert(start == 0 ==> d =~= s@);
    if s.len() == start {
        return None;
    }
    let mut i: usize = start;
    let mut value: usize = 0;
    while i < s.len()
        invariant
            start <= i <= s@.len(),
            d == s@.skip(start as int),
            d == (if s@.len() > 0 && s@[0] == '+' {
                s@.skip(1)
            } else {
                s@
            }),
            forall|k: int| 0 <= k < i - start ==> is_digit(#[trigger] d[k]),
            value == digits_value(d.take(i - start)),
        decreases s@.len() - i,
    {
        let c: char = s[i];
        let ghost k = i - start;
        assert(d[k] == c);
        let digit: usize = match digit(c) {
            Some(v) => v,
            None => {
                assert(!is_digit(d[k]));
                return None;
            },
        };
        assert(is_digit(d[k]));
        proof {
            assert(d.take(k + 1).drop_last() =~= d.take(k));
            assert(d.take(k + 1).last() == c);
            if all_digits(d) {
                lemma_prefix_value(d, k + 1);
            }
        }
        if value > usize::MAX / 10 || value * 10 > usize::MAX - digit {
            return None;
        }
        value = value * 10 + digit;
        i = i + 1;
    }
    assert(d.take(d.len() as int) =~= d);
    Some(value)
}

/// Where the line that holds position `i` ends: at its line break, or at the end.
pub open spec fn line_end(s: Seq<char>, i: int) -> int
    decreases s.len() - i,
{
    if 0 <= i < s.len() && s[i] != '\n' {
        line_end(s, i + 1)
    } else {
        i
    }
}

proof fn lemma_line_range(s: Seq<char>, i: int)
    requires
        0 <= i <= s.len(),
    ensures
        i <= line_end(s, i) <= s.len(),
    decreases s.len() - i,
{
    if i < s.len() && s[i] != '\n' {
        lemma_line_range(s, i + 1);
    }
}

/// What follows `key` on the first line, from the one at `i` on, that starts with
/// it.
pub open spec fn value_of_key(s: Seq<char>, key: Seq<char>, i: int) -> Option<Seq<char>>
    decreases s.len() - i,
{
    if 0 <= i < s.len() {
        let e = line_end(s, i);
        if i <= e && key.is_prefix_of(s.subrange(i, e)) {
            Some(s.subrange(i + key.len(), e))
        } else if i <= e < s.len() {
            value_of_key(s, key, e + 1)
        } else {
            None
        }
    } else {
        None
    }
}

/// Whether a line starts at position `i`.
pub open spec fn line_start(s: Seq<char>, i: int) -> bool {
    0 <= i <= s.len() && (i == 0 || s[i - 1] == '\n')
}

/// Whether the text reads `key` from position `i` on.
pub open spec fn reads(s: Seq<char>, key: Seq<char>, i: int) -> bool {
    0 <= i && i + key.len() <= s.len() && s.subrange(i, i + key.len()) == key
}

proof fn lemma_line_end(s: Seq<char>, i: int)
    requires
        0 <= i <= s.len(),
    ensures
        i <= line_end(s, i) <= s.len(),
        forall|j: int| i <= j < line_end(s, i) ==> #[trigger] s[j] != '\n',
        line_end(s, i) < s.len() ==> s[line_end(s, i)] == '\n',
    decreases s.len() - i,
{
    if i < s.len() && s[i] != '\n' {
        lemma_line_end(s, i + 1);
    }
}

/// What is found for a key is the rest of the line, up to its break, behind the first
/// place where a line starts with the key; nothing is found exactly where no line does.
pub proof fn lemma_value_of_key(s: Seq<char>, key: Seq<char>, i: int) -> (p: int)
    requires
        line_start(s, i),
        key.len() > 0,
        forall|j: int| 0 <= j < key.len() ==> #[trigger] key[j] != '\n',
    ensures
        value_of_key(s, key, i) matches Some(v) ==> {
            &&& i <= p
            &&& line_start(s, p)
            &&& reads(s, key, p)
            &&& reads(s, v, p + key.len())
            &&& forall|j: int| 0 <= j < v.len() ==> #[trigger] v[j] != '\n'
            &&& p + key.len() + v.len() == s.len() || s[p + key.len() + v.len()] == '\n'
            &&& forall|q: int| i <= q < p && #[trigger] line_start(s, q) ==> !reads(s, key, q)
        },
        value_of_key(s, key, i) is None ==> forall|q: int|
            i <= q && #[trigger] line_start(s, q) ==> !reads(s, key, q),
    decreases s.len() - i,
{
    lemma_line_end(s, i);
    let e = line_end(s, i);
    if i < s.len() {
        let line = s.subrange(i, e);
        if key.is_prefix_of(line) {
            let v = s.subrange(i + key.len(), e);
            assert(s.subrange(i, i + key.len()) =~= key) by {
                assert(line.subrange(0, key.len() as int) =~= s.subrange(i, i + key.len()));
            }
            assert(s.subrange(i + key.len(), i + key.len() + v.len()) =~= v);
            assert forall|j: int| 0 <= j < v.len() implies #[trigger] v[j] != '\n' by {
                assert(v[j] == s[i + key.len() + j]);
            }
            i
        } else {
            assert(!reads(s, key, i)) by {
                if reads(s, key, i) {
                    assert forall|j: int| i <= j < i + key.len() implies #[trigger] s[j] != '\n' by {
                        assert(s.subrange(i, i + key.len())[j - i] == key[j - i]);
                    }
                    assert(line.subrange(0, key.len() as int) =~= key);
                }
            }
            assert forall|q: int| i < q <= e implies !(#[trigger] line_start(s, q)) by {
                assert(s[q - 1] != '\n');
            }
            if e < s.len() {
                lemma_value_of_key(s, key, e + 1)
            } else {
                0
            }
        }
    } else {
        0
    }
}

fn starts_with(s: &[char], from: usize, to: usize, key: &[char]) -> (b: bool)
    requires
        from <= to <= s@.len(),
    ensures
        b == key@.is_prefix_of(s@.subrange(from as int, to as int)),
{
    if to - from < key.len() {
        return false;
    }
    let ghost line = s@.subrange(from as int, to as int);
    let mut k: usize = 0;
    while k < key.len()
        invariant
            k <= key@.len(),
            from + key@.len() <= to <= s@.len(),
            line == s@.subrange(from as int, to as int),
            forall|j: int| 0 <= j < k ==> line[j] == #[trigger] key@[j],
        decreases key@.len() - k,
    {
        if s[from + k] != key[k] {
            assert(line[k as int] != key@[k as int]);
            assert(!key@.is_prefix_of(line)) by {
                if key@.is_prefix_of(line) {
                    assert(line.subrange(0, key@.len() as int)[k as int] == line[k as int]);
                }
            }
            return false;
        }
        k = k + 1;
    }
    assert(line.subrange(0, key@.len() as int) =~= key@);
    true
}

/// Bounds of what follows `key` on the first line that starts with it.
pub fn find_key(s: &[char], key: &[char]) -> (r: Option<(usize, usize)>)
    ensures
        match r {
            Some((a, b)) => a <= b && b <= s@.len() && value_of_key(s@, key@, 0) == Some(
                s@.subrange(a as int, b as int),
            ),
            None => value_of_key(s@, key@, 0) is None,
        },
        (forall|j: int| 0 <= j < key@.len() ==> #[trigger] key@[j] != '\n') && key@.len() > 0 ==> match r {
            Some((a, b)) => {
                &&& key@.len() <= a
                &&& line_start(s@, a - key@.len())
                &&& reads(s@, key@, a - key@.len())
                &&& forall|j: int| a <= j < b ==> #[trigger] s@[j] != '\n'
                &&& b == s@.len() || s@[b as int] == '\n'
                &&& forall|q: int|
                    q < a - key@.len() && #[trigger] line_start(s@, q) ==> !reads(s@, key@, q)
            },
            None => forall|q: int| #[trigger] line_start(s@, q) ==> !reads(s@, key@, q),
        },
{
    let mut i: usize = 0;
    while i < s.len()
        invariant
            i <= s@.len(),
            line_start(s@, i as int),
            (forall|j: int| 0 <= j < key@.len() ==> #[trigger] key@[j] != '\n') && key@.len() > 0
                ==> forall|q: int| q < i && #[trigger] line_start(s@, q) ==> !reads(s@, key@, q),
            value_of_key(s@, key@, 0) == value_of_key(s@, key@, i as int),
        decreases s@.len() - i,
    {
        let mut e: usize = i;
        proof {
            lemma_line_range(s@, i as int);
        }
        while e < s.len() && s[e] != '\n'
            invariant
                i <= e <= s@.len(),
                line_end(s@, e as int) == line_end(s@, i as int),
                forall|j: int| i <= j < e ==> #[trigger] s@[j] != '\n',
            decreases s@.len() - e,
        {
            e = e + 1;
        }
        if starts_with(s, i, e, key) {
            proof {
                assert(key@.len() <= e - i);
                assert(s@.subrange(i as int, i + key@.len()) =~= key@) by {
                    let line = s@.subrange(i as int, e as int);
                    assert(line.subrange(0, key@.len() as int) =~= s@.subrange(
                        i as int,
                        i + key@.len(),
                    ));
                }
            }
            return Some((i + key.len(), e));
        }
        proof {
            if (forall|j: int| 0 <= j < key@.len() ==> #[trigger] key@[j] != '\n') && key@.len() > 0 {
                let line = s@.subrange(i as int, e as int);
                assert(!reads(s@, key@, i as int)) by {
                    if reads(s@, key@, i as int) {
                        assert forall|j: int| i <= j < i + key@.len() implies #[trigger] s@[j]
                            != '\n' by {
                            assert(s@.subrange(i as int, i + key@.len())[j - i] == key@[j - i]);
                        }
                        assert(line.subrange(0, key@.len() as int) =~= key@);
                    }
                }
                assert forall|q: int| i < q <= e implies !(#[trigger] line_start(s@, q)) by {
                    assert(s@[q - 1] != '\n');
                }
            }
        }
        if e >= s.len() {
            assert(value_of_key(s@, key@, e + 1) is None);
            return None;
        }
        i = e + 1;
    }
    None
}

/// Whether two names are the same.
pub fn same_text(a: &str, b: &str) -> (same: bool)
    ensures
        same == (a@ == b@),
{
    let n: usize = a.unicode_len();
    if n != b.unicode_len() {
        return false;
    }
    let mut i: usize = 0;
    while i < n
        invariant
            i <= n,
            n == a@.len(),
            n == b@.len(),
            forall|j: int| 0 <= j < i ==> #[trigger] a@[j] == b@[j],
        decreases n - i,
    {
        if a.get_char(i) != b.get_char(i) {
            return false;
        }
        i = i + 1;
    }
    assert(a@ =~= b@);
    true
}

} // verus!
