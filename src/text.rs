//! Byte-level helpers for reading free-form report text: separators, fields,
//! substring search and decimal numbers.
use vstd::prelude::*;

verus! {

pub const SPACE: u8 = 32;

pub const NEWLINE: u8 = 10;

pub const CARRIAGE_RETURN: u8 = 13;

pub const DOT: u8 = 46;

pub const PLUS: u8 = 43;

/// Why a metric could not be read from a report line.
#[derive(Debug, Clone, Copy, PartialEq, Eq, Structural)]
pub enum ParseError {
    /// The line has fewer space-separated fields than the rule reads.
    MissingToken,
    /// The field is not a decimal number.
    InvalidNumber,
    /// A rate of zero would divide by zero.
    ZeroRate,
    /// The number, or a sum or quotient built from it, does not fit in 32 bits.
    OutOfRange,
}

/// Number of bytes from position `i` up to (not including) the next `sep`,
/// or up to the end of `s` when no `sep` follows.
pub open spec fn run_len(s: Seq<u8>, i: int, sep: u8) -> nat
    decreases s.len() - i,
{
    if 0 <= i < s.len() && s[i] != sep {
        1 + run_len(s, i + 1, sep)
    } else {
        0
    }
}

proof fn lemma_run_len(s: Seq<u8>, i: int, sep: u8)
    requires
        0 <= i <= s.len(),
    ensures
        i + run_len(s, i, sep) <= s.len(),
        forall|k: int| i <= k < i + run_len(s, i, sep) ==> s[k] != sep,
        i + run_len(s, i, sep) < s.len() ==> s[i + run_len(s, i, sep)] == sep,
    decreases s.len() - i,
{
    if i < s.len() && s[i] != sep {
        lemma_run_len(s, i + 1, sep);
    }
}

/// Position of the next `sep` at or after `start`, or `s.len()` if there is none.
pub fn find_byte(s: &[u8], start: usize, sep: u8) -> (r: usize)
    requires
        start <= s@.len(),
    ensures
        r == start + run_len(s@, start as int, sep),
        start <= r <= s@.len(),
{
    proof {
        lemma_run_len(s@, start as int, sep);
    }
    let mut i: usize = start;
    while i < s.len()
        invariant
            start <= i <= s@.len(),
            start + run_len(s@, start as int, sep) == i + run_len(s@, i as int, sep),
        decreases s@.len() - i,
    {
        if s[i] == sep {
            return i;
        }
        i = i + 1;
    }
    i
}

/// Bounds of field `k` of `s` when fields start at `start` and are separated by single spaces,
/// as `split(' ')` counts them.
pub open spec fn field_bounds(s: Seq<u8>, start: int, k: nat) -> Option<(int, int)>
    decreases k,
{
    let e = start + run_len(s, start, SPACE);
    if k == 0 {
        Some((start, e))
    } else if e >= s.len() {
        None
    } else {
        field_bounds(s, e + 1, (k - 1) as nat)
    }
}

/// Field `k` (counting from zero) of a line split on single spaces.
pub open spec fn field(s: Seq<u8>, k: nat) -> Option<Seq<u8>> {
    match field_bounds(s, 0, k) {
        Some((a, b)) => Some(s.subrange(a, b)),
        None => None,
    }
}

proof fn lemma_field_bounds(s: Seq<u8>, start: int, k: nat)
    requires
        0 <= start <= s.len(),
    ensures
        match field_bounds(s, start, k) {
            Some((a, b)) => start <= a <= b <= s.len(),
            None => true,
        },
    decreases k,
{
    lemma_run_len(s, start, SPACE);
    let e = start + run_len(s, start, SPACE);
    if k > 0 && e < s.len() {
        lemma_field_bounds(s, e + 1, (k - 1) as nat);
    }
}

/// The bytes of field `k` of `s` split on single spaces, if the line has that many fields.
pub fn field_at(s: &[u8], k: usize) -> (r: Option<Vec<u8>>)
    ensures
        match r {
            Some(t) => field(s@, k as nat) == Some(t@),
            None => field(s@, k as nat) is None,
        },
{
    let mut start: usize = 0;
    let mut j: usize = 0;
    loop
        invariant
            start <= s@.len(),
            j <= k,
            field_bounds(s@, 0, k as nat) == field_bounds(s@, start as int, (k - j) as nat),
        decreases k - j,
    {
        let e = find_byte(s, start, SPACE);
        if j == k {
            proof {
                lemma_field_bounds(s@, start as int, 0);
            }
            return Some(copy_range(s, start, e));
        }
        if e >= s.len() {
            return None;
        }
        start = e + 1;
        j = j + 1;
    }
}

/// A fresh vector holding `s[a..b]`.
pub fn copy_range(s: &[u8], a: usize, b: usize) -> (r: Vec<u8>)
    requires
        a <= b <= s@.len(),
    ensures
        r@ == s@.subrange(a as int, b as int),
{
    let mut r: Vec<u8> = Vec::new();
    let mut i: usize = a;
    while i < b
        invariant
            a <= i <= b,
            b <= s@.len(),
            r@ == s@.subrange(a as int, i as int),
        decreases b - i,
    {
        r.push(s[i]);
        proof {
            assert(r@ =~= s@.subrange(a as int, i + 1));
        }
        i = i + 1;
    }
    r
}

/// `needle` stands in `hay` starting at position `k`.
pub open spec fn occurs_at(hay: Seq<u8>, needle: Seq<u8>, k: int) -> bool {
    0 <= k && k + needle.len() <= hay.len() && hay.subrange(k, k + needle.len()) == needle
}

pub open spec fn contains(hay: Seq<u8>, needle: Seq<u8>) -> bool {
    exists|k: int| occurs_at(hay, needle, k)
}

fn occurs_at_exec(hay: &[u8], needle: &[u8], k: usize) -> (r: bool)
    requires
        k + needle@.len() <= hay@.len(),
    ensures
        r == occurs_at(hay@, needle@, k as int),
{
    let hay_len: usize = hay.len();
    let mut j: usize = 0;
    while j < needle.len()
        invariant
            j <= needle@.len(),
            hay_len == hay@.len(),
            k + needle@.len() <= hay@.len(),
            forall|m: int| 0 <= m < j ==> hay@[k + m] == needle@[m],
        decreases needle@.len() - j,
    {
        if hay[k + j] != needle[j] {
            proof {
                assert(hay@.subrange(k as int, k + needle@.len())[j as int] != needle@[j as int]);
            }
            return false;
        }
        j = j + 1;
    }
    proof {
        assert(hay@.subrange(k as int, k + needle@.len()) =~= needle@);
    }
    true
}

/// Whether `needle` occurs anywhere in `hay`.
pub fn contains_bytes(hay: &[u8], needle: &[u8]) -> (r: bool)
    ensures
        r == contains(hay@, needle@),
{
    if needle.len() > hay.len() {
        return false;
    }
    let last: usize = hay.len() - needle.len();
    let mut k: usize = 0;
    loop
        invariant
            last + needle@.len() == hay@.len(),
            k <= last,
            forall|m: int| 0 <= m < k ==> !occurs_at(hay@, needle@, m),
        ensures
            forall|m: int| 0 <= m <= last ==> !occurs_at(hay@, needle@, m),
        decreases last - k,
    {
        if occurs_at_exec(hay, needle, k) {
            return true;
        }
        if k == last {
            break;
        }
        k = k + 1;
    }
    proof {
        assert forall|m: int| !occurs_at(hay@, needle@, m) by {
            if 0 <= m && m + needle@.len() <= hay@.len() {
                assert(m <= last);
            }
        }
    }
    false
}

pub open spec fn is_digit(b: u8) -> bool {
    48 <= b <= 57
}

pub open spec fn all_digits(s: Seq<u8>) -> bool {
    forall|i: int| 0 <= i < s.len() ==> is_digit(#[trigger] s[i])
}

/// The number that a string of decimal digits spells.
pub open spec fn digits_value(s: Seq<u8>) -> nat
    decreases s.len(),
{
    if s.len() == 0 {
        0
    } else {
        digits_value(s.drop_last()) * 10 + (s.last() - 48) as nat
    }
}

pub open spec fn pow10(n: nat) -> nat
    decreases n,
{
    if n == 0 {
        1
    } else {
        10 * pow10((n - 1) as nat)
    }
}

/// Length of an optional leading `+` sign.
pub open spec fn sign_len(t: Seq<u8>) -> int {
    if t.len() > 0 && t[0] == PLUS {
        1
    } else {
        0
    }
}

/// The value of an unsigned decimal field: an optional `+` and then at least one digit,
/// with no other byte, and a value that fits in 32 bits.
pub open spec fn unsigned_value(t: Seq<u8>) -> Result<u32, ParseError> {
    let d = t.subrange(sign_len(t), t.len() as int);
    if d.len() == 0 || !all_digits(d) {
        Err(ParseError::InvalidNumber)
    } else if digits_value(d) > u32::MAX {
        Err(ParseError::OutOfRange)
    } else {
        Ok(digits_value(d) as u32)
    }
}

proof fn lemma_prefix_value_le(s: Seq<u8>, j: int)
    requires
        0 <= j <= s.len(),
    ensures
        digits_value(s.subrange(0, j)) <= digits_value(s),
    decreases s.len() - j,
{
    if j == s.len() {
        assert(s.subrange(0, j) =~= s);
    } else {
        lemma_prefix_value_le(s.drop_last(), j);
        assert(s.drop_last().subrange(0, j) =~= s.subrange(0, j));
    }
}

proof fn lemma_value_step(s: Seq<u8>, a: int, j: int)
    requires
        0 <= a <= j < s.len(),
    ensures
        digits_value(s.subrange(a, j + 1)) == digits_value(s.subrange(a, j)) * 10 + (s[j] - 48) as nat,
{
    assert(s.subrange(a, j + 1).drop_last() =~= s.subrange(a, j));
}

/// Reads an unsigned decimal field as `str::parse::<u32>` does.
pub fn parse_unsigned(t: &[u8]) -> (r: Result<u32, ParseError>)
    ensures
        r == unsigned_value(t@),
{
    let a: usize = if t.len() > 0 && t[0] == PLUS { 1 } else { 0 };
    let ghost d = t@.subrange(a as int, t@.len() as int);
    assert(sign_len(t@) == a);
    if a >= t.len() {
        return Err(ParseError::InvalidNumber);
    }
    let mut j: usize = a;
    while j < t.len()
        invariant
            a <= j <= t@.len(),
            a < t@.len(),
            d == t@.subrange(a as int, t@.len() as int),
            sign_len(t@) == a,
            forall|m: int| a <= m < j ==> is_digit(#[trigger] t@[m]),
        decreases t@.len() - j,
    {
        if t[j] < 48 || t[j] > 57 {
            proof {
                assert(d[j - a] == t@[j as int]);
            }
            return Err(ParseError::InvalidNumber);
        }
        j = j + 1;
    }
    proof {
        assert forall|i: int| 0 <= i < d.len() implies is_digit(#[trigger] d[i]) by {
            assert(d[i] == t@[a + i]);
        }
    }
    let mut acc: u64 = 0;
    j = a;
    while j < t.len()
        invariant
            a <= j <= t@.len(),
            d == t@.subrange(a as int, t@.len() as int),
            sign_len(t@) == a,
            all_digits(d),
            acc == digits_value(t@.subrange(a as int, j as int)),
            acc <= u32::MAX,
        decreases t@.len() - j,
    {
        proof {
            assert(d[j - a] == t@[j as int]);
        }
        let digit: u64 = (t[j] - 48) as u64;
        proof {
            lemma_value_step(t@, a as int, j as int);
        }
        if acc * 10 + digit > u32::MAX as u64 {
            proof {
                assert(d.subrange(0, j + 1 - a) =~= t@.subrange(a as int, j + 1));
                lemma_prefix_value_le(d, j + 1 - a);
            }
            return Err(ParseError::OutOfRange);
        }
        acc = acc * 10 + digit;
        j = j + 1;
    }
    proof {
        assert(t@.subrange(a as int, j as int) =~= d);
    }
    Ok(acc as u32)
}

/// The most digits a rate field may hold, so that its digits fit in 64 bits.
pub const MAX_RATE_DIGITS: usize = 18;

/// The digits before and after the decimal point of a rate field (after an optional `+`).
pub open spec fn rate_parts(t: Seq<u8>) -> (Seq<u8>, Seq<u8>) {
    let a = sign_len(t);
    let p = a + run_len(t, a, DOT);
    let whole = t.subrange(a, p);
    let frac = if p < t.len() {
        t.subrange(p + 1, t.len() as int)
    } else {
        Seq::empty()
    };
    (whole, frac)
}

/// A rate written in decimal notation (`4`, `4.0`, `.25`), as the number its digits spell
/// with the point removed, and the count of digits after the point: the rate is the first
/// divided by ten to the power of the second.
pub open spec fn rate_value(t: Seq<u8>) -> Result<(nat, nat), ParseError> {
    let (whole, frac) = rate_parts(t);
    if whole.len() + frac.len() == 0 || !all_digits(whole) || !all_digits(frac) {
        Err(ParseError::InvalidNumber)
    } else if whole.len() + frac.len() > MAX_RATE_DIGITS {
        Err(ParseError::OutOfRange)
    } else if digits_value(whole + frac) == 0 {
        Err(ParseError::ZeroRate)
    } else {
        Ok((digits_value(whole + frac), frac.len()))
    }
}

proof fn lemma_pow10_mono(a: nat, b: nat)
    requires
        a <= b,
    ensures
        1 <= pow10(a) <= pow10(b),
    decreases b,
{
    if b > a {
        lemma_pow10_mono(a, (b - 1) as nat);
    } else if a > 0 {
        lemma_pow10_mono((a - 1) as nat, (a - 1) as nat);
    }
}

proof fn lemma_pow10_max_rate()
    ensures
        pow10(MAX_RATE_DIGITS as nat) == 1_000_000_000_000_000_000,
{
    reveal_with_fuel(pow10, 19);
}

proof fn lemma_value_bound(s: Seq<u8>)
    requires
        all_digits(s),
    ensures
        digits_value(s) < pow10(s.len()),
    decreases s.len(),
{
    if s.len() > 0 {
        assert(is_digit(s[s.len() - 1]));
        lemma_value_bound(s.drop_last());
    }
}

/// Whether every byte of `t[lo..hi]` is a decimal digit.
fn all_digits_in(t: &[u8], lo: usize, hi: usize) -> (r: bool)
    requires
        lo <= hi <= t@.len(),
    ensures
        r == all_digits(t@.subrange(lo as int, hi as int)),
{
    let mut j: usize = lo;
    while j < hi
        invariant
            lo <= j <= hi,
            hi <= t@.len(),
            forall|m: int| lo <= m < j ==> is_digit(#[trigger] t@[m]),
        decreases hi - j,
    {
        if t[j] < 48 || t[j] > 57 {
            proof {
                assert(t@.subrange(lo as int, hi as int)[j - lo] == t@[j as int]);
            }
            return false;
        }
        j = j + 1;
    }
    proof {
        let d = t@.subrange(lo as int, hi as int);
        assert forall|i: int| 0 <= i < d.len() implies is_digit(#[trigger] d[i]) by {
            assert(d[i] == t@[lo + i]);
        }
    }
    true
}

/// Appends the digits `t[lo..hi]` to a number whose digits so far are `pre`.
fn push_digits(t: &[u8], lo: usize, hi: usize, acc: u64, Ghost(pre): Ghost<Seq<u8>>) -> (r: u64)
    requires
        lo <= hi <= t@.len(),
        all_digits(pre),
        all_digits(t@.subrange(lo as int, hi as int)),
        acc == digits_value(pre),
        pre.len() + (hi - lo) <= MAX_RATE_DIGITS,
    ensures
        r == digits_value(pre + t@.subrange(lo as int, hi as int)),
{
    proof {
        lemma_value_bound(pre);
        lemma_pow10_max_rate();
        assert(pre + t@.subrange(lo as int, lo as int) =~= pre);
    }
    let mut acc = acc;
    let mut j: usize = lo;
    while j < hi
        invariant
            lo <= j <= hi,
            hi <= t@.len(),
            all_digits(t@.subrange(lo as int, hi as int)),
            pre.len() + (hi - lo) <= MAX_RATE_DIGITS,
            acc == digits_value(pre + t@.subrange(lo as int, j as int)),
            acc < pow10((pre.len() + (j - lo)) as nat),
            pow10(MAX_RATE_DIGITS as nat) == 1_000_000_000_000_000_000,
        decreases hi - j,
    {
        proof {
            assert(t@.subrange(lo as int, hi as int)[j - lo] == t@[j as int]);
            let n = (pre.len() + (j - lo)) as nat;
            lemma_pow10_mono(n + 1, MAX_RATE_DIGITS as nat);
            assert((pre + t@.subrange(lo as int, j + 1)).drop_last() =~= pre + t@.subrange(lo as int, j as int));
        }
        acc = acc * 10 + (t[j] - 48) as u64;
        j = j + 1;
    }
    acc
}

/// Reads a rate field in decimal notation: the number its digits spell with the point
/// removed, and how many digits follow the point.
pub fn parse_rate(t: &[u8]) -> (r: Result<(u64, usize), ParseError>)
    ensures
        match r {
            Ok((n, e)) => rate_value(t@) == Ok::<(nat, nat), ParseError>((n as nat, e as nat)),
            Err(x) => rate_value(t@) == Err::<(nat, nat), ParseError>(x),
        },
{
    let a: usize = if t.len() > 0 && t[0] == PLUS { 1 } else { 0 };
    assert(sign_len(t@) == a);
    let p = find_byte(t, a, DOT);
    let fs: usize = if p < t.len() { p + 1 } else { p };
    let ghost whole = t@.subrange(a as int, p as int);
    let ghost frac = t@.subrange(fs as int, t@.len() as int);
    assert(rate_parts(t@) == (whole, frac)) by {
        if p >= t@.len() {
            assert(frac =~= Seq::<u8>::empty());
        }
    }
    let digits = (p - a) + (t.len() - fs);
    if digits == 0 || !all_digits_in(t, a, p) || !all_digits_in(t, fs, t.len()) {
        return Err(ParseError::InvalidNumber);
    }
    if digits > MAX_RATE_DIGITS {
        return Err(ParseError::OutOfRange);
    }
    let n0 = push_digits(t, a, p, 0, Ghost(Seq::empty()));
    assert(Seq::<u8>::empty() + whole =~= whole);
    let n = push_digits(t, fs, t.len(), n0, Ghost(whole));
    if n == 0 {
        return Err(ParseError::ZeroRate);
    }
    Ok((n, t.len() - fs))
}

/// `10` to the power `e`.
pub fn pow10_exec(e: usize) -> (r: u64)
    requires
        e <= MAX_RATE_DIGITS,
    ensures
        r == pow10(e as nat),
        r <= 1_000_000_000_000_000_000,
{
    proof {
        lemma_pow10_max_rate();
    }
    let mut r: u64 = 1;
    let mut i: usize = 0;
    while i < e
        invariant
            i <= e <= MAX_RATE_DIGITS,
            r == pow10(i as nat),
            pow10(MAX_RATE_DIGITS as nat) == 1_000_000_000_000_000_000,
        decreases e - i,
    {
        proof {
            lemma_pow10_mono((i + 1) as nat, MAX_RATE_DIGITS as nat);
        }
        r = r * 10;
        i = i + 1;
    }
    proof {
        lemma_pow10_mono(e as nat, MAX_RATE_DIGITS as nat);
    }
    r
}

} // verus!
