//! Reading numbers from text.
//!
//! A decimal is an optional sign, digits, and optionally a point and more
//! digits, with at least one digit in all. It is read exactly, as a whole
//! number of millionths; digits after the sixth place are dropped. The part
//! before the point must be below one billion.

use vstd::prelude::*;
use crate::text::{find_char, index_of_char};

verus! {

/// The bound on the part of a decimal before the point.
pub const WHOLE_LIMIT: u64 = 1_000_000_000;

/// A decimal digit.
pub open spec fn is_digit(c: char) -> bool {
    '0' <= c <= '9'
}

/// The number that a digit stands for.
pub open spec fn digit_value(c: char) -> int {
    c as int - 48
}

/// Every character of `s` is a digit.
pub open spec fn all_digits(s: Seq<char>) -> bool {
    forall|i: int| 0 <= i < s.len() ==> is_digit(#[trigger] s[i])
}

/// The number that the digits of `s` write in base ten (0 for no digits).
pub open spec fn digits_value(s: Seq<char>) -> int
    decreases s.len(),
{
    if s.len() == 0 {
        0
    } else {
        digits_value(s.drop_last()) * 10 + digit_value(s.last())
    }
}

/// The number written by the first `k` places of `f`, a missing place
/// counting as the digit 0.
pub open spec fn places_value(f: Seq<char>, k: nat) -> int
    decreases k,
{
    if k == 0 {
        0
    } else {
        let digit = if k - 1 < f.len() {
            digit_value(f[k - 1])
        } else {
            0
        };
        places_value(f, (k - 1) as nat) * 10 + digit
    }
}

/// The millionths that the digits `f` after a point stand for: its first six
/// places.
pub open spec fn fraction_value(f: Seq<char>) -> int {
    places_value(f, 6)
}

/// The number that `s` writes as an unsigned integer of 32 bits: digits after an
/// optional `+`, with a value that fits.
pub open spec fn parse_unsigned(s: Seq<char>) -> Option<int> {
    let start: int = if s.len() > 0 && s[0] == '+' {
        1
    } else {
        0
    };
    let body = s.subrange(start, s.len() as int);
    if body.len() > 0 && all_digits(body) && digits_value(body) <= u32::MAX {
        Some(digits_value(body))
    } else {
        None
    }
}

/// The number that `s` writes as a decimal, in millionths; `None` where `s` is
/// no decimal or its part before the point reaches one billion.
pub open spec fn parse_decimal(s: Seq<char>) -> Option<int> {
    let start: int = if s.len() > 0 && (s[0] == '-' || s[0] == '+') {
        1
    } else {
        0
    };
    let dot = find_char(s, '.', start);
    let whole = s.subrange(start, dot);
    let frac = if dot < s.len() {
        s.subrange(dot + 1, s.len() as int)
    } else {
        Seq::<char>::empty()
    };
    if whole.len() + frac.len() > 0 && all_digits(whole) && all_digits(frac) && digits_value(whole)
        < 1_000_000_000 {
        let magnitude = digits_value(whole) * 1_000_000 + fraction_value(frac);
        Some(
            if s[0] == '-' {
                -magnitude
            } else {
                magnitude
            },
        )
    } else {
        None
    }
}

/// Digits write a number that is not negative, and no smaller than what any of
/// their prefixes writes.
pub proof fn lemma_digits_prefix(s: Seq<char>, k: int)
    requires
        all_digits(s),
        0 <= k <= s.len(),
    ensures
        0 <= digits_value(s.subrange(0, k)) <= digits_value(s),
    decreases s.len(),
{
    if k == s.len() {
        assert(s.subrange(0, k) =~= s);
        if s.len() > 0 {
            assert(is_digit(s.last()));
            lemma_digits_prefix(s.drop_last(), k - 1);
            assert(s.drop_last().subrange(0, k - 1) =~= s.drop_last());
        }
    } else {
        assert(is_digit(s.last()));
        lemma_digits_prefix(s.drop_last(), k);
        assert(s.drop_last().subrange(0, k) =~= s.subrange(0, k));
    }
}

/// Six places of digits stay below one million.
pub proof fn lemma_places_bound(f: Seq<char>, k: nat)
    requires
        all_digits(f),
    ensures
        0 <= places_value(f, k),
        k == 0 ==> places_value(f, k) < 1,
        k == 1 ==> places_value(f, k) < 10,
        k == 2 ==> places_value(f, k) < 100,
        k == 3 ==> places_value(f, k) < 1_000,
        k == 4 ==> places_value(f, k) < 10_000,
        k == 5 ==> places_value(f, k) < 100_000,
        k == 6 ==> places_value(f, k) < 1_000_000,
    decreases k,
{
    if k > 0 {
        lemma_places_bound(f, (k - 1) as nat);
        if k - 1 < f.len() {
            assert(is_digit(f[k - 1]));
        }
    }
}

/// What a decimal can be: a magnitude below one billion, in millionths.
pub proof fn lemma_decimal_range(s: Seq<char>)
    ensures
        parse_decimal(s) matches Some(v) ==> -1_000_000_000_000_000 < v < 1_000_000_000_000_000,
{
    if parse_decimal(s) is Some {
        let start: int = if s.len() > 0 && (s[0] == '-' || s[0] == '+') {
            1
        } else {
            0
        };
        let dot = find_char(s, '.', start);
        let whole = s.subrange(start, dot);
        let frac = if dot < s.len() {
            s.subrange(dot + 1, s.len() as int)
        } else {
            Seq::<char>::empty()
        };
        lemma_places_bound(frac, 6);
        assert(whole.subrange(0, 0) =~= Seq::<char>::empty());
        lemma_digits_prefix(whole, 0);
    }
}

/// Whether `c` is a decimal digit.
pub fn is_digit_char(c: char) -> (b: bool)
    ensures
        b == is_digit(c),
{
    '0' <= c && c <= '9'
}

/// The number that the digits between `lo` and `hi` write, where they are all
/// digits and the number is below `limit`.
pub fn read_digits(s: &[char], lo: usize, hi: usize, limit: u64) -> (value: Option<u64>)
    requires
        lo <= hi <= s@.len(),
        limit <= 1_000_000_000_000_000_000,
    ensures
        match value {
            Some(v) => {
                &&& all_digits(s@.subrange(lo as int, hi as int))
                &&& v == digits_value(s@.subrange(lo as int, hi as int))
                &&& v < limit
            },
            None => !(all_digits(s@.subrange(lo as int, hi as int)) && digits_value(
                s@.subrange(lo as int, hi as int),
            ) < limit),
        },
{
    let ghost part = s@.subrange(lo as int, hi as int);
    let mut value: u64 = 0;
    let mut i: usize = lo;
    while i < hi
        invariant
            lo <= i <= hi <= s@.len(),
            part == s@.subrange(lo as int, hi as int),
            limit <= 1_000_000_000_000_000_000,
            all_digits(part.subrange(0, i - lo)),
            value == digits_value(part.subrange(0, i - lo)),
            value < limit || value == 0,
        decreases hi - i,
    {
        let c = s[i];
        if !is_digit_char(c) {
            assert(!is_digit(part[i - lo]));
            return None;
        }
        let ghost before = part.subrange(0, i - lo);
        let ghost now = part.subrange(0, i - lo + 1);
        proof {
            assert(now.drop_last() =~= before);
            assert(now.last() == c);
            assert forall|k: int| 0 <= k < now.len() implies is_digit(#[trigger] now[k]) by {
                if k < before.len() {
                    assert(now[k] == before[k]);
                }
            }
        }
        value = value * 10 + (c as u64 - 48);
        i += 1;
        if value >= limit {
            proof {
                if all_digits(part) {
                    lemma_digits_prefix(part, i - lo);
                }
            }
            return None;
        }
    }
    proof {
        assert(part.subrange(0, hi - lo) =~= part);
    }
    if value >= limit {
        None
    } else {
        Some(value)
    }
}

/// Reads `s` as an unsigned integer of 32 bits.
pub fn read_unsigned(s: &[char]) -> (value: Option<u32>)
    ensures
        match value {
            Some(v) => parse_unsigned(s@) == Some(v as int),
            None => parse_unsigned(s@) is None,
        },
{
    let start: usize = if s.len() > 0 && s[0] == '+' {
        1
    } else {
        0
    };
    if start == s.len() {
        return None;
    }
    match read_digits(s, start, s.len(), 0x1_0000_0000) {
        Some(v) => Some(v as u32),
        None => None,
    }
}

/// Reads `s` as a decimal, in millionths.
pub fn read_decimal(s: &[char]) -> (value: Option<i64>)
    ensures
        match value {
            Some(v) => parse_decimal(s@) == Some(v as int),
            None => parse_decimal(s@) is None,
        },
{
    let start: usize = if s.len() > 0 && (s[0] == '-' || s[0] == '+') {
        1
    } else {
        0
    };
    let dot = index_of_char(s, '.', start);
    let frac_start: usize = if dot < s.len() {
        dot + 1
    } else {
        dot
    };
    let ghost whole = s@.subrange(start as int, dot as int);
    let ghost frac = if dot < s@.len() {
        s@.subrange(dot + 1, s@.len() as int)
    } else {
        Seq::<char>::empty()
    };
    assert(frac =~= s@.subrange(frac_start as int, s@.len() as int));
    if dot - start + (s.len() - frac_start) == 0 {
        return None;
    }
    let units = match read_digits(s, start, dot, WHOLE_LIMIT) {
        Some(v) => v,
        None => {
            return None;
        },
    };
    let mut k: usize = frac_start;
    while k < s.len()
        invariant
            frac_start <= k <= s@.len(),
            frac == s@.subrange(frac_start as int, s@.len() as int),
            !all_digits(frac) ==> parse_decimal(s@) is None,
            forall|m: int| 0 <= m < k - frac_start ==> is_digit(#[trigger] frac[m]),
        decreases s.len() - k,
    {
        if !is_digit_char(s[k]) {
            assert(!is_digit(frac[k - frac_start]));
            return None;
        }
        k += 1;
    }
    assert(all_digits(frac));
    let mut micros: u64 = 0;
    let mut place: usize = 0;
    while place < 6
        invariant
            place <= 6,
            frac_start <= s@.len() <= usize::MAX,
            frac == s@.subrange(frac_start as int, s@.len() as int),
            all_digits(frac),
            micros == places_value(frac, place as nat),
            micros < 1_000_000,
        decreases 6 - place,
    {
        let digit: u64 = if place < s.len() - frac_start {
            assert(is_digit(frac[place as int]));
            s[frac_start + place] as u64 - 48
        } else {
            0
        };
        proof {
            lemma_places_bound(frac, place as nat);
            lemma_places_bound(frac, (place + 1) as nat);
        }
        micros = micros * 10 + digit;
        place += 1;
    }
    let magnitude: i64 = (units * 1_000_000 + micros) as i64;
    if s[0] == '-' {
        Some(-magnitude)
    } else {
        Some(magnitude)
    }
}

/// The digit that writes `d`.
pub open spec fn digit_char(d: int) -> char {
    if d == 0 {
        '0'
    } else if d == 1 {
        '1'
    } else if d == 2 {
        '2'
    } else if d == 3 {
        '3'
    } else if d == 4 {
        '4'
    } else if d == 5 {
        '5'
    } else if d == 6 {
        '6'
    } else if d == 7 {
        '7'
    } else if d == 8 {
        '8'
    } else {
        '9'
    }
}

/// `n` in base ten, without leading zeros.
pub open spec fn natural_text(n: nat) -> Seq<char>
    decreases n,
{
    if n < 10 {
        seq![digit_char(n as int)]
    } else {
        natural_text(n / 10).push(digit_char((n % 10) as int))
    }
}

/// `v` in base ten, with a minus sign where it is negative.
pub open spec fn integer_text(v: int) -> Seq<char> {
    if v < 0 {
        seq!['-'] + natural_text((-v) as nat)
    } else {
        natural_text(v as nat)
    }
}

/// The last `k` digits of `f`, in base ten.
pub open spec fn places_text(f: nat, k: nat) -> Seq<char>
    decreases k,
{
    if k == 0 {
        seq![]
    } else {
        places_text(f / 10, (k - 1) as nat).push(digit_char((f % 10) as int))
    }
}

/// The last `k` digits of `f` without the zeros at their end.
pub open spec fn fraction_text(f: nat, k: nat) -> Seq<char>
    decreases k,
{
    if k == 0 {
        seq![]
    } else if f % 10 == 0 {
        fraction_text(f / 10, (k - 1) as nat)
    } else {
        places_text(f, k)
    }
}

/// A number of millionths as a decimal: the whole part, and behind a point
/// the places that are not zero; no point where the number is whole.
pub open spec fn fixed_text(v: int) -> Seq<char> {
    let m: nat = if v < 0 {
        (-v) as nat
    } else {
        v as nat
    };
    let sign: Seq<char> = if v < 0 {
        seq!['-']
    } else {
        seq![]
    };
    let tail: Seq<char> = if m % 1_000_000 == 0 {
        seq![]
    } else {
        seq!['.'] + fraction_text(m % 1_000_000, 6)
    };
    sign + natural_text(m / 1_000_000) + tail
}

/// The digit that writes `d`.
pub fn digit_to_char(d: u64) -> (c: char)
    requires
        d < 10,
    ensures
        c == digit_char(d as int),
{
    if d == 0 {
        '0'
    } else if d == 1 {
        '1'
    } else if d == 2 {
        '2'
    } else if d == 3 {
        '3'
    } else if d == 4 {
        '4'
    } else if d == 5 {
        '5'
    } else if d == 6 {
        '6'
    } else if d == 7 {
        '7'
    } else if d == 8 {
        '8'
    } else {
        '9'
    }
}

/// Writes `n` in base ten at the end of `out`.
pub fn push_natural(out: &mut String, n: u64)
    ensures
        final(out)@ == old(out)@ + natural_text(n as nat),
    decreases n,
{
    if n < 10 {
        out.push(digit_to_char(n));
        assert(out@ =~= old(out)@ + natural_text(n as nat));
    } else {
        push_natural(out, n / 10);
        out.push(digit_to_char(n % 10));
        assert(out@ =~= old(out)@ + natural_text(n as nat));
    }
}

/// Writes `v` in base ten at the end of `out`.
pub fn push_integer(out: &mut String, v: i64)
    ensures
        final(out)@ == old(out)@ + integer_text(v as int),
{
    if v < 0 {
        out.push('-');
        let m: u64 = (-(v as i128)) as u64;
        push_natural(out, m);
        assert(out@ =~= old(out)@ + integer_text(v as int));
    } else {
        push_natural(out, v as u64);
    }
}

/// Writes the last `k` digits of `f` at the end of `out`.
pub fn push_places(out: &mut String, f: u64, k: u8)
    ensures
        final(out)@ == old(out)@ + places_text(f as nat, k as nat),
    decreases k,
{
    if k == 0 {
        assert(out@ =~= old(out)@ + places_text(f as nat, k as nat));
    } else {
        push_places(out, f / 10, k - 1);
        out.push(digit_to_char(f % 10));
        assert(out@ =~= old(out)@ + places_text(f as nat, k as nat));
    }
}

/// Writes a number of millionths as a decimal at the end of `out`.
pub fn push_fixed(out: &mut String, v: i64)
    ensures
        final(out)@ == old(out)@ + fixed_text(v as int),
{
    let m: u64 = if v < 0 {
        (-(v as i128)) as u64
    } else {
        v as u64
    };
    if v < 0 {
        out.push('-');
    }
    let ghost signed = out@;
    push_natural(out, m / 1_000_000);
    let ghost whole = out@;
    let rest: u64 = m % 1_000_000;
    if rest != 0 {
        out.push('.');
        let mut f: u64 = rest;
        let mut k: u8 = 6;
        while k > 0 && f % 10 == 0
            invariant
                k <= 6,
                fraction_text(f as nat, k as nat) == fraction_text(rest as nat, 6),
            decreases k,
        {
            f = f / 10;
            k = k - 1;
        }
        push_places(out, f, k);
        assert(out@ =~= whole + (seq!['.'] + fraction_text(rest as nat, 6)));
    } else {
        assert(out@ =~= whole + Seq::<char>::empty());
    }
    assert(out@ =~= old(out)@ + fixed_text(v as int));
}

} // verus!
