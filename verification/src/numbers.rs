//! Decimal and hexadecimal numerals, and code points.

use vstd::prelude::*;

verus! {

/// The value of a digit in the given radix, as `char::to_digit` reads it.
pub open spec fn digit_value(c: char, radix: u32) -> Option<nat> {
    let u = c as u32;
    let v: int = if 0x30 <= u <= 0x39 {
        u - 0x30
    } else if 0x61 <= u <= 0x7A {
        u - 0x61 + 10
    } else if 0x41 <= u <= 0x5A {
        u - 0x41 + 10
    } else {
        99
    };
    if v < radix {
        Some(v as nat)
    } else {
        None
    }
}

/// The value of a non-empty run of digits, if every character is a digit.
pub open spec fn digits_value(s: Seq<char>, radix: u32) -> Option<nat>
    decreases s.len(),
{
    if s.len() == 0 {
        Some(0)
    } else {
        match (digits_value(s.drop_last(), radix), digit_value(s.last(), radix)) {
            (Some(v), Some(d)) => Some(v * (radix as nat) + d),
            _ => None,
        }
    }
}

/// What `u32::from_str_radix` accepts: an optional `+` and at least one
/// digit, with a value that fits in 32 bits.
pub open spec fn parse_u32_spec(s: Seq<char>, radix: u32) -> Option<u32> {
    let d = if s.len() > 0 && s[0] == '+' { s.skip(1) } else { s };
    if d.len() == 0 {
        None
    } else {
        match digits_value(d, radix) {
            Some(v) => if v <= u32::MAX { Some(v as u32) } else { None },
            None => None,
        }
    }
}

/// Appending digits never lowers the value.
proof fn lemma_digits_grow(s: Seq<char>, k: int, radix: u32)
    requires
        0 <= k <= s.len(),
        2 <= radix,
        digits_value(s, radix) is Some,
    ensures
        digits_value(s.take(k), radix) is Some,
        digits_value(s.take(k), radix)->0 <= digits_value(s, radix)->0,
    decreases s.len() - k,
{
    if k < s.len() {
        assert(s.drop_last().take(k) == s.take(k));
        lemma_digits_grow(s.drop_last(), k, radix);
        let a = digits_value(s.drop_last(), radix)->0;
        let d = digit_value(s.last(), radix)->0;
        assert(a <= a * radix + d) by (nonlinear_arith)
            requires radix >= 2;
    } else {
        assert(s.take(k) == s);
    }
}

/// The value of a digit character.
fn digit_of(c: char, radix: u32) -> (r: Option<u32>)
    requires
        radix <= 36,
    ensures
        r matches Some(v) ==> digit_value(c, radix) == Some(v as nat),
        r is None ==> digit_value(c, radix) is None,
{
    let u = c as u32;
    let v: u32 = if 0x30 <= u && u <= 0x39 {
        u - 0x30
    } else if 0x61 <= u && u <= 0x7A {
        u - 0x61 + 10
    } else if 0x41 <= u && u <= 0x5A {
        u - 0x41 + 10
    } else {
        99
    };
    if v < radix {
        Some(v)
    } else {
        None
    }
}

/// Reads a numeral as `u32::from_str_radix` does.
pub fn parse_u32(s: &[char], radix: u32) -> (r: Option<u32>)
    requires
        2 <= radix <= 36,
    ensures
        r == parse_u32_spec(s@, radix),
{
    let mut start: usize = 0;
    if s.len() > 0 && s[0] == '+' {
        start = 1;
    }
    let ghost d = if s@.len() > 0 && s@[0] == '+' { s@.skip(1) } else { s@ };
    assert(d == s@.skip(start as int));
    if start >= s.len() {
        return None;
    }
    let mut acc: u64 = 0;
    let mut i: usize = start;
    while i < s.len()
        invariant
            start <= i <= s@.len(),
            start < s@.len(),
            d == s@.skip(start as int),
            d == (if s@.len() > 0 && s@[0] == '+' { s@.skip(1) } else { s@ }),
            2 <= radix <= 36,
            digits_value(d.take(i - start), radix) == Some(acc as nat),
            acc <= u32::MAX,
        decreases s@.len() - i,
    {
        let ghost pre = d.take(i - start);
        assert(d.take(i - start + 1).drop_last() == pre);
        assert(d.take(i - start + 1).last() == s@[i as int]);
        match digit_of(s[i], radix) {
            None => {
                proof {
                    if digits_value(d, radix) is Some {
                        lemma_digits_grow(d, i - start + 1, radix);
                    }
                }
                return None;
            },
            Some(v) => {
                assert(acc * (radix as u64) <= 0xFFFF_FFFF * 36) by (nonlinear_arith)
                    requires acc <= 0xFFFF_FFFF, radix <= 36;
                let next = acc * (radix as u64) + (v as u64);
                if next > 0xFFFF_FFFFu64 {
                    proof {
                        if digits_value(d, radix) is Some {
                            lemma_digits_grow(d, i - start + 1, radix);
                        }
                    }
                    return None;
                }
                acc = next;
            },
        }
        i = i + 1;
    }
    assert(d.take(s@.len() - start) == d);
    Some(acc as u32)
}

/// The value of a non-empty run of decimal digits, when it is at most `limit`.
pub open spec fn bounded_decimal(d: Seq<char>, limit: nat) -> Option<nat> {
    if d.len() == 0 {
        None
    } else {
        match digits_value(d, 10) {
            Some(v) => if v <= limit { Some(v) } else { None },
            None => None,
        }
    }
}

/// What `str::parse::<usize>` accepts: an optional `+` and at least one
/// decimal digit, with a value that fits.
pub open spec fn parse_usize_spec(s: Seq<char>) -> Option<usize> {
    let d = if s.len() > 0 && s[0] == '+' { s.skip(1) } else { s };
    match bounded_decimal(d, usize::MAX as nat) {
        Some(v) => Some(v as usize),
        None => None,
    }
}

/// What `str::parse::<i64>` accepts: an optional sign and at least one
/// decimal digit, with a value in range.
pub open spec fn parse_i64_spec(s: Seq<char>) -> Option<i64> {
    if s.len() > 0 && s[0] == '-' {
        match bounded_decimal(s.skip(1), 0x8000_0000_0000_0000) {
            Some(v) => Some((-(v as int)) as i64),
            None => None,
        }
    } else {
        let d = if s.len() > 0 && s[0] == '+' { s.skip(1) } else { s };
        match bounded_decimal(d, 0x7FFF_FFFF_FFFF_FFFF) {
            Some(v) => Some(v as i64),
            None => None,
        }
    }
}

/// The value of the decimal digits `s[start..]` when it is at most `limit`.
fn decimal_upto(s: &[char], start: usize, limit: u64) -> (r: Option<u64>)
    requires
        start <= s@.len(),
    ensures
        match bounded_decimal(s@.skip(start as int), limit as nat) {
            Some(v) => r == Some(v as u64),
            None => r is None,
        },
{
    let ghost d = s@.skip(start as int);
    if start >= s.len() {
        return None;
    }
    let mut acc: u128 = 0;
    let mut i: usize = start;
    while i < s.len()
        invariant
            start <= i <= s@.len(),
            start < s@.len(),
            d == s@.skip(start as int),
            digits_value(d.take(i - start), 10) == Some(acc as nat),
            acc <= limit,
        decreases s@.len() - i,
    {
        let ghost pre = d.take(i - start);
        assert(d.take(i - start + 1).drop_last() == pre);
        assert(d.take(i - start + 1).last() == s@[i as int]);
        match digit_of(s[i], 10) {
            None => {
                proof {
                    if digits_value(d, 10) is Some {
                        lemma_digits_grow(d, i - start + 1, 10);
                    }
                }
                return None;
            },
            Some(v) => {
                assert(acc * 10 <= 0xFFFF_FFFF_FFFF_FFFFu128 * 10) by (nonlinear_arith)
                    requires acc <= 0xFFFF_FFFF_FFFF_FFFFu128;
                let next = acc * 10 + (v as u128);
                if next > limit as u128 {
                    proof {
                        if digits_value(d, 10) is Some {
                            lemma_digits_grow(d, i - start + 1, 10);
                        }
                    }
                    return None;
                }
                acc = next;
            },
        }
        i = i + 1;
    }
    assert(d.take(s@.len() - start) == d);
    Some(acc as u64)
}

/// Reads a decimal numeral as `str::parse::<usize>` does.
pub fn parse_usize(s: &[char]) -> (r: Option<usize>)
    ensures
        r == parse_usize_spec(s@),
{
    let start: usize = if s.len() > 0 && s[0] == '+' { 1 } else { 0 };
    assert(s@.skip(0) == s@);
    match decimal_upto(s, start, usize::MAX as u64) {
        Some(v) => Some(v as usize),
        None => None,
    }
}

/// Reads a decimal numeral as `str::parse::<i64>` does.
pub fn parse_i64(s: &[char]) -> (r: Option<i64>)
    ensures
        r == parse_i64_spec(s@),
{
    assert(s@.skip(0) == s@);
    if s.len() > 0 && s[0] == '-' {
        match decimal_upto(s, 1, 0x8000_0000_0000_0000u64) {
            Some(v) => {
                if v == 0x8000_0000_0000_0000u64 {
                    Some(i64::MIN)
                } else {
                    Some(-(v as i64))
                }
            },
            None => None,
        }
    } else {
        let start: usize = if s.len() > 0 && s[0] == '+' { 1 } else { 0 };
        match decimal_upto(s, start, 0x7FFF_FFFF_FFFF_FFFFu64) {
            Some(v) => Some(v as i64),
            None => None,
        }
    }
}

/// Whether a number is a Unicode scalar value.
pub open spec fn is_scalar(u: u32) -> bool {
    u <= 0x10FFFF && !(0xD800 <= u <= 0xDFFF)
}

/// The code of every character is a scalar value.
pub proof fn lemma_char_scalar(c: char)
    ensures
        is_scalar(c as u32),
{
    let u = c as u32;
    assert(u as int == c as int);
}

/// Calls `char::from_u32`: `Some` exactly for scalar values, holding the
/// character with that code.
#[verifier::external_body]
pub(crate) fn char_from_u32(u: u32) -> (r: Option<char>)
    ensures
        r is Some <==> is_scalar(u),
        r matches Some(c) ==> c as u32 == u && c == u as char,
{
    char::from_u32(u)
}

/// The number of bytes of the UTF-8 encoding of a character.
pub open spec fn utf8_width(c: char) -> nat {
    let u = c as u32;
    if u < 0x80 {
        1
    } else if u < 0x800 {
        2
    } else if u < 0x10000 {
        3
    } else {
        4
    }
}

/// The number of bytes of the UTF-8 encoding of a character.
pub fn char_width(c: char) -> (r: usize)
    ensures
        r == utf8_width(c),
        1 <= r <= 4,
{
    let u = c as u32;
    if u < 0x80 {
        1
    } else if u < 0x800 {
        2
    } else if u < 0x10000 {
        3
    } else {
        4
    }
}

} // verus!
