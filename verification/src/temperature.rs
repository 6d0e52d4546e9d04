//! Parsing of temperatures written with exactly one fractional digit
//! (`-99.9` ..= `99.9`), giving the value in tenths of a degree.

use vstd::prelude::*;

verus! {

/// The byte `-`.
pub const MINUS: u8 = 45;
/// The byte `.`.
pub const DOT: u8 = 46;
/// The byte `0`.
pub const ZERO: u8 = 48;

/// Numeric value of an ASCII digit byte (not checked to be a digit).
pub open spec fn digit_value(b: u8) -> int {
    b - 48
}

pub open spec fn is_digit(b: u8) -> bool {
    48 <= b <= 57
}

/// Index of the first byte after an optional leading minus sign.
pub open spec fn sign_len(s: Seq<u8>) -> int {
    if s.len() > 0 && s[0] == 45u8 { 1 } else { 0 }
}

/// `s` is a temperature as the measurement files write it:
/// an optional `-`, one or two digits, a `.` and one digit.
pub open spec fn is_temperature(s: Seq<u8>) -> bool {
    let i = sign_len(s);
    ||| s.len() == i + 3 && is_digit(s[i]) && s[i + 1] == 46u8 && is_digit(s[i + 2])
    ||| s.len() == i + 4 && is_digit(s[i]) && is_digit(s[i + 1]) && s[i + 2] == 46u8
        && is_digit(s[i + 3])
}

/// The value, in tenths of a degree, that a well-formed temperature denotes.
pub open spec fn temperature_value(s: Seq<u8>) -> int {
    let i = sign_len(s);
    let magnitude = if s.len() == i + 3 {
        digit_value(s[i]) * 10 + digit_value(s[i + 2])
    } else {
        digit_value(s[i]) * 100 + digit_value(s[i + 1]) * 10 + digit_value(s[i + 3])
    };
    if i == 1 { -magnitude } else { magnitude }
}

/// Digits accumulated by the byte-by-byte reader: `-` and `.` are skipped,
/// every other byte counts as a decimal digit.
pub open spec fn accumulated_digits(s: Seq<u8>) -> int
    decreases s.len(),
{
    if s.len() == 0 {
        0
    } else {
        let b = s.last();
        if b == 45u8 || b == 46u8 {
            accumulated_digits(s.drop_last())
        } else {
            accumulated_digits(s.drop_last()) * 10 + digit_value(b)
        }
    }
}

/// Bytes the byte-by-byte reader takes without an underflow: `-`, `.` or at least `0`.
pub open spec fn readable_bytes(s: Seq<u8>) -> bool {
    forall|i: int| 0 <= i < s.len() ==> s[i] == 45u8 || s[i] == 46u8 || s[i] >= 48u8
}

/// What the byte-by-byte reader returns: the accumulated digits, negated when
/// a `-` occurs anywhere.
pub open spec fn digits_reading(s: Seq<u8>) -> int {
    if s.contains(45u8) { -accumulated_digits(s) } else { accumulated_digits(s) }
}

/// Inputs of the fixed-layout readers: the bytes at the digit positions of
/// `-?D.D` / `-?DD.D` exist and are not below `0`.
pub open spec fn fixed_layout(s: Seq<u8>) -> bool {
    let i = sign_len(s);
    &&& i + 2 < s.len()
    &&& s[i] >= 48u8
    &&& if s[i + 1] != 46u8 { s[i + 1] >= 48u8 && i + 3 < s.len() && s[i + 3] >= 48u8 }
        else { s[i + 2] >= 48u8 }
}

/// What the fixed-layout readers return: a byte after the first digit that is not
/// `.` is taken as a second integer digit, and the byte two places after the last
/// integer digit is the fractional digit.
pub open spec fn fixed_reading(s: Seq<u8>) -> int {
    let i = sign_len(s);
    let magnitude = if s[i + 1] != 46u8 {
        digit_value(s[i]) * 100 + digit_value(s[i + 1]) * 10 + digit_value(s[i + 3])
    } else {
        digit_value(s[i]) * 10 + digit_value(s[i + 2])
    };
    if i == 1 { -magnitude } else { magnitude }
}

pub proof fn lemma_accumulated_nonneg(s: Seq<u8>)
    requires
        readable_bytes(s),
    ensures
        accumulated_digits(s) >= 0,
    decreases s.len(),
{
    if s.len() > 0 {
        lemma_accumulated_nonneg(s.drop_last());
    }
}

pub proof fn lemma_accumulated_monotone(s: Seq<u8>, k: int)
    requires
        readable_bytes(s),
        0 <= k <= s.len(),
    ensures
        accumulated_digits(s.take(k)) <= accumulated_digits(s),
    decreases s.len(),
{
    if k < s.len() {
        assert(s.drop_last().take(k) =~= s.take(k));
        lemma_accumulated_monotone(s.drop_last(), k);
        lemma_accumulated_nonneg(s.drop_last());
    } else {
        assert(s.take(k) =~= s);
    }
}

/// Reads a temperature byte by byte: `-` makes the result negative, `.` is
/// skipped and every other byte is taken as the next decimal digit.
pub fn parse_temperature(t: &[u8]) -> (r: i32)
    requires
        readable_bytes(t@),
        accumulated_digits(t@) <= i32::MAX,
    ensures
        r == digits_reading(t@),
        is_temperature(t@) ==> r == temperature_value(t@),
{
    let mut signed: i32 = 1;
    let mut n: i32 = 0;
    let mut k: usize = 0;
    while k < t.len()
        invariant
            0 <= k <= t.len(),
            readable_bytes(t@),
            accumulated_digits(t@) <= i32::MAX,
            n == accumulated_digits(t@.take(k as int)),
            signed == (if t@.take(k as int).contains(45u8) { -1int } else { 1int }),
        decreases t.len() - k,
    {
        let b = t[k];
        proof {
            assert(t@.take(k + 1).drop_last() =~= t@.take(k as int));
            lemma_accumulated_monotone(t@, k + 1);
            lemma_accumulated_nonneg(t@.take(k as int));
            assert(readable_bytes(t@.take(k as int)));
            if b == 45u8 {
                assert(t@.take(k + 1).contains(45u8)) by {
                    assert(t@.take(k + 1)[k as int] == 45u8);
                }
            } else {
                let s1 = t@.take(k + 1);
                let s0 = t@.take(k as int);
                assert(s1.contains(45u8) == s0.contains(45u8)) by {
                    if s1.contains(45u8) {
                        let j = choose|j: int| 0 <= j < s1.len() && #[trigger] s1[j] == 45u8;
                        assert(s0[j] == 45u8);
                    }
                    if s0.contains(45u8) {
                        let j = choose|j: int| 0 <= j < s0.len() && #[trigger] s0[j] == 45u8;
                        assert(s1[j] == 45u8);
                    }
                }
            }
        }
        if b == MINUS {
            signed = -1;
        } else if b == DOT {
        } else {
            n = n * 10 + (b - ZERO) as i32;
        }
        k = k + 1;
    }
    proof {
        assert(t@.take(t@.len() as int) =~= t@);
        lemma_accumulated_nonneg(t@);
        if is_temperature(t@) {
            let s = t@;
            reveal_with_fuel(accumulated_digits, 6);
            if s.len() > 0 && s[0] == 45u8 {
                assert(s.drop_last().drop_last().drop_last().drop_last()
                    =~= seq![45u8] || s.drop_last().drop_last().drop_last() =~= seq![45u8]);
            }
            assert(s.len() == 3 || s.len() == 4 || s.len() == 5);
        }
    }
    signed * n
}

/// Reads a temperature laid out as `-?D.D` or `-?DD.D` by position: a byte after
/// the first digit that is not `.` is taken as a second integer digit.
pub fn parse_temperature_fixed(t: &[u8]) -> (r: i32)
    requires
        fixed_layout(t@),
    ensures
        r == fixed_reading(t@),
        is_temperature(t@) ==> r == temperature_value(t@),
{
    let mut neg: i32 = 1;
    let mut i: usize = 0;
    if t[i] == MINUS {
        i += 1;
        neg = -1;
    }
    let mut n: i32 = (t[i] - ZERO) as i32;
    i += 1;
    if t[i] != DOT {
        n = n * 10 + (t[i] - ZERO) as i32;
        i += 1;
    }
    i += 1;
    n = n * 10 + (t[i] - ZERO) as i32;
    neg * n
}

/// The same fixed-layout reading as [`parse_temperature_fixed`], computed without
/// branches on the digit count and returned as an `i16`.
pub fn parse_temperature_branchless(t: &[u8]) -> (r: i16)
    requires
        fixed_layout(t@),
        fixed_reading(t@) * 2 >= -32767,
    ensures
        r == fixed_reading(t@),
        is_temperature(t@) ==> r == temperature_value(t@),
{
    let neg: i16 = if t[0] == MINUS { 1 } else { 0 };
    let i: usize = neg as usize;
    let d0: i16 = (t[i] - ZERO) as i16;
    let two_digits: i16 = if t[i + 1] != DOT { 1 } else { 0 };
    let d1: i16 = (t[i + two_digits as usize] - ZERO) as i16;
    let frac: i16 = (t[i + two_digits as usize + 2] - ZERO) as i16;
    assert(0 <= d0 * (1 + 9 * two_digits) + d1 * two_digits <= 2277) by (nonlinear_arith)
        requires
            0 <= d0 <= 207,
            0 <= d1 <= 207,
            two_digits == 0 || two_digits == 1,
    ;
    let int_part: i16 = d0 * (1 + 9 * two_digits) + d1 * two_digits;
    proof {
        assert(two_digits == 1 ==> int_part == d0 * 10 + d1) by (nonlinear_arith)
            requires
                int_part == d0 * (1 + 9 * two_digits) + d1 * two_digits,
        ;
        assert(two_digits == 0 ==> int_part == d0) by (nonlinear_arith)
            requires
                int_part == d0 * (1 + 9 * two_digits) + d1 * two_digits,
        ;
    }
    let val: i16 = int_part * 10 + frac;
    val - (neg * val * 2)
}

/// Whether [`parse_temperature_fixed`] accepts `t`: the fixed layout holds.
pub fn fits_fixed(t: &[u8]) -> (r: bool)
    ensures
        r == fixed_layout(t@),
{
    let len = t.len();
    if len == 0 {
        return false;
    }
    let i: usize = if t[0] == MINUS { 1 } else { 0 };
    if i + 2 >= len || t[i] < ZERO {
        return false;
    }
    if t[i + 1] != DOT {
        t[i + 1] >= ZERO && i + 3 < len && t[i + 3] >= ZERO
    } else {
        t[i + 2] >= ZERO
    }
}

/// Whether [`parse_temperature_branchless`] accepts `t`: the fixed layout holds and
/// the reading fits the computation in `i16`.
pub fn fits_branchless(t: &[u8]) -> (r: bool)
    ensures
        r == (fixed_layout(t@) && fixed_reading(t@) * 2 >= -32767),
{
    let len = t.len();
    if len == 0 {
        return false;
    }
    let i: usize = if t[0] == MINUS { 1 } else { 0 };
    if i + 2 >= len || t[i] < ZERO {
        return false;
    }
    if t[i + 1] != DOT {
        if t[i + 1] < ZERO || i + 3 >= len || t[i + 3] < ZERO {
            return false;
        }
        let magnitude: i32 = (t[i] - ZERO) as i32 * 100 + (t[i + 1] - ZERO) as i32 * 10 + (t[i
            + 3] - ZERO) as i32;
        i == 0 || magnitude * 2 <= 32767
    } else {
        if t[i + 2] < ZERO {
            return false;
        }
        let magnitude: i32 = (t[i] - ZERO) as i32 * 10 + (t[i + 2] - ZERO) as i32;
        i == 0 || magnitude * 2 <= 32767
    }
}

/// Whether [`parse_temperature`] accepts `t`: every byte is `-`, `.` or at least
/// `0`, and the accumulated digits fit in an `i32`.
pub fn fits_digits(t: &[u8]) -> (r: bool)
    ensures
        r == (readable_bytes(t@) && accumulated_digits(t@) <= i32::MAX),
{
    let mut n: i64 = 0;
    let mut k: usize = 0;
    while k < t.len()
        invariant
            0 <= k <= t.len(),
            readable_bytes(t@.take(k as int)),
            n == accumulated_digits(t@.take(k as int)),
            0 <= n <= i32::MAX,
        decreases t.len() - k,
    {
        let b = t[k];
        proof {
            assert(t@.take(k + 1).drop_last() =~= t@.take(k as int));
        }
        if b == MINUS || b == DOT {
        } else if b < ZERO {
            proof {
                assert(!readable_bytes(t@)) by {
                    assert(t@[k as int] == b);
                }
            }
            return false;
        } else {
            n = n * 10 + (b - ZERO) as i64;
            if n > i32::MAX as i64 {
                proof {
                    if readable_bytes(t@) {
                        lemma_accumulated_monotone(t@, k + 1);
                    }
                }
                return false;
            }
        }
        proof {
            assert forall|i: int| 0 <= i < k + 1 implies #[trigger] t@.take(k + 1)[i] == 45u8
                || t@.take(k + 1)[i] == 46u8 || t@.take(k + 1)[i] >= 48u8 by {
                if i < k {
                    assert(t@.take(k + 1)[i] == t@.take(k as int)[i]);
                }
            }
        }
        k = k + 1;
    }
    assert(t@.take(k as int) =~= t@);
    true
}

/// A well-formed temperature lies in `-999 ..= 999` tenths, every reader accepts it,
/// and all readers give the value it denotes.
pub proof fn lemma_readers_agree(s: Seq<u8>)
    requires
        is_temperature(s),
    ensures
        -999 <= temperature_value(s) <= 999,
        readable_bytes(s),
        accumulated_digits(s) <= i32::MAX,
        digits_reading(s) == temperature_value(s),
        fixed_layout(s),
        fixed_reading(s) == temperature_value(s),
        fixed_reading(s) * 2 >= -32767,
{
    reveal_with_fuel(accumulated_digits, 6);
    let i = sign_len(s);
    if i == 1 {
        assert(s.contains(45u8)) by { assert(s[0] == 45u8); }
    } else {
        assert(!s.contains(45u8)) by {
            assert forall|j: int| 0 <= j < s.len() implies s[j] != 45u8 by {
                if j >= 1 { assert(s[j] == 46u8 || is_digit(s[j])); }
            }
        }
    }
    if i == 1 {
        assert(s.drop_last().drop_last().drop_last().drop_last() =~= seq![45u8]
            || s.drop_last().drop_last().drop_last() =~= seq![45u8]);
    }
}

} // verus!
