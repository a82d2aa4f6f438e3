//! Decimal integers as ASCII bytes: what a field of a record holds.
//!
//! A signed field is an optional `+` or `-` followed by one or more digits; an
//! unsigned field is an optional `+` followed by one or more digits. Leading
//! zeros are allowed. A field whose value does not fit the target type is not
//! a number of that type.

use vstd::prelude::*;

verus! {

pub const DIGIT_ZERO: u8 = 48;

pub const PLUS_SIGN: u8 = 43;

pub const MINUS_SIGN: u8 = 45;

pub open spec fn is_digit(b: u8) -> bool {
    DIGIT_ZERO <= b <= DIGIT_ZERO + 9
}

pub open spec fn digit_value(b: u8) -> nat {
    if is_digit(b) {
        (b - DIGIT_ZERO) as nat
    } else {
        0
    }
}

pub open spec fn all_digits(s: Seq<u8>) -> bool {
    forall|i: int| 0 <= i < s.len() ==> is_digit(#[trigger] s[i])
}

/// The number that a run of digits denotes, most significant digit first.
pub open spec fn decimal_value(s: Seq<u8>) -> nat
    decreases s.len(),
{
    if s.len() == 0 {
        0
    } else {
        decimal_value(s.drop_last()) * 10 + digit_value(s.last())
    }
}

/// The value of a non-empty run of digits; `None` for anything else.
pub open spec fn parse_magnitude(s: Seq<u8>) -> Option<nat> {
    if s.len() > 0 && all_digits(s) {
        Some(decimal_value(s))
    } else {
        None
    }
}

/// The integer that a signed field denotes, whatever its size.
pub open spec fn parse_signed(s: Seq<u8>) -> Option<int> {
    if s.len() > 0 && s[0] == MINUS_SIGN {
        match parse_magnitude(s.skip(1)) {
            Some(m) => Some(-(m as int)),
            None => None,
        }
    } else if s.len() > 0 && s[0] == PLUS_SIGN {
        match parse_magnitude(s.skip(1)) {
            Some(m) => Some(m as int),
            None => None,
        }
    } else {
        match parse_magnitude(s) {
            Some(m) => Some(m as int),
            None => None,
        }
    }
}

/// The `i32` that a field denotes, if it denotes one.
pub open spec fn parse_i32(s: Seq<u8>) -> Option<i32> {
    match parse_signed(s) {
        Some(v) => if i32::MIN <= v <= i32::MAX {
            Some(v as i32)
        } else {
            None
        },
        None => None,
    }
}

/// The `u32` that a field denotes, if it denotes one. A leading `-` is never
/// accepted, not even before zero.
pub open spec fn parse_u32(s: Seq<u8>) -> Option<u32> {
    if s.len() > 0 && s[0] == MINUS_SIGN {
        None
    } else {
        match parse_signed(s) {
            Some(v) => if v <= u32::MAX {
                Some(v as u32)
            } else {
                None
            },
            None => None,
        }
    }
}

/// Reading more digits never makes the value smaller.
pub proof fn lemma_decimal_value_prefix(s: Seq<u8>, n: int)
    requires
        0 <= n <= s.len(),
    ensures
        decimal_value(s.subrange(0, n)) <= decimal_value(s),
    decreases s.len(),
{
    if n == s.len() {
        assert(s.subrange(0, n) =~= s);
    } else {
        assert(s.drop_last().subrange(0, n) =~= s.subrange(0, n));
        lemma_decimal_value_prefix(s.drop_last(), n);
    }
}

/// Reads `bytes[start..end]` as a run of digits whose value is at most `limit`.
fn parse_digits(bytes: &[u8], start: usize, end: usize, limit: u64) -> (r: Option<u64>)
    requires
        start <= end <= bytes@.len(),
        limit <= 0xffff_ffff_ffff,
    ensures
        r == match parse_magnitude(bytes@.subrange(start as int, end as int)) {
            Some(m) => if m <= limit {
                Some(m as u64)
            } else {
                None
            },
            None => None,
        },
{
    let ghost s = bytes@.subrange(start as int, end as int);
    if start == end {
        return None;
    }
    let mut acc: u64 = 0;
    let mut i: usize = start;
    while i < end
        invariant
            start <= i <= end <= bytes@.len(),
            s == bytes@.subrange(start as int, end as int),
            all_digits(s.subrange(0, i - start)),
            acc == decimal_value(s.subrange(0, i - start)),
            acc <= limit <= 0xffff_ffff_ffff,
        decreases end - i,
    {
        let b: u8 = bytes[i];
        let ghost before = s.subrange(0, i - start);
        let ghost after = s.subrange(0, i + 1 - start);
        assert(s[i - start] == b);
        assert(after.drop_last() =~= before);
        if b < DIGIT_ZERO || b > DIGIT_ZERO + 9 {
            return None;
        }
        acc = acc * 10 + (b - DIGIT_ZERO) as u64;
        assert forall|j: int| 0 <= j < after.len() implies is_digit(#[trigger] after[j]) by {
            if j < before.len() {
                assert(after[j] == before[j]);
            }
        }
        if acc > limit {
            proof {
                lemma_decimal_value_prefix(s, i + 1 - start);
            }
            return None;
        }
        i = i + 1;
    }
    assert(s.subrange(0, i - start) =~= s);
    Some(acc)
}

/// Reads `bytes[start..end]` as a signed field.
pub fn parse_i32_field(bytes: &[u8], start: usize, end: usize) -> (r: Option<i32>)
    requires
        start <= end <= bytes@.len(),
    ensures
        r == parse_i32(bytes@.subrange(start as int, end as int)),
{
    let ghost s = bytes@.subrange(start as int, end as int);
    if start < end && bytes[start] == MINUS_SIGN {
        assert(s.skip(1) =~= bytes@.subrange(start + 1, end as int));
        match parse_digits(bytes, start + 1, end, 0x8000_0000) {
            Some(m) => Some((0 - m as i64) as i32),
            None => None,
        }
    } else if start < end && bytes[start] == PLUS_SIGN {
        assert(s.skip(1) =~= bytes@.subrange(start + 1, end as int));
        match parse_digits(bytes, start + 1, end, 0x7fff_ffff) {
            Some(m) => Some(m as i32),
            None => None,
        }
    } else {
        match parse_digits(bytes, start, end, 0x7fff_ffff) {
            Some(m) => Some(m as i32),
            None => None,
        }
    }
}

/// Reads `bytes[start..end]` as an unsigned field.
pub fn parse_u32_field(bytes: &[u8], start: usize, end: usize) -> (r: Option<u32>)
    requires
        start <= end <= bytes@.len(),
    ensures
        r == parse_u32(bytes@.subrange(start as int, end as int)),
{
    let ghost s = bytes@.subrange(start as int, end as int);
    if start < end && bytes[start] == PLUS_SIGN {
        assert(s.skip(1) =~= bytes@.subrange(start + 1, end as int));
        match parse_digits(bytes, start + 1, end, 0xffff_ffff) {
            Some(m) => Some(m as u32),
            None => None,
        }
    } else {
        match parse_digits(bytes, start, end, 0xffff_ffff) {
            Some(m) => Some(m as u32),
            None => None,
        }
    }
}

/// The digits of `n`, most significant first, without leading zeros.
pub open spec fn digits_of(n: nat) -> Seq<u8>
    decreases n,
{
    if n < 10 {
        seq![(DIGIT_ZERO + n) as u8]
    } else {
        digits_of(n / 10).push((DIGIT_ZERO + n % 10) as u8)
    }
}

/// The text of an integer: its digits, behind a `-` where it is negative.
pub open spec fn signed_text(v: int) -> Seq<u8> {
    if v < 0 {
        seq![MINUS_SIGN] + digits_of((-v) as nat)
    } else {
        digits_of(v as nat)
    }
}

/// The digits written for a number are digits, and denote that number.
pub proof fn lemma_digits_of_value(n: nat)
    ensures
        digits_of(n).len() > 0,
        all_digits(digits_of(n)),
        decimal_value(digits_of(n)) == n,
    decreases n,
{
    if n >= 10 {
        lemma_digits_of_value(n / 10);
        let front = digits_of(n / 10);
        let last = (DIGIT_ZERO + n % 10) as u8;
        assert(front.push(last).drop_last() =~= front);
        assert forall|i: int| 0 <= i < front.push(last).len() implies is_digit(
            #[trigger] front.push(last)[i],
        ) by {
            if i < front.len() {
                assert(front.push(last)[i] == front[i]);
            }
        }
    } else {
        let only = seq![(DIGIT_ZERO + n) as u8];
        assert(decimal_value(only.drop_last()) == 0);
    }
}

/// The text written for an integer denotes that integer.
pub proof fn lemma_signed_text_value(v: int)
    ensures
        parse_signed(signed_text(v)) == Some(v),
        v >= 0 ==> signed_text(v)[0] != MINUS_SIGN,
{
    if v < 0 {
        let digits = digits_of((-v) as nat);
        lemma_digits_of_value((-v) as nat);
        assert(signed_text(v).skip(1) =~= digits);
    } else {
        lemma_digits_of_value(v as nat);
    }
}

/// Appends the digits of `n`.
pub fn push_digits(n: u32, out: &mut Vec<u8>)
    ensures
        final(out)@ == old(out)@ + digits_of(n as nat),
    decreases n,
{
    if n >= 10 {
        push_digits(n / 10, out);
    }
    out.push(DIGIT_ZERO + (n % 10) as u8);
}

/// Appends the text of `v`.
pub fn push_signed(v: i32, out: &mut Vec<u8>)
    ensures
        final(out)@ == old(out)@ + signed_text(v as int),
{
    if v < 0 {
        out.push(MINUS_SIGN);
        push_digits((0 - v as i64) as u32, out);
    } else {
        push_digits(v as u32, out);
    }
}

} // verus!
