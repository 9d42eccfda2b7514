//! Decimal ASCII text of integers: the numeric fields of the wire format.
//!
//! An integer value is written as an optional `-` followed by its decimal
//! digits; a string length is written as its decimal digits alone. Both
//! directions are defined here over byte sequences, together with the facts
//! that relate them.

use vstd::prelude::*;

verus! {

/// ASCII `'0'`.
pub const ZERO: u8 = 48;

/// ASCII `'9'`.
pub const NINE: u8 = 57;

/// ASCII `'-'`.
pub const MINUS: u8 = 45;

/// Largest magnitude of a non-negative 32-bit integer.
pub const I32_MAX_MAGNITUDE: u64 = 0x7fff_ffff;

/// Largest magnitude of a negative 32-bit integer.
pub const I32_MIN_MAGNITUDE: u64 = 0x8000_0000;

/// Why a numeric field is not a number of the expected width.
#[derive(Clone, Copy, Debug, PartialEq, Eq, Structural)]
pub enum IntErrorKind {
    /// The field holds no byte at all.
    Empty,
    /// The field holds a byte that is not a decimal digit (a sign in the
    /// wrong place, a sign with nothing after it, a letter).
    InvalidDigit,
    /// The number is too large for the target type.
    PosOverflow,
    /// The number is too small for the target type.
    NegOverflow,
}

/// Whether `b` is one of the ASCII digits `'0'..='9'`.
pub open spec fn is_digit(b: u8) -> bool {
    ZERO <= b <= NINE
}

/// Whether every byte of `s` is an ASCII digit.
pub open spec fn all_digits(s: Seq<u8>) -> bool {
    forall|i: int| 0 <= i < s.len() ==> is_digit(#[trigger] s[i])
}

/// The decimal digits of `n`, most significant first, without leading zeros.
pub open spec fn digits(n: nat) -> Seq<u8>
    decreases n,
{
    if n < 10 {
        seq![(ZERO + n) as u8]
    } else {
        digits(n / 10).push((ZERO + n % 10) as u8)
    }
}

/// The decimal text of `i`: a `-` for a negative number, then the digits of
/// its magnitude.
pub open spec fn decimal(i: int) -> Seq<u8> {
    if i < 0 {
        seq![MINUS] + digits((-i) as nat)
    } else {
        digits(i as nat)
    }
}

/// The number that a sequence of ASCII digits denotes. Leading zeros do not
/// count; the empty sequence denotes zero.
pub open spec fn digits_value(s: Seq<u8>) -> nat
    decreases s.len(),
{
    if s.len() == 0 {
        0
    } else {
        digits_value(s.drop_last()) * 10 + (s.last() - ZERO) as nat
    }
}

/// Reads `s` as an unsigned decimal number of at most `limit`.
pub open spec fn parse_natural(s: Seq<u8>, limit: nat) -> Result<nat, IntErrorKind> {
    if s.len() == 0 {
        Err(IntErrorKind::Empty)
    } else if !all_digits(s) {
        Err(IntErrorKind::InvalidDigit)
    } else if digits_value(s) > limit {
        Err(IntErrorKind::PosOverflow)
    } else {
        Ok(digits_value(s))
    }
}

/// Reads `s` as a signed 32-bit decimal number: an optional `-`, then one or
/// more digits.
pub open spec fn parse_integer(s: Seq<u8>) -> Result<int, IntErrorKind> {
    if s.len() > 0 && s[0] == MINUS {
        match parse_natural(s.skip(1), I32_MIN_MAGNITUDE as nat) {
            Ok(v) => Ok(-(v as int)),
            Err(IntErrorKind::PosOverflow) => Err(IntErrorKind::NegOverflow),
            Err(_) => Err(IntErrorKind::InvalidDigit),
        }
    } else {
        match parse_natural(s, I32_MAX_MAGNITUDE as nat) {
            Ok(v) => Ok(v as int),
            Err(e) => Err(e),
        }
    }
}

/// Whether `b` can occur in the decimal text of an integer.
pub open spec fn is_decimal_byte(b: u8) -> bool {
    is_digit(b) || b == MINUS
}

/// The digits of a number are digits, start with a non-zero digit unless the
/// number is zero, and denote that number.
pub proof fn lemma_digits(n: nat)
    ensures
        digits(n).len() >= 1,
        all_digits(digits(n)),
        digits_value(digits(n)) == n,
        n == 0 ==> digits(n) == seq![ZERO],
        n > 0 ==> ZERO < digits(n)[0] <= NINE,
    decreases n,
{
    if n < 10 {
        let s = digits(n);
        assert(s.drop_last().len() == 0);
        assert(digits_value(s.drop_last()) == 0);
    } else {
        lemma_digits(n / 10);
        let head = digits(n / 10);
        let s = digits(n);
        assert(s.drop_last() == head);
        assert(s[0] == head[0]);
        assert forall|i: int| 0 <= i < s.len() implies is_digit(#[trigger] s[i]) by {
            if i < head.len() {
                assert(s[i] == head[i]);
            }
        }
    }
}

/// Reading back the digits of a number that is within the limit gives the
/// number.
pub proof fn lemma_parse_natural_digits(n: nat, limit: nat)
    requires
        n <= limit,
    ensures
        parse_natural(digits(n), limit) == Ok::<nat, IntErrorKind>(n),
{
    lemma_digits(n);
}

/// The decimal text of an integer holds digits and `-` only.
pub proof fn lemma_decimal_bytes(i: int)
    ensures
        decimal(i).len() >= 1,
        forall|k: int| 0 <= k < decimal(i).len() ==> is_decimal_byte(#[trigger] decimal(i)[k]),
{
    if i < 0 {
        lemma_digits((-i) as nat);
        let d = digits((-i) as nat);
        assert forall|k: int| 0 <= k < decimal(i).len() implies is_decimal_byte(
            #[trigger] decimal(i)[k],
        ) by {
            if k > 0 {
                assert(decimal(i)[k] == d[k - 1]);
            }
        }
    } else {
        lemma_digits(i as nat);
    }
}

/// Reading back the decimal text of a 32-bit integer gives the integer.
pub proof fn lemma_parse_integer_decimal(i: int)
    requires
        i32::MIN <= i <= i32::MAX,
    ensures
        parse_integer(decimal(i)) == Ok::<int, IntErrorKind>(i),
{
    if i < 0 {
        let m = (-i) as nat;
        lemma_digits(m);
        assert(decimal(i).skip(1) == digits(m));
    } else {
        lemma_digits(i as nat);
    }
}

/// Appends the decimal digits of `n` to `out`.
pub fn push_digits(out: &mut Vec<u8>, n: u64)
    ensures
        final(out)@ == old(out)@ + digits(n as nat),
    decreases n,
{
    if n >= 10 {
        push_digits(out, n / 10);
    }
    let d: u8 = (n % 10) as u8;
    out.push(ZERO + d);
    assert(final(out)@ == old(out)@ + digits(n as nat));
}

/// Appends the decimal text of `i` to `out`.
pub fn push_decimal(out: &mut Vec<u8>, i: i32)
    ensures
        final(out)@ == old(out)@ + decimal(i as int),
{
    if i < 0 {
        out.push(MINUS);
        let magnitude: u64 = (-(i as i64)) as u64;
        push_digits(out, magnitude);
        assert(final(out)@ == old(out)@ + decimal(i as int));
    } else {
        push_digits(out, i as u64);
    }
}

/// What `read_natural` returns, as a result over the naturals.
pub open spec fn natural_result(r: Result<u64, IntErrorKind>) -> Result<nat, IntErrorKind> {
    match r {
        Ok(v) => Ok(v as nat),
        Err(e) => Err(e),
    }
}

/// What `read_integer` returns, as a result over the integers.
pub open spec fn integer_result(r: Result<i32, IntErrorKind>) -> Result<int, IntErrorKind> {
    match r {
        Ok(v) => Ok(v as int),
        Err(e) => Err(e),
    }
}

/// Reads the bytes `s[start..end]` as an unsigned decimal number of at most
/// `limit`.
pub fn read_natural(s: &[u8], start: usize, end: usize, limit: u64) -> (r: Result<
    u64,
    IntErrorKind,
>)
    requires
        start <= end <= s@.len(),
    ensures
        natural_result(r) == parse_natural(s@.subrange(start as int, end as int), limit as nat),
{
    let ghost field = s@.subrange(start as int, end as int);
    if start == end {
        return Err(IntErrorKind::Empty);
    }
    let mut acc: u128 = 0;
    let mut over: bool = false;
    let mut i: usize = start;
    while i < end
        invariant
            start <= i <= end <= s@.len(),
            field == s@.subrange(start as int, end as int),
            all_digits(field.take(i - start)),
            !over ==> acc == digits_value(field.take(i - start)) && acc <= limit,
            over ==> digits_value(field.take(i - start)) > limit,
        decreases end - i,
    {
        let b: u8 = s[i];
        if b < ZERO || b > NINE {
            assert(!is_digit(field[i - start]));
            return Err(IntErrorKind::InvalidDigit);
        }
        let ghost before = field.take(i - start);
        let ghost after = field.take(i - start + 1);
        assert(after.drop_last() == before);
        assert(after.last() == b);
        assert forall|k: int| 0 <= k < after.len() implies is_digit(#[trigger] after[k]) by {
            if k < before.len() {
                assert(after[k] == before[k]);
            }
        }
        if !over {
            acc = acc * 10 + ((b - ZERO) as u128);
            if acc > limit as u128 {
                over = true;
            }
        }
        i = i + 1;
    }
    assert(field.take(end - start) == field);
    if over {
        Err(IntErrorKind::PosOverflow)
    } else {
        Ok(acc as u64)
    }
}

/// Reads the bytes `s[start..end]` as a signed 32-bit decimal number.
pub fn read_integer(s: &[u8], start: usize, end: usize) -> (r: Result<i32, IntErrorKind>)
    requires
        start <= end <= s@.len(),
    ensures
        integer_result(r) == parse_integer(s@.subrange(start as int, end as int)),
{
    let ghost field = s@.subrange(start as int, end as int);
    if start < end && s[start] == MINUS {
        assert(field[0] == MINUS);
        assert(field.skip(1) == s@.subrange(start + 1, end as int));
        match read_natural(s, start + 1, end, I32_MIN_MAGNITUDE) {
            Ok(v) => Ok((-(v as i64)) as i32),
            Err(IntErrorKind::PosOverflow) => Err(IntErrorKind::NegOverflow),
            Err(_) => Err(IntErrorKind::InvalidDigit),
        }
    } else {
        assert(start < end ==> field[0] == s@[start as int]);
        match read_natural(s, start, end, I32_MAX_MAGNITUDE) {
            Ok(v) => Ok(v as i32),
            Err(e) => Err(e),
        }
    }
}

} // verus!
