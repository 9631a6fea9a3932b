//! Value parser: decimal text with one fractional digit, read as an integer number of tenths.
//!
//! `-12.3` is `-123`, `0.0` is `0`. No floating point is involved, so sums of parsed values
//! are exact.

use crate::scan::FormatFault;
use vstd::prelude::*;

verus! {

/// The sign byte `-`.
pub const MINUS: u8 = 45;

/// The decimal point `.`.
pub const POINT: u8 = 46;

/// The byte `0`; the digit `d` is the byte `ZERO + d`.
pub const ZERO: u8 = 48;

/// Largest integer part whose tenths can still fit in an `i32`.
pub const MAX_WHOLE: i64 = 214_748_364;

/// `b` is one of `0` to `9`.
pub open spec fn is_digit(b: u8) -> bool {
    48 <= b <= 57
}

/// `b` may occur in a value: a digit, `-` or `.`.
pub open spec fn is_numeric(b: u8) -> bool {
    is_digit(b) || b == MINUS || b == POINT
}

/// The number that a string of digits writes in base ten; the empty string writes zero.
pub open spec fn digits_value(s: Seq<u8>) -> int
    decreases s.len(),
{
    if s.len() == 0 {
        0
    } else {
        10 * digits_value(s.drop_last()) + (s.last() - ZERO)
    }
}

/// What is left of a value once a leading `-` is taken off.
pub open spec fn magnitude_part(s: Seq<u8>) -> Seq<u8> {
    if s.len() > 0 && s[0] == MINUS {
        s.skip(1)
    } else {
        s
    }
}

/// `s` is `\d+\.\d`: one or more digits, a point, one digit.
pub open spec fn unsigned_shape(s: Seq<u8>) -> bool {
    &&& s.len() >= 3
    &&& forall|i: int| 0 <= i < s.len() - 2 ==> is_digit(#[trigger] s[i])
    &&& s[s.len() - 2] == POINT
    &&& is_digit(s[s.len() - 1])
}

/// `s` is `-?\d+\.\d`.
pub open spec fn decimal_shape(s: Seq<u8>) -> bool {
    unsigned_shape(magnitude_part(s))
}

/// Ten times the number that an unsigned `\d+\.\d` writes.
pub open spec fn unsigned_tenths(s: Seq<u8>) -> int {
    10 * digits_value(s.take(s.len() - 2)) + (s[s.len() - 1] - ZERO)
}

/// Ten times the number that `-?\d+\.\d` writes. The sign carries no weight of its own, and
/// the point none either.
pub open spec fn decimal_tenths(s: Seq<u8>) -> int {
    if s.len() > 0 && s[0] == MINUS {
        -unsigned_tenths(magnitude_part(s))
    } else {
        unsigned_tenths(magnitude_part(s))
    }
}

/// What the value parser makes of `s`.
///
/// A byte that cannot occur in a number is reported before the shape is looked at, and the
/// shape before the size.
pub open spec fn parse_value(s: Seq<u8>) -> Result<i32, FormatFault> {
    if exists|i: int| 0 <= i < s.len() && !is_numeric(#[trigger] s[i]) {
        Err(FormatFault::NonNumeric)
    } else if !decimal_shape(s) {
        Err(FormatFault::BadShape)
    } else if !(i32::MIN <= decimal_tenths(s) <= i32::MAX) {
        Err(FormatFault::OutOfRange)
    } else {
        Ok(decimal_tenths(s) as i32)
    }
}

/// A string of digits writes a number that is not negative, and one more digit does not
/// make it smaller.
pub proof fn lemma_digits_value_grows(s: Seq<u8>)
    requires
        forall|i: int| 0 <= i < s.len() ==> is_digit(#[trigger] s[i]),
    ensures
        0 <= digits_value(s),
        s.len() > 0 ==> digits_value(s.drop_last()) <= digits_value(s),
    decreases s.len(),
{
    if s.len() > 0 {
        lemma_digits_value_grows(s.drop_last());
    }
}

/// Ten to the power `n`.
pub open spec fn pow10(n: nat) -> int
    decreases n,
{
    if n == 0 {
        1
    } else {
        10 * pow10((n - 1) as nat)
    }
}

/// The digits of `s`, each times the weight of its position: the last digit counts once,
/// the one before it ten times, and so on leftwards.
pub open spec fn weighted_digits(s: Seq<u8>) -> int
    decreases s.len(),
{
    if s.len() == 0 {
        0
    } else {
        (s.first() - ZERO) * pow10((s.len() - 1) as nat) + weighted_digits(s.drop_first())
    }
}

/// One more digit at the end moves every digit one position up.
proof fn lemma_weighted_digits_push(s: Seq<u8>, digit: u8)
    ensures
        weighted_digits(s.push(digit)) == 10 * weighted_digits(s) + (digit - ZERO),
    decreases s.len(),
{
    let longer = s.push(digit);
    if s.len() == 0 {
        assert(longer.drop_first() =~= Seq::<u8>::empty());
        assert(weighted_digits(longer.drop_first()) == 0);
        assert(pow10(0) == 1);
    } else {
        lemma_weighted_digits_push(s.drop_first(), digit);
        assert(longer.drop_first() =~= s.drop_first().push(digit));
        let lead = s.first() - ZERO;
        let weight = pow10((s.len() - 1) as nat);
        assert(pow10(s.len()) == 10 * weight);
        assert(lead * (10 * weight) == 10 * (lead * weight)) by (nonlinear_arith);
    }
}

/// The number that a string of digits writes is the sum of its digits weighed by position.
pub proof fn lemma_digits_value_is_weighted(s: Seq<u8>)
    ensures
        digits_value(s) == weighted_digits(s),
    decreases s.len(),
{
    if s.len() > 0 {
        lemma_digits_value_is_weighted(s.drop_last());
        lemma_weighted_digits_push(s.drop_last(), s.last());
        assert(s.drop_last().push(s.last()) =~= s);
    }
}

/// The tenths of an unsigned `\d+\.\d` are its digits weighed by position, counted from
/// the fractional digit; the point takes no position.
pub proof fn lemma_unsigned_tenths_is_weighted(s: Seq<u8>)
    requires
        s.len() >= 3,
    ensures
        unsigned_tenths(s) == weighted_digits(s.take(s.len() - 2).push(s[s.len() - 1])),
{
    let digits = s.take(s.len() - 2).push(s[s.len() - 1]);
    assert(digits.drop_last() =~= s.take(s.len() - 2));
    lemma_digits_value_is_weighted(digits);
}

/// Checks whether `b` is a decimal digit.
pub fn digit_byte(b: u8) -> (yes: bool)
    ensures
        yes == is_digit(b),
{
    ZERO <= b && b <= 57
}

/// Reads `buffer` as `-?\d+\.\d` and returns the number of tenths it writes.
///
/// Digits are weighed by position: the fractional digit counts once, the digit before the
/// point ten times, and so on leftwards. Anything that is not of that form, or does not fit,
/// is a fault.
pub fn ascii_slice_to_i32(buffer: &[u8]) -> (parsed: Result<i32, FormatFault>)
    ensures
        parsed == parse_value(buffer@),
{
    let size = buffer.len();
    let mut i: usize = 0;
    while i < size
        invariant
            i <= size == buffer@.len(),
            forall|j: int| 0 <= j < i ==> is_numeric(#[trigger] buffer@[j]),
        decreases size - i,
    {
        let b = buffer[i];
        if !(digit_byte(b) || b == MINUS || b == POINT) {
            return Err(FormatFault::NonNumeric);
        }
        i += 1;
    }
    let negative = size > 0 && buffer[0] == MINUS;
    let first: usize = if negative {
        1
    } else {
        0
    };
    let ghost body = magnitude_part(buffer@);
    assert(body =~= buffer@.subrange(first as int, size as int));
    if size - first < 3 {
        return Err(FormatFault::BadShape);
    }
    if buffer[size - 2] != POINT || !digit_byte(buffer[size - 1]) {
        return Err(FormatFault::BadShape);
    }
    let mut whole: i64 = 0;
    let mut k: usize = first;
    while k < size - 2
        invariant
            first <= k <= size - 2,
            size == buffer@.len(),
            body == buffer@.subrange(first as int, size as int),
            body == magnitude_part(buffer@),
            forall|j: int| 0 <= j < size ==> is_numeric(#[trigger] buffer@[j]),
            forall|j: int| first <= j < k ==> is_digit(#[trigger] buffer@[j]),
            0 <= whole <= MAX_WHOLE + 1,
            whole <= MAX_WHOLE ==> whole == digits_value(buffer@.subrange(first as int, k as int)),
            whole > MAX_WHOLE ==> digits_value(buffer@.subrange(first as int, k as int))
                > MAX_WHOLE,
        decreases size - k,
    {
        let b = buffer[k];
        if !digit_byte(b) {
            assert(body[k - first] == b);
            return Err(FormatFault::BadShape);
        }
        proof {
            let upto = buffer@.subrange(first as int, k + 1);
            assert(upto.drop_last() =~= buffer@.subrange(first as int, k as int));
            lemma_digits_value_grows(upto);
        }
        if whole <= MAX_WHOLE {
            whole = whole * 10 + (b - ZERO) as i64;
            if whole > MAX_WHOLE {
                whole = MAX_WHOLE + 1;
            }
        }
        k += 1;
    }
    proof {
        assert(body.take(body.len() - 2) =~= buffer@.subrange(first as int, size - 2));
        assert forall|j: int| 0 <= j < body.len() - 2 implies is_digit(#[trigger] body[j]) by {
            assert(body[j] == buffer@[first + j]);
        }
        assert(unsigned_shape(body));
    }
    if whole > MAX_WHOLE {
        return Err(FormatFault::OutOfRange);
    }
    let tenths: i64 = whole * 10 + (buffer[size - 1] - ZERO) as i64;
    let signed: i64 = if negative {
        -tenths
    } else {
        tenths
    };
    if signed < i32::MIN as i64 || signed > i32::MAX as i64 {
        return Err(FormatFault::OutOfRange);
    }
    Ok(signed as i32)
}

} // verus!
