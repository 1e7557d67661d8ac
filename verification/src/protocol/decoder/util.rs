//! Number and text helpers of the decoder.

use vstd::prelude::*;
use vstd::utf8::{decode_utf8, valid_utf8};

use crate::protocol::ascii::{DIGIT_NINE, DIGIT_ZERO, MINUS, PLUS};
use crate::protocol::decoder::error::DecoderError;
use crate::text::string_from_utf8;

verus! {

/// An ASCII decimal digit.
pub open spec fn is_digit(b: u8) -> bool {
    DIGIT_ZERO <= b <= DIGIT_NINE
}

/// Every byte is an ASCII decimal digit.
pub open spec fn all_digits(s: Seq<u8>) -> bool {
    forall|i: int| 0 <= i < s.len() ==> #[trigger] is_digit(s[i])
}

/// The number that a string of decimal digits writes.
pub open spec fn decimal_value(s: Seq<u8>) -> nat
    decreases s.len(),
{
    if s.len() == 0 {
        0
    } else {
        (decimal_value(s.drop_last()) * 10 + (s.last() - DIGIT_ZERO)) as nat
    }
}

/// What `str::parse::<i64>` gives for these bytes read one character per byte: an optional
/// sign, then at least one digit, and a value that fits.
pub open spec fn parse_i64(s: Seq<u8>) -> Option<i64> {
    let negative = s.len() > 0 && s[0] == MINUS;
    let digits = if s.len() > 0 && (s[0] == MINUS || s[0] == PLUS) { s.drop_first() } else { s };
    let v: int = if negative { -decimal_value(digits) } else { decimal_value(digits) as int };
    if digits.len() > 0 && all_digits(digits) && i64::MIN <= v <= i64::MAX {
        Some(v as i64)
    } else {
        None
    }
}

/// What `str::parse::<usize>` gives for these bytes read one character per byte: an optional
/// `+`, then at least one digit, and a value that fits.
pub open spec fn parse_usize(s: Seq<u8>) -> Option<usize> {
    let digits = if s.len() > 0 && s[0] == PLUS { s.drop_first() } else { s };
    if digits.len() > 0 && all_digits(digits) && decimal_value(digits) <= usize::MAX {
        Some(decimal_value(digits) as usize)
    } else {
        None
    }
}

/// A longer prefix of a digit string never writes a smaller number.
pub proof fn lemma_decimal_value_prefix(s: Seq<u8>, k: int)
    requires
        0 <= k <= s.len(),
        all_digits(s),
    ensures
        decimal_value(s.take(k)) <= decimal_value(s),
    decreases s.len() - k,
{
    if k < s.len() {
        lemma_decimal_value_prefix(s, k + 1);
        assert(s.take(k + 1).drop_last() =~= s.take(k));
        assert(is_digit(s[k]));
    } else {
        assert(s.take(k) =~= s);
    }
}

/// Reads a run of decimal digits, from `start` up to `end`, as an unsigned 64-bit number;
/// `None` when the run holds another byte or writes a number above `u64::MAX`.
fn digits_to_u64(bytes: &[u8], start: usize) -> (r: Option<u64>)
    requires
        start <= bytes@.len(),
    ensures
        ({
            let digits = bytes@.skip(start as int);
            match r {
                Some(v) => all_digits(digits) && v == decimal_value(digits),
                None => !all_digits(digits) || decimal_value(digits) > u64::MAX,
            }
        }),
{
    let ghost digits = bytes@.skip(start as int);
    let mut value: u64 = 0;
    let mut i: usize = start;
    while i < bytes.len()
        invariant
            start <= i <= bytes@.len(),
            digits == bytes@.skip(start as int),
            all_digits(digits.take(i - start)),
            value == decimal_value(digits.take(i - start)),
        decreases bytes@.len() - i,
    {
        let b = bytes[i];
        let ghost k: int = i - start;
        assert(digits.take(k + 1).drop_last() =~= digits.take(k));
        assert(digits.take(k + 1).last() == b);
        if b < DIGIT_ZERO || b > DIGIT_NINE {
            assert(!is_digit(digits[k]));
            return None;
        }
        assert(all_digits(digits.take(k + 1))) by {
            assert forall|j: int| 0 <= j < k + 1 implies #[trigger] is_digit(digits.take(k + 1)[j]) by {
                if j < k {
                    assert(digits.take(k + 1)[j] == digits.take(k)[j]);
                }
            }
        }
        let next = match value.checked_mul(10) {
            Some(t) => t.checked_add((b - DIGIT_ZERO) as u64),
            None => None,
        };
        match next {
            Some(v) => {
                value = v;
            },
            None => {
                proof {
                    if all_digits(digits) {
                        lemma_decimal_value_prefix(digits, k + 1);
                    }
                }
                return None;
            },
        }
        i = i + 1;
    }
    assert(digits.take(i - start) =~= digits);
    Some(value)
}

/// Parses the bytes, read one character per byte, as a signed 64-bit integer, like
/// `str::parse::<i64>`.
pub fn bytes_to_integer(bytes: Vec<u8>) -> (r: Result<i64, DecoderError>)
    ensures
        r matches Ok(v) ==> parse_i64(bytes@) == Some(v),
        r matches Err(e) ==> parse_i64(bytes@) is None && e == DecoderError::InvalidIntegerSyntax,
{
    let negative = bytes.len() > 0 && bytes[0] == MINUS;
    let start: usize = if bytes.len() > 0 && (bytes[0] == MINUS || bytes[0] == PLUS) { 1 } else { 0 };
    let ghost digits = bytes@.skip(start as int);
    assert(digits =~= if bytes@.len() > 0 && (bytes@[0] == MINUS || bytes@[0] == PLUS) {
        bytes@.drop_first()
    } else {
        bytes@
    });
    if start == bytes.len() {
        return Err(DecoderError::InvalidIntegerSyntax);
    }
    match digits_to_u64(bytes.as_slice(), start) {
        None => Err(DecoderError::InvalidIntegerSyntax),
        Some(magnitude) => {
            if negative {
                if magnitude <= 9223372036854775807 {
                    Ok(-(magnitude as i64))
                } else if magnitude == 9223372036854775808 {
                    Ok(i64::MIN)
                } else {
                    Err(DecoderError::InvalidIntegerSyntax)
                }
            } else if magnitude <= 9223372036854775807 {
                Ok(magnitude as i64)
            } else {
                Err(DecoderError::InvalidIntegerSyntax)
            }
        },
    }
}

/// Parses the bytes, read one character per byte, as an unsigned machine-sized integer, like
/// `str::parse::<usize>`.
pub fn bytes_to_length(bytes: &[u8]) -> (r: Result<usize, DecoderError>)
    ensures
        r matches Ok(v) ==> parse_usize(bytes@) == Some(v),
        r matches Err(e) ==> parse_usize(bytes@) is None && e == DecoderError::InvalidIntegerSyntax,
{
    let start: usize = if bytes.len() > 0 && bytes[0] == PLUS { 1 } else { 0 };
    let ghost digits = bytes@.skip(start as int);
    assert(digits =~= if bytes@.len() > 0 && bytes@[0] == PLUS { bytes@.drop_first() } else { bytes@ });
    if start == bytes.len() {
        return Err(DecoderError::InvalidIntegerSyntax);
    }
    match digits_to_u64(bytes, start) {
        None => Err(DecoderError::InvalidIntegerSyntax),
        Some(v) => {
            if v <= usize::MAX as u64 {
                Ok(v as usize)
            } else {
                Err(DecoderError::InvalidIntegerSyntax)
            }
        },
    }
}

/// Checks that the bytes are UTF-8 and returns them as a string.
pub fn validate_utf8_string(bytes: &[u8]) -> (r: Result<String, DecoderError>)
    ensures
        r is Ok <==> valid_utf8(bytes@),
        r matches Ok(s) ==> s@ == decode_utf8(bytes@),
        r matches Err(e) ==> e == DecoderError::StringInvalidUtf8,
{
    match string_from_utf8(vstd::slice::slice_to_vec(bytes)) {
        Some(s) => Ok(s),
        None => Err(DecoderError::StringInvalidUtf8),
    }
}

} // verus!
