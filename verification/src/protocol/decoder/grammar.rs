//! What decoding a byte string gives: the bencode grammar, read left to right.
//!
//! Each function reads from a position of the input and gives the outcome together with the
//! position just after the last byte it consumed, errors included.

use vstd::prelude::*;
use vstd::utf8::{decode_utf8, valid_utf8};

use crate::protocol::ascii::{COLON, DICT_START, DIGIT_ZERO, END, INTEGER_START, LIST_START, MINUS};
use crate::protocol::decoder::error::{DecodeFailure, DecoderError};
use crate::protocol::decoder::util::{decimal_value, is_digit};
use crate::protocol::bytes_order::bytes_lt;
use crate::protocol::{Bencode, BencodeValue};

verus! {

/// An outcome together with the position reached.
pub type Reading<T> = (Result<T, DecodeFailure>, int);

/// The model of a decoding outcome.
pub open spec fn outcome(r: Result<Bencode, DecoderError>) -> Result<BencodeValue, DecodeFailure> {
    match r {
        Ok(b) => Ok(b.value()),
        Err(e) => Err(e@),
    }
}

/// The first position at or after `i` that does not hold a digit.
pub open spec fn digits_end(s: Seq<u8>, i: int) -> int
    decreases s.len() - i,
{
    if 0 <= i < s.len() && is_digit(s[i]) {
        digits_end(s, i + 1)
    } else {
        i
    }
}

/// The body of an integer, from the byte after `i` up to and including its `e`.
pub open spec fn parse_integer(s: Seq<u8>, q: int) -> Reading<BencodeValue> {
    if q >= s.len() {
        (Err(DecodeFailure::InvalidIntegerSyntax), q)
    } else if s[q] != MINUS && !is_digit(s[q]) {
        (Err(DecodeFailure::InvalidIntegerSyntax), q + 1)
    } else {
        let negative = s[q] == MINUS;
        let r = digits_end(s, q + 1);
        if r >= s.len() {
            (Err(DecodeFailure::MissingTerminator), r)
        } else if s[r] != END {
            (Err(DecodeFailure::InvalidByte(s[r])), r + 1)
        } else {
            let digits = s.subrange(if negative { q + 1 } else { q }, r);
            let n = decimal_value(digits) as int;
            if digits.len() == 0 {
                (Err(DecodeFailure::InvalidIntegerSyntax), r + 1)
            } else if digits.len() > 1 && digits[0] == DIGIT_ZERO {
                (Err(DecodeFailure::IntegerLeadingZero), r + 1)
            } else if n > i64::MAX {
                (Err(DecodeFailure::InvalidIntegerSyntax), r + 1)
            } else if negative && n == 0 {
                (Err(DecodeFailure::IntegerNegativeZero), r + 1)
            } else {
                (Ok(BencodeValue::Integer(if negative { -n } else { n })), r + 1)
            }
        }
    }
}

/// A byte string whose length begins with the digit at `p`: the length, a `:`, then the bytes.
pub open spec fn parse_string_bytes(s: Seq<u8>, p: int) -> Reading<Seq<u8>> {
    let r = digits_end(s, p + 1);
    if r < s.len() && s[r] != COLON {
        (Err(DecodeFailure::InvalidByte(s[r])), r + 1)
    } else {
        let after = if r < s.len() { r + 1 } else { r };
        let n = decimal_value(s.subrange(p, r)) as int;
        if n > usize::MAX {
            (Err(DecodeFailure::InvalidIntegerSyntax), after)
        } else if after + n > s.len() {
            (Err(DecodeFailure::StringInvalidLength(n as usize)), s.len() as int)
        } else {
            (Ok(s.subrange(after, after + n)), after + n)
        }
    }
}

/// The value whose first byte is at `p`.
pub open spec fn parse_value(s: Seq<u8>, p: int) -> Reading<BencodeValue>
    decreases s.len() - p, 0int,
{
    if p < 0 || p >= s.len() {
        (Err(DecodeFailure::MissingTerminator), p)
    } else {
        let head = s[p];
        if head == INTEGER_START {
            parse_integer(s, p + 1)
        } else if is_digit(head) {
            match parse_string_bytes(s, p) {
                (Ok(bytes), r) => (Ok(BencodeValue::String(bytes)), r),
                (Err(e), r) => (Err(e), r),
            }
        } else if head == LIST_START {
            parse_list(s, p + 1, Seq::empty())
        } else if head == DICT_START {
            parse_dict(s, p + 1, Map::empty(), None)
        } else {
            (Err(DecodeFailure::UnknownType(seq![head as char])), p + 1)
        }
    }
}

/// The rest of a list from position `q`, after the elements `items` already read.
pub open spec fn parse_list(s: Seq<u8>, q: int, items: Seq<BencodeValue>) -> Reading<BencodeValue>
    decreases s.len() - q, 1int,
{
    if q < 0 || q >= s.len() {
        (Err(DecodeFailure::MissingTerminator), q)
    } else if s[q] == END {
        (Ok(BencodeValue::List(items)), q + 1)
    } else {
        match parse_value(s, q) {
            (Err(e), r) => (Err(e), r),
            (Ok(v), r) => if q < r <= s.len() {
                parse_list(s, r, items.push(v))
            } else {
                (Err(DecodeFailure::MissingTerminator), r)
            },
        }
    }
}

/// The rest of a dictionary from position `q`, after the entries `entries` already read, the last
/// of whose keys had the bytes `last`. Keys must be strings and appear in sorted order: each key's
/// bytes must sort strictly after the previous key's.
pub open spec fn parse_dict(
    s: Seq<u8>,
    q: int,
    entries: Map<Seq<char>, BencodeValue>,
    last: Option<Seq<u8>>,
) -> Reading<BencodeValue>
    decreases s.len() - q, 1int,
{
    if q < 0 || q >= s.len() {
        (Err(DecodeFailure::MissingTerminator), q)
    } else if s[q] == END {
        (Ok(BencodeValue::Dictionary(entries)), q + 1)
    } else if !is_digit(s[q]) {
        (Err(DecodeFailure::DictionaryInvalidKeyType), q + 1)
    } else {
        match parse_string_bytes(s, q) {
            (Err(e), r) => (Err(e), r),
            (Ok(key), r) => if !valid_utf8(key) {
                (Err(DecodeFailure::StringInvalidUtf8), r)
            } else if out_of_order(last, key) {
                (Err(DecodeFailure::DictionaryUnsortedKeys), r)
            } else if r >= s.len() {
                (Err(DecodeFailure::MissingTerminator), r)
            } else if r <= q {
                (Err(DecodeFailure::MissingTerminator), r)
            } else {
                match parse_value(s, r) {
                    (Err(e), r2) => (Err(e), r2),
                    (Ok(v), r2) => if r < r2 <= s.len() {
                        parse_dict(s, r2, entries.insert(decode_utf8(key), v), Some(key))
                    } else {
                        (Err(DecodeFailure::MissingTerminator), r2)
                    },
                }
            },
        }
    }
}

/// A key whose bytes do not sort strictly after those of the key before it.
pub open spec fn out_of_order(last: Option<Seq<u8>>, key: Seq<u8>) -> bool {
    match last {
        Some(prev) => !bytes_lt(prev, key),
        None => false,
    }
}

/// Decoding from position `start`: exactly one value, then the end of the input.
pub open spec fn decode_from(s: Seq<u8>, start: int) -> Reading<BencodeValue> {
    if start >= s.len() {
        (Err(DecodeFailure::Empty), start)
    } else {
        match parse_value(s, start) {
            (Err(e), r) => (Err(e), r),
            (Ok(v), r) => if r < s.len() {
                (Err(DecodeFailure::UnexpectedExtraData), r + 1)
            } else {
                (Ok(v), r)
            },
        }
    }
}

/// What decoding a whole byte string gives.
pub open spec fn decode_spec(s: Seq<u8>) -> Result<BencodeValue, DecodeFailure> {
    decode_from(s, 0).0
}

/// The bytes from `i` up to `digits_end(s, i)` are digits, and the byte there, if any, is not.
pub proof fn lemma_digits_end(s: Seq<u8>, i: int)
    requires
        0 <= i <= s.len(),
    ensures
        i <= digits_end(s, i) <= s.len(),
        forall|j: int| i <= j < digits_end(s, i) ==> is_digit(#[trigger] s[j]),
        digits_end(s, i) < s.len() ==> !is_digit(s[digits_end(s, i)]),
    decreases s.len() - i,
{
    if i < s.len() && is_digit(s[i]) {
        lemma_digits_end(s, i + 1);
    }
}

} // verus!
