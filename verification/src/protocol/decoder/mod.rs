//! Decoding bencode from bytes.

use vstd::prelude::*;
use vstd::utf8::decode_utf8;

pub mod error;
pub mod grammar;
pub mod laws;
pub mod util;

use crate::protocol::ascii::{COLON, DICT_START, DIGIT_NINE, DIGIT_ZERO, END, INTEGER_START, LIST_START, MINUS};
use crate::protocol::decoder::error::{DecodeFailure, DecoderError};
use crate::protocol::decoder::grammar::{
    decode_from, digits_end, lemma_digits_end, outcome, parse_dict, parse_integer, parse_list,
    parse_string_bytes, parse_value,
};
use crate::protocol::decoder::util::{
    all_digits, bytes_to_integer, bytes_to_length, decimal_value, is_digit, validate_utf8_string,
};
use crate::protocol::bytes_order::{compare_bytes, BytesOrder};
use crate::protocol::dict::BencodeDict;
use crate::protocol::{values_of, Bencode, BencodeValue};
use crate::text::char_string;

verus! {

/// Reads bencode values from a byte string, keeping the position reached.
pub struct Decoder<'a> {
    bytes: &'a [u8],
    pos: usize,
}

impl<'a> View for Decoder<'a> {
    /// The input and the position reached in it.
    type V = (Seq<u8>, int);

    closed spec fn view(&self) -> (Seq<u8>, int) {
        (self.bytes@, self.pos as int)
    }
}

impl<'a> Decoder<'a> {
    #[verifier::type_invariant]
    spec fn position_in_input(self) -> bool {
        self.pos <= self.bytes@.len()
    }

    /// A decoder at the start of `bytes`.
    pub fn new(bytes: &'a [u8]) -> (d: Self)
        ensures
            d@ == (bytes@, 0int),
    {
        Decoder { bytes, pos: 0 }
    }

    /// Decodes exactly one value from the position reached, which must be followed by the end of
    /// the input.
    pub fn decode(&mut self) -> (r: Result<Bencode, DecoderError>)
        ensures
            outcome(r) == decode_from(old(self)@.0, old(self)@.1).0,
            final(self)@.0 == old(self)@.0,
            final(self)@.1 == decode_from(old(self)@.0, old(self)@.1).1,
    {
        proof {
            use_type_invariant(&*self);
        }
        let bytes = self.bytes;
        if self.pos >= bytes.len() {
            return Err(DecoderError::Empty);
        }
        let (res, r) = read_value(bytes, self.pos);
        match res {
            Err(e) => {
                self.pos = r;
                Err(e)
            },
            Ok(v) => {
                if r < bytes.len() {
                    self.pos = r + 1;
                    Err(DecoderError::UnexpectedExtraData)
                } else {
                    self.pos = r;
                    Ok(v)
                }
            },
        }
    }
}

/// Decodes a whole byte string.
pub fn decode_bytes(bytes: &[u8]) -> (r: Result<Bencode, DecoderError>)
    ensures
        outcome(r) == decode_from(bytes@, 0).0,
{
    let mut decoder = Decoder::new(bytes);
    decoder.decode()
}

/// Finds the end of the run of digits that starts at `i`.
fn skip_digits(bytes: &[u8], i: usize) -> (r: usize)
    requires
        i <= bytes@.len(),
    ensures
        r == digits_end(bytes@, i as int),
{
    let mut r = i;
    while r < bytes.len() && bytes[r] >= DIGIT_ZERO && bytes[r] <= DIGIT_NINE
        invariant
            i <= r <= bytes@.len(),
            digits_end(bytes@, i as int) == digits_end(bytes@, r as int),
        decreases bytes@.len() - r,
    {
        r = r + 1;
    }
    r
}

/// Reads the body of an integer; `q` follows the `i`.
fn read_integer(bytes: &[u8], q: usize) -> (r: (Result<Bencode, DecoderError>, usize))
    requires
        0 < q <= bytes@.len(),
    ensures
        outcome(r.0) == parse_integer(bytes@, q as int).0,
        r.1 == parse_integer(bytes@, q as int).1,
        q <= r.1 <= bytes@.len(),
{
    let ghost s = bytes@;
    if q >= bytes.len() {
        return (Err(DecoderError::InvalidIntegerSyntax), q);
    }
    let head = bytes[q];
    let negative = head == MINUS;
    if !negative && (head < DIGIT_ZERO || head > DIGIT_NINE) {
        return (Err(DecoderError::InvalidIntegerSyntax), q + 1);
    }
    let r = skip_digits(bytes, q + 1);
    proof {
        lemma_digits_end(s, q + 1);
    }
    if r >= bytes.len() {
        return (Err(DecoderError::MissingTerminator), r);
    }
    if bytes[r] != END {
        return (Err(DecoderError::InvalidByte(bytes[r])), r + 1);
    }
    let start = if negative { q + 1 } else { q };
    let digits = vstd::slice::slice_to_vec(&bytes[start..r]);
    assert(digits@ =~= s.subrange(start as int, r as int));
    if digits.len() == 0 {
        return (Err(DecoderError::InvalidIntegerSyntax), r + 1);
    }
    if digits.len() > 1 && digits[0] == DIGIT_ZERO {
        return (Err(DecoderError::IntegerLeadingZero), r + 1);
    }
    assert(all_digits(digits@)) by {
        assert forall|j: int| 0 <= j < digits@.len() implies #[trigger] is_digit(digits@[j]) by {
            assert(digits@[j] == s[start + j]);
        }
    }
    assert(is_digit(digits@[0]));
    match bytes_to_integer(digits) {
        Err(e) => (Err(e), r + 1),
        Ok(v) => {
            if negative {
                if v == 0 {
                    (Err(DecoderError::IntegerNegativeZero), r + 1)
                } else {
                    (Ok(Bencode::Integer(-v)), r + 1)
                }
            } else {
                (Ok(Bencode::Integer(v)), r + 1)
            }
        },
    }
}

/// Reads a byte string whose length begins with the digit at `p`.
fn read_string_bytes(bytes: &[u8], p: usize) -> (r: (Result<Vec<u8>, DecoderError>, usize))
    requires
        p < bytes@.len(),
        is_digit(bytes@[p as int]),
    ensures
        r.0 matches Ok(v) ==> parse_string_bytes(bytes@, p as int).0 == Ok::<Seq<u8>, DecodeFailure>(v@),
        r.0 matches Err(e) ==> parse_string_bytes(bytes@, p as int).0 == Err::<Seq<u8>, DecodeFailure>(e@),
        r.1 == parse_string_bytes(bytes@, p as int).1,
        p < r.1 <= bytes@.len(),
{
    let ghost s = bytes@;
    let _ = bytes.len();
    let r = skip_digits(bytes, p + 1);
    proof {
        lemma_digits_end(s, p + 1);
    }
    if r < bytes.len() && bytes[r] != COLON {
        return (Err(DecoderError::InvalidByte(bytes[r])), r + 1);
    }
    let after = if r < bytes.len() { r + 1 } else { r };
    let length_digits = &bytes[p..r];
    assert(length_digits@ =~= s.subrange(p as int, r as int));
    assert(all_digits(length_digits@)) by {
        assert forall|j: int| 0 <= j < length_digits@.len() implies #[trigger] is_digit(length_digits@[j]) by {
            assert(length_digits@[j] == s[p + j]);
        }
    }
    let n = match bytes_to_length(length_digits) {
        Err(e) => {
            return (Err(e), after);
        },
        Ok(n) => n,
    };
    if bytes.len() - after < n {
        return (Err(DecoderError::StringInvalidLength(n)), bytes.len());
    }
    let contents = vstd::slice::slice_to_vec(&bytes[after..after + n]);
    assert(contents@ =~= s.subrange(after as int, after + n));
    (Ok(contents), after + n)
}

/// Reads the value whose first byte is at `p`.
fn read_value(bytes: &[u8], p: usize) -> (r: (Result<Bencode, DecoderError>, usize))
    requires
        p < bytes@.len(),
    ensures
        outcome(r.0) == parse_value(bytes@, p as int).0,
        r.1 == parse_value(bytes@, p as int).1,
        p < r.1 <= bytes@.len(),
    decreases bytes@.len() - p, 0int,
{
    let head = bytes[p];
    if head == INTEGER_START {
        read_integer(bytes, p + 1)
    } else if head >= DIGIT_ZERO && head <= DIGIT_NINE {
        let (res, r) = read_string_bytes(bytes, p);
        match res {
            Ok(v) => (Ok(Bencode::String(v)), r),
            Err(e) => (Err(e), r),
        }
    } else if head == LIST_START {
        read_list(bytes, p + 1)
    } else if head == DICT_START {
        read_dict(bytes, p + 1)
    } else {
        (Err(DecoderError::UnknownType(char_string(head))), p + 1)
    }
}

/// Reads the elements of a list and its `e`, from `q` on.
fn read_list(bytes: &[u8], q: usize) -> (r: (Result<Bencode, DecoderError>, usize))
    requires
        0 < q <= bytes@.len(),
    ensures
        outcome(r.0) == parse_list(bytes@, q as int, Seq::empty()).0,
        r.1 == parse_list(bytes@, q as int, Seq::empty()).1,
        q <= r.1 <= bytes@.len(),
    decreases bytes@.len() - q, 1int,
{
    let ghost s = bytes@;
    let mut items: Vec<Bencode> = Vec::new();
    let mut i = q;
    assert(values_of(items@) =~= Seq::<BencodeValue>::empty());
    loop
        invariant
            q <= i <= bytes@.len(),
            s == bytes@,
            parse_list(s, q as int, Seq::empty()) == parse_list(s, i as int, values_of(items@)),
        decreases bytes@.len() - i,
    {
        if i >= bytes.len() {
            return (Err(DecoderError::MissingTerminator), i);
        }
        if bytes[i] == END {
            return (Ok(Bencode::List(items)), i + 1);
        }
        let (res, r) = read_value(bytes, i);
        match res {
            Err(e) => {
                return (Err(e), r);
            },
            Ok(v) => {
                let ghost before = items@;
                items.push(v);
                assert(items@.subrange(0, items@.len() - 1) =~= before);
                i = r;
            },
        }
    }
}

/// The bytes of the key read last, if any.
pub open spec fn last_key(prev: Option<Vec<u8>>) -> Option<Seq<u8>> {
    match prev {
        Some(k) => Some(k@),
        None => None,
    }
}

/// Reads the entries of a dictionary and its `e`, from `q` on.
fn read_dict(bytes: &[u8], q: usize) -> (r: (Result<Bencode, DecoderError>, usize))
    requires
        0 < q <= bytes@.len(),
    ensures
        outcome(r.0) == parse_dict(bytes@, q as int, Map::empty(), None).0,
        r.1 == parse_dict(bytes@, q as int, Map::empty(), None).1,
        q <= r.1 <= bytes@.len(),
    decreases bytes@.len() - q, 1int,
{
    let ghost s = bytes@;
    let mut dict = BencodeDict::new();
    let mut prev: Option<Vec<u8>> = None;
    let mut i = q;
    loop
        invariant
            q <= i <= bytes@.len(),
            s == bytes@,
            parse_dict(s, q as int, Map::empty(), None) == parse_dict(
                s,
                i as int,
                dict.map_of(),
                last_key(prev),
            ),
        decreases bytes@.len() - i,
    {
        if i >= bytes.len() {
            return (Err(DecoderError::MissingTerminator), i);
        }
        if bytes[i] == END {
            return (Ok(Bencode::Dictionary(dict)), i + 1);
        }
        if bytes[i] < DIGIT_ZERO || bytes[i] > DIGIT_NINE {
            return (Err(DecoderError::DictionaryInvalidKeyType), i + 1);
        }
        let (key_res, r) = read_string_bytes(bytes, i);
        let key_bytes = match key_res {
            Err(e) => {
                return (Err(e), r);
            },
            Ok(k) => k,
        };
        let key = match validate_utf8_string(key_bytes.as_slice()) {
            Err(e) => {
                return (Err(e), r);
            },
            Ok(k) => k,
        };
        let sorted = match &prev {
            None => true,
            Some(p) => match compare_bytes(p.as_slice(), key_bytes.as_slice()) {
                BytesOrder::Less => true,
                _ => false,
            },
        };
        if !sorted {
            return (Err(DecoderError::DictionaryUnsortedKeys), r);
        }
        if r >= bytes.len() {
            return (Err(DecoderError::MissingTerminator), r);
        }
        let (value_res, r2) = read_value(bytes, r);
        match value_res {
            Err(e) => {
                return (Err(e), r2);
            },
            Ok(v) => {
                dict.insert(key, v);
                prev = Some(key_bytes);
                i = r2;
            },
        }
    }
}

} // verus!
