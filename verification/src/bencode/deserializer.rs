//! An earlier, stricter bencode reader for integers and byte strings.
//!
//! A length of a byte string starts with one of the digits 1 to 9, and an integer's text is
//! checked as a whole once its `e` is read.

use vstd::prelude::*;

use crate::bencode::Bencode;
use crate::protocol::ascii::{COLON, DIGIT_NINE, DIGIT_ZERO, END, INTEGER_START, MINUS, PLUS};
use crate::protocol::decoder::util::{
    all_digits, bytes_to_length, decimal_value, is_digit, lemma_decimal_value_prefix,
};
use crate::protocol::encoding::{decimal_bytes, digit_bytes, lemma_digit_bytes};
use crate::protocol::BencodeValue;
use crate::text::{latin1, latin1_string};

verus! {

/// An error met while reading; the texts are what was received.
#[derive(Debug, PartialEq)]
pub enum DeserializeError {
    /// The input ended early.
    UnexpectedEof,
    /// Unexpected extra data!
    ExtraData,
    /// Invalid integer syntax! (a byte that cannot stand in an integer)
    InvalidIntegerSyntax,
    /// Invalid integer syntax! (empty, or starting with `-0` or with a zero and another digit)
    MalformedInteger(String),
    /// Integer overflow!
    IntegerOverflow(String),
    /// Invalid integer! (a byte that cannot stand in a string length)
    InvalidLength,
    /// Integer overflow! (on a string length)
    LengthOverflow(String),
}

/// The model of a reading error: the same cases, texts as characters.
pub enum DeserializeFailure {
    UnexpectedEof,
    ExtraData,
    InvalidIntegerSyntax,
    MalformedInteger(Seq<char>),
    IntegerOverflow(Seq<char>),
    InvalidLength,
    LengthOverflow(Seq<char>),
}

impl View for DeserializeError {
    type V = DeserializeFailure;

    open spec fn view(&self) -> DeserializeFailure {
        match self {
            DeserializeError::UnexpectedEof => DeserializeFailure::UnexpectedEof,
            DeserializeError::ExtraData => DeserializeFailure::ExtraData,
            DeserializeError::InvalidIntegerSyntax => DeserializeFailure::InvalidIntegerSyntax,
            DeserializeError::MalformedInteger(s) => DeserializeFailure::MalformedInteger(s@),
            DeserializeError::IntegerOverflow(s) => DeserializeFailure::IntegerOverflow(s@),
            DeserializeError::InvalidLength => DeserializeFailure::InvalidLength,
            DeserializeError::LengthOverflow(s) => DeserializeFailure::LengthOverflow(s@),
        }
    }
}

/// An outcome together with the position reached.
pub type Read<T> = (Result<T, DeserializeFailure>, int);

/// The model of a reading outcome.
pub open spec fn read_outcome(r: Result<Bencode, DeserializeError>) -> Result<BencodeValue, DeserializeFailure> {
    match r {
        Ok(b) => Ok(b.value()),
        Err(e) => Err(e@),
    }
}

/// The position of the `e` that ends the integer text starting at `q`, scanning from `i`: the
/// first byte may be `-` or a digit, the others digits.
pub open spec fn integer_text_end(s: Seq<u8>, q: int, i: int) -> Read<int>
    decreases s.len() - i,
{
    if i < q || i >= s.len() {
        (Err(DeserializeFailure::UnexpectedEof), s.len() as int)
    } else if s[i] == END {
        (Ok(i), i + 1)
    } else if is_digit(s[i]) || (i == q && s[i] == MINUS) {
        integer_text_end(s, q, i + 1)
    } else {
        (Err(DeserializeFailure::InvalidIntegerSyntax), i + 1)
    }
}

/// What `str::parse::<i128>` gives for these bytes read one character per byte: an optional
/// sign, then at least one digit, and a value that fits.
pub open spec fn parse_i128(s: Seq<u8>) -> Option<i128> {
    let negative = s.len() > 0 && s[0] == MINUS;
    let digits = if s.len() > 0 && (s[0] == MINUS || s[0] == PLUS) { s.drop_first() } else { s };
    let v: int = if negative { -decimal_value(digits) } else { decimal_value(digits) as int };
    if digits.len() > 0 && all_digits(digits) && i128::MIN <= v <= i128::MAX {
        Some(v as i128)
    } else {
        None
    }
}

/// The text has a zero followed by another digit at its start.
pub open spec fn zero_padded(text: Seq<u8>) -> bool {
    text.len() >= 2 && text[0] == DIGIT_ZERO && is_digit(text[1])
}

/// The text starts with `-0`: a negative zero, or a negative number with a leading zero.
pub open spec fn minus_zero_led(text: Seq<u8>) -> bool {
    text.len() >= 2 && text[0] == MINUS && text[1] == DIGIT_ZERO
}

/// The body of an integer, from the byte after its `i`.
pub open spec fn read_integer_spec(s: Seq<u8>, q: int) -> Read<BencodeValue> {
    match integer_text_end(s, q, q) {
        (Err(e), r) => (Err(e), r),
        (Ok(e), r) => {
            let text = s.subrange(q, e);
            if text.len() == 0 || minus_zero_led(text) || zero_padded(text) {
                (Err(DeserializeFailure::MalformedInteger(latin1(text))), r)
            } else {
                match parse_i128(text) {
                    Some(v) => (Ok(BencodeValue::Integer(v as int)), r),
                    None => (Err(DeserializeFailure::IntegerOverflow(latin1(text))), r),
                }
            }
        },
    }
}

/// The position of the `:` that ends a string length starting at `p`, scanning from the length
/// byte at `i`: the first length byte must be one of the digits 1 to 9, the others any digit.
pub open spec fn length_end(s: Seq<u8>, p: int, i: int) -> Read<int>
    decreases s.len() - i,
{
    if i < 0 || i >= s.len() {
        (Err(DeserializeFailure::UnexpectedEof), s.len() as int)
    } else if !(if i == p { DIGIT_ZERO < s[i] <= DIGIT_NINE } else { is_digit(s[i]) }) {
        (Err(DeserializeFailure::InvalidLength), i + 1)
    } else if i + 1 >= s.len() {
        (Err(DeserializeFailure::UnexpectedEof), s.len() as int)
    } else if s[i + 1] == COLON {
        (Ok(i + 1), i + 2)
    } else {
        length_end(s, p, i + 1)
    }
}

/// A byte string whose length begins at `p`.
pub open spec fn read_string_spec(s: Seq<u8>, p: int) -> Read<BencodeValue> {
    match length_end(s, p, p) {
        (Err(e), r) => (Err(e), r),
        (Ok(c), r) => {
            let digits = s.subrange(p, c);
            let n = decimal_value(digits) as int;
            if n > usize::MAX {
                (Err(DeserializeFailure::LengthOverflow(latin1(digits))), r)
            } else if r + n > s.len() {
                (Err(DeserializeFailure::UnexpectedEof), s.len() as int)
            } else {
                (Ok(BencodeValue::String(s.subrange(r, r + n))), r + n)
            }
        },
    }
}

/// Reading starts at an integer or a byte string, or at the end of the input.
pub open spec fn starts_readable(s: Seq<u8>, start: int) -> bool {
    0 <= start < s.len() ==> (s[start] == INTEGER_START || is_digit(s[start]))
}

/// Reading exactly one value from `start`, then the end of the input.
pub open spec fn deserialize_from(s: Seq<u8>, start: int) -> Read<BencodeValue> {
    if start >= s.len() {
        (Err(DeserializeFailure::UnexpectedEof), start)
    } else {
        let value = if s[start] == INTEGER_START {
            read_integer_spec(s, start + 1)
        } else {
            read_string_spec(s, start)
        };
        match value {
            (Err(e), r) => (Err(e), r),
            (Ok(v), r) => if r < s.len() {
                (Err(DeserializeFailure::ExtraData), r + 1)
            } else {
                (Ok(v), r)
            },
        }
    }
}

/// The scan of an integer text that is a `-` or digit, then digits, up to an `e`, ends at the `e`.
proof fn lemma_integer_text_end_at(s: Seq<u8>, q: int, i: int, r: int)
    requires
        q <= i <= r < s.len(),
        s[r] == END,
        forall|k: int| i <= k < r ==> is_digit(#[trigger] s[k]) || (k == q && s[k] == MINUS),
    ensures
        integer_text_end(s, q, i) == (Ok::<int, DeserializeFailure>(r), r + 1),
    decreases r - i,
{
    if i < r {
        lemma_integer_text_end_at(s, q, i + 1, r);
    }
}

/// All encodings of integers with a leading zero, such as `i03e` or `i-03e`, are refused as
/// malformed.
pub proof fn lemma_zero_padding_rejected(negative: bool, digits: Seq<u8>)
    requires
        all_digits(digits),
        digits.len() >= 2,
        digits[0] == DIGIT_ZERO,
    ensures
        ({
            let text = (if negative { seq![MINUS] } else { Seq::empty() }) + digits;
            deserialize_from(seq![INTEGER_START] + text + seq![END], 0).0 == Err::<BencodeValue, _>(
                DeserializeFailure::MalformedInteger(latin1(text)),
            )
        }),
{
    let text = (if negative { seq![MINUS] } else { Seq::<u8>::empty() }) + digits;
    let s = seq![INTEGER_START] + text + seq![END];
    let r: int = 1 + text.len() as int;
    assert forall|k: int| 1 <= k < r implies is_digit(#[trigger] s[k]) || (k == 1 && s[k] == MINUS) by {
        assert(s[k] == text[k - 1]);
        if negative && k >= 2 {
            assert(text[k - 1] == digits[k - 2]);
        }
        if !negative {
            assert(text[k - 1] == digits[k - 1]);
        }
    }
    assert(s[r] == END);
    lemma_integer_text_end_at(s, 1, 1, r);
    assert(s.subrange(1, r) =~= text);
    if negative {
        assert(text[1] == digits[0]);
    } else {
        assert(text[1] == digits[1]);
    }
}

/// The scan of a string length from `i` on, over digits (the first not zero) up to a `:`, ends at
/// the `:`.
proof fn lemma_length_end_at(s: Seq<u8>, i: int, c: int)
    requires
        0 <= i < c < s.len(),
        s[c] == COLON,
        forall|k: int| 0 <= k < c ==> is_digit(#[trigger] s[k]),
        s[0] != DIGIT_ZERO,
    ensures
        length_end(s, 0, i) == (Ok::<int, DeserializeFailure>(c), c + 1),
    decreases c - i,
{
    if i + 1 < c {
        lemma_length_end_at(s, i + 1, c);
    }
}

/// Every non-empty byte string reads back from its bencode: its length in decimal, a `:`, then
/// its bytes.
pub proof fn lemma_string_read_back(payload: Seq<u8>)
    requires
        1 <= payload.len() <= usize::MAX,
    ensures
        ({
            let s = digit_bytes(payload.len()) + seq![COLON] + payload;
            deserialize_from(s, 0) == (Ok::<_, DeserializeFailure>(BencodeValue::String(payload)), s.len() as int)
        }),
{
    let d = digit_bytes(payload.len());
    lemma_digit_bytes(payload.len());
    let s = d + seq![COLON] + payload;
    let c: int = d.len() as int;
    assert forall|k: int| 0 <= k < c implies is_digit(#[trigger] s[k]) by {
        assert(s[k] == d[k]);
    }
    assert(s[c] == COLON);
    assert(s[0] == d[0]);
    lemma_length_end_at(s, 0, c);
    assert(s.subrange(0, c) =~= d);
    assert(s.subrange(c + 1, c + 1 + payload.len()) =~= payload);
    assert(s[0] != INTEGER_START);
}

/// Every 128-bit integer reads back from its bencode: an `i`, the number in decimal, an `e`.
pub proof fn lemma_integer_read_back(v: i128)
    ensures
        ({
            let s = seq![INTEGER_START] + decimal_bytes(v as int) + seq![END];
            deserialize_from(s, 0) == (Ok::<_, DeserializeFailure>(BencodeValue::Integer(v as int)), s.len() as int)
        }),
{
    let text = decimal_bytes(v as int);
    let s = seq![INTEGER_START] + text + seq![END];
    let m: nat = if v < 0 { (-v) as nat } else { v as nat };
    let digits = digit_bytes(m);
    lemma_digit_bytes(m);
    let r: int = 1 + text.len() as int;
    assert forall|k: int| 1 <= k < r implies is_digit(#[trigger] s[k]) || (k == 1 && s[k] == MINUS) by {
        assert(s[k] == text[k - 1]);
        if v < 0 {
            if k >= 2 {
                assert(text[k - 1] == digits[k - 2]);
            }
        } else {
            assert(text[k - 1] == digits[k - 1]);
        }
    }
    assert(s[r] == END);
    lemma_integer_text_end_at(s, 1, 1, r);
    assert(s.subrange(1, r) =~= text);
    if v < 0 {
        assert(text.drop_first() =~= digits);
        assert(text[1] == digits[0]);
    } else {
        assert(text[0] == digits[0]);
    }
}

/// `regex::Regex::new` and `Regex::is_match` of the regex crate, used here with the one pattern
/// `^0[0-9]`: by the crate's syntax, `^` anchors at the start of the text and `[0-9]` is one
/// character from `0` to `9`, so the text matches exactly when it starts with `0` and such a
/// character.
#[verifier::external_body]
fn regex_is_match(pattern: &str, haystack: &str) -> (r: bool)
    requires
        pattern@ == "^0[0-9]"@,
    ensures
        r == (haystack@.len() >= 2 && haystack@[0] == '0' && '0' <= haystack@[1] <= '9'),
{
    match regex::Regex::new(pattern) {
        Ok(re) => re.is_match(haystack),
        Err(_) => false,
    }
}

/// Reads bencode integers and byte strings from a byte string.
pub struct Deserializer<'a> {
    bytes: &'a [u8],
    pos: usize,
}

impl<'a> View for Deserializer<'a> {
    /// The input and the position reached in it.
    type V = (Seq<u8>, int);

    closed spec fn view(&self) -> (Seq<u8>, int) {
        (self.bytes@, self.pos as int)
    }
}

impl<'a> Deserializer<'a> {
    #[verifier::type_invariant]
    spec fn position_in_input(self) -> bool {
        self.pos <= self.bytes@.len()
    }

    pub fn new(reader: &'a [u8]) -> (d: Self)
        ensures
            d@ == (reader@, 0int),
    {
        Deserializer { bytes: reader, pos: 0 }
    }

    /// Reads exactly one value, which must be followed by the end of the input.
    pub fn parse(&mut self) -> (r: Result<Bencode, DeserializeError>)
        requires
            starts_readable(old(self)@.0, old(self)@.1),
        ensures
            read_outcome(r) == deserialize_from(old(self)@.0, old(self)@.1).0,
            final(self)@.0 == old(self)@.0,
            final(self)@.1 == deserialize_from(old(self)@.0, old(self)@.1).1,
    {
        proof {
            use_type_invariant(&*self);
        }
        let bytes = self.bytes;
        let start = self.pos;
        if start >= bytes.len() {
            return Err(DeserializeError::UnexpectedEof);
        }
        let (res, r) = if bytes[start] == INTEGER_START {
            read_integer(bytes, start + 1)
        } else {
            read_string(bytes, start)
        };
        match res {
            Err(e) => {
                self.pos = r;
                Err(e)
            },
            Ok(v) => {
                if r < bytes.len() {
                    self.pos = r + 1;
                    Err(DeserializeError::ExtraData)
                } else {
                    self.pos = r;
                    Ok(v)
                }
            },
        }
    }
}

/// Reads the body of an integer, from the byte after its `i`.
fn read_integer(bytes: &[u8], q: usize) -> (r: (Result<Bencode, DeserializeError>, usize))
    requires
        q <= bytes@.len(),
    ensures
        read_outcome(r.0) == read_integer_spec(bytes@, q as int).0,
        r.1 == read_integer_spec(bytes@, q as int).1,
        r.1 <= bytes@.len(),
{
    let ghost s = bytes@;
    let len = bytes.len();
    let mut i = q;
    while i < len && bytes[i] != END && ((bytes[i] >= DIGIT_ZERO && bytes[i] <= DIGIT_NINE) || (i == q
        && bytes[i] == MINUS))
        invariant
            q <= i <= bytes@.len(),
            len == bytes@.len(),
            s == bytes@,
            integer_text_end(s, q as int, q as int) == integer_text_end(s, q as int, i as int),
        decreases bytes@.len() - i,
    {
        i = i + 1;
    }
    if i >= len {
        return (Err(DeserializeError::UnexpectedEof), len);
    }
    if bytes[i] != END {
        return (Err(DeserializeError::InvalidIntegerSyntax), i + 1);
    }
    let text = &bytes[q..i];
    assert(text@ =~= s.subrange(q as int, i as int));
    let integer_str = latin1_string(text);
    let malformed = text.len() == 0 || (text.len() >= 2 && text[0] == MINUS && text[1] == DIGIT_ZERO)
        || regex_is_match("^0[0-9]", integer_str.as_str());
    if malformed {
        return (Err(DeserializeError::MalformedInteger(integer_str)), i + 1);
    }
    match bytes_to_i128(text) {
        Some(v) => (Ok(Bencode::Integer(v)), i + 1),
        None => (Err(DeserializeError::IntegerOverflow(integer_str)), i + 1),
    }
}

/// Reads a run of decimal digits, from `start` on, as an unsigned 128-bit number; `None` when
/// the run holds another byte or writes a number above `u128::MAX`.
fn digits_to_u128(bytes: &[u8], start: usize) -> (r: Option<u128>)
    requires
        start <= bytes@.len(),
    ensures
        ({
            let digits = bytes@.skip(start as int);
            match r {
                Some(v) => all_digits(digits) && v == decimal_value(digits),
                None => !all_digits(digits) || decimal_value(digits) > u128::MAX,
            }
        }),
{
    let ghost digits = bytes@.skip(start as int);
    let mut value: u128 = 0;
    let mut i: usize = start;
    while i < bytes.len()
        invariant
            start <= i <= bytes@.len(),
            digits == bytes@.skip(start as int),
            all_digits(digits.take(i - start)),
            value == decimal_value(digits.take(i - start)),
        decreases bytes@.len() - i,
    {
        let b = bytes[i];
        let ghost k: int = i - start;
        assert(digits.take(k + 1).drop_last() =~= digits.take(k));
        assert(digits.take(k + 1).last() == b);
        if b < DIGIT_ZERO || b > DIGIT_NINE {
            assert(!is_digit(digits[k]));
            return None;
        }
        assert(all_digits(digits.take(k + 1))) by {
            assert forall|j: int| 0 <= j < k + 1 implies #[trigger] is_digit(digits.take(k + 1)[j]) by {
                if j < k {
                    assert(digits.take(k + 1)[j] == digits.take(k)[j]);
                }
            }
        }
        let next = match value.checked_mul(10) {
            Some(t) => t.checked_add((b - DIGIT_ZERO) as u128),
            None => None,
        };
        match next {
            Some(v) => {
                value = v;
            },
            None => {
                proof {
                    if all_digits(digits) {
                        lemma_decimal_value_prefix(digits, k + 1);
                    }
                }
                return None;
            },
        }
        i = i + 1;
    }
    assert(digits.take(i - start) =~= digits);
    Some(value)
}

/// Parses the bytes, read one character per byte, as a signed 128-bit integer, like
/// `str::parse::<i128>`.
fn bytes_to_i128(bytes: &[u8]) -> (r: Option<i128>)
    ensures
        r == parse_i128(bytes@),
{
    let negative = bytes.len() > 0 && bytes[0] == MINUS;
    let start: usize = if bytes.len() > 0 && (bytes[0] == MINUS || bytes[0] == PLUS) { 1 } else { 0 };
    let ghost digits = bytes@.skip(start as int);
    assert(digits =~= if bytes@.len() > 0 && (bytes@[0] == MINUS || bytes@[0] == PLUS) {
        bytes@.drop_first()
    } else {
        bytes@
    });
    if start == bytes.len() {
        return None;
    }
    match digits_to_u128(bytes, start) {
        None => None,
        Some(magnitude) => {
            if negative {
                if magnitude <= 170141183460469231731687303715884105727 {
                    Some(-(magnitude as i128))
                } else if magnitude == 170141183460469231731687303715884105728 {
                    Some(i128::MIN)
                } else {
                    None
                }
            } else if magnitude <= 170141183460469231731687303715884105727 {
                Some(magnitude as i128)
            } else {
                None
            }
        },
    }
}

/// Reads a byte string whose length begins at `p`.
fn read_string(bytes: &[u8], p: usize) -> (r: (Result<Bencode, DeserializeError>, usize))
    requires
        p < bytes@.len(),
    ensures
        read_outcome(r.0) == read_string_spec(bytes@, p as int).0,
        r.1 == read_string_spec(bytes@, p as int).1,
        r.1 <= bytes@.len(),
{
    let ghost s = bytes@;
    let len = bytes.len();
    let mut i = p;
    while i + 1 < len && ((i == p && bytes[i] > DIGIT_ZERO && bytes[i] <= DIGIT_NINE) || (i > p
        && bytes[i] >= DIGIT_ZERO && bytes[i] <= DIGIT_NINE)) && bytes[i + 1] != COLON
        invariant
            p <= i < bytes@.len(),
            len == bytes@.len(),
            s == bytes@,
            length_end(s, p as int, p as int) == length_end(s, p as int, i as int),
            forall|j: int| p <= j < i ==> is_digit(#[trigger] s[j]),
        decreases bytes@.len() - i,
    {
        i = i + 1;
    }
    if !((i == p && bytes[i] > DIGIT_ZERO && bytes[i] <= DIGIT_NINE) || (i > p && bytes[i] >= DIGIT_ZERO
        && bytes[i] <= DIGIT_NINE)) {
        return (Err(DeserializeError::InvalidLength), i + 1);
    }
    if i + 1 >= len {
        return (Err(DeserializeError::UnexpectedEof), len);
    }
    let colon = i + 1;
    let digits = &bytes[p..colon];
    assert(digits@ =~= s.subrange(p as int, colon as int));
    assert forall|j: int| 0 <= j < digits@.len() implies is_digit(#[trigger] digits@[j]) by {
        assert(digits@[j] == s[p + j]);
    }
    let n = match bytes_to_length(digits) {
        Ok(n) => n,
        Err(_) => {
            return (Err(DeserializeError::LengthOverflow(latin1_string(digits))), colon + 1);
        },
    };
    let after = colon + 1;
    if len - after < n {
        return (Err(DeserializeError::UnexpectedEof), len);
    }
    let contents = vstd::slice::slice_to_vec(&bytes[after..after + n]);
    assert(contents@ =~= s.subrange(after as int, after + n));
    (Ok(Bencode::String(contents)), after + n)
}

} // verus!
