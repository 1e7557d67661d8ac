//! Promises of the bencode format that hold of every input.

use vstd::prelude::*;

use vstd::utf8::{decode_utf8, valid_utf8};

use crate::protocol::ascii::{DICT_START, DIGIT_ZERO, END, INTEGER_START, LIST_START, MINUS};
use crate::protocol::decoder::error::DecodeFailure;
use crate::protocol::decoder::grammar::{
    decode_from, decode_spec, digits_end, lemma_digits_end, parse_dict, parse_integer, parse_list,
    parse_string_bytes, parse_value,
};
use crate::protocol::decoder::util::{all_digits, decimal_value, is_digit};
use crate::protocol::encoding::lemma_digits_end_at;
use crate::protocol::BencodeValue;

verus! {

/// All encodings of integers with a leading zero, such as `i03e` or `i-03e`, are invalid.
pub proof fn lemma_leading_zero_rejected(negative: bool, digits: Seq<u8>)
    requires
        all_digits(digits),
        digits.len() >= 2,
        digits[0] == DIGIT_ZERO,
    ensures
        decode_spec(
            seq![INTEGER_START] + (if negative { seq![MINUS] } else { Seq::empty() }) + digits
                + seq![END],
        ) == Err::<BencodeValue, _>(DecodeFailure::IntegerLeadingZero),
{
    let sign: Seq<u8> = if negative { seq![MINUS] } else { Seq::empty() };
    let s = seq![INTEGER_START] + sign + digits + seq![END];
    let start: int = 1 + sign.len() as int;
    let r: int = start + digits.len();
    assert forall|k: int| start <= k < r implies is_digit(#[trigger] s[k]) by {
        assert(s[k] == digits[k - start]);
    }
    assert(s[r] == END);
    lemma_digits_end_at(s, 2, r);
    assert(s.subrange(start, r) =~= digits);
    if !negative {
        assert(s[1] == digits[0]);
    }
}

/// Dictionary keys must be strings: a dictionary whose first key does not start with a digit is
/// refused.
pub proof fn lemma_dictionary_key_must_be_string(s: Seq<u8>)
    requires
        s.len() >= 2,
        s[0] == DICT_START,
        s[1] != END,
        !is_digit(s[1]),
    ensures
        decode_spec(s) == Err::<BencodeValue, _>(DecodeFailure::DictionaryInvalidKeyType),
{
}

/// A successful decoding has read the input up to its end.
pub proof fn lemma_decode_consumes_all(s: Seq<u8>, start: int)
    requires
        0 <= start,
    ensures
        decode_from(s, start).0 is Ok ==> decode_from(s, start).1 == s.len(),
{
    if start < s.len() {
        lemma_parse_value_in_bounds(s, start);
    }
}

/// Reading a value from a position inside the input ends inside it, past the position.
pub proof fn lemma_parse_value_in_bounds(s: Seq<u8>, p: int)
    requires
        0 <= p < s.len(),
    ensures
        p < parse_value(s, p).1 <= s.len(),
    decreases s.len() - p, 0int,
{
    let head = s[p];
    if head == INTEGER_START {
        if p + 1 < s.len() {
            lemma_digits_end(s, p + 2);
        }
    } else if is_digit(head) {
        lemma_digits_end(s, p + 1);
    } else if head == LIST_START {
        lemma_parse_list_in_bounds(s, p + 1, Seq::empty());
    } else if head == DICT_START {
        lemma_parse_dict_in_bounds(s, p + 1, Map::empty(), None);
    }
}

/// Reading the rest of a list ends inside the input, at or past where it starts.
proof fn lemma_parse_list_in_bounds(s: Seq<u8>, q: int, items: Seq<BencodeValue>)
    requires
        0 < q <= s.len(),
    ensures
        q <= parse_list(s, q, items).1 <= s.len(),
    decreases s.len() - q, 1int,
{
    if q < s.len() && s[q] != END {
        lemma_parse_value_in_bounds(s, q);
        let (res, r) = parse_value(s, q);
        if res is Ok {
            lemma_parse_list_in_bounds(s, r, items.push(res->Ok_0));
        }
    }
}

/// Reading the rest of a dictionary ends inside the input, at or past where it starts.
proof fn lemma_parse_dict_in_bounds(
    s: Seq<u8>,
    q: int,
    entries: Map<Seq<char>, BencodeValue>,
    last: Option<Seq<u8>>,
)
    requires
        0 < q <= s.len(),
    ensures
        q <= parse_dict(s, q, entries, last).1 <= s.len(),
    decreases s.len() - q, 1int,
{
    if q < s.len() && s[q] != END && is_digit(s[q]) {
        lemma_digits_end(s, q + 1);
        let (key, r) = parse_string_bytes(s, q);
        if key is Ok && valid_utf8(key->Ok_0) && r < s.len() && r > q {
            lemma_parse_value_in_bounds(s, r);
            let (res, r2) = parse_value(s, r);
            if res is Ok && r < r2 <= s.len() {
                lemma_parse_dict_in_bounds(s, r2, entries.insert(decode_utf8(key->Ok_0), res->Ok_0), Some(key->Ok_0));
            }
        }
    }
}

/// The text of a well-formed integer: an optional `-`, then at least one digit, no leading zero
/// unless the number is `0` itself, not `-0`, and a magnitude that fits an `i64`.
pub open spec fn integer_text(m: Seq<u8>) -> bool {
    let negative = m.len() > 0 && m[0] == MINUS;
    let d = if negative { m.drop_first() } else { m };
    &&& d.len() > 0
    &&& all_digits(d)
    &&& (d.len() == 1 || d[0] != DIGIT_ZERO)
    &&& !(negative && decimal_value(d) == 0)
    &&& decimal_value(d) <= i64::MAX
}

/// The number that a well-formed integer text writes.
pub open spec fn integer_text_value(m: Seq<u8>) -> int {
    if m.len() > 0 && m[0] == MINUS {
        -decimal_value(m.drop_first())
    } else {
        decimal_value(m) as int
    }
}

/// An integer body that is a well-formed integer text followed by `e` reads as its number, and
/// the reading ends right after the `e`.
pub proof fn lemma_integer_accepted(s: Seq<u8>, q: int, e: int)
    requires
        0 <= q <= e < s.len(),
        s[e] == END,
        integer_text(s.subrange(q, e)),
    ensures
        parse_integer(s, q) == (
            Ok::<_, DecodeFailure>(BencodeValue::Integer(integer_text_value(s.subrange(q, e)))),
            e + 1,
        ),
{
    let m = s.subrange(q, e);
    let negative = m[0] == MINUS;
    let start = if negative { q + 1 } else { q };
    assert(s[q] == m[0]);
    assert forall|k: int| start <= k < e implies is_digit(#[trigger] s[k]) by {
        assert(s[k] == m[k - q]);
        if negative {
            assert(m.drop_first()[k - q - 1] == m[k - q]);
        }
    }
    if !negative {
        assert(is_digit(m[0]));
    }
    lemma_digits_end_at(s, q + 1, e);
    assert(s.subrange(start, e) =~= if negative { m.drop_first() } else { m });
}

/// An integer body reads as a number only when it is a well-formed integer text followed by `e`;
/// it then reads as that text's number and ends right after the `e`.
pub proof fn lemma_integer_only_well_formed(s: Seq<u8>, q: int)
    requires
        0 <= q,
        parse_integer(s, q).0 is Ok,
    ensures
        ({
            let e = parse_integer(s, q).1 - 1;
            &&& q <= e < s.len()
            &&& s[e] == END
            &&& integer_text(s.subrange(q, e))
            &&& parse_integer(s, q).0 == Ok::<_, DecodeFailure>(
                BencodeValue::Integer(integer_text_value(s.subrange(q, e))),
            )
        }),
{
    lemma_digits_end(s, q + 1);
    let r = digits_end(s, q + 1);
    let m = s.subrange(q, r);
    let negative = s[q] == MINUS;
    let start = if negative { q + 1 } else { q };
    let d = s.subrange(start, r);
    assert(m[0] == s[q]);
    assert(d =~= if negative { m.drop_first() } else { m });
    assert forall|k: int| 0 <= k < d.len() implies #[trigger] is_digit(d[k]) by {
        assert(d[k] == s[start + k]);
    }
}

} // verus!
