//! The bencode of a value, and what decoding it gives back.

use vstd::prelude::*;
use vstd::utf8::{decode_utf8, encode_utf8, valid_utf8};

use crate::protocol::ascii::{COLON, DICT_START, DIGIT_ZERO, END, INTEGER_START, LIST_START, MINUS};
use crate::protocol::bytes_order::bytes_lt;
use crate::protocol::decoder::error::DecodeFailure;
use crate::protocol::decoder::grammar::{
    decode_from, decode_spec, digits_end, parse_dict, parse_integer, parse_list, parse_string_bytes,
    parse_value,
};
use crate::protocol::decoder::util::{all_digits, decimal_value, is_digit};
use crate::protocol::dict::{entries_map, key_bytes, keys_sorted};
use crate::protocol::{values_of, Bencode, BencodeValue};

verus! {

broadcast use vstd::utf8::encode_utf8_decode_utf8, vstd::utf8::encode_utf8_valid_utf8,
    crate::protocol::dict::lemma_entries_seq_decreases;

/// The decimal digits of a natural number as ASCII bytes, most significant first, without
/// leading zeros.
pub open spec fn digit_bytes(n: nat) -> Seq<u8>
    decreases n,
{
    if n < 10 {
        seq![(n + 48) as u8]
    } else {
        digit_bytes(n / 10).push((n % 10 + 48) as u8)
    }
}

/// An integer in decimal as ASCII bytes, with a `-` before negative ones.
pub open spec fn decimal_bytes(n: int) -> Seq<u8> {
    if n < 0 {
        seq![MINUS] + digit_bytes((-n) as nat)
    } else {
        digit_bytes(n as nat)
    }
}

/// A byte string: its length in decimal, a `:` and the bytes.
pub open spec fn encode_bytes(bytes: Seq<u8>) -> Seq<u8> {
    digit_bytes(bytes.len()) + seq![COLON] + bytes
}

/// The bencode of a value, dictionary entries in the order the dictionary keeps them.
pub open spec fn encode(b: Bencode) -> Seq<u8>
    decreases b, 0nat,
{
    match b {
        Bencode::Integer(n) => seq![INTEGER_START] + decimal_bytes(n as int) + seq![END],
        Bencode::String(bytes) => encode_bytes(bytes@),
        Bencode::List(items) => seq![LIST_START] + encode_items(items@) + seq![END],
        Bencode::Dictionary(d) => seq![DICT_START] + encode_entries(d.entries_seq()) + seq![END],
    }
}

/// The bencodes of values, one after the other.
pub open spec fn encode_items(items: Seq<Bencode>) -> Seq<u8>
    decreases items, 0nat,
{
    if items.len() == 0 {
        Seq::empty()
    } else {
        encode_items(items.subrange(0, items.len() - 1)) + encode(items[items.len() - 1])
    }
}

/// The bencode of one dictionary entry: its key as a byte string, then its value.
pub open spec fn encode_entry(entry: (String, Bencode)) -> Seq<u8>
    decreases entry.1, 1nat,
{
    encode_bytes(key_bytes(entry.0@)) + encode(entry.1)
}

/// The bencodes of dictionary entries, one after the other.
pub open spec fn encode_entries(entries: Seq<(String, Bencode)>) -> Seq<u8>
    decreases entries, 0nat,
{
    if entries.len() == 0 {
        Seq::empty()
    } else {
        encode_entries(entries.subrange(0, entries.len() - 1)) + encode_entry(
            entries[entries.len() - 1],
        )
    }
}

/// A value that bencode can carry through this decoder: no integer is `i64::MIN` (its magnitude
/// does not fit a positive `i64`), every key's UTF-8 length fits a `usize`, and every dictionary's
/// keys are in strictly increasing byte order (which every `BencodeDict` keeps as its invariant).
pub open spec fn encodable(b: Bencode) -> bool
    decreases b, 0nat,
{
    match b {
        Bencode::Integer(n) => n != i64::MIN,
        Bencode::String(_) => true,
        Bencode::List(items) => items_encodable(items@),
        Bencode::Dictionary(d) => keys_sorted(d.entries_seq()) && entries_encodable(d.entries_seq()),
    }
}

/// Every value is encodable.
pub open spec fn items_encodable(items: Seq<Bencode>) -> bool
    decreases items, 0nat,
{
    if items.len() == 0 {
        true
    } else {
        items_encodable(items.subrange(0, items.len() - 1)) && encodable(items[items.len() - 1])
    }
}

/// Every entry's key fits and its value is encodable.
pub open spec fn entries_encodable(entries: Seq<(String, Bencode)>) -> bool
    decreases entries, 0nat,
{
    if entries.len() == 0 {
        true
    } else {
        let last = entries[entries.len() - 1];
        entries_encodable(entries.subrange(0, entries.len() - 1)) && key_bytes(last.0@).len()
            <= usize::MAX && encodable(last.1)
    }
}

/// The decimal digits of a number are digits, the first is `0` only for zero, and they write
/// the number.
pub proof fn lemma_digit_bytes(n: nat)
    ensures
        digit_bytes(n).len() >= 1,
        all_digits(digit_bytes(n)),
        digit_bytes(n)[0] == DIGIT_ZERO ==> n == 0 && digit_bytes(n).len() == 1,
        decimal_value(digit_bytes(n)) == n,
    decreases n,
{
    if n >= 10 {
        lemma_digit_bytes(n / 10);
        let prefix = digit_bytes(n / 10);
        let d = digit_bytes(n);
        assert(d.drop_last() =~= prefix);
        assert(d[0] == prefix[0]);
        assert(d.last() == (n % 10 + 48) as u8);
        assert(((n % 10 + 48) as u8) - 48 == n % 10);
        assert(decimal_value(d) == decimal_value(prefix) * 10 + n % 10);
        assert((n / 10) * 10 + n % 10 == n);
        assert forall|i: int| 0 <= i < d.len() implies #[trigger] is_digit(d[i]) by {
            if i < prefix.len() {
                assert(d[i] == prefix[i]);
            }
        }
    } else {
        let d = digit_bytes(n);
        assert(d.drop_last() =~= Seq::<u8>::empty());
        assert(d.last() == (n + 48) as u8);
        assert(((n + 48) as u8) - 48 == n);
        assert(decimal_value(d.drop_last()) == 0);
    }
}

/// A run of digits from `i` up to a non-digit (or the end) at `j` ends at `j`.
pub proof fn lemma_digits_end_at(s: Seq<u8>, i: int, j: int)
    requires
        0 <= i <= j <= s.len(),
        forall|k: int| i <= k < j ==> is_digit(#[trigger] s[k]),
        j == s.len() || !is_digit(s[j]),
    ensures
        digits_end(s, i) == j,
    decreases j - i,
{
    if i < j {
        lemma_digits_end_at(s, i + 1, j);
    }
}

/// The bytes of `s` from `p` on are `e`, followed by anything.
pub open spec fn holds_at(s: Seq<u8>, p: int, e: Seq<u8>) -> bool {
    0 <= p && p + e.len() <= s.len() && s.subrange(p, p + e.len()) == e
}

/// Reading the encoding of an integer other than `i64::MIN` gives the integer back.
pub proof fn lemma_parse_encoded_integer(n: i64, s: Seq<u8>, p: int)
    requires
        n != i64::MIN,
        holds_at(s, p, seq![INTEGER_START] + decimal_bytes(n as int) + seq![END]),
    ensures
        parse_value(s, p) == (
            Ok::<_, DecodeFailure>(BencodeValue::Integer(n as int)),
            p + decimal_bytes(n as int).len() + 2,
        ),
{
    let d = decimal_bytes(n as int);
    let e = seq![INTEGER_START] + d + seq![END];
    let m: nat = if n < 0 { (-n) as nat } else { n as nat };
    let digits = digit_bytes(m);
    lemma_digit_bytes(m);
    assert forall|k: int| 0 <= k < e.len() implies s[p + k] == #[trigger] e[k] by {
        assert(s.subrange(p, p + e.len())[k] == s[p + k]);
    }
    let q = p + 1;
    let start = if n < 0 { q + 1 } else { q };
    let r = p + 1 + d.len();
    assert(s[p] == INTEGER_START) by { assert(e[0] == INTEGER_START); }
    assert(s[r] == END) by { assert(e[d.len() as int + 1] == END); }
    assert forall|k: int| start <= k < r implies is_digit(#[trigger] s[k]) by {
        assert(e[k - p] == s[k]);
        if n < 0 {
            assert(d[k - p - 1] == digits[k - p - 2]);
        } else {
            assert(d[k - p - 1] == digits[k - p - 1]);
        }
    }
    assert(s[q] == e[1]);
    assert(e[1] == d[0]);
    if n < 0 {
        assert(d[0] == MINUS);
    } else {
        assert(d[0] == digits[0]);
        assert(is_digit(digits[0]));
    }
    lemma_digits_end_at(s, q + 1, r);
    assert(s.subrange(start, r) =~= digits) by {
        assert forall|k: int| 0 <= k < r - start implies s.subrange(start, r)[k] == digits[k] by {
            assert(s[start + k] == e[start + k - p]);
            if n < 0 {
                assert(d[start + k - p - 1] == digits[k]);
            } else {
                assert(d[start + k - p - 1] == digits[k]);
            }
        }
    }
}

/// Reading the encoding of a byte string whose length fits a `usize` gives the bytes back.
pub proof fn lemma_parse_encoded_bytes(bytes: Seq<u8>, s: Seq<u8>, p: int)
    requires
        bytes.len() <= usize::MAX,
        holds_at(s, p, encode_bytes(bytes)),
    ensures
        is_digit(s[p]),
        parse_string_bytes(s, p) == (
            Ok::<_, DecodeFailure>(bytes),
            p + encode_bytes(bytes).len(),
        ),
{
    let e = encode_bytes(bytes);
    let digits = digit_bytes(bytes.len());
    lemma_digit_bytes(bytes.len());
    assert forall|k: int| 0 <= k < e.len() implies s[p + k] == #[trigger] e[k] by {
        assert(s.subrange(p, p + e.len())[k] == s[p + k]);
    }
    let r = p + digits.len();
    assert forall|k: int| p <= k < r implies is_digit(#[trigger] s[k]) by {
        assert(e[k - p] == digits[k - p]);
    }
    assert(s[p] == e[0] && e[0] == digits[0]);
    assert(s[r] == COLON) by { assert(e[digits.len() as int] == COLON); }
    lemma_digits_end_at(s, p + 1, r);
    assert(s.subrange(p, r) =~= digits) by {
        assert forall|k: int| 0 <= k < r - p implies s.subrange(p, r)[k] == digits[k] by {
            assert(s[p + k] == e[k]);
        }
    }
    assert(s.subrange(r + 1, r + 1 + bytes.len()) =~= bytes) by {
        assert forall|k: int| 0 <= k < bytes.len() implies s.subrange(r + 1, r + 1 + bytes.len())[k]
            == bytes[k] by {
            assert(s[r + 1 + k] == e[digits.len() + 1 + k]);
        }
    }
}

/// The encodings of the first `k` values begin the encodings of all of them.
pub proof fn lemma_encode_items_prefix(items: Seq<Bencode>, k: int)
    requires
        0 <= k <= items.len(),
    ensures
        encode_items(items.take(k)).len() <= encode_items(items).len(),
        encode_items(items).subrange(0, encode_items(items.take(k)).len() as int) == encode_items(
            items.take(k),
        ),
    decreases items.len() - k,
{
    if k == items.len() {
        assert(items.take(k) =~= items);
    } else {
        lemma_encode_items_prefix(items, k + 1);
        let next = items.take(k + 1);
        assert(next.subrange(0, k) =~= items.take(k));
        let a = encode_items(items.take(k));
        let b = encode_items(next);
        assert(b.subrange(0, a.len() as int) =~= a);
        assert(encode_items(items).subrange(0, a.len() as int) =~= b.subrange(0, a.len() as int));
    }
}

/// The encodings of the first `k` entries begin the encodings of all of them.
pub proof fn lemma_encode_entries_prefix(entries: Seq<(String, Bencode)>, k: int)
    requires
        0 <= k <= entries.len(),
    ensures
        encode_entries(entries.take(k)).len() <= encode_entries(entries).len(),
        encode_entries(entries).subrange(0, encode_entries(entries.take(k)).len() as int)
            == encode_entries(entries.take(k)),
    decreases entries.len() - k,
{
    if k == entries.len() {
        assert(entries.take(k) =~= entries);
    } else {
        lemma_encode_entries_prefix(entries, k + 1);
        let next = entries.take(k + 1);
        assert(next.subrange(0, k) =~= entries.take(k));
        let a = encode_entries(entries.take(k));
        let b = encode_entries(next);
        assert(b.subrange(0, a.len() as int) =~= a);
        assert(encode_entries(entries).subrange(0, a.len() as int) =~= b.subrange(0, a.len() as int));
    }
}

/// Each of encodable values is encodable.
pub proof fn lemma_items_encodable(items: Seq<Bencode>, k: int)
    requires
        items_encodable(items),
        0 <= k < items.len(),
    ensures
        encodable(items[k]),
    decreases items.len(),
{
    let n = items.len() - 1;
    if k < n {
        lemma_items_encodable(items.subrange(0, n), k);
        assert(items.subrange(0, n)[k] == items[k]);
    }
}

/// Each entry of encodable entries has a fitting key and an encodable value.
pub proof fn lemma_entries_encodable(entries: Seq<(String, Bencode)>, k: int)
    requires
        entries_encodable(entries),
        0 <= k < entries.len(),
    ensures
        key_bytes(entries[k].0@).len() <= usize::MAX,
        encodable(entries[k].1),
    decreases entries.len(),
{
    let n = entries.len() - 1;
    if k < n {
        lemma_entries_encodable(entries.subrange(0, n), k);
        assert(entries.subrange(0, n)[k] == entries[k]);
    }
}

/// An encoding is not empty, and does not begin with `e`.
pub proof fn lemma_encode_head(b: Bencode)
    ensures
        encode(b).len() >= 1,
        encode(b)[0] != END,
{
    match b {
        Bencode::String(bytes) => {
            lemma_digit_bytes(bytes@.len());
            assert(is_digit(digit_bytes(bytes@.len())[0]));
            assert(encode(b)[0] == digit_bytes(bytes@.len())[0]);
        },
        _ => {},
    }
}

/// The part of `s` from `p`, given that `s` holds `a + b` at `p`, holds `b` after `a`.
pub proof fn lemma_holds_at_split(s: Seq<u8>, p: int, a: Seq<u8>, b: Seq<u8>)
    requires
        holds_at(s, p, a + b),
    ensures
        holds_at(s, p, a),
        holds_at(s, p + a.len(), b),
{
    let w = s.subrange(p, p + (a + b).len());
    assert(w == a + b);
    assert(s.subrange(p, p + a.len()) =~= w.subrange(0, a.len() as int));
    assert((a + b).subrange(0, a.len() as int) =~= a);
    assert(s.subrange(p + a.len(), p + a.len() + b.len()) =~= w.subrange(
        a.len() as int,
        (a + b).len() as int,
    ));
    assert((a + b).subrange(a.len() as int, (a + b).len() as int) =~= b);
}

/// Reading the encoding of an encodable value, from where it starts in `s`, gives the value and
/// ends right after the encoding.
pub proof fn lemma_parse_encoded(b: Bencode, s: Seq<u8>, p: int)
    requires
        encodable(b),
        holds_at(s, p, encode(b)),
    ensures
        parse_value(s, p) == (Ok::<_, DecodeFailure>(b.value()), p + encode(b).len()),
    decreases b, 0nat,
{
    match b {
        Bencode::Integer(n) => {
            lemma_parse_encoded_integer(n, s, p);
        },
        Bencode::String(bytes) => {
            vstd::std_specs::vec::axiom_spec_len(&bytes);
            lemma_parse_encoded_bytes(bytes@, s, p);
        },
        Bencode::List(items) => {
            let body = encode_items(items@) + seq![END];
            assert(encode(b) =~= seq![LIST_START] + body);
            lemma_holds_at_split(s, p, seq![LIST_START], body);
            assert(s[p] == LIST_START) by {
                assert(s.subrange(p, p + 1)[0] == s[p]);
            }
            lemma_parse_encoded_items(items@, s, p + 1, 0);
            assert(items@.take(0) =~= Seq::<Bencode>::empty());
            assert(values_of(Seq::<Bencode>::empty()) =~= Seq::<BencodeValue>::empty());
        },
        Bencode::Dictionary(d) => {
            let body = encode_entries(d.entries_seq()) + seq![END];
            assert(encode(b) =~= seq![DICT_START] + body);
            lemma_holds_at_split(s, p, seq![DICT_START], body);
            assert(s[p] == DICT_START) by {
                assert(s.subrange(p, p + 1)[0] == s[p]);
            }
            lemma_parse_encoded_entries(d.entries_seq(), s, p + 1, 0);
            assert(previous_key(d.entries_seq(), 0) is None);
            assert(d.entries_seq().take(0) =~= Seq::<(String, Bencode)>::empty());
        },
    }
}

/// Reading the rest of a list, after its first `k` elements, from where their encodings end.
pub proof fn lemma_parse_encoded_items(items: Seq<Bencode>, s: Seq<u8>, q: int, k: int)
    requires
        0 <= k <= items.len(),
        items_encodable(items),
        holds_at(s, q, encode_items(items) + seq![END]),
    ensures
        parse_list(s, q + encode_items(items.take(k)).len(), values_of(items.take(k))) == (
            Ok::<_, DecodeFailure>(BencodeValue::List(values_of(items))),
            q + encode_items(items).len() + 1,
        ),
    decreases items, items.len() - k,
{
    let all = encode_items(items);
    lemma_holds_at_split(s, q, all, seq![END]);
    lemma_encode_items_prefix(items, k);
    let done = encode_items(items.take(k));
    let pos = q + done.len();
    if k == items.len() {
        assert(items.take(k) =~= items);
        assert(s[pos] == END) by {
            assert(s.subrange(pos, pos + 1)[0] == s[pos]);
        }
    } else {
        let item = items[k];
        let next = items.take(k + 1);
        assert(next.subrange(0, k) =~= items.take(k));
        assert(next[k] == item);
        lemma_encode_items_prefix(items, k + 1);
        let enc = encode(item);
        assert(encode_items(next) == done + enc);
        assert(holds_at(s, q, encode_items(next))) by {
            assert(s.subrange(q, q + encode_items(next).len()) =~= all.subrange(0, encode_items(next).len() as int));
        }
        lemma_holds_at_split(s, q, done, enc);
        lemma_items_encodable(items, k);
        lemma_encode_head(item);
        assert(s[pos] != END) by {
            assert(s.subrange(pos, pos + enc.len())[0] == s[pos]);
        }
        lemma_parse_encoded(item, s, pos);
        assert(values_of(next) == values_of(items.take(k)).push(item.value()));
        lemma_parse_encoded_items(items, s, q, k + 1);
    }
}

/// The bytes of the key of the entry before the `k`-th, if there is one.
pub open spec fn previous_key(entries: Seq<(String, Bencode)>, k: int) -> Option<Seq<u8>> {
    if k == 0 {
        None
    } else {
        Some(key_bytes(entries[k - 1].0@))
    }
}

/// Reading the rest of a dictionary, after its first `k` entries, from where their encodings end.
pub proof fn lemma_parse_encoded_entries(entries: Seq<(String, Bencode)>, s: Seq<u8>, q: int, k: int)
    requires
        0 <= k <= entries.len(),
        keys_sorted(entries),
        entries_encodable(entries),
        holds_at(s, q, encode_entries(entries) + seq![END]),
    ensures
        parse_dict(
            s,
            q + encode_entries(entries.take(k)).len(),
            entries_map(entries.take(k)),
            previous_key(entries, k),
        ) == (
            Ok::<_, DecodeFailure>(BencodeValue::Dictionary(entries_map(entries))),
            q + encode_entries(entries).len() + 1,
        ),
    decreases entries, entries.len() - k,
{
    let all = encode_entries(entries);
    lemma_holds_at_split(s, q, all, seq![END]);
    lemma_encode_entries_prefix(entries, k);
    let done = encode_entries(entries.take(k));
    let pos = q + done.len();
    if k == entries.len() {
        assert(entries.take(k) =~= entries);
        assert(s[pos] == END) by {
            assert(s.subrange(pos, pos + 1)[0] == s[pos]);
        }
    } else {
        let entry = entries[k];
        let next = entries.take(k + 1);
        assert(next.subrange(0, k) =~= entries.take(k));
        assert(next[k] == entry);
        lemma_encode_entries_prefix(entries, k + 1);
        let key = key_bytes(entry.0@);
        let key_enc = encode_bytes(key);
        let value_enc = encode(entry.1);
        assert(encode_entry(entry) == key_enc + value_enc);
        assert(encode_entries(next) == encode_entries(next.subrange(0, k)) + encode_entry(next[k]));
        assert(encode_entries(next) =~= done + (key_enc + value_enc));
        assert(holds_at(s, q, encode_entries(next))) by {
            assert(s.subrange(q, q + encode_entries(next).len()) =~= all.subrange(0, encode_entries(next).len() as int));
        }
        lemma_holds_at_split(s, q, done, key_enc + value_enc);
        lemma_holds_at_split(s, pos, key_enc, value_enc);
        lemma_entries_encodable(entries, k);
        lemma_parse_encoded_bytes(key, s, pos);
        lemma_encode_head(entry.1);
        let r = pos + key_enc.len();
        assert(r < s.len());
        assert(decreases_to!(entries => entries[k]));
        assert(decreases_to!(entries[k] => entries[k].1));
        lemma_parse_encoded(entry.1, s, r);
        assert(is_digit(s[pos]));
        assert(decode_utf8(key) == entry.0@);
        if k > 0 {
            assert(bytes_lt(key_bytes(entries[k - 1].0@), key_bytes(entries[k].0@)));
        }
        assert(entries_map(next) == entries_map(entries.take(k)).insert(entry.0@, entry.1.value()));
        lemma_parse_encoded_entries(entries, s, q, k + 1);
    }
}

/// Reading a dictionary's body whose first key is `first`, its value `value`, and whose second key
/// `second` does not sort after `first`, ends in `DictionaryUnsortedKeys`.
proof fn lemma_unsorted_keys_at(s: Seq<u8>, p: int, first: Seq<u8>, value: Bencode, second: Seq<u8>)
    requires
        0 < p,
        valid_utf8(first),
        valid_utf8(second),
        first.len() <= usize::MAX,
        second.len() <= usize::MAX,
        encodable(value),
        !bytes_lt(first, second),
        holds_at(s, p, encode_bytes(first)),
        holds_at(s, p + encode_bytes(first).len(), encode(value)),
        holds_at(s, p + encode_bytes(first).len() + encode(value).len(), encode_bytes(second)),
    ensures
        parse_dict(s, p, Map::empty(), None).0 == Err::<BencodeValue, _>(
            DecodeFailure::DictionaryUnsortedKeys,
        ),
{
    let r: int = p + encode_bytes(first).len();
    let r2: int = r + encode(value).len();
    lemma_parse_encoded_bytes(first, s, p);
    lemma_encode_head(value);
    lemma_parse_encoded(value, s, r);
    lemma_parse_encoded_bytes(second, s, r2);
    let after_first = Map::<Seq<char>, BencodeValue>::empty().insert(decode_utf8(first), value.value());
    assert(parse_dict(s, r2, after_first, Some(first)).0 == Err::<BencodeValue, _>(
        DecodeFailure::DictionaryUnsortedKeys,
    ));
}

/// Keys must appear in sorted order: a dictionary whose second key does not sort strictly after
/// its first, as raw bytes, is refused with `DictionaryUnsortedKeys`, whatever follows.
pub proof fn lemma_unsorted_keys_rejected(
    first: Seq<u8>,
    value: Bencode,
    second: Seq<u8>,
    rest: Seq<u8>,
)
    requires
        valid_utf8(first),
        valid_utf8(second),
        first.len() <= usize::MAX,
        second.len() <= usize::MAX,
        encodable(value),
        !bytes_lt(first, second),
    ensures
        decode_spec(
            seq![DICT_START] + encode_bytes(first) + encode(value) + encode_bytes(second) + rest,
        ) == Err::<BencodeValue, _>(DecodeFailure::DictionaryUnsortedKeys),
{
    let e1 = encode_bytes(first);
    let ev = encode(value);
    let e2 = encode_bytes(second);
    let s = seq![DICT_START] + e1 + ev + e2 + rest;
    let a: int = 1 + e1.len() as int;
    let b: int = a + ev.len() as int;
    assert(holds_at(s, 1, e1) && holds_at(s, a, ev) && holds_at(s, b, e2)) by {
        let t = seq![DICT_START] + (e1 + (ev + (e2 + rest)));
        assert(s =~= t);
        assert(holds_at(s, 0, s)) by {
            assert(s.subrange(0, s.len() as int) =~= s);
        }
        lemma_holds_at_split(s, 0, seq![DICT_START], e1 + (ev + (e2 + rest)));
        lemma_holds_at_split(s, 1, e1, ev + (e2 + rest));
        lemma_holds_at_split(s, a, ev, e2 + rest);
        lemma_holds_at_split(s, b, e2, rest);
    }
    lemma_unsorted_keys_at(s, 1, first, value, second);
    assert(s[0] == DICT_START);
}

/// Decoding the bencode of an encodable value gives the value back.
pub proof fn lemma_decode_encoded(b: Bencode)
    requires
        encodable(b),
    ensures
        decode_spec(encode(b)) == Ok::<_, DecodeFailure>(b.value()),
        decode_from(encode(b), 0).1 == encode(b).len(),
{
    let s = encode(b);
    assert(s.subrange(0, s.len() as int) =~= s);
    lemma_encode_head(b);
    lemma_parse_encoded(b, s, 0);
}

/// The bencode of an encodable value followed by more bytes is refused as extra data.
pub proof fn lemma_decode_rejects_trailing(b: Bencode, extra: Seq<u8>)
    requires
        encodable(b),
        extra.len() > 0,
    ensures
        decode_spec(encode(b) + extra) == Err::<BencodeValue, _>(DecodeFailure::UnexpectedExtraData),
{
    let s = encode(b) + extra;
    assert(s.subrange(0, encode(b).len() as int) =~= encode(b));
    lemma_encode_head(b);
    lemma_parse_encoded(b, s, 0);
}

} // verus!
