//! Reading typed entries out of a bencode dictionary.

use vstd::prelude::*;
use vstd::utf8::{decode_utf8, encode_utf8, valid_utf8};

use crate::metainfo::error::{MetainfoError, MetainfoFailure};
use crate::protocol::{Bencode, BencodeDict, BencodeValue};
use crate::text::string_from_utf8;

verus! {

/// The entry `key`, when present, read as UTF-8 text.
pub open spec fn optional_string_entry(d: Map<Seq<char>, BencodeValue>, key: Seq<char>) -> Result<
    Option<Seq<char>>,
    MetainfoFailure,
> {
    if !d.dom().contains(key) {
        Ok(None)
    } else {
        match d[key] {
            BencodeValue::String(b) => if valid_utf8(b) {
                Ok(Some(decode_utf8(b)))
            } else {
                Err(MetainfoFailure::InvalidUtf8String)
            },
            _ => Err(MetainfoFailure::WrongValueType(key)),
        }
    }
}

/// The entry `key`, which must be present, read as UTF-8 text.
pub open spec fn string_entry(d: Map<Seq<char>, BencodeValue>, key: Seq<char>) -> Result<
    Seq<char>,
    MetainfoFailure,
> {
    if !d.dom().contains(key) {
        Err(MetainfoFailure::MissingKey(key))
    } else {
        match d[key] {
            BencodeValue::String(b) => if valid_utf8(b) {
                Ok(decode_utf8(b))
            } else {
                Err(MetainfoFailure::InvalidUtf8String)
            },
            _ => Err(MetainfoFailure::WrongValueType(key)),
        }
    }
}

/// The entry `key`, which must be present, as raw bytes.
pub open spec fn bytes_entry(d: Map<Seq<char>, BencodeValue>, key: Seq<char>) -> Result<
    Seq<u8>,
    MetainfoFailure,
> {
    if !d.dom().contains(key) {
        Err(MetainfoFailure::MissingKey(key))
    } else {
        match d[key] {
            BencodeValue::String(b) => Ok(b),
            _ => Err(MetainfoFailure::WrongValueType(key)),
        }
    }
}

/// The entry `key`, which must be present, as an unsigned 64-bit integer.
pub open spec fn integer_entry(d: Map<Seq<char>, BencodeValue>, key: Seq<char>) -> Result<
    u64,
    MetainfoFailure,
> {
    if !d.dom().contains(key) {
        Err(MetainfoFailure::MissingKey(key))
    } else {
        match d[key] {
            BencodeValue::Integer(n) => if 0 <= n <= u64::MAX {
                Ok(n as u64)
            } else {
                Err(MetainfoFailure::IntegerOverflow)
            },
            _ => Err(MetainfoFailure::WrongValueType(key)),
        }
    }
}

/// The entry `key`, which must be present.
pub open spec fn value_entry(d: Map<Seq<char>, BencodeValue>, key: Seq<char>) -> Result<
    BencodeValue,
    MetainfoFailure,
> {
    if !d.dom().contains(key) {
        Err(MetainfoFailure::MissingKey(key))
    } else {
        Ok(d[key])
    }
}

/// A text read out of a dictionary is the UTF-8 decoding of the entry's bytes: encoding it as
/// UTF-8 gives those bytes back. An entry holding valid UTF-8 is always read.
pub proof fn lemma_string_entry_is_utf8_text(d: Map<Seq<char>, BencodeValue>, key: Seq<char>)
    ensures
        string_entry(d, key) matches Ok(t) ==> d.dom().contains(key) && d[key] == BencodeValue::String(
            encode_utf8(t),
        ),
        d.dom().contains(key) && d[key] is String && valid_utf8(d[key]->String_0) ==> string_entry(
            d,
            key,
        ) is Ok,
        optional_string_entry(d, key) matches Ok(Some(t)) ==> d.dom().contains(key) && d[key]
            == BencodeValue::String(encode_utf8(t)),
        optional_string_entry(d, key) matches Ok(None) ==> !d.dom().contains(key),
        !d.dom().contains(key) ==> optional_string_entry(d, key) == Ok::<_, MetainfoFailure>(
            None::<Seq<char>>,
        ),
        d.dom().contains(key) && d[key] is String && valid_utf8(d[key]->String_0)
            ==> optional_string_entry(d, key) is Ok,
{
    broadcast use vstd::utf8::decode_utf8_encode_utf8;

}

/// An integer or byte string read out of a dictionary is the entry itself.
pub proof fn lemma_number_and_bytes_entries(d: Map<Seq<char>, BencodeValue>, key: Seq<char>)
    ensures
        integer_entry(d, key) matches Ok(n) ==> d.dom().contains(key) && d[key] == BencodeValue::Integer(
            n as int,
        ),
        bytes_entry(d, key) matches Ok(b) ==> d.dom().contains(key) && d[key] == BencodeValue::String(b),
{
}

/// Reads the entry `key`, if present, as UTF-8 text.
pub fn extract_optional_string_from_dict(dict: &BencodeDict, key: &str) -> (r: Result<
    Option<String>,
    MetainfoError,
>)
    ensures
        r matches Ok(o) ==> optional_string_entry(dict.map_of(), key@) == Ok::<_, MetainfoFailure>(
            match o {
                Some(s) => Some(s@),
                None => None,
            },
        ),
        r matches Err(e) ==> optional_string_entry(dict.map_of(), key@) == Err::<Option<Seq<char>>, _>(e@),
{
    match dict.get(key) {
        None => Ok(None),
        Some(Bencode::String(bytes)) => match string_from_utf8(vstd::slice::slice_to_vec(bytes.as_slice())) {
            Some(s) => Ok(Some(s)),
            None => Err(MetainfoError::InvalidUtf8String),
        },
        Some(_) => Err(MetainfoError::WrongValueType(key.to_owned())),
    }
}

/// Reads the entry `key`, which must be present, as UTF-8 text.
pub fn extract_string_from_dict(dict: &BencodeDict, key: &str) -> (r: Result<String, MetainfoError>)
    ensures
        r matches Ok(s) ==> string_entry(dict.map_of(), key@) == Ok::<_, MetainfoFailure>(s@),
        r matches Err(e) ==> string_entry(dict.map_of(), key@) == Err::<Seq<char>, _>(e@),
{
    match dict.get(key) {
        Some(Bencode::String(bytes)) => match string_from_utf8(vstd::slice::slice_to_vec(bytes.as_slice())) {
            Some(s) => Ok(s),
            None => Err(MetainfoError::InvalidUtf8String),
        },
        Some(_) => Err(MetainfoError::WrongValueType(key.to_owned())),
        None => Err(MetainfoError::MissingKey(key.to_owned())),
    }
}

/// Reads the entry `key`, which must be present, as raw bytes.
pub fn extract_bytes_from_dict(dict: &BencodeDict, key: &str) -> (r: Result<Vec<u8>, MetainfoError>)
    ensures
        r matches Ok(b) ==> bytes_entry(dict.map_of(), key@) == Ok::<_, MetainfoFailure>(b@),
        r matches Err(e) ==> bytes_entry(dict.map_of(), key@) == Err::<Seq<u8>, _>(e@),
{
    match dict.get(key) {
        Some(Bencode::String(bytes)) => Ok(vstd::slice::slice_to_vec(bytes.as_slice())),
        Some(_) => Err(MetainfoError::WrongValueType(key.to_owned())),
        None => Err(MetainfoError::MissingKey(key.to_owned())),
    }
}

/// Reads the entry `key`, which must be present, as an unsigned 64-bit integer.
pub fn extract_integer_from_dict(dict: &BencodeDict, key: &str) -> (r: Result<u64, MetainfoError>)
    ensures
        r matches Ok(n) ==> integer_entry(dict.map_of(), key@) == Ok::<_, MetainfoFailure>(n),
        r matches Err(e) ==> integer_entry(dict.map_of(), key@) == Err::<u64, _>(e@),
{
    match dict.get(key) {
        Some(Bencode::Integer(value)) => if *value >= 0 {
            Ok(*value as u64)
        } else {
            Err(MetainfoError::IntegerOverflow)
        },
        Some(_) => Err(MetainfoError::WrongValueType(key.to_owned())),
        None => Err(MetainfoError::MissingKey(key.to_owned())),
    }
}

/// Reads the entry `key`, which must be present, as a copy of its value.
pub fn extract_bencode_from_dict(dict: &BencodeDict, key: &str) -> (r: Result<Bencode, MetainfoError>)
    ensures
        r matches Ok(v) ==> value_entry(dict.map_of(), key@) == Ok::<_, MetainfoFailure>(v.value()),
        r matches Err(e) ==> value_entry(dict.map_of(), key@) == Err::<BencodeValue, _>(e@),
{
    match dict.get(key) {
        Some(value) => Ok(value.duplicate()),
        None => Err(MetainfoError::MissingKey(key.to_owned())),
    }
}

} // verus!
