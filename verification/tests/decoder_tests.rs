use bencode_torrent::protocol::decoder::error::DecoderError;
use bencode_torrent::protocol::decoder::Decoder;
use bencode_torrent::protocol::{Bencode, BencodeDict};

fn decode(input: &str) -> Result<Bencode, DecoderError> {
    let bytes = input.as_bytes();
    Decoder::new(bytes).decode()
}

#[test]
fn test_decode_zero() {
    assert!(matches!(decode("i0e"), Ok(Bencode::Integer(0))));
}

#[test]
fn test_decode_negative_zero() {
    assert!(matches!(decode("i-0e"), Err(DecoderError::IntegerNegativeZero)));
}

#[test]
fn test_decode_positive_number() {
    assert!(matches!(decode("i69e"), Ok(Bencode::Integer(69))));
}

#[test]
fn test_decode_negative_number() {
    assert!(matches!(decode("i-420e"), Ok(Bencode::Integer(-420))));
}

#[test]
fn test_decode_leading_zero() {
    assert!(matches!(decode("i010e"), Err(DecoderError::IntegerLeadingZero)));
}

#[test]
fn test_decode_no_e_terminator() {
    assert!(matches!(decode("i10"), Err(DecoderError::MissingTerminator)));
}

#[test]
fn test_decode_string() {
    assert_eq!(decode("4:spam"), Ok(Bencode::String(b"spam".to_vec())))
}

#[test]
fn test_decode_empty_string() {
    assert_eq!(decode("0:"), Ok(Bencode::String(b"".to_vec())))
}

#[test]
fn test_decode_string_with_spaces() {
    assert_eq!(decode("11:hello world"), Ok(Bencode::String(b"hello world".to_vec())))
}

#[test]
fn test_decode_mismatched_length_string() {
    assert_eq!(decode("5:spam"), Err(DecoderError::StringInvalidLength(5)))
}

#[test]
fn test_decode_missing_terminator() {
    assert_eq!(decode("5spam"), Err(DecoderError::InvalidByte(b's')))
}

#[test]
fn test_decode_list_string() {
    let list = vec![Bencode::String(b"spam".to_vec()), Bencode::String(b"eggs".to_vec())];
    assert_eq!(decode("l4:spam4:eggse"), Ok(Bencode::List(list)))
}

#[test]
fn test_decode_list_integer() {
    let list = vec![Bencode::Integer(4), Bencode::Integer(5)];
    assert_eq!(decode("li4ei5ee"), Ok(Bencode::List(list)))
}

#[test]
fn test_decode_list_mixed() {
    let list = vec![Bencode::Integer(4), Bencode::String(b"spam".to_vec())];
    assert_eq!(decode("li4e4:spame"), Ok(Bencode::List(list)))
}

#[test]
fn test_decode_dictionary_string() {
    let mut dictionary = BencodeDict::new();
    dictionary.insert("cow".to_string(), Bencode::String(b"moo".to_vec()));
    dictionary.insert("spam".to_string(), Bencode::String(b"eggs".to_vec()));
    assert_eq!(decode("d3:cow3:moo4:spam4:eggse"), Ok(Bencode::Dictionary(dictionary)))
}

#[test]
fn test_decode_dictionary_integer() {
    let mut dictionary = BencodeDict::new();
    dictionary.insert("eggs".to_string(), Bencode::Integer(10));
    assert_eq!(decode("d4:eggsi10ee"), Ok(Bencode::Dictionary(dictionary)))
}

#[test]
fn test_decode_dictionary_list() {
    let mut dictionary = BencodeDict::new();
    let list = vec![Bencode::String(b"a".to_vec()), Bencode::String(b"b".to_vec())];
    dictionary.insert("spam".to_string(), Bencode::List(list));
    assert_eq!(decode("d4:spaml1:a1:bee"), Ok(Bencode::Dictionary(dictionary)))
}

#[test]
fn test_decode_dictionary_mixed() {
    let mut dictionary = BencodeDict::new();
    dictionary.insert("eggs".to_string(), Bencode::Integer(10));
    dictionary.insert("spam".to_string(), Bencode::String(b"eggs".to_vec()));
    assert_eq!(decode("d4:eggsi10e4:spam4:eggse"), Ok(Bencode::Dictionary(dictionary)))
}
