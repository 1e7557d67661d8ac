use bencode_torrent::protocol::decoder::error::DecoderError;
use bencode_torrent::protocol::decoder::util::{bytes_to_integer, validate_utf8_string};
use bencode_torrent::protocol::decoder::{decode_bytes, Decoder};
use bencode_torrent::protocol::{Bencode, BencodeDict};

#[test]
fn nested_values_decode_back() {
    let mut inner = BencodeDict::new();
    inner.insert("x".to_string(), Bencode::Integer(0));
    let expected = Bencode::List(vec![
        Bencode::Integer(1),
        Bencode::Integer(-2),
        Bencode::String(b"abc".to_vec()),
        Bencode::Dictionary(inner),
        Bencode::List(vec![]),
    ]);
    assert_eq!(decode_bytes(b"li1ei-2e3:abcd1:xi0eelee"), Ok(expected));
}

#[test]
fn largest_integer_decodes_smallest_is_refused() {
    assert_eq!(decode_bytes(b"i9223372036854775807e"), Ok(Bencode::Integer(i64::MAX)));
    assert_eq!(decode_bytes(b"i-9223372036854775807e"), Ok(Bencode::Integer(-i64::MAX)));
    assert_eq!(decode_bytes(b"i-9223372036854775808e"), Err(DecoderError::InvalidIntegerSyntax));
    assert_eq!(decode_bytes(b"i9223372036854775808e"), Err(DecoderError::InvalidIntegerSyntax));
}

#[test]
fn leading_zero_is_refused_with_either_sign() {
    assert_eq!(decode_bytes(b"i00e"), Err(DecoderError::IntegerLeadingZero));
    assert_eq!(decode_bytes(b"i-03e"), Err(DecoderError::IntegerLeadingZero));
    assert_eq!(decode_bytes(b"i-00e"), Err(DecoderError::IntegerLeadingZero));
}

#[test]
fn dictionary_keys_must_be_strings() {
    assert_eq!(decode_bytes(b"di1ei2ee"), Err(DecoderError::DictionaryInvalidKeyType));
    assert_eq!(decode_bytes(b"dle"), Err(DecoderError::DictionaryInvalidKeyType));
}

#[test]
fn trailing_data_is_refused() {
    assert_eq!(decode_bytes(b"i1ei2e"), Err(DecoderError::UnexpectedExtraData));
    assert_eq!(decode_bytes(b"4:spamx"), Err(DecoderError::UnexpectedExtraData));
}

#[test]
fn empty_input_is_refused() {
    assert_eq!(decode_bytes(b""), Err(DecoderError::Empty));
}

#[test]
fn unknown_type_names_the_byte() {
    assert_eq!(decode_bytes(b"x"), Err(DecoderError::UnknownType("x".to_string())));
    assert_eq!(decode_bytes(b"lxe"), Err(DecoderError::UnknownType("x".to_string())));
}

#[test]
fn integer_syntax_errors() {
    assert_eq!(decode_bytes(b"i"), Err(DecoderError::InvalidIntegerSyntax));
    assert_eq!(decode_bytes(b"ie"), Err(DecoderError::InvalidIntegerSyntax));
    assert_eq!(decode_bytes(b"i-e"), Err(DecoderError::InvalidIntegerSyntax));
    assert_eq!(decode_bytes(b"ixe"), Err(DecoderError::InvalidIntegerSyntax));
    assert_eq!(decode_bytes(b"i1x2e"), Err(DecoderError::InvalidByte(b'x')));
    assert_eq!(decode_bytes(b"i-"), Err(DecoderError::MissingTerminator));
}

#[test]
fn string_length_errors() {
    assert_eq!(decode_bytes(b"5"), Err(DecoderError::StringInvalidLength(5)));
    assert_eq!(decode_bytes(b"99999999999999999999999:"), Err(DecoderError::InvalidIntegerSyntax));
    assert_eq!(decode_bytes(b"05:hello"), Ok(Bencode::String(b"hello".to_vec())));
}

#[test]
fn unterminated_containers() {
    assert_eq!(decode_bytes(b"li1e"), Err(DecoderError::MissingTerminator));
    assert_eq!(decode_bytes(b"d1:a"), Err(DecoderError::MissingTerminator));
    assert_eq!(decode_bytes(b"d1:ai1e"), Err(DecoderError::MissingTerminator));
}

#[test]
fn dictionary_key_must_be_utf8() {
    assert_eq!(decode_bytes(b"d1:\xffi1ee"), Err(DecoderError::StringInvalidUtf8));
}

#[test]
fn dictionary_keys_must_be_sorted() {
    assert_eq!(decode_bytes(b"d4:spam4:eggs3:cow3:mooe"), Err(DecoderError::DictionaryUnsortedKeys));
    assert_eq!(decode_bytes(b"d1:bi1e1:ai9ee"), Err(DecoderError::DictionaryUnsortedKeys));
    assert_eq!(decode_bytes(b"d1:ai1e1:ai2ee"), Err(DecoderError::DictionaryUnsortedKeys));
    assert_eq!(decode_bytes(b"di1e1:ae"), Err(DecoderError::DictionaryInvalidKeyType));
    // A proper prefix sorts first, and bytes compare as unsigned numbers.
    let mut expected = BencodeDict::new();
    expected.insert("a".to_string(), Bencode::Integer(1));
    expected.insert("ab".to_string(), Bencode::Integer(2));
    expected.insert("é".to_string(), Bencode::Integer(3));
    let input = [b"d1:ai1e2:abi2e2:".to_vec(), "é".as_bytes().to_vec(), b"i3ee".to_vec()].concat();
    assert_eq!(decode_bytes(&input), Ok(Bencode::Dictionary(expected)));
    assert_eq!(decode_bytes(b"d2:abi2e1:ai1ee"), Err(DecoderError::DictionaryUnsortedKeys));
}

#[test]
fn decoder_keeps_its_position() {
    let input = b"i1e";
    let mut decoder = Decoder::new(input);
    assert_eq!(decoder.decode(), Ok(Bencode::Integer(1)));
    assert_eq!(decoder.decode(), Err(DecoderError::Empty));
}

#[test]
fn bytes_to_integer_reads_like_str_parse() {
    assert_eq!(bytes_to_integer(b"+5".to_vec()), Ok(5));
    assert_eq!(bytes_to_integer(b"-9223372036854775808".to_vec()), Ok(i64::MIN));
    assert_eq!(bytes_to_integer(b"007".to_vec()), Ok(7));
    assert_eq!(bytes_to_integer(b"".to_vec()), Err(DecoderError::InvalidIntegerSyntax));
    assert_eq!(bytes_to_integer(b"-".to_vec()), Err(DecoderError::InvalidIntegerSyntax));
    assert_eq!(bytes_to_integer(b"12a".to_vec()), Err(DecoderError::InvalidIntegerSyntax));
    assert_eq!(bytes_to_integer(b"9223372036854775808".to_vec()), Err(DecoderError::InvalidIntegerSyntax));
}

#[test]
fn validate_utf8_string_checks_utf8() {
    assert_eq!(validate_utf8_string("héllo".as_bytes()), Ok("héllo".to_string()));
    assert_eq!(validate_utf8_string(&[0xc3]), Err(DecoderError::StringInvalidUtf8));
}
