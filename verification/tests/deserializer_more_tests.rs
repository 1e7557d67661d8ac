use bencode_torrent::bencode::deserializer::{DeserializeError, Deserializer};
use bencode_torrent::bencode::Bencode;

fn parse(input: &[u8]) -> Result<Bencode, DeserializeError> {
    Deserializer::new(input).parse()
}

#[test]
fn integers() {
    assert_eq!(parse(b"i-42e"), Ok(Bencode::Integer(-42)));
    assert_eq!(parse(b"i0e"), Ok(Bencode::Integer(0)));
}

#[test]
fn malformed_integers() {
    assert_eq!(parse(b"i03e"), Err(DeserializeError::MalformedInteger("03".to_string())));
    assert_eq!(parse(b"i-0e"), Err(DeserializeError::MalformedInteger("-0".to_string())));
    assert_eq!(parse(b"i-03e"), Err(DeserializeError::MalformedInteger("-03".to_string())));
    assert_eq!(parse(b"i-01e"), Err(DeserializeError::MalformedInteger("-01".to_string())));
    assert_eq!(parse(b"i00e"), Err(DeserializeError::MalformedInteger("00".to_string())));
    assert_eq!(parse(b"ie"), Err(DeserializeError::MalformedInteger(String::new())));
    assert_eq!(parse(b"i-e"), Err(DeserializeError::IntegerOverflow("-".to_string())));
    assert_eq!(parse(b"i99999999999999999999e"), Ok(Bencode::Integer(99999999999999999999)));
    assert_eq!(parse(b"i-170141183460469231731687303715884105728e"), Ok(Bencode::Integer(i128::MIN)));
    assert_eq!(parse(b"i170141183460469231731687303715884105727e"), Ok(Bencode::Integer(i128::MAX)));
    assert_eq!(
        parse(b"i170141183460469231731687303715884105728e"),
        Err(DeserializeError::IntegerOverflow("170141183460469231731687303715884105728".to_string()))
    );
    assert_eq!(
        parse(b"i999999999999999999999999999999999999999999e"),
        Err(DeserializeError::IntegerOverflow("999999999999999999999999999999999999999999".to_string()))
    );
    assert_eq!(parse(b"i1-e"), Err(DeserializeError::InvalidIntegerSyntax));
    assert_eq!(parse(b"i12"), Err(DeserializeError::UnexpectedEof));
}

#[test]
fn strings() {
    assert_eq!(parse(b"12:abcdefghijkl"), Ok(Bencode::String(b"abcdefghijkl".to_vec())));
    assert_eq!(parse(b"10:abcdefghij"), Ok(Bencode::String(b"abcdefghij".to_vec())));
    assert_eq!(parse(b"100:"), Err(DeserializeError::UnexpectedEof));
    assert_eq!(parse(b"01:a"), Err(DeserializeError::InvalidLength));
    assert_eq!(parse(b"1a:a"), Err(DeserializeError::InvalidLength));
    assert_eq!(parse(b"0:"), Err(DeserializeError::InvalidLength));
    assert_eq!(parse(b"4:spa"), Err(DeserializeError::UnexpectedEof));
    assert_eq!(parse(b"4"), Err(DeserializeError::UnexpectedEof));
    assert_eq!(parse(b"4:spamX"), Err(DeserializeError::ExtraData));
    assert_eq!(parse(b""), Err(DeserializeError::UnexpectedEof));
}
