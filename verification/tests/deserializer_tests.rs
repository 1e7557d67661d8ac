use bencode_torrent::bencode::deserializer::Deserializer;
use bencode_torrent::bencode::Bencode;

#[test]
fn test_parse_integer() {
    let bencode = "i2000000e";
    let mut deserializer = Deserializer::new(bencode.as_bytes());
    let result = deserializer.parse().unwrap();

    assert_eq!(result, Bencode::Integer(2000000))
}

#[test]
fn test_parse_byte_string() {
    let bencode = "4:spam";
    let mut deserializer = Deserializer::new(bencode.as_bytes());
    let result = deserializer.parse().unwrap();

    assert_eq!(result, Bencode::String("spam".as_bytes().to_vec()))
}
