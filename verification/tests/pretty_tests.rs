use bencode_torrent::protocol::{Bencode, BencodeDict};

#[test]
fn integers_and_strings() {
    assert_eq!(Bencode::Integer(-42).to_pretty_string(), "-42");
    assert_eq!(Bencode::Integer(i64::MIN).to_pretty_string(), "-9223372036854775808");
    assert_eq!(Bencode::String(b"a\"b\\c\n\r\t".to_vec()).to_pretty_string(), "\"a\\\"b\\\\c\\n\\r\\t\"");
    assert_eq!(Bencode::String(vec![1, b'x', 0x7f]).to_pretty_string(), "\"\\u0001x\\u007f\"");
    assert_eq!(Bencode::String("é".as_bytes().to_vec()).to_pretty_string(), "\"é\"");
    assert_eq!(Bencode::String(vec![0xff, 1, 20]).to_pretty_string(), "[255,1,20]");
}

#[test]
fn nested_containers() {
    assert_eq!(Bencode::List(vec![]).to_pretty_string(), "[]");
    assert_eq!(Bencode::Dictionary(BencodeDict::new()).to_pretty_string(), "{}");
    let mut dict = BencodeDict::new();
    dict.insert("b".to_string(), Bencode::List(vec![Bencode::Integer(1), Bencode::Integer(2)]));
    dict.insert("a".to_string(), Bencode::String(b"x".to_vec()));
    let value = Bencode::Dictionary(dict);
    let expected = "{\n    \"a\": \"x\",\n    \"b\": [\n        1,\n        2\n    ]\n}";
    assert_eq!(value.to_pretty_string(), expected);
}

#[test]
fn nested_layout_at_an_indent() {
    let value = Bencode::List(vec![Bencode::Integer(1), Bencode::List(vec![Bencode::Integer(2)])]);
    let mut out: Vec<char> = "x".chars().collect();
    value.write_pretty(&mut out, 1);
    let text: String = out.into_iter().collect();
    assert_eq!(text, "x[\n      1,\n      [\n          2\n      ]\n  ]");
}
