use bencode_torrent::protocol::{Bencode, BencodeDict};

#[test]
fn debug_of_integers() {
    assert_eq!(Bencode::Integer(3).debug_string(), "Integer(3)");
    assert_eq!(Bencode::Integer(-42).debug_string(), "Integer(-42)");
    assert_eq!(Bencode::Integer(i64::MIN).debug_string(), "Integer(-9223372036854775808)");
}

#[test]
fn debug_of_strings() {
    assert_eq!(Bencode::String(b"spam".to_vec()).debug_string(), "String(\"spam\")");
    assert_eq!(Bencode::String(b"a\"b\n".to_vec()).debug_string(), "String(\"a\\\"b\\n\")");
    assert_eq!(Bencode::String(vec![0xff, 1]).debug_string(), "String([255, 1])");
    assert_eq!(Bencode::String(vec![]).debug_string(), "String(\"\")");
}

#[test]
fn debug_of_lists() {
    assert_eq!(Bencode::List(vec![]).debug_string(), "List([])");
    let list = Bencode::List(vec![Bencode::Integer(1), Bencode::String(b"a".to_vec())]);
    assert_eq!(list.debug_string(), "List([Integer(1), String(\"a\")])");
}

#[test]
fn debug_of_dictionaries() {
    assert_eq!(Bencode::Dictionary(BencodeDict::new()).debug_string(), "Dictionary({})");
    let mut dict = BencodeDict::new();
    dict.insert(
        "spam".to_string(),
        Bencode::List(vec![Bencode::String(b"a".to_vec()), Bencode::String(b"b".to_vec())]),
    );
    dict.insert("cow".to_string(), Bencode::String(b"moo".to_vec()));
    assert_eq!(
        Bencode::Dictionary(dict).debug_string(),
        "Dictionary({\"cow\": String(\"moo\"), \"spam\": List([String(\"a\"), String(\"b\")])})"
    );
}
