use bencode_torrent::protocol::{Bencode, BencodeDict};

#[test]
fn read_after_write() {
    let mut dict = BencodeDict::new();
    assert_eq!(dict.insert("key".to_string(), Bencode::Integer(1)), None);
    assert_eq!(dict.insert("other".to_string(), Bencode::Integer(2)), None);
    assert_eq!(dict.insert("key".to_string(), Bencode::Integer(3)), Some(Bencode::Integer(1)));
    assert_eq!(dict.get("key"), Some(&Bencode::Integer(3)));
    assert_eq!(dict.get("other"), Some(&Bencode::Integer(2)));
    assert_eq!(dict.get("missing"), None);
    assert_eq!(dict.len(), 2);
}

#[test]
fn keys_are_kept_in_byte_order() {
    let mut dict = BencodeDict::new();
    dict.insert("zeta".to_string(), Bencode::Integer(1));
    dict.insert("alpha".to_string(), Bencode::Integer(2));
    dict.insert("Zulu".to_string(), Bencode::Integer(3));
    dict.insert("alp".to_string(), Bencode::Integer(4));
    let keys: Vec<String> = (0..dict.len()).map(|i| dict.entry_at(i).0.clone()).collect();
    assert_eq!(keys, vec!["Zulu", "alp", "alpha", "zeta"]);
}

#[test]
fn duplicate_is_equal_copy() {
    let mut dict = BencodeDict::new();
    dict.insert("a".to_string(), Bencode::List(vec![Bencode::String(b"x".to_vec())]));
    let value = Bencode::Dictionary(dict);
    assert_eq!(value.duplicate(), value);
    assert_eq!(value.clone(), value);
}
