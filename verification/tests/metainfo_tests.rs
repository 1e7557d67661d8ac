use bencode_torrent::metainfo::error::MetainfoError;
use bencode_torrent::metainfo::info_dictionary::InfoDictionary;
use bencode_torrent::metainfo::util;
use bencode_torrent::metainfo::Metainfo;
use bencode_torrent::protocol::{Bencode, BencodeDict};

#[test]
fn extract_optional_string_missing_key() {
    let dict = BencodeDict::new();
    assert_eq!(util::extract_optional_string_from_dict(&dict, "announce"), Ok(None));
}

#[test]
fn extract_optional_string_present_valid() {
    let mut dict = BencodeDict::new();
    dict.insert("announce".to_string(), Bencode::String(b"http://example.com".to_vec()));

    assert_eq!(
        util::extract_optional_string_from_dict(&dict, "announce"),
        Ok(Some("http://example.com".to_string()))
    );
}

#[test]
fn extract_optional_string_invalid_utf8() {
    let mut dict = BencodeDict::new();
    dict.insert("bad".to_string(), Bencode::String(vec![0xFF]));

    assert!(matches!(
        util::extract_optional_string_from_dict(&dict, "bad"),
        Err(MetainfoError::InvalidUtf8String)
    ));
}

#[test]
fn extract_optional_string_wrong_type() {
    let mut dict = BencodeDict::new();
    dict.insert("announce".to_string(), Bencode::Integer(123));

    assert!(matches!(
        util::extract_optional_string_from_dict(&dict, "announce"),
        Err(MetainfoError::WrongValueType(k)) if k == "announce"
    ));
}

#[test]
fn extract_string_from_dict_success() {
    let mut dict = BencodeDict::new();
    dict.insert("name".to_string(), Bencode::String(b"ubuntu.iso".to_vec()));

    assert_eq!(util::extract_string_from_dict(&dict, "name"), Ok("ubuntu.iso".to_string()));
}

#[test]
fn extract_string_missing_key() {
    let dict = BencodeDict::new();
    assert!(matches!(
        util::extract_string_from_dict(&dict, "name"),
        Err(MetainfoError::MissingKey(k)) if k == "name"
    ));
}

#[test]
fn extract_bytes_from_dict_success() {
    let mut dict = BencodeDict::new();
    let data = vec![1u8, 2, 3];
    dict.insert("pieces".to_string(), Bencode::String(data.clone()));

    assert_eq!(util::extract_bytes_from_dict(&dict, "pieces"), Ok(data));
}

#[test]
fn extract_bytes_wrong_type() {
    let mut dict = BencodeDict::new();
    dict.insert("pieces".to_string(), Bencode::Integer(42));

    assert!(matches!(
        util::extract_bytes_from_dict(&dict, "pieces"),
        Err(MetainfoError::WrongValueType(k)) if k == "pieces"
    ));
}

#[test]
fn extract_integer_from_dict_success_u64() {
    let mut dict = BencodeDict::new();
    dict.insert("piece length".to_string(), Bencode::Integer(262144));

    let result: Result<u64, _> = util::extract_integer_from_dict(&dict, "piece length");
    assert_eq!(result, Ok(262144));
}

#[test]
fn extract_integer_negative_to_u64_fails() {
    let mut dict = BencodeDict::new();
    dict.insert("piece length".to_string(), Bencode::Integer(-1));

    let result: Result<u64, _> = util::extract_integer_from_dict(&dict, "piece length");
    assert!(matches!(result, Err(MetainfoError::IntegerOverflow)));
}

#[test]
fn extract_bencode_from_dict_success() {
    let mut dict = BencodeDict::new();
    let inner = Bencode::Integer(42);
    dict.insert("info".to_string(), inner.clone());

    assert_eq!(util::extract_bencode_from_dict(&dict, "info"), Ok(inner));
}

#[test]
fn extract_bencode_missing_key() {
    let dict = BencodeDict::new();
    assert!(matches!(
        util::extract_bencode_from_dict(&dict, "info"),
        Err(MetainfoError::MissingKey(k)) if k == "info"
    ));
}

#[test]
fn info_dictionary_success_single_file() {
    let mut info_dict = BencodeDict::new();
    info_dict.insert("name".to_string(), Bencode::String(b"test.iso".to_vec()));
    info_dict.insert("piece length".to_string(), Bencode::Integer(262144));
    info_dict.insert("pieces".to_string(), Bencode::String(vec![0; 20])); // 1 piece

    let bencode = Bencode::Dictionary(info_dict);
    let result = InfoDictionary::try_from(bencode);

    assert!(result.is_ok());
    let info = result.unwrap();
    assert_eq!(info.name, "test.iso");
    assert_eq!(info.piece_length, 262144);
    assert_eq!(info.piece_count(), 1);
}

#[test]
fn info_dictionary_pieces_not_multiple_of_20() {
    let mut info_dict = BencodeDict::new();
    info_dict.insert("name".to_string(), Bencode::String(b"test.iso".to_vec()));
    info_dict.insert("piece length".to_string(), Bencode::Integer(262144));
    info_dict.insert("pieces".to_string(), Bencode::String(vec![0; 21]));

    let bencode = Bencode::Dictionary(info_dict);
    assert!(matches!(InfoDictionary::try_from(bencode), Err(MetainfoError::InvalidPiecesLength)));
}

#[test]
fn info_dictionary_missing_name() {
    let mut info_dict = BencodeDict::new();
    info_dict.insert("piece length".to_string(), Bencode::Integer(262144));
    info_dict.insert("pieces".to_string(), Bencode::String(vec![0; 20]));

    let bencode = Bencode::Dictionary(info_dict);
    assert!(matches!(
        InfoDictionary::try_from(bencode),
        Err(MetainfoError::MissingKey(k)) if k == "name"
    ));
}

#[test]
fn info_dictionary_piece_count() {
    let info = InfoDictionary::new("test".to_string(), 262144, vec![0; 60]);
    assert_eq!(info.piece_count(), 3);

    let empty = InfoDictionary::new("test".to_string(), 262144, vec![]);
    assert_eq!(empty.piece_count(), 0);
}

#[test]
fn metainfo_success_with_announce() {
    let mut top = BencodeDict::new();
    top.insert("announce".to_string(), Bencode::String(b"http://tracker.com".to_vec()));

    let mut info_dict = BencodeDict::new();
    info_dict.insert("name".to_string(), Bencode::String(b"test.iso".to_vec()));
    info_dict.insert("piece length".to_string(), Bencode::Integer(262144));
    info_dict.insert("pieces".to_string(), Bencode::String(vec![0; 20]));
    top.insert("info".to_string(), Bencode::Dictionary(info_dict));

    let bencode = Bencode::Dictionary(top);
    let result = Metainfo::try_from(bencode);

    assert!(result.is_ok());
    let m = result.unwrap();
    assert_eq!(m.announce, Some("http://tracker.com".to_string()));
}

#[test]
fn metainfo_success_without_announce_trackerless() {
    let mut top = BencodeDict::new();

    let mut info_dict = BencodeDict::new();
    info_dict.insert("name".to_string(), Bencode::String(b"test.iso".to_vec()));
    info_dict.insert("piece length".to_string(), Bencode::Integer(262144));
    info_dict.insert("pieces".to_string(), Bencode::String(vec![0; 20]));
    top.insert("info".to_string(), Bencode::Dictionary(info_dict));

    let bencode = Bencode::Dictionary(top);
    let result = Metainfo::try_from(bencode);

    assert!(result.is_ok());
    let m = result.unwrap();
    assert_eq!(m.announce, None);
}

#[test]
fn metainfo_missing_info() {
    let mut top = BencodeDict::new();
    top.insert("announce".to_string(), Bencode::String(b"http://tracker.com".to_vec()));

    let bencode = Bencode::Dictionary(top);
    assert!(matches!(
        Metainfo::try_from(bencode),
        Err(MetainfoError::MissingKey(k)) if k == "info"
    ));
}

#[test]
fn metainfo_top_level_not_dictionary() {
    let bencode = Bencode::Integer(42);
    assert!(matches!(Metainfo::try_from(bencode), Err(MetainfoError::NotADictionary)));
}

#[test]
fn metainfo_info_not_dictionary() {
    let mut top = BencodeDict::new();
    top.insert("info".to_string(), Bencode::Integer(123));

    let bencode = Bencode::Dictionary(top);
    assert!(matches!(Metainfo::try_from(bencode), Err(MetainfoError::NotADictionary)));
}
