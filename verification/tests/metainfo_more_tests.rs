use bencode_torrent::metainfo::error::MetainfoError;
use bencode_torrent::metainfo::info_dictionary::InfoDictionary;
use bencode_torrent::metainfo::Metainfo;
use bencode_torrent::protocol::decoder::decode_bytes;

#[test]
fn torrent_file_is_read() {
    let mut torrent = b"d8:announce17:http://t.example/4:infod4:name5:a.iso12:piece lengthi16384e6:pieces40:".to_vec();
    torrent.extend_from_slice(&[1u8; 40]);
    torrent.extend_from_slice(b"ee");
    let value = decode_bytes(&torrent).unwrap();
    let metainfo = Metainfo::try_from(value).unwrap();
    assert_eq!(metainfo.announce, Some("http://t.example/".to_string()));
    assert_eq!(metainfo.info.name, "a.iso");
    assert_eq!(metainfo.info.piece_length, 16384);
    assert_eq!(metainfo.info.piece_count(), 2);
    assert_eq!(metainfo.info.name(), "a.iso");
    assert_eq!(metainfo.info.piece_length(), 16384);
}

#[test]
fn info_errors_in_order() {
    let value = decode_bytes(b"d4:namei1e12:piece lengthi-1e6:pieces1:xe").unwrap();
    assert!(matches!(InfoDictionary::try_from(value), Err(MetainfoError::WrongValueType(k)) if k == "name"));
    let value = decode_bytes(b"d4:name1:a12:piece lengthi-1e6:pieces1:xe").unwrap();
    assert!(matches!(InfoDictionary::try_from(value), Err(MetainfoError::IntegerOverflow)));
    let value = decode_bytes(b"d4:name1:a12:piece lengthi1ee").unwrap();
    assert!(matches!(InfoDictionary::try_from(value), Err(MetainfoError::MissingKey(k)) if k == "pieces"));
    let value = decode_bytes(b"d4:name1:\xff12:piece lengthi1e6:pieces0:e").unwrap();
    assert!(matches!(InfoDictionary::try_from(value), Err(MetainfoError::InvalidUtf8String)));
    let value = decode_bytes(b"d8:announcei1e4:infod4:name1:a12:piece lengthi1e6:pieces0:ee").unwrap();
    assert!(matches!(Metainfo::try_from(value), Err(MetainfoError::WrongValueType(k)) if k == "announce"));
}
