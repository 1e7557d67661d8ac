use bencode_torrent::tracker::error::TrackerError;
use bencode_torrent::tracker::{announce_query, build_announce_url, decode_response};
use bencode_torrent::protocol::decoder::error::DecoderError;

#[test]
fn compact_peers_are_read() {
    let mut response = b"d8:intervali1800e5:peers13:".to_vec();
    response.extend_from_slice(&[127, 0, 0, 1, 0x1a, 0xe1, 10, 0, 0, 2, 0, 80, 9]);
    response.push(b'e');
    let decoded = decode_response(&response).unwrap();
    assert_eq!(decoded.interval, 1800);
    assert_eq!(decoded.peers, vec![([127, 0, 0, 1], 6881), ([10, 0, 0, 2], 80)]);
}

#[test]
fn failure_reason_is_reported() {
    match decode_response(b"d14:failure reason6:denied8:intervali1ee") {
        Err(TrackerError::ResponseFailure(reason)) => assert_eq!(reason, "denied"),
        other => panic!("unexpected {:?}", other),
    }
    match decode_response(b"d14:failure reason2:a\xffe") {
        Err(TrackerError::ResponseFailure(reason)) => assert_eq!(reason, "a\u{fffd}"),
        other => panic!("unexpected {:?}", other),
    }
}

#[test]
fn negative_interval_wraps() {
    let decoded = decode_response(b"d8:intervali-1e5:peers0:e").unwrap();
    assert_eq!(decoded.interval, u64::MAX);
    assert!(decoded.peers.is_empty());
}

#[test]
fn response_errors() {
    assert!(matches!(decode_response(b"i1e"), Err(TrackerError::WrongBencodeType(t)) if t == "dict"));
    assert!(matches!(decode_response(b"de"), Err(TrackerError::ResponseKeyMissing(k)) if k == "interval"));
    assert!(matches!(decode_response(b"d8:interval1:xe"), Err(TrackerError::WrongBencodeType(t)) if t == "integer"));
    assert!(matches!(decode_response(b"d8:intervali1ee"), Err(TrackerError::ResponseKeyMissing(k)) if k == "peers"));
    assert!(matches!(decode_response(b"d8:intervali1e5:peersi1ee"), Err(TrackerError::WrongBencodeType(t)) if t == "string"));
    assert!(matches!(decode_response(b"d"), Err(TrackerError::Bencode(DecoderError::MissingTerminator))));
}

#[test]
fn announce_query_pieces() {
    let announce = Some("http://tracker.example/announce".to_string());
    let (base, params) = announce_query(
        &announce,
        &[0x12, 0xab, b'a', b'~', b' '],
        "peer".to_string(),
        6881,
        0,
        10,
        100,
        1,
    )
    .unwrap();
    assert_eq!(base, "http://tracker.example/announce?info_hash=%12%ABa~%20");
    let expected: Vec<(String, String)> = vec![
        ("peer_id".to_string(), "peer".to_string()),
        ("port".to_string(), "6881".to_string()),
        ("uploaded".to_string(), "0".to_string()),
        ("downloaded".to_string(), "10".to_string()),
        ("left".to_string(), "100".to_string()),
        ("compact".to_string(), "1".to_string()),
    ];
    assert_eq!(params, expected);
}

#[test]
fn announce_url_is_built() {
    let announce = Some("http://tracker.example/announce".to_string());
    let url = build_announce_url(&announce, &[0x12, 0xab, b'a'], "-TR2940-x y".to_string(), 6881, 1, 2, 3, 1)
        .unwrap();
    assert_eq!(
        url,
        "http://tracker.example/announce?info_hash=%12%ABa&peer_id=-TR2940-x+y&port=6881&uploaded=1&downloaded=2&left=3&compact=1"
    );
}

#[test]
fn announce_url_errors() {
    assert!(matches!(
        build_announce_url(&None, &[], "p".to_string(), 1, 0, 0, 0, 1),
        Err(TrackerError::NoAnnounce)
    ));
    assert!(matches!(
        build_announce_url(&Some("not a url".to_string()), &[], "p".to_string(), 1, 0, 0, 0, 1),
        Err(TrackerError::UrlParse(_))
    ));
}
