use bencode_torrent::peer::{check_handshake_response, handshake_message, HandshakeError, Peer};

#[test]
fn peer_address_text() {
    let peer = Peer::new([127, 0, 0, 1], 6881);
    assert_eq!(peer.addr(), "127.0.0.1:6881");
    assert_eq!(Peer::new([255, 10, 0, 9], 0).addr(), "255.10.0.9:0");
}

#[test]
fn handshake_layout() {
    let info_hash = [7u8; 20];
    let message = handshake_message(&info_hash, "-TR2940-abcdefghijkl");
    assert_eq!(message.len(), 68);
    assert_eq!(message[0], 19);
    assert_eq!(&message[1..20], b"BitTorrent protocol");
    assert_eq!(&message[20..28], &[0u8; 8]);
    assert_eq!(&message[28..48], &info_hash);
    assert_eq!(&message[48..68], b"-TR2940-abcdefghijkl");
}

#[test]
fn own_handshake_is_accepted() {
    let info_hash = [3u8; 20];
    let message = handshake_message(&info_hash, "-TR2940-abcdefghijkl");
    let mut response = [0u8; 68];
    response.copy_from_slice(&message);
    assert_eq!(check_handshake_response(&response, &info_hash), Ok(()));
}

#[test]
fn bad_handshakes_are_refused() {
    let info_hash = [3u8; 20];
    let message = handshake_message(&info_hash, "-TR2940-abcdefghijkl");
    let mut response = [0u8; 68];
    response.copy_from_slice(&message);
    response[5] = b'X';
    assert_eq!(check_handshake_response(&response, &info_hash), Err(HandshakeError::InvalidProtocol));
    response.copy_from_slice(&message);
    response[30] = 0;
    assert_eq!(check_handshake_response(&response, &info_hash), Err(HandshakeError::MismatchedInfoHash));
}
