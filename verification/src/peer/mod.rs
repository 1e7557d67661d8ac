//! The BitTorrent handshake: the message we send and the checks on the peer's answer.

use vstd::prelude::*;
use vstd::string::StringSliceAdditionalSpecFns;

use crate::protocol::bytes_order::{compare_bytes, BytesOrder};
use crate::text::{
    digits_text, is_decimal_of, is_digit_char, lemma_digits_text_is_decimal, push_digits,
    string_from_chars,
};

verus! {

/// A peer: its IPv4 address, as four octets, and its port.
#[derive(Debug)]
pub struct Peer {
    ip: [u8; 4],
    port: u16,
}

/// An address and port written `a.b.c.d:port`, in decimal.
pub open spec fn address_text(ip: Seq<u8>, port: u16) -> Seq<char> {
    digits_text(ip[0] as nat) + seq!['.'] + digits_text(ip[1] as nat) + seq!['.'] + digits_text(
        ip[2] as nat,
    ) + seq!['.'] + digits_text(ip[3] as nat) + seq![':'] + digits_text(port as nat)
}

/// A peer's address text is its four octets and its port, each in usual unsigned decimal,
/// separated by `.`, `.`, `.` and `:`; in particular it never holds a `-`. The returned texts are
/// the five fields.
pub proof fn lemma_address_text_fields(ip: Seq<u8>, port: u16) -> (fields: (
    Seq<char>,
    Seq<char>,
    Seq<char>,
    Seq<char>,
    Seq<char>,
))
    requires
        ip.len() == 4,
    ensures
        address_text(ip, port) == fields.0 + seq!['.'] + fields.1 + seq!['.'] + fields.2 + seq!['.']
            + fields.3 + seq![':'] + fields.4,
        is_decimal_of(fields.0, ip[0] as nat),
        is_decimal_of(fields.1, ip[1] as nat),
        is_decimal_of(fields.2, ip[2] as nat),
        is_decimal_of(fields.3, ip[3] as nat),
        is_decimal_of(fields.4, port as nat),
        forall|i: int| 0 <= i < address_text(ip, port).len() ==> #[trigger] address_text(ip, port)[i] != '-',
{
    let a = digits_text(ip[0] as nat);
    let b = digits_text(ip[1] as nat);
    let c = digits_text(ip[2] as nat);
    let d = digits_text(ip[3] as nat);
    let e = digits_text(port as nat);
    lemma_digits_text_is_decimal(ip[0] as nat);
    lemma_digits_text_is_decimal(ip[1] as nat);
    lemma_digits_text_is_decimal(ip[2] as nat);
    lemma_digits_text_is_decimal(ip[3] as nat);
    lemma_digits_text_is_decimal(port as nat);
    let t = address_text(ip, port);
    assert forall|i: int| 0 <= i < t.len() implies #[trigger] t[i] != '-' by {
        let l0 = a.len() as int;
        let l1 = l0 + 1 + b.len();
        let l2 = l1 + 1 + c.len();
        let l3 = l2 + 1 + d.len();
        if i < l0 {
            assert(t[i] == a[i]);
            assert(is_digit_char(a[i]));
        } else if i == l0 {
            assert(t[i] == '.');
        } else if i < l1 {
            assert(t[i] == b[i - l0 - 1]);
            assert(is_digit_char(b[i - l0 - 1]));
        } else if i == l1 {
            assert(t[i] == '.');
        } else if i < l2 {
            assert(t[i] == c[i - l1 - 1]);
            assert(is_digit_char(c[i - l1 - 1]));
        } else if i == l2 {
            assert(t[i] == '.');
        } else if i < l3 {
            assert(t[i] == d[i - l2 - 1]);
            assert(is_digit_char(d[i - l2 - 1]));
        } else if i == l3 {
            assert(t[i] == ':');
        } else {
            assert(t[i] == e[i - l3 - 1]);
            assert(is_digit_char(e[i - l3 - 1]));
        }
    }
    (a, b, c, d, e)
}

impl Peer {
    /// The octets of the address.
    pub closed spec fn ip_of(&self) -> Seq<u8> {
        self.ip@
    }

    /// The port.
    pub closed spec fn port_of(&self) -> u16 {
        self.port
    }

    pub fn new(ip: [u8; 4], port: u16) -> (p: Self)
        ensures
            p.ip_of() == ip@,
            p.port_of() == port,
    {
        Self { ip, port }
    }

    /// The octets of the address.
    pub fn ip(&self) -> (ip: [u8; 4])
        ensures
            ip@ == self.ip_of(),
    {
        self.ip
    }

    /// The port.
    pub fn port(&self) -> (port: u16)
        ensures
            port == self.port_of(),
    {
        self.port
    }

    /// The address and port, as `a.b.c.d:port`.
    pub fn addr(&self) -> (s: String)
        ensures
            s@ == address_text(self.ip_of(), self.port_of()),
    {
        let mut out: Vec<char> = Vec::new();
        push_digits(&mut out, self.ip[0] as u64);
        out.push('.');
        push_digits(&mut out, self.ip[1] as u64);
        out.push('.');
        push_digits(&mut out, self.ip[2] as u64);
        out.push('.');
        push_digits(&mut out, self.ip[3] as u64);
        out.push(':');
        push_digits(&mut out, self.port as u64);
        assert(out@ =~= address_text(self.ip@, self.port));
        string_from_chars(out)
    }
}

/// The protocol name that a handshake carries.
pub const BITTORRENT_PROTOCOL: &'static str = "BitTorrent protocol";

/// The bytes of the protocol name.
pub open spec fn protocol_bytes() -> Seq<u8> {
    BITTORRENT_PROTOCOL.spec_bytes()
}

/// The handshake: the byte 19, the protocol name, eight zero bytes, the info hash and the peer id.
pub open spec fn handshake_bytes(info_hash: Seq<u8>, peer_id: Seq<u8>) -> Seq<u8> {
    seq![19u8] + protocol_bytes() + Seq::new(8, |i: int| 0u8) + info_hash + peer_id
}

/// The protocol name is the 19 ASCII bytes of `BitTorrent protocol`.
pub proof fn lemma_protocol_bytes()
    ensures
        protocol_bytes().len() == 19,
        protocol_bytes() == seq![
            66u8, 105, 116, 84, 111, 114, 114, 101, 110, 116, 32, 112, 114, 111, 116, 111, 99, 111, 108,
        ],
{
    reveal_strlit("BitTorrent protocol");
    assert(vstd::utf8::is_ascii_chars(BITTORRENT_PROTOCOL@));
    vstd::utf8::is_ascii_chars_encode_utf8(BITTORRENT_PROTOCOL@);
    let p = protocol_bytes();
    let c = BITTORRENT_PROTOCOL@;
    assert forall|i: int| 0 <= i < 19 implies p[i] == c[i] as u8 by {}
    assert(p =~= seq![
        66u8, 105, 116, 84, 111, 114, 114, 101, 110, 116, 32, 112, 114, 111, 116, 111, 99, 111, 108,
    ]);
}

/// A peer that answers with the handshake we send, for the same torrent, passes the check: the
/// message is 68 bytes long, names the protocol at bytes 1 to 19 and carries the info hash at
/// bytes 28 to 47.
pub proof fn lemma_own_handshake_accepted(info_hash: Seq<u8>, peer_id: Seq<u8>)
    requires
        info_hash.len() == 20,
        peer_id.len() == 20,
    ensures
        handshake_bytes(info_hash, peer_id).len() == 68,
        handshake_bytes(info_hash, peer_id)[0] == 19,
        handshake_bytes(info_hash, peer_id).subrange(1, 20) == protocol_bytes(),
        forall|i: int| 20 <= i < 28 ==> #[trigger] handshake_bytes(info_hash, peer_id)[i] == 0,
        handshake_bytes(info_hash, peer_id).subrange(28, 48) == info_hash,
        handshake_bytes(info_hash, peer_id).subrange(48, 68) == peer_id,
{
    lemma_protocol_bytes();
    let m = handshake_bytes(info_hash, peer_id);
    assert(m.subrange(1, 20) =~= protocol_bytes());
    assert(m.subrange(28, 48) =~= info_hash);
    assert(m.subrange(48, 68) =~= peer_id);
}

/// Why a peer's handshake answer is refused.
#[derive(Debug, Clone, Copy, PartialEq, Eq)]
pub enum HandshakeError {
    /// invalid protocol
    InvalidProtocol,
    /// mismatched info_hash
    MismatchedInfoHash,
}

/// The handshake message that opens a connection to a peer.
pub fn handshake_message(info_hash: &[u8; 20], peer_id: &str) -> (m: Vec<u8>)
    ensures
        m@ == handshake_bytes(info_hash@, peer_id.spec_bytes()),
{
    let mut handshake: Vec<u8> = Vec::with_capacity(68);
    // The handshake starts with character nineteen (decimal) followed by the string
    // 'BitTorrent protocol'.
    handshake.push(19);
    push_bytes(&mut handshake, BITTORRENT_PROTOCOL.as_bytes());
    // After the fixed headers come eight reserved bytes, which are all zero in all current
    // implementations.
    let reserved = [0u8; 8];
    push_bytes(&mut handshake, reserved.as_slice());
    // Next comes the 20 byte sha1 hash of the bencoded form of the info value from the metainfo
    // file.
    push_bytes(&mut handshake, info_hash.as_slice());
    // After the download hash comes the 20-byte peer id which is reported in tracker requests and
    // contained in peer lists in tracker responses.
    push_bytes(&mut handshake, peer_id.as_bytes());
    assert(reserved@ =~= Seq::new(8, |i: int| 0u8));
    assert(handshake@ =~= handshake_bytes(info_hash@, peer_id.spec_bytes()));
    handshake
}

/// Appends bytes.
fn push_bytes(out: &mut Vec<u8>, bytes: &[u8])
    ensures
        final(out)@ == old(out)@ + bytes@,
{
    let ghost start = out@;
    let mut i: usize = 0;
    while i < bytes.len()
        invariant
            i <= bytes@.len(),
            out@ == start + bytes@.take(i as int),
        decreases bytes@.len() - i,
    {
        out.push(bytes[i]);
        assert(bytes@.take(i + 1) =~= bytes@.take(i as int).push(bytes@[i as int]));
        i = i + 1;
    }
    assert(bytes@.take(bytes@.len() as int) =~= bytes@);
}

/// Checks a peer's 68-byte handshake answer: it must name the BitTorrent protocol and carry our
/// info hash.
pub fn check_handshake_response(response: &[u8; 68], info_hash: &[u8; 20]) -> (r: Result<
    (),
    HandshakeError,
>)
    ensures
        response@.subrange(1, 20) != protocol_bytes() ==> r == Err::<(), _>(
            HandshakeError::InvalidProtocol,
        ),
        response@.subrange(1, 20) == protocol_bytes() && response@.subrange(28, 48) != info_hash@
            ==> r == Err::<(), _>(HandshakeError::MismatchedInfoHash),
        response@.subrange(1, 20) == protocol_bytes() && response@.subrange(28, 48) == info_hash@
            ==> r is Ok,
{
    let response = response.as_slice();
    let protocol = &response[1..20];
    assert(protocol@ =~= response@.subrange(1, 20));
    match compare_bytes(protocol, BITTORRENT_PROTOCOL.as_bytes()) {
        BytesOrder::Equal => {},
        _ => {
            return Err(HandshakeError::InvalidProtocol);
        },
    }
    let hash = &response[28..48];
    assert(hash@ =~= response@.subrange(28, 48));
    match compare_bytes(hash, info_hash.as_slice()) {
        BytesOrder::Equal => Ok(()),
        _ => Err(HandshakeError::MismatchedInfoHash),
    }
}

} // verus!
