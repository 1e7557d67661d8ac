//! Asking a tracker for peers: the request URL and the reading of the answer.

use vstd::prelude::*;
use vstd::utf8::{decode_utf8, valid_utf8};

pub mod error;
pub mod response;

use crate::protocol::decoder::decode_bytes;
use crate::protocol::pretty::hex_value;
use crate::protocol::decoder::grammar::decode_spec;
use crate::protocol::{Bencode, BencodeValue};
use crate::text::{
    digits_string, digits_text, is_decimal_of, lemma_digits_text_is_decimal, push_str,
    string_from_chars, string_from_utf8_lossy, text_decimal_value, utf8_lossy,
};
use crate::tracker::error::{TrackerError, TrackerFailure};
use crate::tracker::response::{peers_view, TrackerSuccessResponse};

verus! {

/// A byte that percent-encoding leaves as it is: an ASCII letter or digit, `-`, `.`, `_` or `~`.
pub open spec fn is_unreserved(b: u8) -> bool {
    (48 <= b <= 57) || (65 <= b <= 90) || (97 <= b <= 122) || b == 45 || b == 46 || b == 95 || b == 126
}

/// An upper-case hexadecimal digit.
pub open spec fn hex_upper(d: u8) -> char {
    if d < 10 {
        ((d + 48) as u8) as char
    } else {
        ((d + 55) as u8) as char
    }
}

/// Percent-encoding: every byte but the unreserved ones becomes `%` and two hexadecimal digits.
pub open spec fn percent_encoded(bytes: Seq<u8>) -> Seq<char>
    decreases bytes.len(),
{
    if bytes.len() == 0 {
        Seq::empty()
    } else {
        let b = bytes.last();
        percent_encoded(bytes.drop_last()) + if is_unreserved(b) {
            seq![b as char]
        } else {
            seq!['%', hex_upper(b / 16), hex_upper(b % 16)]
        }
    }
}

/// An upper-case hexadecimal digit character: `0` to `9` or `A` to `F`.
pub open spec fn is_upper_hex_char(c: char) -> bool {
    (48 <= (c as u32) <= 57) || (65 <= (c as u32) <= 70)
}

/// The bytes that a percent-encoded text stands for: each `%` and the two hexadecimal digits after
/// it give one byte, every other character the byte of its code.
pub open spec fn percent_decode(t: Seq<char>) -> Seq<u8>
    decreases t.len(),
{
    if t.len() == 0 {
        Seq::empty()
    } else if t.len() >= 3 && t[0] == '%' {
        seq![(hex_value(t[1]) * 16 + hex_value(t[2])) as u8] + percent_decode(t.skip(3))
    } else {
        seq![t[0] as u8] + percent_decode(t.skip(1))
    }
}

/// The percent-encoding of one byte.
spec fn percent_encoded_byte(b: u8) -> Seq<char> {
    if is_unreserved(b) {
        seq![b as char]
    } else {
        seq!['%', hex_upper(b / 16), hex_upper(b % 16)]
    }
}

/// Percent-encoding, read from the front.
proof fn lemma_percent_encoded_front(bytes: Seq<u8>)
    requires
        bytes.len() > 0,
    ensures
        percent_encoded(bytes) == percent_encoded_byte(bytes[0]) + percent_encoded(bytes.drop_first()),
    decreases bytes.len(),
{
    if bytes.len() == 1 {
        assert(bytes.drop_last() =~= Seq::<u8>::empty());
        assert(bytes.drop_first() =~= Seq::<u8>::empty());
        assert(percent_encoded(bytes) =~= percent_encoded_byte(bytes[0]) + percent_encoded(bytes.drop_first()));
    } else {
        lemma_percent_encoded_front(bytes.drop_last());
        assert(bytes.drop_first().drop_last() =~= bytes.drop_last().drop_first());
        assert(bytes.drop_first().last() == bytes.last());
        assert(bytes.drop_last()[0] == bytes[0]);
        assert(percent_encoded(bytes) =~= percent_encoded_byte(bytes[0]) + percent_encoded(bytes.drop_first()));
    }
}

/// Decoding the encoding of one byte gives the byte.
proof fn lemma_percent_decode_one(b: u8, t: Seq<char>)
    ensures
        percent_decode(percent_encoded_byte(b) + t) == seq![b] + percent_decode(t),
{
    let e = percent_encoded_byte(b);
    let u = e + t;
    if is_unreserved(b) {
        assert(u[0] == b as char);
        assert((b as char) as u32 == b);
        assert(u.skip(1) =~= t);
    } else {
        let hi = b / 16;
        let lo = b % 16;
        assert(u[0] == '%');
        assert(hex_value(hex_upper(hi)) == hi);
        assert(hex_value(hex_upper(lo)) == lo);
        assert(hi * 16 + lo == b);
        assert(u.skip(3) =~= t);
    }
}

/// Percent-encoding keeps exactly the unreserved bytes as their characters, writes every other
/// byte as `%` and two upper-case hexadecimal digits, and decoding the text gives the bytes back.
pub proof fn lemma_percent_encoding_round_trip(bytes: Seq<u8>)
    ensures
        percent_decode(percent_encoded(bytes)) == bytes,
        forall|i: int|
            0 <= i < percent_encoded(bytes).len() && #[trigger] percent_encoded(bytes)[i] == '%' ==> i
                + 2 < percent_encoded(bytes).len() && is_upper_hex_char(percent_encoded(bytes)[i + 1])
                && is_upper_hex_char(percent_encoded(bytes)[i + 2]),
        forall|i: int|
            0 <= i < percent_encoded(bytes).len() ==> (#[trigger] percent_encoded(bytes)[i] == '%'
                || is_unreserved(percent_encoded(bytes)[i] as u8) || is_upper_hex_char(
                percent_encoded(bytes)[i],
            )),
    decreases bytes.len(),
{
    if bytes.len() > 0 {
        lemma_percent_encoded_front(bytes);
        lemma_percent_decode_one(bytes[0], percent_encoded(bytes.drop_first()));
        assert(seq![bytes[0]] + bytes.drop_first() =~= bytes);
        lemma_percent_encoding_round_trip(bytes.drop_last());
        lemma_percent_encoding_round_trip(bytes.drop_first());
        let a = percent_encoded(bytes.drop_last());
        let b = bytes.last();
        let e = percent_encoded_byte(b);
        let t = percent_encoded(bytes);
        assert(t =~= a + e);
        assert forall|i: int| 0 <= i < t.len() && #[trigger] t[i] == '%' implies i + 2 < t.len()
            && is_upper_hex_char(t[i + 1]) && is_upper_hex_char(t[i + 2]) by {
            if i < a.len() {
                assert(a[i] == '%');
                assert(t[i + 1] == a[i + 1] && t[i + 2] == a[i + 2]);
            } else {
                if is_unreserved(b) {
                    assert(t[i] == b as char);
                    assert((b as char) as u32 == b);
                } else {
                    assert(i == a.len());
                    assert(b / 16 < 16 && b % 16 < 16);
                }
            }
        }
        assert forall|i: int| 0 <= i < t.len() implies (#[trigger] t[i] == '%' || is_unreserved(
            t[i] as u8,
        ) || is_upper_hex_char(t[i])) by {
            if i < a.len() {
                assert(t[i] == a[i]);
            } else if is_unreserved(b) {
                assert(t[i] == b as char);
                assert((b as char) as u8 == b);
            } else {
                assert(b / 16 < 16 && b % 16 < 16);
            }
        }
    }
}

/// `urlencoding::encode_binary`: by its source, each byte that is an ASCII letter or digit, `-`,
/// `.`, `_` or `~` stays as it is and every other byte becomes `%` and two upper-case hexadecimal
/// digits.
#[verifier::external_body]
fn encode_binary(data: &[u8]) -> (s: String)
    ensures
        s@ == percent_encoded(data@),
{
    urlencoding::encode_binary(data).into_owned()
}

/// What `Url::parse_with_params` (of the `url` crate, through `reqwest`) gives for a text and query
/// parameters: the serialized URL, or the text of the parse error.
pub uninterp spec fn url_with_params(input: Seq<char>, params: Seq<(Seq<char>, Seq<char>)>) -> Result<
    Seq<char>,
    Seq<char>,
>;

/// The texts of query parameters.
pub open spec fn params_view(params: Seq<(String, String)>) -> Seq<(Seq<char>, Seq<char>)> {
    params.map_values(|p: (String, String)| (p.0@, p.1@))
}

/// `reqwest::Url::parse_with_params`: parses the text as a URL and appends the parameters to its
/// query; here the URL is returned serialized and the error as its message. Both are named
/// `url_with_params` of the arguments; nothing more is claimed of the URL parser.
#[verifier::external_body]
fn parse_url_with_params(input: &str, params: &Vec<(String, String)>) -> (r: Result<String, String>)
    ensures
        match r {
            Ok(url) => url_with_params(input@, params_view(params@)) == Ok::<_, Seq<char>>(url@),
            Err(msg) => url_with_params(input@, params_view(params@)) == Err::<Seq<char>, _>(msg@),
        },
{
    match reqwest::Url::parse_with_params(input, params.iter()) {
        Ok(url) => Ok(String::from(url)),
        Err(err) => Err(err.to_string()),
    }
}

/// The address part of an announce URL: the tracker's URL, then the percent-encoded info hash.
pub open spec fn announce_base(announce: Seq<char>, info_hash: Seq<u8>) -> Seq<char> {
    announce + "?info_hash="@ + percent_encoded(info_hash)
}

/// The other query parameters of an announce, in order.
pub open spec fn announce_params(
    peer_id: Seq<char>,
    port: u16,
    uploaded: u64,
    downloaded: u64,
    left: u64,
    compact: u8,
) -> Seq<(Seq<char>, Seq<char>)> {
    seq![
        ("peer_id"@, peer_id),
        ("port"@, digits_text(port as nat)),
        ("uploaded"@, digits_text(uploaded as nat)),
        ("downloaded"@, digits_text(downloaded as nat)),
        ("left"@, digits_text(left as nat)),
        ("compact"@, digits_text(compact as nat)),
    ]
}

/// The query parameters of an announce are, in order, `peer_id` with the peer id as it is, then
/// `port`, `uploaded`, `downloaded`, `left` and `compact`, each with the usual decimal writing of
/// the matching argument; so announces that differ in any of these differ in their parameters.
pub proof fn lemma_announce_params_carry_arguments(
    peer_id: Seq<char>,
    port: u16,
    uploaded: u64,
    downloaded: u64,
    left: u64,
    compact: u8,
)
    ensures
        ({
            let ps = announce_params(peer_id, port, uploaded, downloaded, left, compact);
            &&& ps.len() == 6
            &&& ps[0] == ("peer_id"@, peer_id)
            &&& ps[1].0 == "port"@ && is_decimal_of(ps[1].1, port as nat)
            &&& ps[2].0 == "uploaded"@ && is_decimal_of(ps[2].1, uploaded as nat)
            &&& ps[3].0 == "downloaded"@ && is_decimal_of(ps[3].1, downloaded as nat)
            &&& ps[4].0 == "left"@ && is_decimal_of(ps[4].1, left as nat)
            &&& ps[5].0 == "compact"@ && is_decimal_of(ps[5].1, compact as nat)
        }),
{
    lemma_digits_text_is_decimal(port as nat);
    lemma_digits_text_is_decimal(uploaded as nat);
    lemma_digits_text_is_decimal(downloaded as nat);
    lemma_digits_text_is_decimal(left as nat);
    lemma_digits_text_is_decimal(compact as nat);
}

/// Two announces whose parameters are the same were made with the same peer id, port, counts
/// and compact flag.
pub proof fn lemma_announce_params_distinguish(
    peer_id: Seq<char>,
    port: u16,
    uploaded: u64,
    downloaded: u64,
    left: u64,
    compact: u8,
    peer_id2: Seq<char>,
    port2: u16,
    uploaded2: u64,
    downloaded2: u64,
    left2: u64,
    compact2: u8,
)
    requires
        announce_params(peer_id, port, uploaded, downloaded, left, compact) == announce_params(
            peer_id2,
            port2,
            uploaded2,
            downloaded2,
            left2,
            compact2,
        ),
    ensures
        peer_id == peer_id2,
        port == port2,
        uploaded == uploaded2,
        downloaded == downloaded2,
        left == left2,
        compact == compact2,
{
    lemma_announce_params_carry_arguments(peer_id, port, uploaded, downloaded, left, compact);
    lemma_announce_params_carry_arguments(peer_id2, port2, uploaded2, downloaded2, left2, compact2);
    let a = announce_params(peer_id, port, uploaded, downloaded, left, compact);
    assert(a[0].1 == peer_id && a[0].1 == peer_id2);
    assert(text_decimal_value(a[1].1) == port && text_decimal_value(a[1].1) == port2);
    assert(text_decimal_value(a[2].1) == uploaded && text_decimal_value(a[2].1) == uploaded2);
    assert(text_decimal_value(a[3].1) == downloaded && text_decimal_value(a[3].1) == downloaded2);
    assert(text_decimal_value(a[4].1) == left && text_decimal_value(a[4].1) == left2);
    assert(text_decimal_value(a[5].1) == compact && text_decimal_value(a[5].1) == compact2);
}

/// The pieces of an announce URL: its address part and its other query parameters; fails when
/// there is no tracker URL.
pub fn announce_query(
    announce: &Option<String>,
    info_hash: &[u8],
    peer_id: String,
    port: u16,
    uploaded: u64,
    downloaded: u64,
    left: u64,
    compact: u8,
) -> (r: Result<(String, Vec<(String, String)>), TrackerError>)
    ensures
        announce is None <==> r is Err,
        r matches Err(e) ==> e@ == TrackerFailure::NoAnnounce,
        r matches Ok(q) ==> (announce matches Some(a) && q.0@ == announce_base(a@, info_hash@)
            && params_view(q.1@) == announce_params(peer_id@, port, uploaded, downloaded, left, compact)),
{
    let a = match announce {
        Some(a) => a,
        None => {
            return Err(TrackerError::NoAnnounce);
        },
    };
    let mut base: Vec<char> = Vec::new();
    push_str(&mut base, a.as_str());
    push_str(&mut base, "?info_hash=");
    let encoded = encode_binary(info_hash);
    push_str(&mut base, encoded.as_str());
    assert(base@ =~= announce_base(a@, info_hash@));
    let mut params: Vec<(String, String)> = Vec::new();
    params.push(("peer_id".to_owned(), peer_id));
    params.push(("port".to_owned(), digits_string(port as u64)));
    params.push(("uploaded".to_owned(), digits_string(uploaded)));
    params.push(("downloaded".to_owned(), digits_string(downloaded)));
    params.push(("left".to_owned(), digits_string(left)));
    params.push(("compact".to_owned(), digits_string(compact as u64)));
    assert(params_view(params@) =~= announce_params(peer_id@, port, uploaded, downloaded, left, compact));
    Ok((string_from_chars(base), params))
}

/// The URL that asks the tracker for peers: the tracker's URL with the info hash, our peer id,
/// port and transfer counts as query parameters.
pub fn build_announce_url(
    announce: &Option<String>,
    info_hash: &[u8],
    peer_id: String,
    port: u16,
    uploaded: u64,
    downloaded: u64,
    left: u64,
    compact: u8,
) -> (r: Result<String, TrackerError>)
    ensures
        announce is None ==> (r matches Err(e) && e@ == TrackerFailure::NoAnnounce),
        announce matches Some(a) ==> ({
            let parsed = url_with_params(
                announce_base(a@, info_hash@),
                announce_params(peer_id@, port, uploaded, downloaded, left, compact),
            );
            match r {
                Ok(url) => parsed == Ok::<_, Seq<char>>(url@),
                Err(e) => (parsed matches Err(msg) && e@ == TrackerFailure::UrlParse(msg)),
            }
        }),
{
    let (base, params) = announce_query(announce, info_hash, peer_id, port, uploaded, downloaded, left, compact)?;
    match parse_url_with_params(base.as_str(), &params) {
        Ok(url) => Ok(url),
        Err(msg) => Err(TrackerError::UrlParse(msg)),
    }
}

/// The peers of a compact peer list: each six bytes are four octets of address and a big-endian
/// port; a shorter rest is ignored.
pub open spec fn compact_peers(bytes: Seq<u8>) -> Seq<(Seq<u8>, u16)> {
    Seq::new(
        bytes.len() / 6,
        |i: int| (bytes.subrange(6 * i, 6 * i + 4), (bytes[6 * i + 4] * 256 + bytes[6 * i + 5]) as u16),
    )
}

/// What reading a tracker's answer gives: a dictionary without a textual `failure reason`, with an
/// integer `interval` and a compact `peers` list.
pub open spec fn response_from(bytes: Seq<u8>) -> Result<(u64, Seq<(Seq<u8>, u16)>), TrackerFailure> {
    match decode_spec(bytes) {
        Err(e) => Err(TrackerFailure::Bencode(e)),
        Ok(BencodeValue::Dictionary(d)) => {
            if d.dom().contains("failure reason"@) && d["failure reason"@] is String {
                Err(TrackerFailure::ResponseFailure(utf8_lossy(d["failure reason"@]->String_0)))
            } else if !d.dom().contains("interval"@) {
                Err(TrackerFailure::ResponseKeyMissing("interval"@))
            } else if !(d["interval"@] is Integer) {
                Err(TrackerFailure::WrongBencodeType("integer"@))
            } else if !d.dom().contains("peers"@) {
                Err(TrackerFailure::ResponseKeyMissing("peers"@))
            } else if !(d["peers"@] is String) {
                Err(TrackerFailure::WrongBencodeType("string"@))
            } else {
                Ok(
                    (
                        (d["interval"@]->Integer_0 as i64) as u64,
                        compact_peers(d["peers"@]->String_0),
                    ),
                )
            }
        },
        Ok(_) => Err(TrackerFailure::WrongBencodeType("dict"@)),
    }
}

/// A tracker's answer is read as follows: it must decode to a dictionary without a textual
/// `failure reason`; the `interval` is its integer (the number itself when it is not negative and
/// fits an `i64`, as every decoded integer does); and the
/// compact `peers` string gives one peer per whole six bytes, in order, peer `i` having the
/// octets `p[6i..6i+4]` and the port `p[6i+4] * 256 + p[6i+5]`; a shorter tail is ignored.
pub proof fn lemma_response_reads_peers(bytes: Seq<u8>)
    requires
        response_from(bytes) is Ok,
    ensures
        ({
            let interval = response_from(bytes)->Ok_0.0;
            let peers = response_from(bytes)->Ok_0.1;
            &&& decode_spec(bytes) matches Ok(BencodeValue::Dictionary(d))
            &&& !(d.dom().contains("failure reason"@) && d["failure reason"@] is String)
            &&& d.dom().contains("interval"@)
            &&& d["interval"@] matches BencodeValue::Integer(n)
            &&& 0 <= n <= i64::MAX ==> interval == n
            &&& d.dom().contains("peers"@)
            &&& d["peers"@] matches BencodeValue::String(p)
            &&& peers.len() == p.len() / 6
            &&& forall|i: int|
                0 <= i < peers.len() ==> (#[trigger] peers[i]).0 == p.subrange(6 * i, 6 * i + 4)
                    && peers[i].1 as int == p[6 * i + 4] * 256 + p[6 * i + 5]
        }),
{
    let d = decode_spec(bytes)->Ok_0->Dictionary_0;
    let p = d["peers"@]->String_0;
    let peers = response_from(bytes)->Ok_0.1;
    assert forall|i: int| 0 <= i < peers.len() implies (#[trigger] peers[i]).0 == p.subrange(6 * i, 6 * i + 4)
        && peers[i].1 as int == p[6 * i + 4] * 256 + p[6 * i + 5] by {
        assert(6 * i + 6 <= p.len()) by (nonlinear_arith)
            requires
                0 <= i < p.len() / 6,
        ;
        let v: int = p[6 * i + 4] * 256 + p[6 * i + 5];
        assert(0 <= v <= 65535);
    }
}

/// A tracker's answer that decodes to a dictionary without a textual `failure reason`, with an
/// integer `interval` and a string `peers`, is read successfully.
pub proof fn lemma_response_accepted(bytes: Seq<u8>)
    requires
        decode_spec(bytes) matches Ok(BencodeValue::Dictionary(d)) && !(d.dom().contains(
            "failure reason"@,
        ) && d["failure reason"@] is String) && d.dom().contains("interval"@)
            && d["interval"@] is Integer && d.dom().contains("peers"@) && d["peers"@] is String,
    ensures
        response_from(bytes) is Ok,
{
}

/// Reads the peers out of a compact peer list.
fn read_compact_peers(bytes: &[u8]) -> (peers: Vec<([u8; 4], u16)>)
    ensures
        peers_view(peers@) == compact_peers(bytes@),
{
    let mut peers: Vec<([u8; 4], u16)> = Vec::new();
    let len = bytes.len();
    let count = len / 6;
    let mut i: usize = 0;
    while i < count
        invariant
            count == bytes@.len() / 6,
            bytes@.len() <= usize::MAX,
            i <= count,
            peers@.len() == i,
            forall|j: int| 0 <= j < i ==> ((#[trigger] peers@[j]).0@, peers@[j].1) == compact_peers(bytes@)[j],
        decreases count - i,
    {
        assert(6 * i + 6 <= bytes@.len()) by (nonlinear_arith)
            requires
                i < count,
                count == bytes@.len() / 6,
        ;
        let k = 6 * i;
        let ip = [bytes[k], bytes[k + 1], bytes[k + 2], bytes[k + 3]];
        let port = (bytes[k + 4] as u16) * 256 + bytes[k + 5] as u16;
        assert(ip@ =~= bytes@.subrange(k as int, k + 4));
        peers.push((ip, port));
        i = i + 1;
    }
    assert(peers_view(peers@) =~= compact_peers(bytes@));
    peers
}

/// Reads a tracker's answer.
pub fn decode_response(bytes: &[u8]) -> (r: Result<TrackerSuccessResponse, TrackerError>)
    ensures
        r is Ok <==> response_from(bytes@) is Ok,
        r matches Ok(resp) ==> response_from(bytes@) == Ok::<_, TrackerFailure>(
            (resp.interval, peers_view(resp.peers@)),
        ),
        r matches Err(e) ==> response_from(bytes@) == Err::<(u64, Seq<(Seq<u8>, u16)>), _>(e@),
{
    let bencode = match decode_bytes(bytes) {
        Ok(b) => b,
        Err(e) => {
            return Err(TrackerError::Bencode(e));
        },
    };
    let dict = match bencode {
        Bencode::Dictionary(dict) => dict,
        _ => {
            return Err(TrackerError::WrongBencodeType("dict".to_owned()));
        },
    };
    if let Some(Bencode::String(reason)) = dict.get("failure reason") {
        return Err(TrackerError::ResponseFailure(string_from_utf8_lossy(reason.as_slice())));
    }
    let interval = match dict.get("interval") {
        Some(Bencode::Integer(value)) => *value as u64,
        Some(_) => {
            return Err(TrackerError::WrongBencodeType("integer".to_owned()));
        },
        None => {
            return Err(TrackerError::ResponseKeyMissing("interval".to_owned()));
        },
    };
    let peers = match dict.get("peers") {
        Some(Bencode::String(bytes)) => read_compact_peers(bytes.as_slice()),
        Some(_) => {
            return Err(TrackerError::WrongBencodeType("string".to_owned()));
        },
        None => {
            return Err(TrackerError::ResponseKeyMissing("peers".to_owned()));
        },
    };
    Ok(TrackerSuccessResponse::new(interval, peers))
}

} // verus!
