//! The tracker: the announce request and the reply with the list of peers.

use crate::bencode::decimal::dec_digits;
use crate::bencode::decode::decode_all;
use crate::bencode::grammar::{parse_all, ser_value};
use crate::bencode::value::{Bencode, Tree};
use crate::digest::sha1_of;
use crate::text::{
    ascii_chars, ascii_string, decimal_string, is_ascii_bytes, lossy_string, utf8_lossy,
};
use crate::torrent::fields::{
    bytes_of, count_of, dict_get, field, field_bytes, field_count, key_bytes, key_of,
};
use crate::torrent::metainfo::{info_value, Torrent};
use crate::torrent::peers::{compact_peers, deserialize_vec, peers_view, Peer, PeerView};
use vstd::prelude::*;
use vstd::string::*;

verus! {

/// The port that the client says it listens on unless told otherwise.
pub const DEFAULT_PORT: u16 = 6881;

/// The id that the client gives itself unless told otherwise: ASCII
/// `00112233445566778899`.
pub open spec fn default_peer_id_bytes() -> Seq<u8> {
    Seq::new(20, |i: int| (48 + i / 2) as u8)
}

/// The id that the client gives itself unless told otherwise.
pub fn default_peer_id() -> (r: [u8; 20])
    ensures
        r@ == default_peer_id_bytes(),
{
    let r: [u8; 20] = [
        48, 48, 49, 49, 50, 50, 51, 51, 52, 52, 53, 53, 54, 54, 55, 55, 56, 56, 57, 57,
    ];
    assert(r@ =~= default_peer_id_bytes());
    r
}

/// The byte may stand in a URL as it is: a letter, a digit, or one of `-`, `.`,
/// `_` and `~`.
pub open spec fn is_unreserved(b: u8) -> bool {
    (48 <= b <= 57) || (65 <= b <= 90) || (97 <= b <= 122) || b == 45 || b == 46 || b == 95 || b
        == 126
}

/// The upper-case hexadecimal digit of a number below sixteen.
pub open spec fn upper_hex_digit(n: int) -> u8 {
    if n < 10 {
        (48 + n) as u8
    } else {
        (55 + n) as u8
    }
}

/// One byte as it stands in a URL: itself where it is unreserved, else `%` and
/// its two upper-case hexadecimal digits.
pub open spec fn percent_encoded_byte(b: u8) -> Seq<u8> {
    if is_unreserved(b) {
        seq![b]
    } else {
        seq![37u8, upper_hex_digit(b as int / 16), upper_hex_digit(b as int % 16)]
    }
}

/// Bytes as they stand in a URL, each encoded by itself.
pub open spec fn percent_encoded(bytes: Seq<u8>) -> Seq<u8>
    decreases bytes.len(),
{
    if bytes.len() == 0 {
        Seq::empty()
    } else {
        percent_encoded(bytes.drop_last()) + percent_encoded_byte(bytes.last())
    }
}

/// Appends `bytes` to `out` as they stand in a URL.
pub fn push_percent_encoded(out: &mut Vec<u8>, bytes: &[u8])
    requires
        is_ascii_bytes(old(out)@),
    ensures
        final(out)@ == old(out)@ + percent_encoded(bytes@),
        is_ascii_bytes(final(out)@),
        is_ascii_bytes(percent_encoded(bytes@)),
{
    let ghost start = out@;
    let mut i: usize = 0;
    assert(bytes@.subrange(0, 0) =~= Seq::<u8>::empty());
    assert(out@ =~= start + Seq::<u8>::empty());
    while i < bytes.len()
        invariant
            i <= bytes@.len(),
            start == old(out)@,
            is_ascii_bytes(start),
            out@ == start + percent_encoded(bytes@.subrange(0, i as int)),
            is_ascii_bytes(out@),
            is_ascii_bytes(percent_encoded(bytes@.subrange(0, i as int))),
        decreases bytes@.len() - i,
    {
        let b = bytes[i];
        let ghost before = percent_encoded(bytes@.subrange(0, i as int));
        let ghost held = out@;
        assert(bytes@.subrange(0, i + 1).drop_last() =~= bytes@.subrange(0, i as int));
        assert(bytes@.subrange(0, i + 1).last() == b);
        if (b >= 48 && b <= 57) || (b >= 65 && b <= 90) || (b >= 97 && b <= 122) || b == 45 || b
            == 46 || b == 95 || b == 126 {
            out.push(b);
        } else {
            let high = b / 16;
            let low = b % 16;
            out.push(37);
            out.push(if high < 10 {
                48 + high
            } else {
                55 + high
            });
            out.push(if low < 10 {
                48 + low
            } else {
                55 + low
            });
        }
        proof {
            let piece = percent_encoded_byte(b);
            assert(out@ =~= held + piece);
            assert(is_ascii_bytes(piece));
            crate::text::lemma_ascii_concat(held, piece);
            crate::text::lemma_ascii_concat(before, piece);
            assert(start + (before + piece) =~= (start + before) + piece);
        }
        i += 1;
    }
    assert(bytes@.subrange(0, i as int) =~= bytes@);
}

/// The bytes as they stand in a URL: every byte that is no letter, digit, `-`,
/// `.`, `_` or `~` becomes `%` and two upper-case hexadecimal digits.
pub fn url_encode(bytes: &[u8]) -> (r: String)
    ensures
        r@ == ascii_chars(percent_encoded(bytes@)),
{
    let mut out: Vec<u8> = Vec::new();
    push_percent_encoded(&mut out, bytes);
    assert(out@ =~= percent_encoded(bytes@));
    ascii_string(out.as_slice())
}

/// The URL of the announce request: the tracker's URL and the query that names
/// the torrent, the client and what is left to download.
pub fn announce_url(torrent: &Torrent, peer_id: &[u8; 20], port: u16) -> (r: String)
    requires
        torrent@.info.valid(),
    ensures
        r@ == torrent@.announce + "?info_hash="@ + ascii_chars(
            percent_encoded(sha1_of(ser_value(info_value(torrent@.info)))),
        ) + "&peer_id="@ + ascii_chars(percent_encoded(peer_id@)) + "&port="@ + ascii_chars(
            dec_digits(port as nat),
        ) + "&uploaded=0&downloaded=0&left="@ + ascii_chars(
            dec_digits(torrent@.info.keys.total() as nat),
        ) + "&compact=1"@,
{
    let info_hash = torrent.info_hash();
    let hash_text = url_encode(info_hash.as_slice());
    let id_text = url_encode(peer_id.as_slice());
    let port_text = decimal_string(port as u64);
    let left_text = decimal_string(torrent.total_length());
    let mut url = torrent.announce.clone();
    url.append("?info_hash=");
    url.append(hash_text.as_str());
    url.append("&peer_id=");
    url.append(id_text.as_str());
    url.append("&port=");
    url.append(port_text.as_str());
    url.append("&uploaded=0&downloaded=0&left=");
    url.append(left_text.as_str());
    url.append("&compact=1");
    url
}

/// Why the tracker gave no list of peers.
#[derive(Debug)]
pub enum TrackerError {
    /// The HTTP status was none of 200 to 299.
    TrackerHttpError(u16),
    /// The body is no bencoded reply.
    TrackerDecodeError,
    /// The tracker refused and gave this reason.
    TrackerFailureReason(String),
}

/// The model of a `TrackerError`.
pub enum TrackerErrorView {
    TrackerHttpError(u16),
    TrackerDecodeError,
    TrackerFailureReason(Seq<char>),
}

impl View for TrackerError {
    type V = TrackerErrorView;

    open spec fn view(&self) -> TrackerErrorView {
        match self {
            TrackerError::TrackerHttpError(status) => TrackerErrorView::TrackerHttpError(*status),
            TrackerError::TrackerDecodeError => TrackerErrorView::TrackerDecodeError,
            TrackerError::TrackerFailureReason(msg) => TrackerErrorView::TrackerFailureReason(
                msg@,
            ),
        }
    }
}

/// The reply of a tracker to an announce request.
#[derive(Debug)]
pub struct PeersResponse {
    pub complete: u64,
    pub incomplete: u64,
    pub interval: u64,
    pub min_interval: u64,
    pub peers: Vec<Peer>,
}

/// The model of a `PeersResponse`.
pub struct PeersResponseView {
    pub complete: u64,
    pub incomplete: u64,
    pub interval: u64,
    pub min_interval: u64,
    pub peers: Seq<PeerView>,
}

impl View for PeersResponse {
    type V = PeersResponseView;

    open spec fn view(&self) -> PeersResponseView {
        PeersResponseView {
            complete: self.complete,
            incomplete: self.incomplete,
            interval: self.interval,
            min_interval: self.min_interval,
            peers: peers_view(self.peers@),
        }
    }
}

/// A count that has to be there.
pub open spec fn required_count(f: Option<Tree>) -> Option<u64> {
    match f {
        None => None,
        Some(x) => field_count(x),
    }
}

/// The reply that a value is. A `failure reason` decides before anything else;
/// then `complete`, `incomplete` and `interval` have to be counts,
/// `min interval` a count where it is there, and `peers` a compact list.
pub open spec fn reply_of(v: Tree) -> Result<PeersResponseView, TrackerErrorView> {
    if !(v is Dict) {
        Err(TrackerErrorView::TrackerDecodeError)
    } else if field(v, key_of("failure reason"@)) is Some {
        match field_bytes(field(v, key_of("failure reason"@))->0) {
            None => Err(TrackerErrorView::TrackerDecodeError),
            Some(b) => Err(TrackerErrorView::TrackerFailureReason(utf8_lossy(b))),
        }
    } else {
        let complete = required_count(field(v, key_of("complete"@)));
        let incomplete = required_count(field(v, key_of("incomplete"@)));
        let interval = required_count(field(v, key_of("interval"@)));
        let min_interval = match field(v, key_of("min interval"@)) {
            None => Some(0u64),
            Some(x) => field_count(x),
        };
        let peers = match field(v, key_of("peers"@)) {
            None => None,
            Some(x) => field_bytes(x),
        };
        if complete is Some && incomplete is Some && interval is Some && min_interval is Some
            && peers is Some {
            Ok(
                PeersResponseView {
                    complete: complete->0,
                    incomplete: incomplete->0,
                    interval: interval->0,
                    min_interval: min_interval->0,
                    peers: compact_peers(peers->0),
                },
            )
        } else {
            Err(TrackerErrorView::TrackerDecodeError)
        }
    }
}

/// What the answer of a tracker with HTTP status `status` and body `body` is: a
/// status outside 200 to 299 is an error of its own, then the body has to be
/// one bencode value and a reply.
pub open spec fn tracker_answer(status: u16, body: Seq<u8>) -> Result<
    PeersResponseView,
    TrackerErrorView,
> {
    if status < 200 || status > 299 {
        Err(TrackerErrorView::TrackerHttpError(status))
    } else {
        match parse_all(body, false) {
            Err(_) => Err(TrackerErrorView::TrackerDecodeError),
            Ok(v) => reply_of(v),
        }
    }
}

/// A count that has to be there.
fn read_count(value: &Bencode, name: &str) -> (r: Option<u64>)
    requires
        is_ascii(name),
    ensures
        r == required_count(field(value@, key_of(name@))),
{
    match dict_get(value, key_bytes(name)) {
        None => None,
        Some(x) => match count_of(x) {
            Ok(n) => Some(n),
            Err(_) => None,
        },
    }
}

impl PeersResponse {
    /// The reply that a bencode value is.
    pub fn from_bencode(value: &Bencode) -> (r: Result<PeersResponse, TrackerError>)
        ensures
            match r {
                Ok(p) => reply_of(value@) == Ok::<PeersResponseView, TrackerErrorView>(p@),
                Err(e) => reply_of(value@) == Err::<PeersResponseView, TrackerErrorView>(e@),
            },
    {
        proof {
            reveal_strlit("failure reason");
            reveal_strlit("complete");
            reveal_strlit("incomplete");
            reveal_strlit("interval");
            reveal_strlit("min interval");
            reveal_strlit("peers");
        }
        match value {
            Bencode::Dict(_) => {},
            _ => {
                return Err(TrackerError::TrackerDecodeError);
            },
        }
        match dict_get(value, key_bytes("failure reason")) {
            Some(reason) => {
                return match bytes_of(reason) {
                    Err(_) => Err(TrackerError::TrackerDecodeError),
                    Ok(b) => Err(TrackerError::TrackerFailureReason(lossy_string(b.as_slice()))),
                };
            },
            None => {},
        }
        let complete = read_count(value, "complete");
        let incomplete = read_count(value, "incomplete");
        let interval = read_count(value, "interval");
        let min_interval = match dict_get(value, key_bytes("min interval")) {
            None => Some(0u64),
            Some(x) => match count_of(x) {
                Ok(n) => Some(n),
                Err(_) => None,
            },
        };
        let peers = match dict_get(value, key_bytes("peers")) {
            None => None,
            Some(x) => match deserialize_vec(x) {
                Ok(list) => Some(list),
                Err(_) => None,
            },
        };
        match (complete, incomplete, interval, min_interval, peers) {
            (Some(complete), Some(incomplete), Some(interval), Some(min_interval), Some(peers)) => {
                Ok(PeersResponse { complete, incomplete, interval, min_interval, peers })
            },
            _ => Err(TrackerError::TrackerDecodeError),
        }
    }
}

/// Reads the answer of a tracker: its HTTP status and the body.
pub fn tracker_reply(status: u16, body: &[u8]) -> (r: Result<PeersResponse, TrackerError>)
    ensures
        match r {
            Ok(p) => tracker_answer(status, body@) == Ok::<PeersResponseView, TrackerErrorView>(
                p@,
            ),
            Err(e) => tracker_answer(status, body@) == Err::<PeersResponseView, TrackerErrorView>(
                e@,
            ),
        },
{
    if status < 200 || status > 299 {
        return Err(TrackerError::TrackerHttpError(status));
    }
    match decode_all(body, false) {
        Err(_) => Err(TrackerError::TrackerDecodeError),
        Ok(v) => PeersResponse::from_bencode(&v),
    }
}

} // verus!
