//! Peers as a tracker lists them in compact form: four bytes of IPv4 address
//! and two bytes of port, in network byte order.

use crate::bencode::decimal::{dec_digits, push_decimal};
use crate::bencode::value::Bencode;
use crate::text::{
    ascii_chars, ascii_string, decimal_string, is_ascii_bytes, lemma_ascii_concat,
    lemma_digits_ascii,
};
use crate::torrent::fields::{bytes_of, field_bytes, FieldError};
use crate::torrent::wire::{be16_value, u16_from_be};
use vstd::prelude::*;
use vstd::string::*;

verus! {

/// A peer: its IPv4 address in dotted decimal, and its TCP port.
#[derive(Debug)]
pub struct Peer(pub String, pub u16);

/// The model of a peer.
pub struct PeerView {
    pub host: Seq<char>,
    pub port: u16,
}

impl View for Peer {
    type V = PeerView;

    open spec fn view(&self) -> PeerView {
        PeerView { host: self.0@, port: self.1 }
    }
}

/// The byte of a full stop.
pub const DOT: u8 = 46;

/// An IPv4 address of four bytes in dotted decimal.
pub open spec fn dotted(a: u8, b: u8, c: u8, d: u8) -> Seq<u8> {
    dec_digits(a as nat) + seq![DOT] + dec_digits(b as nat) + seq![DOT] + dec_digits(c as nat)
        + seq![DOT] + dec_digits(d as nat)
}

/// The peer that a group of six bytes stands for.
pub open spec fn peer_of(group: Seq<u8>) -> PeerView {
    PeerView {
        host: ascii_chars(dotted(group[0], group[1], group[2], group[3])),
        port: be16_value(group[4], group[5]) as u16,
    }
}

/// The peers that a compact list holds, six bytes each; bytes behind the last
/// whole group are left out.
pub open spec fn compact_peers(bytes: Seq<u8>) -> Seq<PeerView> {
    Seq::new((bytes.len() / 6) as nat, |k: int| peer_of(bytes.subrange(6 * k, 6 * k + 6)))
}

/// The models of the peers of a vector.
pub open spec fn peers_view(peers: Seq<Peer>) -> Seq<PeerView> {
    Seq::new(peers.len(), |k: int| peers[k]@)
}

/// An IPv4 address in dotted decimal.
pub fn dotted_address(a: u8, b: u8, c: u8, d: u8) -> (s: String)
    ensures
        s@ == ascii_chars(dotted(a, b, c, d)),
{
    let mut out: Vec<u8> = Vec::new();
    push_decimal(&mut out, a as u64);
    out.push(DOT);
    push_decimal(&mut out, b as u64);
    out.push(DOT);
    push_decimal(&mut out, c as u64);
    out.push(DOT);
    push_decimal(&mut out, d as u64);
    proof {
        let dot = seq![DOT];
        assert(is_ascii_bytes(dot));
        lemma_digits_ascii(a as nat);
        lemma_digits_ascii(b as nat);
        lemma_digits_ascii(c as nat);
        lemma_digits_ascii(d as nat);
        let s1 = dec_digits(a as nat) + dot;
        lemma_ascii_concat(dec_digits(a as nat), dot);
        let s2 = s1 + dec_digits(b as nat);
        lemma_ascii_concat(s1, dec_digits(b as nat));
        let s3 = s2 + dot;
        lemma_ascii_concat(s2, dot);
        let s4 = s3 + dec_digits(c as nat);
        lemma_ascii_concat(s3, dec_digits(c as nat));
        let s5 = s4 + dot;
        lemma_ascii_concat(s4, dot);
        lemma_ascii_concat(s5, dec_digits(d as nat));
        assert(out@ =~= dotted(a, b, c, d));
    }
    ascii_string(out.as_slice())
}

/// The peers of a compact list. A last group of fewer than six bytes is left
/// out.
pub fn peers_from_bytes(v: &[u8]) -> (r: Vec<Peer>)
    ensures
        peers_view(r@) == compact_peers(v@),
{
    let count = v.len() / 6;
    let mut out: Vec<Peer> = Vec::new();
    let mut k: usize = 0;
    while k < count
        invariant
            k <= count,
            count == v@.len() / 6,
            v@.len() <= usize::MAX,
            out@.len() == k,
            forall|j: int|
                0 <= j < k ==> (#[trigger] out@[j])@ == peer_of(v@.subrange(6 * j, 6 * j + 6)),
        decreases count - k,
    {
        let at = 6 * k;
        let ghost group = v@.subrange(6 * k, 6 * k + 6);
        assert(group[0] == v@[at as int] && group[1] == v@[at + 1] && group[2] == v@[at + 2]
            && group[3] == v@[at + 3] && group[4] == v@[at + 4] && group[5] == v@[at + 5]);
        let host = dotted_address(v[at], v[at + 1], v[at + 2], v[at + 3]);
        let port = u16_from_be(v[at + 4], v[at + 5]);
        out.push(Peer(host, port));
        k += 1;
    }
    assert(peers_view(out@) =~= compact_peers(v@));
    out
}

/// The peers of a `peers` field, which may stand as a byte string or as a list
/// of byte integers.
pub fn deserialize_vec(value: &Bencode) -> (r: Result<Vec<Peer>, FieldError>)
    ensures
        match r {
            Ok(peers) => field_bytes(value@) matches Some(b) && peers_view(peers@)
                == compact_peers(b),
            Err(e) => field_bytes(value@) is None && e == FieldError::InvalidField,
        },
{
    match bytes_of(value) {
        Err(e) => Err(e),
        Ok(b) => Ok(peers_from_bytes(b.as_slice())),
    }
}

impl Peer {
    /// The peer as `address:port`.
    pub fn to_string(&self) -> (s: String)
        ensures
            s@ == self.0@ + ":"@ + ascii_chars(dec_digits(self.1 as nat)),
    {
        let port = decimal_string(self.1 as u64);
        let mut s = self.0.clone();
        s.append(":");
        s.append(port.as_str());
        s
    }
}

} // verus!
