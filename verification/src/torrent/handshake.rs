//! The handshake that opens a peer connection: 68 bytes, the same in both
//! directions.

use crate::digest::digest_eq;
use crate::torrent::error::ProtocolError;
use vstd::prelude::*;

verus! {

/// The name of the protocol, ASCII `BitTorrent protocol`.
pub open spec fn protocol_name() -> Seq<u8> {
    seq![
        66u8, 105, 116, 84, 111, 114, 114, 101, 110, 116, 32, 112, 114, 111, 116, 111, 99, 111, 108,
    ]
}

/// The name of the protocol as the handshake carries it.
pub fn protocol() -> (r: [u8; 19])
    ensures
        r@ == protocol_name(),
{
    let r: [u8; 19] = [
        66, 105, 116, 84, 111, 114, 114, 101, 110, 116, 32, 112, 114, 111, 116, 111, 99, 111, 108,
    ];
    assert(r@ =~= protocol_name());
    r
}

/// A handshake: the length of the protocol name, the name, eight reserved
/// bytes, the info hash of the torrent and the id of the peer that sends it.
#[derive(Debug)]
pub struct Handshake {
    pub length: u8,
    pub protocol: [u8; 19],
    pub zero: [u8; 8],
    pub info_hash: [u8; 20],
    pub peer_id: [u8; 20],
}

impl Handshake {
    /// The 68 bytes of the handshake on the wire.
    pub open spec fn wire(&self) -> Seq<u8> {
        seq![self.length] + self.protocol@ + self.zero@ + self.info_hash@ + self.peer_id@
    }

    /// The handshake announces the BitTorrent protocol.
    pub open spec fn names_protocol(&self) -> bool {
        self.length == 19 && self.protocol@ == protocol_name()
    }

    /// The handshake that a client with id `peer_id` sends for the torrent with
    /// the given info hash.
    pub fn new(info_hash: [u8; 20], peer_id: [u8; 20]) -> (r: Self)
        ensures
            r.names_protocol(),
            r.zero@ == Seq::new(8, |i: int| 0u8),
            r.info_hash == info_hash,
            r.peer_id == peer_id,
    {
        let zero: [u8; 8] = [0, 0, 0, 0, 0, 0, 0, 0];
        assert(zero@ =~= Seq::new(8, |i: int| 0u8));
        Handshake { length: 19, protocol: protocol(), zero, info_hash, peer_id }
    }

    /// The handshake as it goes on the wire.
    pub fn to_bytes(&self) -> (r: [u8; 68])
        ensures
            r@ == self.wire(),
    {
        let mut out: [u8; 68] = [0u8; 68];
        out[0] = self.length;
        let mut i: usize = 0;
        while i < 19
            invariant
                i <= 19,
                out@[0] == self.length,
                forall|j: int| 0 <= j < i ==> out@[1 + j] == self.protocol@[j],
            decreases 19 - i,
        {
            out[1 + i] = self.protocol[i];
            i += 1;
        }
        i = 0;
        while i < 8
            invariant
                i <= 8,
                out@[0] == self.length,
                forall|j: int| 0 <= j < 19 ==> out@[1 + j] == self.protocol@[j],
                forall|j: int| 0 <= j < i ==> out@[20 + j] == self.zero@[j],
            decreases 8 - i,
        {
            out[20 + i] = self.zero[i];
            i += 1;
        }
        i = 0;
        while i < 20
            invariant
                i <= 20,
                out@[0] == self.length,
                forall|j: int| 0 <= j < 19 ==> out@[1 + j] == self.protocol@[j],
                forall|j: int| 0 <= j < 8 ==> out@[20 + j] == self.zero@[j],
                forall|j: int| 0 <= j < i ==> out@[28 + j] == self.info_hash@[j],
                forall|j: int| 0 <= j < i ==> out@[48 + j] == self.peer_id@[j],
            decreases 20 - i,
        {
            out[28 + i] = self.info_hash[i];
            out[48 + i] = self.peer_id[i];
            i += 1;
        }
        assert(out@ =~= self.wire()) by {
            let w = self.wire();
            assert(w.len() == 68);
            assert forall|j: int| 0 <= j < 68 implies out@[j] == w[j] by {
                if j == 0 {
                } else if j < 20 {
                    assert(out@[1 + (j - 1)] == self.protocol@[j - 1]);
                } else if j < 28 {
                    assert(out@[20 + (j - 20)] == self.zero@[j - 20]);
                } else if j < 48 {
                    assert(out@[28 + (j - 28)] == self.info_hash@[j - 28]);
                } else {
                    assert(out@[48 + (j - 48)] == self.peer_id@[j - 48]);
                }
            }
        }
        out
    }

    /// The handshake that 68 bytes off the wire hold.
    pub fn from_bytes(bytes: &[u8; 68]) -> (r: Self)
        ensures
            r.wire() == bytes@,
    {
        let mut protocol: [u8; 19] = [0u8; 19];
        let mut zero: [u8; 8] = [0u8; 8];
        let mut info_hash: [u8; 20] = [0u8; 20];
        let mut peer_id: [u8; 20] = [0u8; 20];
        let mut i: usize = 0;
        while i < 19
            invariant
                i <= 19,
                forall|j: int| 0 <= j < i ==> protocol@[j] == bytes@[1 + j],
            decreases 19 - i,
        {
            protocol[i] = bytes[1 + i];
            i += 1;
        }
        i = 0;
        while i < 8
            invariant
                i <= 8,
                forall|j: int| 0 <= j < i ==> zero@[j] == bytes@[20 + j],
            decreases 8 - i,
        {
            zero[i] = bytes[20 + i];
            i += 1;
        }
        i = 0;
        while i < 20
            invariant
                i <= 20,
                forall|j: int| 0 <= j < i ==> info_hash@[j] == bytes@[28 + j],
                forall|j: int| 0 <= j < i ==> peer_id@[j] == bytes@[48 + j],
            decreases 20 - i,
        {
            info_hash[i] = bytes[28 + i];
            peer_id[i] = bytes[48 + i];
            i += 1;
        }
        let r = Handshake { length: bytes[0], protocol, zero, info_hash, peer_id };
        assert(r.wire() =~= bytes@);
        r
    }

    /// Whether the handshake announces the BitTorrent protocol.
    pub fn has_protocol(&self) -> (r: bool)
        ensures
            r == self.names_protocol(),
    {
        if self.length != 19 {
            return false;
        }
        let name = protocol();
        let mut i: usize = 0;
        while i < 19
            invariant
                i <= 19,
                name@ == protocol_name(),
                forall|j: int| 0 <= j < i ==> self.protocol@[j] == name@[j],
            decreases 19 - i,
        {
            if self.protocol[i] != name[i] {
                return false;
            }
            i += 1;
        }
        assert(self.protocol@ =~= name@);
        true
    }

    /// Checks the handshake that a peer sent in reply to one for the torrent
    /// with info hash `sent`. A reply for another torrent is a
    /// `HandshakeMismatch`, whatever else it holds; one for this torrent that
    /// does not announce the protocol is an `UnexpectedProtocol`.
    pub fn check_reply(&self, sent: &[u8; 20]) -> (r: Result<(), ProtocolError>)
        ensures
            self.info_hash@ != sent@ ==> r == Err::<(), ProtocolError>(
                ProtocolError::HandshakeMismatch,
            ),
            self.info_hash@ == sent@ && !self.names_protocol() ==> r == Err::<(), ProtocolError>(
                ProtocolError::UnexpectedProtocol,
            ),
            self.info_hash@ == sent@ && self.names_protocol() ==> r is Ok,
    {
        if !digest_eq(&self.info_hash, sent) {
            Err(ProtocolError::HandshakeMismatch)
        } else if !self.has_protocol() {
            Err(ProtocolError::UnexpectedProtocol)
        } else {
            Ok(())
        }
    }

    /// Reads the reply of a peer off the wire and checks it as `check_reply`
    /// does.
    pub fn parse_reply(bytes: &[u8; 68], sent: &[u8; 20]) -> (r: Result<Self, ProtocolError>)
        ensures
            match r {
                Ok(h) => h.wire() == bytes@ && h.info_hash@ == sent@ && h.names_protocol(),
                Err(e) => if bytes@.subrange(28, 48) != sent@ {
                    e == ProtocolError::HandshakeMismatch
                } else {
                    e == ProtocolError::UnexpectedProtocol && !(bytes@[0] == 19 && bytes@.subrange(
                        1,
                        20,
                    ) == protocol_name())
                },
            },
    {
        let h = Handshake::from_bytes(bytes);
        assert(h.info_hash@ =~= bytes@.subrange(28, 48));
        assert(h.protocol@ =~= bytes@.subrange(1, 20));
        assert(h.length == bytes@[0]);
        match h.check_reply(sent) {
            Ok(_) => Ok(h),
            Err(e) => Err(e),
        }
    }
}

} // verus!
