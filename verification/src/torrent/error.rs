//! What can go wrong between the client and a peer.

use vstd::prelude::*;

verus! {

/// A violation of the peer protocol, or a piece that does not match its hash.
#[derive(Debug, Clone, Copy, PartialEq, Eq, Structural)]
pub enum ProtocolError {
    /// The peer answered the handshake with another info hash.
    HandshakeMismatch,
    /// The handshake does not announce the BitTorrent protocol.
    UnexpectedProtocol,
    /// A message that the state of the transfer does not allow.
    UnexpectedMessage,
    /// A frame whose message id is none of `0` to `8`.
    UnknownMessageType,
    /// A frame longer than the codec admits.
    FrameTooLarge,
    /// The peer choked the client while blocks were being transferred.
    ChokedDuringTransfer,
    /// The piece was received in full and its SHA-1 is not the expected one.
    HashMismatch,
}

} // verus!
