//! The peer side of the client: wire integers, messages, framing, handshake,
//! metainfo, tracker and the piece transfer engine.

pub mod buffer;
pub mod codec;
pub mod error;
pub mod exchange;
pub mod fields;
pub mod handshake;
pub mod hashes;
pub mod metainfo;
pub mod peers;
pub mod pieces;
pub mod stream;
pub mod tracker;
pub mod transfer;
pub mod wire;
