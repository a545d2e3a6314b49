//! Core of a minimal BitTorrent client.
//!
//! - [`bencode`]: the bencode codec, with its grammar as mathematical functions,
//!   a decoder and an encoder proved against them, and the laws that tie the
//!   two together.
//! - [`torrent`]: the metainfo of a torrent and its info hash, the tracker
//!   request and reply, the peer handshake, peer-wire framing, and the engine
//!   that downloads one piece.
//! - [`digest`] and [`text`]: SHA-1, hexadecimal and text, where the library
//!   leans on other crates.
//!
//! Every function is verified against its contract. The library never touches
//! a file or a connection: its callers read and write, and hand it bytes. Calls
//! into other crates go through small functions whose contracts are taken on
//! trust; the doc comment of each says what it is trusted to do.

pub mod bencode;
pub mod digest;
pub mod text;
pub mod torrent;
