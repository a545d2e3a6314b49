//! The bencode codec: value tree, grammar, decoder and encoder.

pub mod decimal;
pub mod decode;
pub mod encode;
pub mod grammar;
pub mod json;
pub mod laws;
pub mod order;
pub mod value;
