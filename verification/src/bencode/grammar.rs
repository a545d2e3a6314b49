//! The bencode grammar: what a run of bytes decodes to, and what a value
//! encodes to.
//!
//! `parse_value` is the decoder's meaning and `ser_value` the encoder's. Both are
//! functions of mathematical sequences; the executable codec is proved against
//! them.

use crate::bencode::decimal::{dec_digits, dec_value, is_digit, leading_digits, DIGIT_ZERO};
use crate::bencode::order::lex_lt;
use crate::bencode::value::{sorted_entries, Tree};
use vstd::prelude::*;

verus! {

/// Why a run of bytes is not a bencode value.
#[derive(Debug, Clone, Copy, PartialEq, Eq, Structural)]
pub enum BencodeError {
    /// The input ends inside a value.
    UnexpectedEof,
    /// A value starts with a byte that is neither a digit nor `i`, `l` or `d`;
    /// or a dictionary key does not start with a digit.
    BadPrefix,
    /// The length of a byte string is not followed by `:`; in strict mode also a
    /// length with a leading zero.
    BadLength,
    /// An integer without digits, with a leading zero, `-0`, with a byte that is
    /// no digit, or outside the signed 64-bit range.
    BadInteger,
    /// Strict mode only: a dictionary key that does not come after the one
    /// before it.
    NonLexicographicKeys,
    /// Bytes are left after the value where the whole input had to be one value.
    TrailingData,
}

pub const COLON: u8 = 58;

pub const MINUS: u8 = 45;

pub const LETTER_D: u8 = 100;

pub const LETTER_E: u8 = 101;

pub const LETTER_I: u8 = 105;

pub const LETTER_L: u8 = 108;

/// A byte string at the start of `s`: a decimal length, `:`, and that many bytes.
/// Gives the bytes and how much of `s` they took.
pub open spec fn parse_bytes(s: Seq<u8>, strict: bool) -> Result<(Seq<u8>, int), BencodeError> {
    let k = leading_digits(s) as int;
    if s.len() == 0 {
        Err(BencodeError::UnexpectedEof)
    } else if k == 0 {
        Err(BencodeError::BadPrefix)
    } else if k >= s.len() {
        Err(BencodeError::UnexpectedEof)
    } else if s[k] != COLON {
        Err(BencodeError::BadLength)
    } else if strict && k > 1 && s[0] == DIGIT_ZERO {
        Err(BencodeError::BadLength)
    } else {
        let n = dec_value(s.subrange(0, k)) as int;
        if k + 1 + n > s.len() {
            Err(BencodeError::UnexpectedEof)
        } else {
            Ok((s.subrange(k + 1, k + 1 + n), k + 1 + n))
        }
    }
}

/// An integer at the start of `s`: `i`, an optional `-`, digits, and `e`.
pub open spec fn parse_integer(s: Seq<u8>) -> Result<(i64, int), BencodeError> {
    if s.len() == 0 {
        Err(BencodeError::UnexpectedEof)
    } else if s[0] != LETTER_I {
        Err(BencodeError::BadPrefix)
    } else if s.len() == 1 {
        Err(BencodeError::UnexpectedEof)
    } else {
        let negative = s[1] == MINUS;
        let p: int = if negative { 2 } else { 1 };
        let k = leading_digits(s.skip(p)) as int;
        let magnitude = dec_value(s.subrange(p, p + k)) as int;
        if p + k >= s.len() {
            Err(BencodeError::UnexpectedEof)
        } else if s[p + k] != LETTER_E {
            Err(BencodeError::BadInteger)
        } else if k == 0 {
            Err(BencodeError::BadInteger)
        } else if k > 1 && s[p] == DIGIT_ZERO {
            Err(BencodeError::BadInteger)
        } else if negative && magnitude == 0 {
            Err(BencodeError::BadInteger)
        } else if negative && magnitude > 0x8000_0000_0000_0000 {
            Err(BencodeError::BadInteger)
        } else if !negative && magnitude > 0x7fff_ffff_ffff_ffff {
            Err(BencodeError::BadInteger)
        } else if negative {
            Ok(((-magnitude) as i64, p + k + 1))
        } else {
            Ok((magnitude as i64, p + k + 1))
        }
    }
}

/// One value at the start of `s`, and how much of `s` it took. In strict mode
/// only the one encoding that `ser_value` writes is accepted.
pub open spec fn parse_value(s: Seq<u8>, strict: bool) -> Result<(Tree, int), BencodeError>
    decreases s.len(), 0nat,
{
    if s.len() == 0 {
        Err(BencodeError::UnexpectedEof)
    } else if is_digit(s[0]) {
        match parse_bytes(s, strict) {
            Ok((b, n)) => Ok((Tree::Bytes(b), n)),
            Err(e) => Err(e),
        }
    } else if s[0] == LETTER_I {
        match parse_integer(s) {
            Ok((i, n)) => Ok((Tree::Integer(i), n)),
            Err(e) => Err(e),
        }
    } else if s[0] == LETTER_L {
        match parse_items(s.skip(1), strict) {
            Ok((items, n)) => Ok((Tree::List(items), n + 1)),
            Err(e) => Err(e),
        }
    } else if s[0] == LETTER_D {
        match parse_entries(s.skip(1), strict, None) {
            Ok((raw, n)) => Ok((Tree::Dict(sorted_entries(raw)), n + 1)),
            Err(e) => Err(e),
        }
    } else {
        Err(BencodeError::BadPrefix)
    }
}

/// The values of a list up to and with its closing `e`.
pub open spec fn parse_items(s: Seq<u8>, strict: bool) -> Result<(Seq<Tree>, int), BencodeError>
    decreases s.len(), 1nat,
{
    if s.len() == 0 {
        Err(BencodeError::UnexpectedEof)
    } else if s[0] == LETTER_E {
        Ok((Seq::empty(), 1))
    } else {
        match parse_value(s, strict) {
            Err(e) => Err(e),
            Ok((v, n)) => if 0 < n <= s.len() {
                match parse_items(s.skip(n), strict) {
                    Err(e) => Err(e),
                    Ok((rest, m)) => Ok((seq![v] + rest, n + m)),
                }
            } else {
                Err(BencodeError::UnexpectedEof)
            },
        }
    }
}

/// The entries of a dictionary, in the order of the input, up to and with its
/// closing `e`. `last` is the key read just before, if any: in strict mode each
/// key has to come after it.
pub open spec fn parse_entries(s: Seq<u8>, strict: bool, last: Option<Seq<u8>>) -> Result<
    (Seq<(Seq<u8>, Tree)>, int),
    BencodeError,
>
    decreases s.len(), 1nat,
{
    if s.len() == 0 {
        Err(BencodeError::UnexpectedEof)
    } else if s[0] == LETTER_E {
        Ok((Seq::empty(), 1))
    } else {
        match parse_bytes(s, strict) {
            Err(e) => Err(e),
            Ok((key, n)) => if strict && last is Some && !lex_lt(last->0, key) {
                Err(BencodeError::NonLexicographicKeys)
            } else if 0 < n <= s.len() {
                match parse_value(s.skip(n), strict) {
                    Err(e) => Err(e),
                    Ok((v, m)) => if 0 <= m <= s.len() - n {
                        match parse_entries(s.skip(n + m), strict, Some(key)) {
                            Err(e) => Err(e),
                            Ok((rest, k)) => Ok((seq![(key, v)] + rest, n + m + k)),
                        }
                    } else {
                        Err(BencodeError::UnexpectedEof)
                    },
                }
            } else {
                Err(BencodeError::UnexpectedEof)
            },
        }
    }
}

/// The whole of `s` as one value.
pub open spec fn parse_all(s: Seq<u8>, strict: bool) -> Result<Tree, BencodeError> {
    match parse_value(s, strict) {
        Err(e) => Err(e),
        Ok((v, n)) => if n == s.len() {
            Ok(v)
        } else {
            Err(BencodeError::TrailingData)
        },
    }
}

/// The bytes are in canonical form: they are one value, written as the encoder
/// writes it, with the keys of every dictionary in strictly ascending order and
/// no leading zero in a length. This is what strict mode accepts.
pub open spec fn is_canonical(s: Seq<u8>) -> bool {
    parse_all(s, true) is Ok
}

/// The encoding of a byte string.
pub open spec fn ser_bytes(b: Seq<u8>) -> Seq<u8> {
    dec_digits(b.len()) + seq![COLON] + b
}

/// The encoding of an integer.
pub open spec fn ser_integer(i: i64) -> Seq<u8> {
    if i < 0 {
        seq![LETTER_I, MINUS] + dec_digits((-i) as nat) + seq![LETTER_E]
    } else {
        seq![LETTER_I] + dec_digits(i as nat) + seq![LETTER_E]
    }
}

/// The encoding of a value. A dictionary is written entry by entry in the order
/// it holds them, which for a well-formed value is ascending key order.
pub open spec fn ser_value(v: Tree) -> Seq<u8>
    decreases v, 0nat,
{
    match v {
        Tree::Bytes(b) => ser_bytes(b),
        Tree::Integer(i) => ser_integer(i),
        Tree::List(items) => seq![LETTER_L] + ser_items(items, 0) + seq![LETTER_E],
        Tree::Dict(entries) => seq![LETTER_D] + ser_entries(entries, 0) + seq![LETTER_E],
    }
}

/// The encodings of the values from index `from` on, one after the other.
pub open spec fn ser_items(items: Seq<Tree>, from: int) -> Seq<u8>
    decreases items, items.len() - from,
{
    if 0 <= from < items.len() {
        ser_value(items[from]) + ser_items(items, from + 1)
    } else {
        Seq::empty()
    }
}

/// The encodings of the entries from index `from` on: each key as a byte string,
/// then its value.
pub open spec fn ser_entries(entries: Seq<(Seq<u8>, Tree)>, from: int) -> Seq<u8>
    decreases entries, entries.len() - from,
{
    if 0 <= from < entries.len() {
        ser_bytes(entries[from].0) + ser_value(entries[from].1) + ser_entries(entries, from + 1)
    } else {
        Seq::empty()
    }
}

} // verus!
