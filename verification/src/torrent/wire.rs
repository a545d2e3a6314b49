//! Unsigned integers in network byte order.

use vstd::prelude::*;

verus! {

/// The number that four bytes denote, most significant byte first.
pub open spec fn be32_value(s: Seq<u8>) -> int {
    s[0] * 0x100_0000 + s[1] * 0x1_0000 + s[2] * 0x100 + s[3]
}

/// The four bytes of `x`, most significant byte first.
pub open spec fn be32(x: u32) -> Seq<u8> {
    seq![
        (x / 0x100_0000) as u8,
        ((x / 0x1_0000) % 0x100) as u8,
        ((x / 0x100) % 0x100) as u8,
        (x % 0x100) as u8,
    ]
}

/// The number that two bytes denote, most significant byte first.
pub open spec fn be16_value(hi: u8, lo: u8) -> int {
    hi * 0x100 + lo
}

/// Reading the bytes of a number gives the number back.
pub proof fn lemma_be32_value_of_bytes(x: u32)
    ensures
        be32(x).len() == 4,
        be32_value(be32(x)) == x,
{
}

/// The bytes of `x` in network byte order.
pub fn u32_to_be(x: u32) -> (b: [u8; 4])
    ensures
        b@ == be32(x),
{
    let b: [u8; 4] = [
        (x / 0x100_0000) as u8,
        ((x / 0x1_0000) % 0x100) as u8,
        ((x / 0x100) % 0x100) as u8,
        (x % 0x100) as u8,
    ];
    assert(b@ =~= be32(x));
    b
}

/// The number whose bytes in network byte order are `b`.
pub fn u32_from_be(b: &[u8; 4]) -> (x: u32)
    ensures
        x == be32_value(b@),
{
    (b[0] as u32) * 0x100_0000 + (b[1] as u32) * 0x1_0000 + (b[2] as u32) * 0x100 + (b[3] as u32)
}

/// The port that two bytes in network byte order denote.
pub fn u16_from_be(hi: u8, lo: u8) -> (x: u16)
    ensures
        x == be16_value(hi, lo),
{
    (hi as u16) * 0x100 + (lo as u16)
}

} // verus!
