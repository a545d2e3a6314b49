//! SHA-1 digests and their rendering in hexadecimal.
//!
//! The two functions that call other crates are not proved: their contracts
//! state what the `sha1` and `hex` crates are trusted to do.

use vstd::prelude::*;

verus! {

/// The SHA-1 digest of a run of bytes. The function is not defined here: it
/// stands for what the `sha1` crate computes.
pub uninterp spec fn sha1_of(data: Seq<u8>) -> Seq<u8>;

/// `sha1::Digest::digest` for `sha1::Sha1`: the twenty bytes of the SHA-1 digest
/// of `data`. The digest depends on the bytes of `data` alone.
#[verifier::external_body]
pub(crate) fn sha1_bytes(data: &[u8]) -> (digest: [u8; 20])
    ensures
        digest@ == sha1_of(data@),
{
    <sha1::Sha1 as sha1::Digest>::digest(data).into()
}

/// Whether two digests are the same.
pub fn digest_eq(a: &[u8; 20], b: &[u8; 20]) -> (r: bool)
    ensures
        r == (a@ == b@),
{
    let mut i: usize = 0;
    while i < 20
        invariant
            i <= 20,
            forall|j: int| 0 <= j < i ==> a@[j] == b@[j],
        decreases 20 - i,
    {
        if a[i] != b[i] {
            return false;
        }
        i += 1;
    }
    assert(a@ =~= b@);
    true
}

/// The lower-case hexadecimal digit of a number below sixteen.
pub open spec fn hex_digit(n: int) -> char {
    if n < 10 {
        (48 + n) as u8 as char
    } else {
        (87 + n) as u8 as char
    }
}

/// The bytes written in lower-case hexadecimal, two digits each, the high half
/// of a byte first.
pub open spec fn hex_chars(data: Seq<u8>) -> Seq<char> {
    Seq::new(
        2 * data.len(),
        |i: int|
            if i % 2 == 0 {
                hex_digit(data[i / 2] as int / 16)
            } else {
                hex_digit(data[i / 2] as int % 16)
            },
    )
}

/// `hex::encode`: `data` in lower-case hexadecimal, two digits for each byte.
#[verifier::external_body]
pub(crate) fn hex_encode(data: &[u8]) -> (s: String)
    ensures
        s@ == hex_chars(data@),
{
    hex::encode(data)
}

} // verus!
