//! The byte buffer of the `bytes` crate, as the framing codec sees it.
//!
//! Nothing in this file is proved: each function states what the method of
//! `bytes::BytesMut` it calls does to the bytes that the buffer holds.

use vstd::prelude::*;

verus! {

/// `bytes::BytesMut`, a growable byte buffer. Nothing of its inside is known
/// here but what `buffered` and the functions below say.
#[verifier::external_type_specification]
#[verifier::external_body]
pub struct ExBytesMut(bytes::BytesMut);

/// The bytes that the buffer holds, first to last.
pub uninterp spec fn buffered(buf: bytes::BytesMut) -> Seq<u8>;

/// `BytesMut::len`: the number of bytes that the buffer holds.
#[verifier::external_body]
pub(crate) fn buf_len(buf: &bytes::BytesMut) -> (n: usize)
    ensures
        n == buffered(*buf).len(),
{
    buf.len()
}

/// Indexing through `Deref<Target = [u8]>`: the byte at index `i`. The index has
/// to be in range, else the call panics.
#[verifier::external_body]
pub(crate) fn buf_byte(buf: &bytes::BytesMut, i: usize) -> (b: u8)
    requires
        i < buffered(*buf).len(),
    ensures
        b == buffered(*buf)[i as int],
{
    buf[i]
}

/// Slicing through `Deref<Target = [u8]>`: a copy of the bytes from index `from`
/// up to `to`. The range has to lie within the buffer, else the call panics.
#[verifier::external_body]
pub(crate) fn buf_range(buf: &bytes::BytesMut, from: usize, to: usize) -> (v: Vec<u8>)
    requires
        from <= to <= buffered(*buf).len(),
    ensures
        v@ == buffered(*buf).subrange(from as int, to as int),
{
    buf[from..to].to_vec()
}

/// `Buf::advance`: drops the first `cnt` bytes. It panics when the buffer holds
/// fewer.
#[verifier::external_body]
pub(crate) fn buf_advance(buf: &mut bytes::BytesMut, cnt: usize)
    requires
        cnt <= buffered(*old(buf)).len(),
    ensures
        buffered(*final(buf)) == buffered(*old(buf)).skip(cnt as int),
{
    bytes::Buf::advance(buf, cnt)
}

/// `BytesMut::reserve`: makes room for `additional` more bytes and leaves the
/// bytes held as they are. It panics when the capacity it asks for overflows,
/// which the bytes held and `additional` together must therefore stay well
/// below; running out of memory is left aside, as it is for `Vec`.
#[verifier::external_body]
pub(crate) fn buf_reserve(buf: &mut bytes::BytesMut, additional: usize)
    requires
        buffered(*old(buf)).len() + additional <= isize::MAX,
    ensures
        buffered(*final(buf)) == buffered(*old(buf)),
{
    buf.reserve(additional)
}

/// `BytesMut::extend_from_slice`: appends `bytes`. It reserves first, so it
/// panics where `reserve` does.
#[verifier::external_body]
pub(crate) fn buf_extend(buf: &mut bytes::BytesMut, bytes: &[u8])
    requires
        buffered(*old(buf)).len() + bytes@.len() <= isize::MAX,
    ensures
        buffered(*final(buf)) == buffered(*old(buf)) + bytes@,
{
    buf.extend_from_slice(bytes)
}

/// `BufMut::put_u8`: appends one byte. It panics when the buffer cannot grow.
#[verifier::external_body]
pub(crate) fn buf_put_u8(buf: &mut bytes::BytesMut, b: u8)
    requires
        buffered(*old(buf)).len() + 1 <= isize::MAX,
    ensures
        buffered(*final(buf)) == buffered(*old(buf)).push(b),
{
    bytes::BufMut::put_u8(buf, b)
}

} // verus!
