//! The table of piece hashes: twenty-byte SHA-1 digests in piece order.

use crate::bencode::value::Bencode;
use crate::torrent::fields::{bytes_of, field_bytes, FieldError};
use vstd::prelude::*;

verus! {

/// The SHA-1 digests of the pieces of a torrent, in piece order.
#[derive(Debug)]
pub struct Hashes(pub Vec<[u8; 20]>);

/// The digests that a run of bytes holds, twenty bytes each; bytes behind the
/// last whole digest are left out.
pub open spec fn chunks20(bytes: Seq<u8>) -> Seq<Seq<u8>> {
    Seq::new((bytes.len() / 20) as nat, |k: int| bytes.subrange(20 * k, 20 * k + 20))
}

/// Digests of twenty bytes each, one after the other.
pub open spec fn concat20(hashes: Seq<Seq<u8>>) -> Seq<u8> {
    Seq::new(20 * hashes.len(), |i: int| hashes[i / 20][i % 20])
}

/// Each digest has twenty bytes.
pub open spec fn all_twenty(hashes: Seq<Seq<u8>>) -> bool {
    forall|k: int| 0 <= k < hashes.len() ==> (#[trigger] hashes[k]).len() == 20
}

/// Cutting up what was put together gives the digests back.
pub proof fn lemma_chunks_of_concat(hashes: Seq<Seq<u8>>)
    requires
        all_twenty(hashes),
    ensures
        concat20(hashes).len() == 20 * hashes.len(),
        concat20(hashes).len() % 20 == 0,
        chunks20(concat20(hashes)) == hashes,
{
    let b = concat20(hashes);
    let c = chunks20(b);
    assert(c.len() == hashes.len());
    assert forall|k: int| 0 <= k < c.len() implies c[k] == hashes[k] by {
        assert(hashes[k].len() == 20);
        assert forall|j: int| 0 <= j < 20 implies c[k][j] == hashes[k][j] by {
            assert(c[k][j] == b[20 * k + j]);
            assert((20 * k + j) / 20 == k);
            assert((20 * k + j) % 20 == j);
        }
        assert(c[k] =~= hashes[k]);
    }
    assert(c =~= hashes);
}

/// Putting together what was cut up gives the bytes back, where they are a whole
/// number of digests.
pub proof fn lemma_concat_of_chunks(bytes: Seq<u8>)
    requires
        bytes.len() % 20 == 0,
    ensures
        all_twenty(chunks20(bytes)),
        concat20(chunks20(bytes)) == bytes,
{
    let c = chunks20(bytes);
    let b = concat20(c);
    assert(b.len() == bytes.len());
    assert forall|i: int| 0 <= i < b.len() implies b[i] == bytes[i] by {
        let k = i / 20;
        assert(0 <= k < c.len());
        assert(c[k][i % 20] == bytes[20 * k + i % 20]);
    }
    assert(b =~= bytes);
}

impl View for Hashes {
    type V = Seq<Seq<u8>>;

    open spec fn view(&self) -> Seq<Seq<u8>> {
        Seq::new(self.0@.len(), |k: int| self.0@[k]@)
    }
}

impl Hashes {
    /// The digests that `v` holds; `MalformedHashes` unless its length is a
    /// multiple of twenty.
    pub fn from_bytes(v: &[u8]) -> (r: Result<Hashes, FieldError>)
        ensures
            match r {
                Ok(h) => v@.len() % 20 == 0 && h@ == chunks20(v@) && h@.len() <= isize::MAX,
                Err(e) => v@.len() % 20 != 0 && e == FieldError::MalformedHashes,
            },
    {
        if v.len() % 20 != 0 {
            return Err(FieldError::MalformedHashes);
        }
        let count = v.len() / 20;
        let mut out: Vec<[u8; 20]> = Vec::new();
        let mut k: usize = 0;
        while k < count
            invariant
                k <= count,
                count == v@.len() / 20,
                v@.len() % 20 == 0,
                v@.len() <= usize::MAX,
                out@.len() == k,
                forall|j: int|
                    0 <= j < k ==> (#[trigger] out@[j])@ == v@.subrange(20 * j, 20 * j + 20),
            decreases count - k,
        {
            let mut digest: [u8; 20] = [0u8; 20];
            let mut i: usize = 0;
            assert(20 * k + 20 <= v@.len());
            while i < 20
                invariant
                    i <= 20,
                    20 * k + 20 <= v@.len() <= usize::MAX,
                    forall|j: int| 0 <= j < i ==> digest@[j] == v@[20 * k + j],
                decreases 20 - i,
            {
                digest[i] = v[20 * k + i];
                i += 1;
            }
            assert(digest@ =~= v@.subrange(20 * k, 20 * k + 20));
            out.push(digest);
            k += 1;
        }
        let h = Hashes(out);
        assert(h@ =~= chunks20(v@));
        Ok(h)
    }

    /// The digests of a `pieces` field, which may stand as a byte string or as a
    /// list of byte integers.
    pub fn deserialize(value: &Bencode) -> (r: Result<Hashes, FieldError>)
        ensures
            match r {
                Ok(h) => field_bytes(value@) matches Some(b) && b.len() % 20 == 0 && h@
                    == chunks20(b) && h@.len() <= isize::MAX,
                Err(e) => match field_bytes(value@) {
                    None => e == FieldError::InvalidField,
                    Some(b) => b.len() % 20 != 0 && e == FieldError::MalformedHashes,
                },
            },
    {
        match bytes_of(value) {
            Err(e) => Err(e),
            Ok(b) => Hashes::from_bytes(b.as_slice()),
        }
    }

    /// The digests one after the other, as the `pieces` field holds them.
    pub fn serialize(&self) -> (r: Vec<u8>)
        ensures
            r@ == concat20(self@),
    {
        let mut out: Vec<u8> = Vec::new();
        let mut k: usize = 0;
        while k < self.0.len()
            invariant
                k <= self.0@.len(),
                out@.len() == 20 * k,
                forall|i: int| 0 <= i < 20 * k ==> out@[i] == (#[trigger] self@[i / 20])[i % 20],
            decreases self.0@.len() - k,
        {
            let mut i: usize = 0;
            while i < 20
                invariant
                    i <= 20,
                    k < self.0@.len(),
                    out@.len() == 20 * k + i,
                    forall|j: int|
                        0 <= j < 20 * k + i ==> out@[j] == (#[trigger] self@[j / 20])[j % 20],
                decreases 20 - i,
            {
                out.push(self.0[k][i]);
                assert(self@[k as int] == self.0@[k as int]@);
                assert((20 * k + i) / 20 == k && (20 * k + i) % 20 == i);
                i += 1;
            }
            k += 1;
        }
        assert(out@ =~= concat20(self@));
        out
    }

    /// The number of pieces.
    pub fn len(&self) -> (n: usize)
        ensures
            n == self@.len(),
    {
        self.0.len()
    }
}

} // verus!
