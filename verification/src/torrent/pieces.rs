//! How a torrent is cut into pieces and a piece into blocks.

use crate::torrent::exchange::BlockReqPayload;
use crate::torrent::wire::be32;
use vstd::prelude::*;

verus! {

/// The largest block that is requested at once: 16 KiB.
pub const BLOCK_MAX: u32 = 0x4000;

/// The number of blocks of a piece of `piece_len` bytes.
pub open spec fn block_count(piece_len: int) -> int {
    (piece_len + BLOCK_MAX - 1) / (BLOCK_MAX as int)
}

/// The offset of block `k` within its piece.
pub open spec fn block_begin(k: int) -> int {
    k * BLOCK_MAX
}

/// The length of block `k` of a piece of `piece_len` bytes: `BLOCK_MAX`, but for
/// the last block what is left of the piece where that is less.
pub open spec fn block_len(piece_len: int, k: int) -> int {
    if k == block_count(piece_len) - 1 && piece_len % (BLOCK_MAX as int) != 0 {
        piece_len % (BLOCK_MAX as int)
    } else {
        BLOCK_MAX as int
    }
}

/// The lengths of the first `n` blocks of a piece, added up.
pub open spec fn blocks_total(piece_len: int, n: int) -> int
    decreases n,
{
    if n <= 0 {
        0
    } else {
        blocks_total(piece_len, n - 1) + block_len(piece_len, n - 1)
    }
}

/// Where block `k` lies: it starts at a multiple of `BLOCK_MAX`, is not empty
/// and ends within the piece; the blocks before the last are full.
pub proof fn lemma_block_bounds(piece_len: int, k: int)
    requires
        0 <= k < block_count(piece_len),
        0 <= piece_len,
    ensures
        0 < block_len(piece_len, k) <= BLOCK_MAX,
        block_begin(k) % (BLOCK_MAX as int) == 0,
        block_begin(k) / (BLOCK_MAX as int) == k,
        block_begin(k) + block_len(piece_len, k) <= piece_len,
        k < block_count(piece_len) - 1 ==> block_len(piece_len, k) == BLOCK_MAX,
        k == block_count(piece_len) - 1 ==> block_begin(k) + block_len(piece_len, k) == piece_len,
{
}

/// The number of blocks of a piece.
pub fn count_blocks(piece_len: u32) -> (n: u32)
    ensures
        n == block_count(piece_len as int),
        piece_len > 0 ==> n > 0,
{
    let n = (piece_len as u64 + BLOCK_MAX as u64 - 1) / (BLOCK_MAX as u64);
    n as u32
}

/// The length of block `k` of a piece.
pub fn block_length(piece_len: u32, k: u32) -> (n: u32)
    requires
        k < block_count(piece_len as int),
    ensures
        n == block_len(piece_len as int, k as int),
        0 < n <= BLOCK_MAX,
{
    let last = count_blocks(piece_len) - 1;
    let left = piece_len % BLOCK_MAX;
    if k == last && left != 0 {
        left
    } else {
        BLOCK_MAX
    }
}

/// The request for block `k` of piece `piece_index`, whose length is
/// `piece_len`; `None` when the piece has no such block.
pub fn block_request(piece_index: u32, piece_len: u32, k: u32) -> (r: Option<BlockReqPayload>)
    ensures
        match r {
            Some(p) => k < block_count(piece_len as int) && p.wire() == be32(piece_index) + be32(
                block_begin(k as int) as u32,
            ) + be32(block_len(piece_len as int, k as int) as u32),
            None => k >= block_count(piece_len as int),
        },
{
    if k >= count_blocks(piece_len) {
        return None;
    }
    proof {
        lemma_block_bounds(piece_len as int, k as int);
    }
    let begin = k * BLOCK_MAX;
    let length = block_length(piece_len, k);
    Some(BlockReqPayload::new(piece_index, begin, length))
}

/// The blocks of a piece add up to the piece: their lengths sum to its length,
/// all but the last are of `BLOCK_MAX` bytes, and each starts at a multiple of
/// `BLOCK_MAX`.
pub proof fn law_blocks_cover_piece(piece_len: int)
    requires
        0 <= piece_len,
    ensures
        blocks_total(piece_len, block_count(piece_len)) == piece_len,
        forall|k: int|
            0 <= k < block_count(piece_len) - 1 ==> #[trigger] block_len(piece_len, k)
                == BLOCK_MAX,
        forall|k: int|
            0 <= k < block_count(piece_len) ==> #[trigger] block_begin(k) % (BLOCK_MAX as int)
                == 0,
{
    let n = block_count(piece_len);
    if n > 0 {
        lemma_full_blocks_total(piece_len, n - 1);
        lemma_block_bounds(piece_len, n - 1);
    }
    assert forall|k: int| 0 <= k < n implies #[trigger] block_begin(k) % (BLOCK_MAX as int)
        == 0 by {
        lemma_block_bounds(piece_len, k);
    }
}

/// The blocks before the last are full, so `n` of them hold `n * BLOCK_MAX`
/// bytes.
proof fn lemma_full_blocks_total(piece_len: int, n: int)
    requires
        0 <= piece_len,
        0 <= n < block_count(piece_len),
    ensures
        blocks_total(piece_len, n) == n * BLOCK_MAX,
    decreases n,
{
    if n > 0 {
        lemma_full_blocks_total(piece_len, n - 1);
    }
}

/// The number of bytes of piece `index` of a torrent of `total` bytes in
/// `count` pieces of `piece_length` bytes. Every piece but the last has
/// `piece_length` bytes; the last has what is left of the torrent, or
/// `piece_length` bytes where nothing is left for it.
pub open spec fn piece_len(total: int, piece_length: int, count: int, index: int) -> int {
    if index == count - 1 && total - piece_length * (count - 1) > 0 {
        total - piece_length * (count - 1)
    } else {
        piece_length
    }
}

/// The lengths of the first `n` pieces, added up.
pub open spec fn pieces_total(total: int, piece_length: int, count: int, n: int) -> int
    decreases n,
{
    if n <= 0 {
        0
    } else {
        pieces_total(total, piece_length, count, n - 1) + piece_len(
            total,
            piece_length,
            count,
            n - 1,
        )
    }
}

/// `n` pieces before the last hold `n * piece_length` bytes.
proof fn lemma_full_pieces_total(total: int, piece_length: int, count: int, n: int)
    requires
        0 <= n < count,
    ensures
        pieces_total(total, piece_length, count, n) == n * piece_length,
    decreases n,
{
    if n > 0 {
        lemma_full_pieces_total(total, piece_length, count, n - 1);
        assert((n - 1) * piece_length + piece_length == n * piece_length) by (nonlinear_arith);
    } else {
        assert(n * piece_length == 0) by (nonlinear_arith)
            requires
                n == 0,
        ;
    }
}

/// The pieces add up to the torrent, and every piece before the last has
/// `piece_length` bytes. This holds where the torrent is longer than its pieces
/// before the last take, and of the torrent without bytes and pieces; a torrent
/// with more pieces than its length asks for has a last piece of `piece_length`
/// bytes that the sum counts in full.
pub proof fn law_pieces_cover_torrent(total: int, piece_length: int, count: int)
    requires
        (count == 0 && total == 0) || (0 < count && total > piece_length * (count - 1)),
    ensures
        pieces_total(total, piece_length, count, count) == total,
        forall|i: int|
            0 <= i < count - 1 ==> #[trigger] piece_len(total, piece_length, count, i)
                == piece_length,
{
    if count > 0 {
        lemma_full_pieces_total(total, piece_length, count, count - 1);
        assert((count - 1) * piece_length == piece_length * (count - 1)) by (nonlinear_arith);
    }
}

} // verus!
