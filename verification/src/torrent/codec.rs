//! Peer-wire framing: a four-byte length in network byte order, one byte of
//! message id, and the payload. A length of zero is a keep-alive.

use crate::torrent::buffer::{
    buf_advance, buf_byte, buf_extend, buf_len, buf_put_u8, buf_range, buf_reserve, buffered,
};
use crate::torrent::error::ProtocolError;
use crate::torrent::exchange::{ExchangeMsg, MsgType};
use crate::torrent::wire::{be32, be32_value, u32_to_be};
use vstd::prelude::*;

verus! {

/// The frame size that the codec admits unless told otherwise.
pub const MAX: usize = 0x1_0000;

/// What the start of a run of bytes holds.
pub enum Decoded {
    /// Not yet a whole frame.
    NeedMore,
    /// A whole frame with this message.
    Frame { id: MsgType, payload: Seq<u8> },
    /// Bytes that are no admissible frame.
    Failed(ProtocolError),
}

/// The bytes that a message is on the wire. A keep-alive is a length of zero
/// and nothing else.
pub open spec fn frame_bytes(id: Option<MsgType>, payload: Seq<u8>) -> Seq<u8> {
    match id {
        None => be32(0),
        Some(t) => be32((payload.len() + 1) as u32) + seq![t.tag()] + payload,
    }
}

/// The number of bytes at the start of `b` that are keep-alives.
pub open spec fn keep_alive_run(b: Seq<u8>) -> nat
    decreases b.len(),
{
    if b.len() >= 4 && be32_value(b.subrange(0, 4)) == 0 {
        4 + keep_alive_run(b.skip(4))
    } else {
        0
    }
}

/// The keep-alives at the start of a buffer are part of the buffer.
pub proof fn lemma_keep_alive_run_bound(b: Seq<u8>)
    ensures
        keep_alive_run(b) <= b.len(),
    decreases b.len(),
{
    if b.len() >= 4 && be32_value(b.subrange(0, 4)) == 0 {
        lemma_keep_alive_run_bound(b.skip(4));
    }
}

/// What stands at the start of `r`, where `r` starts with no keep-alive and
/// frames of more than `max` bytes are not admitted. The size of a frame is
/// known from its fifth byte on, its id once the frame is whole.
pub open spec fn frame_at(r: Seq<u8>, max: int) -> Decoded {
    if r.len() < 5 {
        Decoded::NeedMore
    } else {
        let len = be32_value(r.subrange(0, 4));
        if len > max {
            Decoded::Failed(ProtocolError::FrameTooLarge)
        } else if r.len() < 4 + len {
            Decoded::NeedMore
        } else {
            match MsgType::of_tag(r[4]) {
                None => Decoded::Failed(ProtocolError::UnknownMessageType),
                Some(id) => Decoded::Frame { id, payload: r.subrange(5, 4 + len) },
            }
        }
    }
}

/// How many more bytes a buffer needs before decoding can go a step further:
/// up to the length, then the id, then the whole of a frame that is admitted.
/// It is zero where a keep-alive can be dropped, a message taken off or the
/// frame refused.
pub open spec fn missing_bytes(b: Seq<u8>, max: int) -> int {
    if b.len() < 4 {
        4 - b.len()
    } else {
        let len = be32_value(b.subrange(0, 4));
        if len == 0 {
            0
        } else if b.len() < 5 {
            1
        } else if len > max {
            0
        } else if b.len() < 4 + len {
            4 + len - b.len()
        } else {
            0
        }
    }
}

/// Nothing is missing exactly where decoding can go a step further; and fewer
/// bytes than are missing never make a frame whole.
pub proof fn law_missing_bytes(b: Seq<u8>, more: Seq<u8>, max: int)
    ensures
        0 <= missing_bytes(b, max),
        missing_bytes(b, max) == 0 <==> keep_alive_run(b) > 0 || frame_at(b, max)
            != Decoded::NeedMore,
        more.len() < missing_bytes(b, max) ==> keep_alive_run(b + more) == 0 && frame_at(
            b + more,
            max,
        ) == Decoded::NeedMore,
{
    let c = b + more;
    if b.len() >= 4 {
        assert(c.subrange(0, 4) =~= b.subrange(0, 4));
        assert(0 <= be32_value(b.subrange(0, 4)));
    }
    if more.len() < missing_bytes(b, max) && b.len() == 4 {
        assert(c =~= b);
    }
}

/// The codec between peer messages and the bytes of the connection.
pub struct MessageCodec {
    pub max_frame: usize,
}

impl MessageCodec {
    /// A codec that admits frames of up to `MAX` bytes.
    pub fn new() -> (r: Self)
        ensures
            r.max_frame == MAX,
    {
        MessageCodec { max_frame: MAX }
    }

    /// A codec that admits frames of up to `max_frame` bytes, for `Piece`
    /// messages longer than the default.
    pub fn with_max_frame(max_frame: usize) -> (r: Self)
        ensures
            r.max_frame == max_frame,
    {
        MessageCodec { max_frame }
    }

    /// The largest frame of a transfer of pieces of `piece_length` bytes: a
    /// `Piece` message with the whole piece as its block, that is, a payload of
    /// `piece_length + 8` bytes behind the id; `MAX` where that is less.
    pub open spec fn piece_frame(piece_length: u32) -> int {
        if piece_length + 9 > MAX {
            piece_length + 9
        } else {
            MAX as int
        }
    }

    /// A codec for a transfer of pieces of `piece_length` bytes: it admits every
    /// frame up to a `Piece` message with a whole piece, as far as the machine
    /// can count.
    pub fn for_piece(piece_length: u32) -> (r: Self)
        ensures
            r.max_frame == if MessageCodec::piece_frame(piece_length) > usize::MAX {
                usize::MAX as int
            } else {
                MessageCodec::piece_frame(piece_length)
            },
    {
        let want: u64 = piece_length as u64 + 9;
        let max_frame: usize = if want > usize::MAX as u64 {
            usize::MAX
        } else if want > MAX as u64 {
            want as usize
        } else {
            MAX
        };
        MessageCodec { max_frame }
    }

    /// Appends the frame of `item` to `dst`. A message whose frame the length
    /// prefix or the buffer cannot hold is refused with `FrameTooLarge`, and
    /// `dst` stays as it is.
    pub fn encode(&mut self, item: ExchangeMsg, dst: &mut bytes::BytesMut) -> (r: Result<
        (),
        ProtocolError,
    >)
        ensures
            *final(self) == *old(self),
            match r {
                Ok(_) => buffered(*final(dst)) == buffered(*old(dst)) + frame_bytes(
                    item.message_id,
                    item.payload@,
                ),
                Err(e) => e == ProtocolError::FrameTooLarge && buffered(*final(dst)) == buffered(
                    *old(dst),
                ),
            },
            r is Ok <==> item.payload@.len() < u32::MAX && buffered(*old(dst)).len() + 5
                + item.payload@.len() <= isize::MAX,
    {
        let held = buf_len(dst);
        let size = item.payload.len();
        if size >= u32::MAX as usize || size > isize::MAX as usize - 5 || held > isize::MAX as usize
            - 5 - size {
            return Err(ProtocolError::FrameTooLarge);
        }
        match item.message_id {
            None => {
                let zero = u32_to_be(0);
                buf_extend(dst, zero.as_slice());
            },
            Some(t) => {
                let len_bytes = u32_to_be((size + 1) as u32);
                buf_reserve(dst, 4 + 1 + size);
                buf_extend(dst, len_bytes.as_slice());
                buf_put_u8(dst, t.to_u8());
                buf_extend(dst, item.payload.as_slice());
                assert(buffered(*dst) =~= buffered(*old(dst)) + frame_bytes(
                    item.message_id,
                    item.payload@,
                ));
            },
        }
        Ok(())
    }

    /// How many more bytes `src` needs before `decode` can go a step further,
    /// as far as the machine can count.
    pub fn missing(&self, src: &bytes::BytesMut) -> (n: usize)
        ensures
            n == if missing_bytes(buffered(*src), self.max_frame as int) > usize::MAX {
                usize::MAX as int
            } else {
                missing_bytes(buffered(*src), self.max_frame as int)
            },
    {
        let held = buf_len(src);
        if held < 4 {
            return 4 - held;
        }
        let b0 = buf_byte(src, 0);
        let b1 = buf_byte(src, 1);
        let b2 = buf_byte(src, 2);
        let b3 = buf_byte(src, 3);
        let len: u64 = ((b0 as u32) * 0x100_0000 + (b1 as u32) * 0x1_0000 + (b2 as u32) * 0x100
            + (b3 as u32)) as u64;
        assert(len == be32_value(buffered(*src).subrange(0, 4)));
        if len == 0 {
            0
        } else if held < 5 {
            1
        } else if len > self.max_frame as u64 {
            0
        } else if (held as u64) < 4 + len {
            let want: u64 = 4 + len - held as u64;
            if want > usize::MAX as u64 {
                usize::MAX
            } else {
                want as usize
            }
        } else {
            0
        }
    }

    /// Takes the next message off the front of `src`. Keep-alives before it are
    /// dropped. `Ok(None)` asks for more bytes; an error leaves what stands
    /// behind the keep-alives in `src`.
    pub fn decode(&mut self, src: &mut bytes::BytesMut) -> (r: Result<
        Option<ExchangeMsg>,
        ProtocolError,
    >)
        ensures
            *final(self) == *old(self),
            ({
                let before = buffered(*old(src));
                let rest = before.skip(keep_alive_run(before) as int);
                match frame_at(rest, old(self).max_frame as int) {
                    Decoded::NeedMore => r == Ok::<Option<ExchangeMsg>, ProtocolError>(None)
                        && buffered(*final(src)) == rest,
                    Decoded::Failed(e) => r == Err::<Option<ExchangeMsg>, ProtocolError>(e)
                        && buffered(*final(src)) == rest,
                    Decoded::Frame { id, payload } => r matches Ok(Some(m)) && m.message_id == Some(
                        id,
                    ) && m.payload@ == payload && m.wf() && buffered(*final(src)) == rest.skip(
                        (5 + payload.len()) as int,
                    ),
                }
            }),
    {
        let ghost before = buffered(*src);
        let ghost mut dropped: nat = 0;
        proof {
            assert(before.skip(0) =~= before);
        }
        loop
            invariant
                before == buffered(*old(src)),
                buffered(*src) == before.skip(dropped as int),
                dropped <= before.len(),
                *self == *old(self),
                keep_alive_run(before) == dropped + keep_alive_run(buffered(*src)),
            decreases buffered(*src).len(),
        {
            let ghost now = buffered(*src);
            let held = buf_len(src);
            if held < 4 {
                return Ok(None);
            }
            let b0 = buf_byte(src, 0);
            let b1 = buf_byte(src, 1);
            let b2 = buf_byte(src, 2);
            let b3 = buf_byte(src, 3);
            let len: usize = ((b0 as u32) * 0x100_0000 + (b1 as u32) * 0x1_0000 + (b2 as u32)
                * 0x100 + (b3 as u32)) as usize;
            assert(len == be32_value(now.subrange(0, 4)));
            if len == 0 {
                buf_advance(src, 4);
                proof {
                    assert(now.skip(4) =~= before.skip((dropped + 4) as int));
                    dropped = dropped + 4;
                }
                continue ;
            }
            if held < 5 {
                return Ok(None);
            }
            if len > self.max_frame {
                return Err(ProtocolError::FrameTooLarge);
            }
            if held - 4 < len {
                if len <= isize::MAX as usize - 4 {
                    buf_reserve(src, 4 + len - held);
                }
                return Ok(None);
            }
            let tag = buf_byte(src, 4);
            let msg_type = match MsgType::try_from(tag) {
                Ok(t) => t,
                Err(e) => {
                    return Err(e);
                },
            };
            let data = buf_range(src, 5, len + 4);
            let msg = ExchangeMsg::new(msg_type, data);
            buf_advance(src, 4 + len);
            return Ok(Some(msg));
        }
    }
}

} // verus!
