//! Peer messages and the payloads of block requests and replies.

use crate::torrent::error::ProtocolError;
use crate::torrent::wire::{be32, be32_value, u32_from_be, u32_to_be};
use vstd::prelude::*;
use vstd::slice::slice_subrange;

verus! {

/// The kinds of peer message, in the order of their ids `0` to `8`.
#[derive(Debug, Clone, Copy, PartialEq, Eq, Structural)]
pub enum MsgType {
    Choke,
    Unchoke,
    Interested,
    NotInterested,
    Have,
    BitField,
    Request,
    Piece,
    Cancel,
}

impl MsgType {
    /// The id that stands for this kind on the wire.
    pub open spec fn tag(self) -> u8 {
        match self {
            MsgType::Choke => 0,
            MsgType::Unchoke => 1,
            MsgType::Interested => 2,
            MsgType::NotInterested => 3,
            MsgType::Have => 4,
            MsgType::BitField => 5,
            MsgType::Request => 6,
            MsgType::Piece => 7,
            MsgType::Cancel => 8,
        }
    }

    /// The kind that an id stands for, if any.
    pub open spec fn of_tag(value: u8) -> Option<MsgType> {
        if value == 0 {
            Some(MsgType::Choke)
        } else if value == 1 {
            Some(MsgType::Unchoke)
        } else if value == 2 {
            Some(MsgType::Interested)
        } else if value == 3 {
            Some(MsgType::NotInterested)
        } else if value == 4 {
            Some(MsgType::Have)
        } else if value == 5 {
            Some(MsgType::BitField)
        } else if value == 6 {
            Some(MsgType::Request)
        } else if value == 7 {
            Some(MsgType::Piece)
        } else if value == 8 {
            Some(MsgType::Cancel)
        } else {
            None
        }
    }

    /// The id of this kind.
    pub fn to_u8(self) -> (r: u8)
        ensures
            r == self.tag(),
            r <= 8,
            MsgType::of_tag(r) == Some(self),
    {
        match self {
            MsgType::Choke => 0,
            MsgType::Unchoke => 1,
            MsgType::Interested => 2,
            MsgType::NotInterested => 3,
            MsgType::Have => 4,
            MsgType::BitField => 5,
            MsgType::Request => 6,
            MsgType::Piece => 7,
            MsgType::Cancel => 8,
        }
    }

    /// The kind with the id `value`; `UnknownMessageType` for an id above `8`.
    pub fn try_from(value: u8) -> (r: Result<MsgType, ProtocolError>)
        ensures
            match r {
                Ok(t) => MsgType::of_tag(value) == Some(t) && t.tag() == value,
                Err(e) => MsgType::of_tag(value) is None && value > 8 && e
                    == ProtocolError::UnknownMessageType,
            },
    {
        match value {
            0 => Ok(MsgType::Choke),
            1 => Ok(MsgType::Unchoke),
            2 => Ok(MsgType::Interested),
            3 => Ok(MsgType::NotInterested),
            4 => Ok(MsgType::Have),
            5 => Ok(MsgType::BitField),
            6 => Ok(MsgType::Request),
            7 => Ok(MsgType::Piece),
            8 => Ok(MsgType::Cancel),
            _ => Err(ProtocolError::UnknownMessageType),
        }
    }
}

/// A peer message: its kind and payload, with the length prefix that stands
/// before it on the wire. Without a kind it is a keep-alive.
#[derive(Debug)]
pub struct ExchangeMsg {
    pub len_prefix: u32,
    pub message_id: Option<MsgType>,
    pub payload: Vec<u8>,
}

impl ExchangeMsg {
    /// The length prefix is the one the wire format asks for: one more than the
    /// payload's length, or zero for a keep-alive, which has no payload.
    pub open spec fn wf(&self) -> bool {
        match self.message_id {
            Some(_) => self.len_prefix == self.payload@.len() + 1,
            None => self.len_prefix == 0 && self.payload@.len() == 0,
        }
    }

    /// A message of kind `t` with the given payload.
    pub fn new(t: MsgType, payload: Vec<u8>) -> (r: Self)
        requires
            payload@.len() < u32::MAX,
        ensures
            r.message_id == Some(t),
            r.payload == payload,
            r.len_prefix == payload@.len() + 1,
            r.wf(),
    {
        ExchangeMsg { len_prefix: (payload.len() + 1) as u32, message_id: Some(t), payload }
    }

    /// The keep-alive message.
    pub fn keep_alive() -> (r: Self)
        ensures
            r.message_id is None,
            r.payload@.len() == 0,
            r.len_prefix == 0,
            r.wf(),
    {
        ExchangeMsg { len_prefix: 0, message_id: None, payload: Vec::new() }
    }
}

/// The payload of a `Request` or `Cancel` message: piece index, offset within
/// the piece and length of the block, each in network byte order.
#[derive(Debug)]
pub struct BlockReqPayload {
    pub index: [u8; 4],
    pub begin: [u8; 4],
    pub length: [u8; 4],
}

impl BlockReqPayload {
    /// The twelve bytes of the payload on the wire.
    pub open spec fn wire(&self) -> Seq<u8> {
        self.index@ + self.begin@ + self.length@
    }

    /// The request for `length` bytes at offset `begin` of piece `index`.
    pub fn new(index: u32, begin: u32, length: u32) -> (r: Self)
        ensures
            r.index@ == be32(index),
            r.begin@ == be32(begin),
            r.length@ == be32(length),
            r.wire() == be32(index) + be32(begin) + be32(length),
    {
        BlockReqPayload {
            index: u32_to_be(index),
            begin: u32_to_be(begin),
            length: u32_to_be(length),
        }
    }

    /// The payload as it goes on the wire: the three fields one after the other.
    pub fn as_bytes_mut(&mut self) -> (r: Vec<u8>)
        ensures
            r@ == old(self).wire(),
            r@.len() == 12,
            *final(self) == *old(self),
    {
        let mut out: Vec<u8> = Vec::new();
        let mut i: usize = 0;
        while i < 4
            invariant
                i <= 4,
                out@ == self.index@.subrange(0, i as int),
            decreases 4 - i,
        {
            out.push(self.index[i]);
            assert(out@ =~= self.index@.subrange(0, i + 1));
            i += 1;
        }
        assert(out@ =~= self.index@);
        i = 0;
        while i < 4
            invariant
                i <= 4,
                out@ == self.index@ + self.begin@.subrange(0, i as int),
            decreases 4 - i,
        {
            out.push(self.begin[i]);
            assert(out@ =~= self.index@ + self.begin@.subrange(0, i + 1));
            i += 1;
        }
        assert(out@ =~= self.index@ + self.begin@);
        i = 0;
        while i < 4
            invariant
                i <= 4,
                out@ == self.index@ + self.begin@ + self.length@.subrange(0, i as int),
            decreases 4 - i,
        {
            out.push(self.length[i]);
            assert(out@ =~= self.index@ + self.begin@ + self.length@.subrange(0, i + 1));
            i += 1;
        }
        assert(out@ =~= self.wire());
        out
    }

    /// Reads a payload off the wire; `None` unless `data` holds exactly twelve
    /// bytes.
    pub fn from_bytes(data: &[u8]) -> (r: Option<Self>)
        ensures
            match r {
                Some(p) => data@.len() == 12 && p.wire() == data@,
                None => data@.len() != 12,
            },
    {
        if data.len() != 12 {
            return None;
        }
        let p = BlockReqPayload {
            index: [data[0], data[1], data[2], data[3]],
            begin: [data[4], data[5], data[6], data[7]],
            length: [data[8], data[9], data[10], data[11]],
        };
        assert(p.wire() =~= data@);
        Some(p)
    }

    /// The piece index.
    pub fn index(&self) -> (r: u32)
        ensures
            r == be32_value(self.index@),
    {
        u32_from_be(&self.index)
    }

    /// The offset within the piece.
    pub fn begin(&self) -> (r: u32)
        ensures
            r == be32_value(self.begin@),
    {
        u32_from_be(&self.begin)
    }

    /// The length of the block.
    pub fn length(&self) -> (r: u32)
        ensures
            r == be32_value(self.length@),
    {
        u32_from_be(&self.length)
    }
}

/// The payload of a `Piece` message: piece index and offset in network byte
/// order, then the bytes of the block.
pub struct BlockRespPayload<'a> {
    pub index: [u8; 4],
    pub begin: [u8; 4],
    pub data: &'a [u8],
}

impl<'a> BlockRespPayload<'a> {
    /// The payload on the wire.
    pub open spec fn wire(&self) -> Seq<u8> {
        self.index@ + self.begin@ + self.data@
    }

    /// The piece index.
    pub fn index(&self) -> (r: u32)
        ensures
            r == be32_value(self.index@),
    {
        u32_from_be(&self.index)
    }

    /// The offset of the block within the piece.
    pub fn begin(&self) -> (r: u32)
        ensures
            r == be32_value(self.begin@),
    {
        u32_from_be(&self.begin)
    }

    /// The bytes of the block.
    pub fn block(&self) -> (r: &'a [u8])
        ensures
            r@ == self.data@,
    {
        self.data
    }

    /// Reads a payload off the wire; `None` when `data` is shorter than the two
    /// leading fields.
    pub fn from_bytes(data: &'a [u8]) -> (r: Option<Self>)
        ensures
            match r {
                Some(p) => data@.len() >= 8 && p.wire() == data@ && p.index@ == data@.subrange(0, 4)
                    && p.begin@ == data@.subrange(4, 8) && p.data@ == data@.skip(8),
                None => data@.len() < 8,
            },
    {
        if data.len() < 8 {
            return None;
        }
        let p = BlockRespPayload {
            index: [data[0], data[1], data[2], data[3]],
            begin: [data[4], data[5], data[6], data[7]],
            data: slice_subrange(data, 8, data.len()),
        };
        assert(p.index@ =~= data@.subrange(0, 4));
        assert(p.begin@ =~= data@.subrange(4, 8));
        assert(p.data@ =~= data@.skip(8));
        assert(p.wire() =~= data@);
        Some(p)
    }
}

} // verus!
