//! The engine that downloads one piece from one peer.
//!
//! The engine decides and never touches the connection. Its caller asks `next`
//! what to do, sends the message it is given or reads one from the peer and
//! hands it to `receive`, until `next` asks for the piece to be verified.

use crate::digest::{digest_eq, sha1_bytes, sha1_of};
use crate::torrent::error::ProtocolError;
use crate::torrent::exchange::{BlockRespPayload, ExchangeMsg, MsgType};
use crate::torrent::metainfo::Torrent;
use crate::torrent::pieces::{
    block_begin, block_count, block_len, block_length, block_request, count_blocks,
    lemma_block_bounds, piece_len, BLOCK_MAX,
};
use crate::torrent::wire::{be32, be32_value};
use vstd::prelude::*;

verus! {

/// Where a transfer stands.
#[derive(Debug, Clone, Copy, PartialEq, Eq, Structural)]
pub enum TransferState {
    /// Nothing was received yet; the peer's bitfield has to come first.
    AwaitingBitfield,
    /// The bitfield is here; the client has to say that it is interested.
    Interesting,
    /// The client said so and waits to be unchoked.
    AwaitingUnchoke,
    /// Blocks are requested and received.
    Requesting,
    /// Every block is here; the piece has to be verified.
    Done,
}

/// What the caller of the engine has to do next.
#[derive(Debug)]
pub enum Action {
    /// Send this message to the peer.
    Send(ExchangeMsg),
    /// Read a message from the peer and hand it to `receive`.
    Receive,
    /// Every block arrived: call `finish`.
    Verify,
}

/// The model of an `Action`.
pub enum ActionView {
    Send { id: Option<MsgType>, payload: Seq<u8> },
    Receive,
    Verify,
}

impl View for Action {
    type V = ActionView;

    open spec fn view(&self) -> ActionView {
        match self {
            Action::Send(m) => ActionView::Send { id: m.message_id, payload: m.payload@ },
            Action::Receive => ActionView::Receive,
            Action::Verify => ActionView::Verify,
        }
    }
}

/// The number of flags that are set.
pub open spec fn count_true(flags: Seq<bool>) -> nat
    decreases flags.len(),
{
    if flags.len() == 0 {
        0
    } else {
        count_true(flags.drop_last()) + if flags.last() {
            1nat
        } else {
            0nat
        }
    }
}

/// The model of a transfer.
pub struct TransferView {
    pub state: TransferState,
    pub piece_index: u32,
    pub piece_len: u32,
    pub expected: Seq<u8>,
    pub window: u32,
    pub bitfield: Seq<u8>,
    /// The bytes of the piece; what has not arrived yet is zero.
    pub buffer: Seq<u8>,
    /// For each block, whether it arrived.
    pub received: Seq<bool>,
    /// The blocks `0` to `requested - 1` were requested.
    pub requested: nat,
}

/// A `Piece` payload taken apart: piece index, offset and block.
pub struct BlockView {
    pub index: int,
    pub begin: int,
    pub data: Seq<u8>,
}

/// What a `Piece` payload holds, where it is long enough.
pub open spec fn block_of(payload: Seq<u8>) -> BlockView {
    BlockView {
        index: be32_value(payload.subrange(0, 4)),
        begin: be32_value(payload.subrange(4, 8)),
        data: payload.skip(8),
    }
}

/// `buffer` with `data` written at `begin`.
pub open spec fn splice(buffer: Seq<u8>, begin: int, data: Seq<u8>) -> Seq<u8> {
    buffer.subrange(0, begin) + data + buffer.subrange(begin + data.len(), buffer.len() as int)
}

impl TransferView {
    /// The number of blocks of the piece.
    pub open spec fn blocks(self) -> int {
        block_count(self.piece_len as int)
    }

    /// The number of blocks that arrived.
    pub open spec fn arrived(self) -> nat {
        count_true(self.received)
    }

    /// What holds of every transfer.
    pub open spec fn wf(self) -> bool {
        &&& self.piece_len > 0
        &&& self.window >= 1
        &&& self.expected.len() == 20
        &&& self.buffer.len() == self.piece_len
        &&& self.received.len() == self.blocks()
        &&& self.requested <= self.blocks()
        &&& forall|k: int| self.requested <= k < self.received.len() ==> !self.received[k]
        &&& (self.state is Requesting || self.state is Done || self.requested == 0)
        &&& (self.state is Done <==> self.arrived() == self.blocks())
    }

    /// A block is left to request and the window has room for it.
    pub open spec fn can_request(self) -> bool {
        &&& self.state is Requesting
        &&& self.requested < self.blocks()
        &&& self.requested - self.arrived() < self.window
    }

    /// The request for the next block.
    pub open spec fn request_payload(self) -> Seq<u8> {
        be32(self.piece_index) + be32(block_begin(self.requested as int) as u32) + be32(
            block_len(self.piece_len as int, self.requested as int) as u32,
        )
    }

    /// What the caller has to do next.
    pub open spec fn action(self) -> ActionView {
        match self.state {
            TransferState::Interesting => ActionView::Send {
                id: Some(MsgType::Interested),
                payload: Seq::empty(),
            },
            TransferState::Requesting => if self.can_request() {
                ActionView::Send { id: Some(MsgType::Request), payload: self.request_payload() }
            } else {
                ActionView::Receive
            },
            TransferState::Done => ActionView::Verify,
            _ => ActionView::Receive,
        }
    }

    /// The transfer once the caller was told what to do: a message handed out
    /// counts as sent.
    pub open spec fn after_action(self) -> TransferView {
        match self.state {
            TransferState::Interesting => TransferView {
                state: TransferState::AwaitingUnchoke,
                ..self
            },
            TransferState::Requesting => if self.can_request() {
                TransferView { requested: self.requested + 1, ..self }
            } else {
                self
            },
            _ => self,
        }
    }

    /// The block is one that was requested and has not arrived, and it has the
    /// length that was asked for.
    pub open spec fn admits(self, b: BlockView) -> bool {
        &&& b.index == self.piece_index
        &&& b.begin % (BLOCK_MAX as int) == 0
        &&& b.begin / (BLOCK_MAX as int) < self.requested
        &&& !self.received[b.begin / (BLOCK_MAX as int)]
        &&& b.data.len() == block_len(self.piece_len as int, b.begin / (BLOCK_MAX as int))
    }

    /// The transfer with the block put in its place.
    pub open spec fn with_block(self, b: BlockView) -> TransferView {
        let received = self.received.update(b.begin / (BLOCK_MAX as int), true);
        TransferView {
            state: if count_true(received) == self.blocks() {
                TransferState::Done
            } else {
                TransferState::Requesting
            },
            buffer: splice(self.buffer, b.begin, b.data),
            received,
            ..self
        }
    }

    /// The transfer after a message of the peer, or why the message ends it. A
    /// keep-alive changes nothing.
    pub open spec fn after_message(self, id: Option<MsgType>, payload: Seq<u8>) -> Result<
        TransferView,
        ProtocolError,
    > {
        if id is None {
            Ok(self)
        } else {
            match self.state {
                TransferState::AwaitingBitfield => if id == Some(MsgType::BitField) {
                    Ok(
                        TransferView {
                            state: TransferState::Interesting,
                            bitfield: payload,
                            ..self
                        },
                    )
                } else {
                    Err(ProtocolError::UnexpectedMessage)
                },
                TransferState::AwaitingUnchoke => if id == Some(MsgType::Unchoke) {
                    Ok(TransferView { state: TransferState::Requesting, ..self })
                } else if id == Some(MsgType::Choke) {
                    Ok(self)
                } else {
                    Err(ProtocolError::UnexpectedMessage)
                },
                TransferState::Requesting => if id == Some(MsgType::Choke) {
                    Err(ProtocolError::ChokedDuringTransfer)
                } else if id == Some(MsgType::Piece) && payload.len() >= 8 && self.admits(
                    block_of(payload),
                ) {
                    Ok(self.with_block(block_of(payload)))
                } else {
                    Err(ProtocolError::UnexpectedMessage)
                },
                _ => Err(ProtocolError::UnexpectedMessage),
            }
        }
    }
}

/// Marking a block that had not arrived adds one to the count.
pub proof fn lemma_count_true_update(flags: Seq<bool>, k: int)
    requires
        0 <= k < flags.len(),
        !flags[k],
    ensures
        count_true(flags.update(k, true)) == count_true(flags) + 1,
    decreases flags.len(),
{
    let after = flags.update(k, true);
    if k == flags.len() - 1 {
        assert(after.drop_last() =~= flags.drop_last());
    } else {
        lemma_count_true_update(flags.drop_last(), k);
        assert(after.drop_last() =~= flags.drop_last().update(k, true));
    }
}

/// No more blocks arrived than there are, and fewer where one is missing.
pub proof fn lemma_count_true_bound(flags: Seq<bool>)
    ensures
        count_true(flags) <= flags.len(),
        (exists|k: int| 0 <= k < flags.len() && !flags[k]) ==> count_true(flags) < flags.len(),
        (forall|k: int| 0 <= k < flags.len() ==> !flags[k]) ==> count_true(flags) == 0,
    decreases flags.len(),
{
    if flags.len() > 0 {
        let head = flags.drop_last();
        lemma_count_true_bound(head);
        if exists|k: int| 0 <= k < flags.len() && !flags[k] {
            let k = choose|k: int| 0 <= k < flags.len() && !flags[k];
            if k < flags.len() - 1 {
                assert(!head[k]);
            }
        }
        if forall|k: int| 0 <= k < flags.len() ==> !flags[k] {
            assert forall|k: int| 0 <= k < head.len() implies !head[k] by {
                assert(head[k] == flags[k]);
            }
        }
    }
}

/// Among the first `n` flags no more are set than `n`.
pub proof fn lemma_count_true_prefix(flags: Seq<bool>, n: int)
    requires
        0 <= n <= flags.len(),
        forall|k: int| n <= k < flags.len() ==> !flags[k],
    ensures
        count_true(flags) <= n,
    decreases flags.len(),
{
    if flags.len() > n {
        let head = flags.drop_last();
        assert forall|k: int| n <= k < head.len() implies !head[k] by {
            assert(head[k] == flags[k]);
        }
        lemma_count_true_prefix(head, n);
    } else {
        lemma_count_true_bound(flags);
    }
}

/// The buffer of the transfer holds the bytes of `data` in every block that
/// arrived.
pub open spec fn agrees(v: TransferView, data: Seq<u8>) -> bool {
    &&& data.len() == v.piece_len
    &&& forall|i: int|
        0 <= i < v.piece_len && v.received[i / (BLOCK_MAX as int)] ==> #[trigger] v.buffer[i]
            == data[i]
}

/// The block of a `Piece` payload carries the bytes of `data` at its offset.
pub open spec fn carries(payload: Seq<u8>, data: Seq<u8>) -> bool {
    let b = block_of(payload);
    &&& 0 <= b.begin
    &&& b.begin + b.data.len() <= data.len()
    &&& b.data == data.subrange(b.begin, b.begin + b.data.len())
}

/// A transfer that `new` made agrees with every piece of its length: no block
/// arrived yet.
pub proof fn law_fresh_transfer_agrees(v: TransferView, data: Seq<u8>)
    requires
        data.len() == v.piece_len,
        forall|k: int| 0 <= k < v.received.len() ==> !v.received[k],
        v.received.len() == v.blocks(),
    ensures
        agrees(v, data),
{
    assert forall|i: int|
        0 <= i < v.piece_len && v.received[i / (BLOCK_MAX as int)] implies #[trigger] v.buffer[i]
        == data[i] by {
        let k = i / (BLOCK_MAX as int);
        assert(0 <= k < v.blocks());
    }
}

/// Reassembly puts every block in its place: a message from a peer that sends
/// the bytes of `data` leaves the buffer in agreement with `data`, in whatever
/// order the blocks arrive.
pub proof fn law_message_keeps_agreement(
    v: TransferView,
    id: Option<MsgType>,
    payload: Seq<u8>,
    data: Seq<u8>,
)
    requires
        v.wf(),
        agrees(v, data),
        v.after_message(id, payload) is Ok,
        id == Some(MsgType::Piece) ==> carries(payload, data),
    ensures
        v.after_message(id, payload)->Ok_0.wf(),
        agrees(v.after_message(id, payload)->Ok_0, data),
{
    let w = v.after_message(id, payload)->Ok_0;
    if id == Some(MsgType::Piece) && v.state is Requesting {
        let b = block_of(payload);
        let k = b.begin / (BLOCK_MAX as int);
        lemma_count_true_prefix(v.received, v.requested as int);
        lemma_block_bounds(v.piece_len as int, k);
        lemma_count_true_update(v.received, k);
        lemma_count_true_bound(v.received.update(k, true));
        assert(w == v.with_block(b));
        assert forall|i: int|
            0 <= i < w.piece_len && w.received[i / (BLOCK_MAX as int)] implies #[trigger] w.buffer[i]
            == data[i] by {
            if b.begin <= i < b.begin + b.data.len() {
                assert(w.buffer[i] == b.data[i - b.begin]);
            } else {
                assert(w.buffer[i] == v.buffer[i]);
                assert(i / (BLOCK_MAX as int) != k);
                assert(v.received[i / (BLOCK_MAX as int)]);
            }
        }
        assert forall|j: int| w.requested <= j < w.received.len() implies !w.received[j] by {
            assert(!v.received[j]);
        }
    } else {
        lemma_count_true_bound(v.received);
    }
}

/// A transfer that is done and agrees with `data` holds `data`: when all blocks
/// arrived, the buffer is the piece. By then every block of the piece was
/// requested, one request for each.
pub proof fn law_done_transfer_is_whole(v: TransferView, data: Seq<u8>)
    requires
        v.wf(),
        v.state is Done,
        agrees(v, data),
    ensures
        v.buffer == data,
        v.requested == block_count(v.piece_len as int),
{
    lemma_count_true_bound(v.received);
    if v.requested < v.received.len() {
        assert(!v.received[v.requested as int]);
    }
    assert forall|i: int| 0 <= i < v.buffer.len() implies v.buffer[i] == data[i] by {
        let k = i / (BLOCK_MAX as int);
        assert(0 <= k < v.received.len());
        assert(v.received[k]);
    }
    assert(v.buffer =~= data);
}

/// Bit `index` of a bitfield, counted from the most significant bit of the
/// first byte: whether the peer has piece `index`. A piece beyond the end of the
/// bitfield is one that the peer does not have.
pub open spec fn bit_set(bitfield: Seq<u8>, index: int) -> bool {
    0 <= index < 8 * bitfield.len() && bitfield[index / 8] & (0x80u8 >> ((index % 8) as u8)) != 0
}

/// Whether a peer with this bitfield has piece `index`.
pub fn has_piece(bitfield: &[u8], index: usize) -> (r: bool)
    ensures
        r == bit_set(bitfield@, index as int),
{
    let at = index / 8;
    if at >= bitfield.len() {
        return false;
    }
    let bit: u8 = (index % 8) as u8;
    bitfield[at] & (0x80u8 >> bit) != 0
}

/// The download of one piece from one peer.
pub struct PieceTransfer {
    state: TransferState,
    piece_index: u32,
    piece_len: u32,
    expected: [u8; 20],
    window: u32,
    bitfield: Vec<u8>,
    buffer: Vec<u8>,
    received: Vec<bool>,
    requested: u32,
    arrived: u32,
}

impl View for PieceTransfer {
    type V = TransferView;

    closed spec fn view(&self) -> TransferView {
        TransferView {
            state: self.state,
            piece_index: self.piece_index,
            piece_len: self.piece_len,
            expected: self.expected@,
            window: self.window,
            bitfield: self.bitfield@,
            buffer: self.buffer@,
            received: self.received@,
            requested: self.requested as nat,
        }
    }
}

impl PieceTransfer {
    /// What holds of every transfer that `new` made and `next` and `receive`
    /// changed.
    pub closed spec fn wf(&self) -> bool {
        &&& self@.wf()
        &&& self.arrived == self@.arrived()
    }

    /// A transfer of piece `piece_index`, which has `piece_len` bytes and the
    /// SHA-1 `expected`, with up to `window` requests under way at once. `None`
    /// for a piece without bytes or a window of zero.
    pub fn new(piece_index: u32, piece_len: u32, expected: [u8; 20], window: u32) -> (r: Option<
        Self,
    >)
        ensures
            r is Some <==> piece_len > 0 && window >= 1,
            r matches Some(t) ==> t.wf() && t@ == (TransferView {
                state: TransferState::AwaitingBitfield,
                piece_index,
                piece_len,
                expected: expected@,
                window,
                bitfield: Seq::empty(),
                buffer: Seq::new(piece_len as nat, |i: int| 0u8),
                received: Seq::new(block_count(piece_len as int) as nat, |i: int| false),
                requested: 0,
            }),
    {
        if piece_len == 0 || window == 0 {
            return None;
        }
        let blocks = count_blocks(piece_len);
        let mut buffer: Vec<u8> = Vec::new();
        let mut i: u32 = 0;
        while i < piece_len
            invariant
                i <= piece_len,
                buffer@ == Seq::new(i as nat, |j: int| 0u8),
            decreases piece_len - i,
        {
            buffer.push(0);
            assert(buffer@ =~= Seq::new((i + 1) as nat, |j: int| 0u8));
            i += 1;
        }
        let mut received: Vec<bool> = Vec::new();
        let mut k: u32 = 0;
        while k < blocks
            invariant
                k <= blocks,
                received@ == Seq::new(k as nat, |j: int| false),
            decreases blocks - k,
        {
            received.push(false);
            assert(received@ =~= Seq::new((k + 1) as nat, |j: int| false));
            k += 1;
        }
        proof {
            lemma_count_true_bound(received@);
        }
        Some(
            PieceTransfer {
                state: TransferState::AwaitingBitfield,
                piece_index,
                piece_len,
                expected,
                window,
                bitfield: Vec::new(),
                buffer,
                received,
                requested: 0,
                arrived: 0,
            },
        )
    }

    /// A transfer of piece `index` of a torrent, with up to `window` requests
    /// under way at once. `None` where the torrent has no such piece, the index
    /// or the length of the piece is more than a `u32` holds, or the window is
    /// zero.
    pub fn for_piece(torrent: &Torrent, index: usize, window: u32) -> (r: Option<Self>)
        requires
            torrent@.info.valid(),
        ensures
            ({
                let info = torrent@.info;
                let n = piece_len(
                    info.keys.total(),
                    info.piece_length as int,
                    info.pieces.len() as int,
                    index as int,
                );
                &&& r is Some <==> index < info.pieces.len() && index <= u32::MAX && n <= u32::MAX
                    && window >= 1
                &&& r matches Some(t) ==> t.wf() && t@ == (TransferView {
                    state: TransferState::AwaitingBitfield,
                    piece_index: index as u32,
                    piece_len: n as u32,
                    expected: info.pieces[index as int],
                    window,
                    bitfield: Seq::empty(),
                    buffer: Seq::new(n as nat, |i: int| 0u8),
                    received: Seq::new(block_count(n) as nat, |i: int| false),
                    requested: 0,
                })
            }),
    {
        if index > u32::MAX as usize {
            return None;
        }
        let piece_len = match torrent.piece_length(index) {
            None => {
                return None;
            },
            Some(n) => n,
        };
        let expected = torrent.info.pieces.0[index];
        assert(torrent@.info.pieces[index as int] == expected@);
        PieceTransfer::new(index as u32, piece_len, expected, window)
    }

    /// Where the transfer stands.
    pub fn state(&self) -> (r: TransferState)
        ensures
            r == self@.state,
    {
        self.state
    }

    /// The bitfield that the peer sent; empty before it came.
    pub fn bitfield(&self) -> (r: &[u8])
        ensures
            r@ == self@.bitfield,
    {
        self.bitfield.as_slice()
    }

    /// Whether the bitfield that the peer sent says that it has the piece.
    pub fn peer_has_piece(&self) -> (r: bool)
        ensures
            r == bit_set(self@.bitfield, self@.piece_index as int),
    {
        has_piece(self.bitfield.as_slice(), self.piece_index as usize)
    }

    /// What to do next. A message that is handed out counts as sent.
    pub fn next(&mut self) -> (r: Action)
        requires
            old(self).wf(),
        ensures
            final(self).wf(),
            r@ == old(self)@.action(),
            final(self)@ == old(self)@.after_action(),
            r matches Action::Send(m) ==> m.wf(),
    {
        match self.state {
            TransferState::Interesting => {
                self.state = TransferState::AwaitingUnchoke;
                Action::Send(ExchangeMsg::new(MsgType::Interested, Vec::new()))
            },
            TransferState::Requesting => {
                proof {
                    lemma_count_true_prefix(self.received@, self.requested as int);
                }
                let blocks = count_blocks(self.piece_len);
                if self.requested < blocks && self.requested - self.arrived < self.window {
                    match block_request(self.piece_index, self.piece_len, self.requested) {
                        Some(mut request) => {
                            let payload = request.as_bytes_mut();
                            self.requested = self.requested + 1;
                            Action::Send(ExchangeMsg::new(MsgType::Request, payload))
                        },
                        None => Action::Receive,
                    }
                } else {
                    Action::Receive
                }
            },
            TransferState::Done => Action::Verify,
            _ => Action::Receive,
        }
    }

    /// Takes a message of the peer. An error ends the transfer.
    pub fn receive(&mut self, msg: &ExchangeMsg) -> (r: Result<(), ProtocolError>)
        requires
            old(self).wf(),
        ensures
            final(self).wf(),
            match old(self)@.after_message(msg.message_id, msg.payload@) {
                Ok(after) => r is Ok && final(self)@ == after,
                Err(e) => r == Err::<(), ProtocolError>(e) && final(self)@ == old(self)@,
            },
    {
        let id = match msg.message_id {
            None => {
                return Ok(());
            },
            Some(id) => id,
        };
        match self.state {
            TransferState::AwaitingBitfield => {
                if id == MsgType::BitField {
                    self.bitfield = msg.payload.clone();
                    self.state = TransferState::Interesting;
                    Ok(())
                } else {
                    Err(ProtocolError::UnexpectedMessage)
                }
            },
            TransferState::AwaitingUnchoke => {
                if id == MsgType::Unchoke {
                    self.state = TransferState::Requesting;
                    proof {
                        lemma_count_true_bound(self.received@);
                    }
                    Ok(())
                } else if id == MsgType::Choke {
                    Ok(())
                } else {
                    Err(ProtocolError::UnexpectedMessage)
                }
            },
            TransferState::Requesting => {
                if id == MsgType::Choke {
                    Err(ProtocolError::ChokedDuringTransfer)
                } else if id == MsgType::Piece {
                    self.accept_block(msg.payload.as_slice())
                } else {
                    Err(ProtocolError::UnexpectedMessage)
                }
            },
            _ => Err(ProtocolError::UnexpectedMessage),
        }
    }

    /// Puts the block of a `Piece` payload in its place.
    fn accept_block(&mut self, payload: &[u8]) -> (r: Result<(), ProtocolError>)
        requires
            old(self).wf(),
            old(self)@.state is Requesting,
        ensures
            final(self).wf(),
            match old(self)@.after_message(Some(MsgType::Piece), payload@) {
                Ok(after) => r is Ok && final(self)@ == after,
                Err(e) => r == Err::<(), ProtocolError>(e) && final(self)@ == old(self)@,
            },
    {
        let block = match BlockRespPayload::from_bytes(payload) {
            None => {
                return Err(ProtocolError::UnexpectedMessage);
            },
            Some(block) => block,
        };
        let ghost b = block_of(payload@);
        let index = block.index();
        let begin = block.begin();
        let data = block.block();
        assert(b.index == index && b.begin == begin && b.data == data@);
        if index != self.piece_index || begin % BLOCK_MAX != 0 {
            return Err(ProtocolError::UnexpectedMessage);
        }
        let k = begin / BLOCK_MAX;
        if k >= self.requested || self.received[k as usize] {
            return Err(ProtocolError::UnexpectedMessage);
        }
        proof {
            lemma_block_bounds(self.piece_len as int, k as int);
        }
        let want = block_length(self.piece_len, k);
        if data.len() != want as usize {
            return Err(ProtocolError::UnexpectedMessage);
        }
        let ghost before = self.buffer@;
        let at = begin as usize;
        let mut i: usize = 0;
        while i < data.len()
            invariant
                i <= data@.len(),
                at + data@.len() <= before.len(),
                before.len() <= u32::MAX,
                self.buffer@.len() == before.len(),
                self.buffer@ == before.subrange(0, at as int) + data@.subrange(0, i as int)
                    + before.subrange(at + i, before.len() as int),
                self.state == old(self).state,
                self.piece_index == old(self).piece_index,
                self.piece_len == old(self).piece_len,
                self.expected == old(self).expected,
                self.window == old(self).window,
                self.bitfield == old(self).bitfield,
                self.received == old(self).received,
                self.requested == old(self).requested,
                self.arrived == old(self).arrived,
            decreases data@.len() - i,
        {
            self.buffer.set(at + i, data[i]);
            assert(self.buffer@ =~= before.subrange(0, at as int) + data@.subrange(0, i + 1)
                + before.subrange(at + i + 1, before.len() as int));
            i += 1;
        }
        assert(self.buffer@ =~= splice(before, begin as int, data@)) by {
            assert(data@.subrange(0, i as int) =~= data@);
        }
        proof {
            lemma_count_true_update(self.received@, k as int);
            lemma_count_true_bound(self.received@.update(k as int, true));
        }
        self.received.set(k as usize, true);
        self.arrived = self.arrived + 1;
        if self.arrived == count_blocks(self.piece_len) {
            self.state = TransferState::Done;
        }
        Ok(())
    }

    /// Ends the transfer: the piece, where its SHA-1 is the expected one, else
    /// `HashMismatch`. Either way the transfer is over and its buffer given
    /// up.
    pub fn finish(self) -> (r: Result<Vec<u8>, ProtocolError>)
        ensures
            match r {
                Ok(piece) => piece@ == self@.buffer && sha1_of(self@.buffer) == self@.expected,
                Err(e) => e == ProtocolError::HashMismatch && sha1_of(self@.buffer)
                    != self@.expected,
            },
    {
        let digest = sha1_bytes(self.buffer.as_slice());
        if digest_eq(&digest, &self.expected) {
            Ok(self.buffer)
        } else {
            Err(ProtocolError::HashMismatch)
        }
    }
}

} // verus!
