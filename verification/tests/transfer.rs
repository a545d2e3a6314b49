use bittorrent::torrent::error::ProtocolError;
use bittorrent::torrent::exchange::{BlockReqPayload, ExchangeMsg, MsgType};
use bittorrent::torrent::hashes::Hashes;
use bittorrent::torrent::metainfo::{Info, Keys, Torrent};
use bittorrent::torrent::pieces::{block_length, block_request, count_blocks, BLOCK_MAX};
use bittorrent::torrent::transfer::{has_piece, Action, PieceTransfer, TransferState};

fn sha1_digest(data: &[u8]) -> [u8; 20] {
    <sha1::Sha1 as sha1::Digest>::digest(data).into()
}

fn piece_data(len: usize) -> Vec<u8> {
    (0..len).map(|i| ((i * 7 + 3) % 256) as u8).collect()
}

fn piece_message(index: u32, begin: u32, data: &[u8]) -> ExchangeMsg {
    let mut payload = index.to_be_bytes().to_vec();
    payload.extend_from_slice(&begin.to_be_bytes());
    payload.extend_from_slice(data);
    ExchangeMsg::new(MsgType::Piece, payload)
}

fn plain(kind: MsgType) -> ExchangeMsg {
    ExchangeMsg::new(kind, Vec::new())
}

fn expect_send(action: Action) -> ExchangeMsg {
    match action {
        Action::Send(msg) => msg,
        other => panic!("expected a message to send, got {:?}", other),
    }
}

fn expect_receive(action: Action) {
    match action {
        Action::Receive => {}
        other => panic!("expected to receive, got {:?}", other),
    }
}

fn expect_verify(action: Action) {
    match action {
        Action::Verify => {}
        other => panic!("expected to verify, got {:?}", other),
    }
}

/// A transfer that was unchoked and may request.
fn unchoked(index: u32, len: u32, expected: [u8; 20], window: u32) -> PieceTransfer {
    let mut t = PieceTransfer::new(index, len, expected, window).unwrap();
    t.receive(&ExchangeMsg::new(MsgType::BitField, vec![0xff])).unwrap();
    expect_send(t.next());
    t.receive(&plain(MsgType::Unchoke)).unwrap();
    t
}

#[test]
fn block_chunking_identity() {
    assert_eq!(BLOCK_MAX, 16384);
    for len in [1u32, 16383, 16384, 16385, 32768, 40000, 100_000, 262_144] {
        let count = count_blocks(len);
        assert_eq!(count, (len + BLOCK_MAX - 1) / BLOCK_MAX);
        let mut sum = 0u32;
        for k in 0..count {
            let n = block_length(len, k);
            if k + 1 < count {
                assert_eq!(n, BLOCK_MAX);
            }
            sum += n;
        }
        assert_eq!(sum, len);
    }
    assert_eq!(count_blocks(0), 0);
    assert_eq!(count_blocks(40000), 3);
    assert_eq!(block_length(40000, 2), 7232);
    assert_eq!(block_length(32768, 1), 16384);
}

#[test]
fn block_requests_of_a_piece() {
    let mut last = block_request(5, 40000, 2).unwrap();
    assert_eq!(last.index(), 5);
    assert_eq!(last.begin(), 32768);
    assert_eq!(last.length(), 7232);
    assert_eq!(last.as_bytes_mut().len(), 12);
    let first = block_request(5, 40000, 0).unwrap();
    assert_eq!(first.begin(), 0);
    assert_eq!(first.length(), 16384);
    assert!(block_request(5, 40000, 3).is_none());
    assert!(block_request(5, 0, 0).is_none());
}

#[test]
fn bitfield_bits_are_counted_from_the_top() {
    let bitfield = [0b1000_0001, 0b0100_0000];
    assert!(has_piece(&bitfield, 0));
    assert!(!has_piece(&bitfield, 1));
    assert!(has_piece(&bitfield, 7));
    assert!(!has_piece(&bitfield, 8));
    assert!(has_piece(&bitfield, 9));
    assert!(!has_piece(&bitfield, 15));
    assert!(!has_piece(&bitfield, 16));
    assert!(!has_piece(&[], 0));
}

#[test]
fn new_transfer_needs_bytes_and_a_window() {
    assert!(PieceTransfer::new(0, 0, [0; 20], 1).is_none());
    assert!(PieceTransfer::new(0, 1, [0; 20], 0).is_none());
    let t = PieceTransfer::new(0, 1, [0; 20], 1).unwrap();
    assert_eq!(t.state(), TransferState::AwaitingBitfield);
    assert!(t.bitfield().is_empty());
}

#[test]
fn end_to_end_piece_download() {
    let data = piece_data(40000);
    let expected = sha1_digest(&data);
    let mut t = PieceTransfer::new(2, 40000, expected, 1).unwrap();
    assert_eq!(t.state(), TransferState::AwaitingBitfield);
    expect_receive(t.next());

    t.receive(&ExchangeMsg::new(MsgType::BitField, vec![0b0010_0000])).unwrap();
    assert_eq!(t.state(), TransferState::Interesting);
    assert_eq!(t.bitfield(), &[0b0010_0000]);
    assert!(t.peer_has_piece());

    let interested = expect_send(t.next());
    assert_eq!(interested.message_id, Some(MsgType::Interested));
    assert!(interested.payload.is_empty());
    assert_eq!(t.state(), TransferState::AwaitingUnchoke);
    expect_receive(t.next());

    t.receive(&plain(MsgType::Unchoke)).unwrap();
    assert_eq!(t.state(), TransferState::Requesting);

    let mut requests = 0;
    loop {
        match t.next() {
            Action::Send(msg) => {
                assert_eq!(msg.message_id, Some(MsgType::Request));
                let request = BlockReqPayload::from_bytes(&msg.payload).unwrap();
                assert_eq!(request.index(), 2);
                assert_eq!(request.begin(), requests * BLOCK_MAX);
                assert_eq!(request.length(), block_length(40000, requests));
                requests += 1;
                expect_receive(t.next());
                let from = request.begin() as usize;
                let to = from + request.length() as usize;
                t.receive(&piece_message(2, request.begin(), &data[from..to])).unwrap();
            }
            Action::Verify => break,
            Action::Receive => panic!("nothing is under way"),
        }
    }
    assert_eq!(requests, 3);
    assert_eq!(requests, (40000 + BLOCK_MAX - 1) / BLOCK_MAX);
    assert_eq!(t.state(), TransferState::Done);
    let piece = t.finish().unwrap();
    assert_eq!(piece, data);
    assert_eq!(sha1_digest(&piece), expected);
}

#[test]
fn hash_mismatch_is_reported() {
    let data = piece_data(100);
    let mut t = unchoked(0, 100, [0x11; 20], 1);
    expect_send(t.next());
    t.receive(&piece_message(0, 0, &data)).unwrap();
    expect_verify(t.next());
    assert_eq!(t.finish().unwrap_err(), ProtocolError::HashMismatch);
}

#[test]
fn one_wrong_byte_is_a_hash_mismatch() {
    let data = piece_data(100);
    let expected = sha1_digest(&data);
    let mut wrong = data.clone();
    wrong[99] ^= 1;
    let mut t = unchoked(0, 100, expected, 1);
    expect_send(t.next());
    t.receive(&piece_message(0, 0, &wrong)).unwrap();
    assert_eq!(t.finish().unwrap_err(), ProtocolError::HashMismatch);
}

#[test]
fn blocks_may_arrive_in_any_order() {
    let data = piece_data(40000);
    let expected = sha1_digest(&data);
    let mut t = unchoked(7, 40000, expected, 3);
    for k in 0..3 {
        let msg = expect_send(t.next());
        let request = BlockReqPayload::from_bytes(&msg.payload).unwrap();
        assert_eq!(request.begin(), k * BLOCK_MAX);
    }
    expect_receive(t.next());
    t.receive(&piece_message(7, 32768, &data[32768..])).unwrap();
    assert_eq!(t.state(), TransferState::Requesting);
    t.receive(&piece_message(7, 0, &data[..16384])).unwrap();
    expect_receive(t.next());
    t.receive(&piece_message(7, 16384, &data[16384..32768])).unwrap();
    assert_eq!(t.state(), TransferState::Done);
    expect_verify(t.next());
    assert_eq!(t.finish().unwrap(), data);
}

#[test]
fn window_limits_the_requests_under_way() {
    let data = piece_data(80000);
    let mut t = unchoked(0, 80000, sha1_digest(&data), 2);
    expect_send(t.next());
    expect_send(t.next());
    expect_receive(t.next());
    t.receive(&piece_message(0, 16384, &data[16384..32768])).unwrap();
    expect_send(t.next());
    expect_receive(t.next());
}

#[test]
fn anything_but_a_bitfield_first_is_unexpected() {
    for kind in [MsgType::Unchoke, MsgType::Choke, MsgType::Have, MsgType::Piece] {
        let mut t = PieceTransfer::new(0, 10, [0; 20], 1).unwrap();
        assert_eq!(t.receive(&plain(kind)), Err(ProtocolError::UnexpectedMessage));
        assert_eq!(t.state(), TransferState::AwaitingBitfield);
    }
}

#[test]
fn keep_alive_changes_nothing() {
    let mut t = PieceTransfer::new(0, 10, [0; 20], 1).unwrap();
    assert_eq!(t.receive(&ExchangeMsg::keep_alive()), Ok(()));
    assert_eq!(t.state(), TransferState::AwaitingBitfield);
}

#[test]
fn message_before_interested_was_sent_is_unexpected() {
    let mut t = PieceTransfer::new(0, 10, [0; 20], 1).unwrap();
    t.receive(&ExchangeMsg::new(MsgType::BitField, vec![0x80])).unwrap();
    assert_eq!(t.receive(&plain(MsgType::Unchoke)), Err(ProtocolError::UnexpectedMessage));
}

#[test]
fn choke_while_waiting_for_unchoke_stalls() {
    let mut t = PieceTransfer::new(0, 10, [0; 20], 1).unwrap();
    t.receive(&ExchangeMsg::new(MsgType::BitField, vec![0x80])).unwrap();
    expect_send(t.next());
    assert_eq!(t.receive(&plain(MsgType::Choke)), Ok(()));
    assert_eq!(t.state(), TransferState::AwaitingUnchoke);
    expect_receive(t.next());
    assert_eq!(t.receive(&plain(MsgType::Have)), Err(ProtocolError::UnexpectedMessage));
    assert_eq!(t.receive(&plain(MsgType::Unchoke)), Ok(()));
    assert_eq!(t.state(), TransferState::Requesting);
}

#[test]
fn choke_during_transfer_is_fatal() {
    let mut t = unchoked(0, 100, [0; 20], 1);
    expect_send(t.next());
    assert_eq!(t.receive(&plain(MsgType::Choke)), Err(ProtocolError::ChokedDuringTransfer));
    assert_eq!(t.receive(&plain(MsgType::Unchoke)), Err(ProtocolError::UnexpectedMessage));
}

#[test]
fn blocks_that_were_not_asked_for_are_unexpected() {
    let data = piece_data(40000);
    let mut t = unchoked(1, 40000, [0; 20], 1);
    assert_eq!(
        t.receive(&piece_message(1, 0, &data[..16384])),
        Err(ProtocolError::UnexpectedMessage)
    );
    expect_send(t.next());
    assert_eq!(
        t.receive(&piece_message(2, 0, &data[..16384])),
        Err(ProtocolError::UnexpectedMessage)
    );
    assert_eq!(
        t.receive(&piece_message(1, 1, &data[..16384])),
        Err(ProtocolError::UnexpectedMessage)
    );
    assert_eq!(
        t.receive(&piece_message(1, 16384, &data[16384..32768])),
        Err(ProtocolError::UnexpectedMessage)
    );
    assert_eq!(
        t.receive(&piece_message(1, 0, &data[..16383])),
        Err(ProtocolError::UnexpectedMessage)
    );
    assert_eq!(
        t.receive(&ExchangeMsg::new(MsgType::Piece, vec![0, 0, 0, 1, 0, 0, 0])),
        Err(ProtocolError::UnexpectedMessage)
    );
    assert_eq!(t.receive(&piece_message(1, 0, &data[..16384])), Ok(()));
    assert_eq!(
        t.receive(&piece_message(1, 0, &data[..16384])),
        Err(ProtocolError::UnexpectedMessage)
    );
}

#[test]
fn transfer_for_a_piece_of_a_torrent() {
    let data = piece_data(50);
    let torrent = Torrent {
        announce: "http://t/a".to_string(),
        created_by: String::new(),
        info: Info {
            name: b"x".to_vec(),
            piece_length: 32,
            pieces: Hashes(vec![sha1_digest(&data[..32]), sha1_digest(&data[32..])]),
            keys: Keys::Single { length: 50 },
        },
    };
    assert!(PieceTransfer::for_piece(&torrent, 2, 1).is_none());
    assert!(PieceTransfer::for_piece(&torrent, 0, 0).is_none());
    let mut last = PieceTransfer::for_piece(&torrent, 1, 1).unwrap();
    last.receive(&ExchangeMsg::new(MsgType::BitField, vec![0xc0])).unwrap();
    assert!(last.peer_has_piece());
    expect_send(last.next());
    last.receive(&plain(MsgType::Unchoke)).unwrap();
    let request = BlockReqPayload::from_bytes(&expect_send(last.next()).payload).unwrap();
    assert_eq!((request.index(), request.begin(), request.length()), (1, 0, 18));
    last.receive(&piece_message(1, 0, &data[32..])).unwrap();
    assert_eq!(last.finish().unwrap(), &data[32..]);
}
