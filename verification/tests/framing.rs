use bittorrent::torrent::codec::{MessageCodec, MAX};
use bittorrent::torrent::error::ProtocolError;
use bittorrent::torrent::exchange::{ExchangeMsg, MsgType};
use bytes::BytesMut;

fn frame(kind: MsgType, payload: &[u8]) -> Vec<u8> {
    let mut codec = MessageCodec::new();
    let mut buffer = BytesMut::new();
    codec.encode(ExchangeMsg::new(kind, payload.to_vec()), &mut buffer).unwrap();
    buffer.to_vec()
}

#[test]
fn encode_writes_length_id_payload() {
    assert_eq!(frame(MsgType::Interested, &[]), vec![0, 0, 0, 1, 2]);
    assert_eq!(frame(MsgType::Have, &[0, 0, 0, 9]), vec![0, 0, 0, 5, 4, 0, 0, 0, 9]);
    let payload = vec![7u8; 300];
    let bytes = frame(MsgType::Piece, &payload);
    assert_eq!(&bytes[..5], &[0, 0, 1, 45, 7]);
    assert_eq!(&bytes[5..], &payload[..]);
}

#[test]
fn encode_keep_alive_is_four_zero_bytes() {
    let mut codec = MessageCodec::new();
    let mut buffer = BytesMut::new();
    codec.encode(ExchangeMsg::keep_alive(), &mut buffer).unwrap();
    assert_eq!(&buffer[..], &[0, 0, 0, 0]);
}

#[test]
fn encode_appends_to_what_the_buffer_holds() {
    let mut codec = MessageCodec::new();
    let mut buffer = BytesMut::new();
    buffer.extend_from_slice(&[9, 9]);
    codec.encode(ExchangeMsg::new(MsgType::Choke, Vec::new()), &mut buffer).unwrap();
    codec.encode(ExchangeMsg::new(MsgType::Unchoke, Vec::new()), &mut buffer).unwrap();
    assert_eq!(&buffer[..], &[9, 9, 0, 0, 0, 1, 0, 0, 0, 0, 1, 1]);
}

#[test]
fn decode_undoes_encode() {
    let kinds = [
        (MsgType::Choke, vec![]),
        (MsgType::Unchoke, vec![]),
        (MsgType::Interested, vec![]),
        (MsgType::NotInterested, vec![]),
        (MsgType::Have, vec![0, 0, 0, 1]),
        (MsgType::BitField, vec![0xff, 0x80]),
        (MsgType::Request, vec![0, 0, 0, 1, 0, 0, 0, 0, 0, 0, 0x40, 0]),
        (MsgType::Piece, vec![1, 2, 3, 4, 5, 6, 7, 8, 9]),
        (MsgType::Cancel, vec![0; 12]),
    ];
    for (kind, payload) in kinds {
        let mut codec = MessageCodec::new();
        let mut buffer = BytesMut::new();
        codec.encode(ExchangeMsg::new(kind, payload.clone()), &mut buffer).unwrap();
        let msg = codec.decode(&mut buffer).unwrap().unwrap();
        assert_eq!(msg.message_id, Some(kind));
        assert_eq!(msg.payload, payload);
        assert_eq!(msg.len_prefix as usize, payload.len() + 1);
        assert!(buffer.is_empty());
        assert!(codec.decode(&mut buffer).unwrap().is_none());
    }
}

#[test]
fn decode_asks_for_more_until_the_frame_is_whole() {
    let bytes = frame(MsgType::Have, &[0, 0, 0, 9]);
    for cut in 0..bytes.len() {
        let mut codec = MessageCodec::new();
        let mut buffer = BytesMut::new();
        buffer.extend_from_slice(&bytes[..cut]);
        assert!(codec.decode(&mut buffer).unwrap().is_none());
        assert_eq!(&buffer[..], &bytes[..cut]);
        buffer.extend_from_slice(&bytes[cut..]);
        let msg = codec.decode(&mut buffer).unwrap().unwrap();
        assert_eq!(msg.message_id, Some(MsgType::Have));
        assert_eq!(msg.payload, vec![0, 0, 0, 9]);
        assert!(buffer.is_empty());
    }
}

#[test]
fn decode_two_messages_in_any_partition() {
    let mut stream = frame(MsgType::BitField, &[0xf0, 0x0f, 0xaa]);
    stream.extend_from_slice(&frame(MsgType::Piece, &[0, 0, 0, 1, 0, 0, 0, 0, 42, 43]));
    for first in 0..=stream.len() {
        for second in first..=stream.len() {
            let mut codec = MessageCodec::new();
            let mut buffer = BytesMut::new();
            let mut seen: Vec<(MsgType, Vec<u8>)> = Vec::new();
            for part in [&stream[..first], &stream[first..second], &stream[second..]] {
                buffer.extend_from_slice(part);
                while let Some(msg) = codec.decode(&mut buffer).unwrap() {
                    seen.push((msg.message_id.unwrap(), msg.payload));
                }
            }
            assert_eq!(
                seen,
                vec![
                    (MsgType::BitField, vec![0xf0, 0x0f, 0xaa]),
                    (MsgType::Piece, vec![0, 0, 0, 1, 0, 0, 0, 0, 42, 43]),
                ]
            );
            assert!(buffer.is_empty());
        }
    }
}

#[test]
fn decode_does_not_read_into_the_next_frame() {
    let mut codec = MessageCodec::new();
    let mut buffer = BytesMut::new();
    buffer.extend_from_slice(&[0, 0, 0, 1, 1, 0, 0, 0, 5, 4, 0, 0]);
    let msg = codec.decode(&mut buffer).unwrap().unwrap();
    assert_eq!(msg.message_id, Some(MsgType::Unchoke));
    assert!(msg.payload.is_empty());
    assert_eq!(&buffer[..], &[0, 0, 0, 5, 4, 0, 0]);
    assert!(codec.decode(&mut buffer).unwrap().is_none());
    assert_eq!(&buffer[..], &[0, 0, 0, 5, 4, 0, 0]);
}

#[test]
fn decode_drops_keep_alives() {
    let mut codec = MessageCodec::new();
    let mut buffer = BytesMut::new();
    buffer.extend_from_slice(&[0, 0, 0, 0, 0, 0, 0, 0, 0, 0, 0, 1, 0, 5, 6, 7]);
    let msg = codec.decode(&mut buffer).unwrap().unwrap();
    assert_eq!(msg.message_id, Some(MsgType::Choke));
    assert_eq!(&buffer[..], &[5, 6, 7]);
    let mut only = BytesMut::new();
    only.extend_from_slice(&[0, 0, 0, 0, 0, 0]);
    assert!(codec.decode(&mut only).unwrap().is_none());
    assert_eq!(&only[..], &[0, 0]);
}

#[test]
fn decode_refuses_an_unknown_id() {
    let mut codec = MessageCodec::new();
    let mut buffer = BytesMut::new();
    buffer.extend_from_slice(&[0, 0, 0, 2, 9, 0]);
    assert_eq!(codec.decode(&mut buffer).unwrap_err(), ProtocolError::UnknownMessageType);
    assert_eq!(&buffer[..], &[0, 0, 0, 2, 9, 0]);
    let mut partial = BytesMut::new();
    partial.extend_from_slice(&[0, 0, 0, 2, 9]);
    assert!(codec.decode(&mut partial).unwrap().is_none());
}

#[test]
fn decode_refuses_a_frame_that_is_too_large() {
    let mut codec = MessageCodec::new();
    let mut buffer = BytesMut::new();
    buffer.extend_from_slice(&[0, 1, 0, 1, 7]);
    assert_eq!(codec.decode(&mut buffer).unwrap_err(), ProtocolError::FrameTooLarge);
    let mut at_limit = BytesMut::new();
    at_limit.extend_from_slice(&[0, 1, 0, 0, 7]);
    assert!(codec.decode(&mut at_limit).unwrap().is_none());
    let mut unknown_size = BytesMut::new();
    unknown_size.extend_from_slice(&[0xff, 0xff, 0xff, 0xff]);
    assert!(codec.decode(&mut unknown_size).unwrap().is_none());
}

#[test]
fn max_frame_can_be_set() {
    assert_eq!(MAX, 65536);
    assert_eq!(MessageCodec::new().max_frame, 65536);
    let mut small = MessageCodec::with_max_frame(4);
    let mut buffer = BytesMut::new();
    buffer.extend_from_slice(&[0, 0, 0, 5, 4, 0, 0, 0, 9]);
    assert_eq!(small.decode(&mut buffer).unwrap_err(), ProtocolError::FrameTooLarge);
    let mut large = MessageCodec::with_max_frame(1 << 20);
    let payload = vec![3u8; 70000];
    let mut big = BytesMut::new();
    large.encode(ExchangeMsg::new(MsgType::Piece, payload.clone()), &mut big).unwrap();
    let msg = large.decode(&mut big).unwrap().unwrap();
    assert_eq!(msg.payload, payload);
}

#[test]
fn missing_counts_the_bytes_to_read() {
    let codec = MessageCodec::new();
    let bytes = [0, 0, 0, 5, 4, 0, 0, 0, 9];
    let expected = [4, 3, 2, 1, 1, 4, 3, 2, 1, 0];
    for cut in 0..=bytes.len() {
        let mut buffer = BytesMut::new();
        buffer.extend_from_slice(&bytes[..cut]);
        assert_eq!(codec.missing(&buffer), expected[cut]);
    }
    let mut alive = BytesMut::new();
    alive.extend_from_slice(&[0, 0, 0, 0]);
    assert_eq!(codec.missing(&alive), 0);
    let mut too_large = BytesMut::new();
    too_large.extend_from_slice(&[0xff, 0xff, 0xff, 0xff]);
    assert_eq!(codec.missing(&too_large), 1);
    too_large.extend_from_slice(&[7]);
    assert_eq!(codec.missing(&too_large), 0);
}

#[test]
fn codec_for_a_piece() {
    assert_eq!(MessageCodec::for_piece(16384).max_frame, 65536);
    assert_eq!(MessageCodec::for_piece(65527).max_frame, 65536);
    assert_eq!(MessageCodec::for_piece(65528).max_frame, 65537);
    assert_eq!(MessageCodec::for_piece(1 << 20).max_frame, (1 << 20) + 9);
}
