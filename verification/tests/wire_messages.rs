use bittorrent::torrent::error::ProtocolError;
use bittorrent::torrent::exchange::{BlockReqPayload, BlockRespPayload, ExchangeMsg, MsgType};
use bittorrent::torrent::wire::{u16_from_be, u32_from_be, u32_to_be};

#[test]
fn u32_in_network_byte_order() {
    assert_eq!(u32_to_be(0), [0, 0, 0, 0]);
    assert_eq!(u32_to_be(1), [0, 0, 0, 1]);
    assert_eq!(u32_to_be(0x0102_0304), [1, 2, 3, 4]);
    assert_eq!(u32_to_be(16384), [0, 0, 0x40, 0]);
    assert_eq!(u32_to_be(u32::MAX), [255, 255, 255, 255]);
    assert_eq!(u32_from_be(&[1, 2, 3, 4]), 0x0102_0304);
    assert_eq!(u32_from_be(&[255, 255, 255, 255]), u32::MAX);
}

#[test]
fn u32_conversion_agrees_with_std() {
    let samples = [0u32, 1, 255, 256, 65535, 65536, 0x00ff_ff00, 0x8000_0000, 0xdead_beef];
    for x in samples {
        assert_eq!(u32_to_be(x), x.to_be_bytes());
        assert_eq!(u32_from_be(&x.to_be_bytes()), x);
    }
}

#[test]
fn u16_in_network_byte_order() {
    assert_eq!(u16_from_be(0x1a, 0xe1), 6881);
    assert_eq!(u16_from_be(0, 0), 0);
    assert_eq!(u16_from_be(255, 255), 65535);
}

#[test]
fn message_ids_are_zero_to_eight() {
    let kinds = [
        MsgType::Choke,
        MsgType::Unchoke,
        MsgType::Interested,
        MsgType::NotInterested,
        MsgType::Have,
        MsgType::BitField,
        MsgType::Request,
        MsgType::Piece,
        MsgType::Cancel,
    ];
    for (id, kind) in kinds.iter().enumerate() {
        assert_eq!(kind.to_u8(), id as u8);
        assert_eq!(MsgType::try_from(id as u8), Ok(*kind));
    }
}

#[test]
fn unknown_message_id_is_refused() {
    assert_eq!(MsgType::try_from(9), Err(ProtocolError::UnknownMessageType));
    assert_eq!(MsgType::try_from(255), Err(ProtocolError::UnknownMessageType));
}

#[test]
fn new_message_has_the_wire_length() {
    let msg = ExchangeMsg::new(MsgType::Have, vec![0, 0, 0, 7]);
    assert_eq!(msg.len_prefix, 5);
    assert_eq!(msg.message_id, Some(MsgType::Have));
    assert_eq!(msg.payload, vec![0, 0, 0, 7]);
    let empty = ExchangeMsg::new(MsgType::Interested, Vec::new());
    assert_eq!(empty.len_prefix, 1);
    let alive = ExchangeMsg::keep_alive();
    assert_eq!(alive.len_prefix, 0);
    assert_eq!(alive.message_id, None);
    assert!(alive.payload.is_empty());
}

#[test]
fn block_request_payload_layout() {
    let mut request = BlockReqPayload::new(3, 16384, 1000);
    assert_eq!(request.index, [0, 0, 0, 3]);
    assert_eq!(request.begin, [0, 0, 0x40, 0]);
    assert_eq!(request.length, [0, 0, 0x03, 0xe8]);
    assert_eq!(request.as_bytes_mut(), vec![0, 0, 0, 3, 0, 0, 0x40, 0, 0, 0, 0x03, 0xe8]);
    assert_eq!(request.index(), 3);
    assert_eq!(request.begin(), 16384);
    assert_eq!(request.length(), 1000);
}

#[test]
fn block_request_payload_from_bytes() {
    let bytes = [0, 0, 0, 3, 0, 0, 0x40, 0, 0, 0, 0x03, 0xe8];
    let request = BlockReqPayload::from_bytes(&bytes).unwrap();
    assert_eq!(request.index(), 3);
    assert_eq!(request.begin(), 16384);
    assert_eq!(request.length(), 1000);
    assert!(BlockReqPayload::from_bytes(&bytes[..11]).is_none());
    assert!(BlockReqPayload::from_bytes(&[0; 13]).is_none());
}

#[test]
fn block_reply_payload_parts() {
    let bytes = [0, 0, 0, 2, 0, 0, 0x80, 0, 10, 20, 30];
    let reply = BlockRespPayload::from_bytes(&bytes).unwrap();
    assert_eq!(reply.index(), 2);
    assert_eq!(reply.begin(), 32768);
    assert_eq!(reply.block(), &[10, 20, 30]);
}

#[test]
fn block_reply_payload_needs_eight_bytes() {
    assert!(BlockRespPayload::from_bytes(&[0; 7]).is_none());
    let bare = [0, 0, 0, 1, 0, 0, 0, 0];
    let reply = BlockRespPayload::from_bytes(&bare).unwrap();
    assert_eq!(reply.index(), 1);
    assert_eq!(reply.begin(), 0);
    assert!(reply.block().is_empty());
}
