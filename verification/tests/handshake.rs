use bittorrent::torrent::error::ProtocolError;
use bittorrent::torrent::handshake::{protocol, Handshake};

fn sample() -> Handshake {
    Handshake::new([0xab; 20], *b"00112233445566778899")
}

#[test]
fn protocol_name_is_the_canonical_one() {
    assert_eq!(&protocol(), b"BitTorrent protocol");
}

#[test]
fn new_handshake_fields() {
    let h = sample();
    assert_eq!(h.length, 19);
    assert_eq!(&h.protocol, b"BitTorrent protocol");
    assert_eq!(h.zero, [0; 8]);
    assert_eq!(h.info_hash, [0xab; 20]);
    assert_eq!(&h.peer_id, b"00112233445566778899");
}

#[test]
fn handshake_is_68_bytes_in_order() {
    let bytes = sample().to_bytes();
    assert_eq!(bytes.len(), 68);
    assert_eq!(bytes[0], 19);
    assert_eq!(&bytes[1..20], b"BitTorrent protocol");
    assert_eq!(&bytes[20..28], &[0; 8]);
    assert_eq!(&bytes[28..48], &[0xab; 20]);
    assert_eq!(&bytes[48..68], b"00112233445566778899");
}

#[test]
fn from_bytes_undoes_to_bytes() {
    let mut bytes = [0u8; 68];
    for (i, b) in bytes.iter_mut().enumerate() {
        *b = (i * 3 + 1) as u8;
    }
    let h = Handshake::from_bytes(&bytes);
    assert_eq!(h.length, 1);
    assert_eq!(h.protocol[0], 4);
    assert_eq!(h.zero[0], 61);
    assert_eq!(h.info_hash[0], 85);
    assert_eq!(h.peer_id[19], 202);
    assert_eq!(h.to_bytes(), bytes);
}

#[test]
fn reply_for_the_same_torrent_is_accepted() {
    let mut reply = sample().to_bytes();
    reply[48..68].copy_from_slice(b"-PEER-ID-0123456789+");
    reply[25] = 0x10;
    let h = Handshake::parse_reply(&reply, &[0xab; 20]).unwrap();
    assert_eq!(&h.peer_id, b"-PEER-ID-0123456789+");
    assert_eq!(h.zero[5], 0x10);
}

#[test]
fn reply_for_another_torrent_is_a_mismatch() {
    let mut reply = sample().to_bytes();
    reply[47] ^= 1;
    assert_eq!(
        Handshake::parse_reply(&reply, &[0xab; 20]).unwrap_err(),
        ProtocolError::HandshakeMismatch
    );
    assert_eq!(
        Handshake::from_bytes(&reply).check_reply(&[0xab; 20]),
        Err(ProtocolError::HandshakeMismatch)
    );
}

#[test]
fn mismatch_is_reported_whatever_else_is_wrong() {
    let mut reply = sample().to_bytes();
    reply[0] = 20;
    reply[1] = b'b';
    reply[28] = 0;
    assert_eq!(
        Handshake::parse_reply(&reply, &[0xab; 20]).unwrap_err(),
        ProtocolError::HandshakeMismatch
    );
}

#[test]
fn reply_with_another_protocol_is_refused() {
    let mut wrong_length = sample().to_bytes();
    wrong_length[0] = 18;
    assert_eq!(
        Handshake::parse_reply(&wrong_length, &[0xab; 20]).unwrap_err(),
        ProtocolError::UnexpectedProtocol
    );
    let mut wrong_name = sample().to_bytes();
    wrong_name[4] = b't';
    assert_eq!(
        Handshake::parse_reply(&wrong_name, &[0xab; 20]).unwrap_err(),
        ProtocolError::UnexpectedProtocol
    );
    assert!(!Handshake::from_bytes(&wrong_name).has_protocol());
    assert!(sample().has_protocol());
}
