use bittorrent::bencode::decode::decode_all;
use bittorrent::torrent::fields::FieldError;
use bittorrent::torrent::hashes::Hashes;
use bittorrent::torrent::metainfo::{Info, Keys, Torrent};
use bittorrent::torrent::peers::{deserialize_vec, dotted_address, peers_from_bytes, Peer};
use bittorrent::torrent::tracker::{
    announce_url, default_peer_id, tracker_reply, url_encode, PeersResponse, TrackerError,
    DEFAULT_PORT,
};

fn sample_torrent() -> Torrent {
    Torrent {
        announce: "http://tracker.example/announce".to_string(),
        created_by: String::new(),
        info: Info {
            name: b"sample".to_vec(),
            piece_length: 32768,
            pieces: Hashes(vec![[0xaa; 20]]),
            keys: Keys::Single { length: 32768 },
        },
    }
}

#[test]
fn url_encode_keeps_unreserved_bytes() {
    assert_eq!(url_encode(b"AZaz09-._~"), "AZaz09-._~");
    assert_eq!(url_encode(b""), "");
}

#[test]
fn url_encode_escapes_the_rest_in_upper_case() {
    assert_eq!(url_encode(&[0x00, 0x0f, 0x10, 0xab, 0xff]), "%00%0F%10%AB%FF");
    assert_eq!(url_encode(b" /?&=+%"), "%20%2F%3F%26%3D%2B%25");
    assert_eq!(url_encode(&[b'a', 0x7f, b'b', 0x80]), "a%7Fb%80");
    assert_eq!(url_encode(b"@[`{"), "%40%5B%60%7B");
}

#[test]
fn default_identity() {
    assert_eq!(&default_peer_id(), b"00112233445566778899");
    assert_eq!(DEFAULT_PORT, 6881);
}

#[test]
fn announce_url_of_the_sample_torrent() {
    let url = announce_url(&sample_torrent(), &default_peer_id(), DEFAULT_PORT);
    assert_eq!(
        url,
        "http://tracker.example/announce?info_hash=%16%0A%3C%A8%89%7B%18%EA%B1%E4%CC%08%A4%3D%AA%C3%E97%13%25&peer_id=00112233445566778899&port=6881&uploaded=0&downloaded=0&left=32768&compact=1"
    );
}

#[test]
fn announce_url_with_another_identity() {
    let url = announce_url(&sample_torrent(), &[0xff; 20], 1);
    assert!(url.contains(&format!("&peer_id={}&port=1&", "%FF".repeat(20))));
}

#[test]
fn peers_compact_decoding() {
    let peers = peers_from_bytes(&[0xC0, 0xA8, 0x01, 0x02, 0x1A, 0xE1]);
    assert_eq!(peers.len(), 1);
    assert_eq!(peers[0].0, "192.168.1.2");
    assert_eq!(peers[0].1, 6881);
    assert_eq!(peers[0].to_string(), "192.168.1.2:6881");
}

#[test]
fn peers_in_order_and_without_a_broken_tail() {
    let peers = peers_from_bytes(&[0, 0, 0, 0, 0, 0, 255, 255, 255, 255, 255, 255, 10, 0, 0]);
    assert_eq!(peers.len(), 2);
    assert_eq!(peers[0].to_string(), "0.0.0.0:0");
    assert_eq!(peers[1].to_string(), "255.255.255.255:65535");
    assert!(peers_from_bytes(&[1, 2, 3, 4, 5]).is_empty());
    assert!(peers_from_bytes(&[]).is_empty());
}

#[test]
fn dotted_address_has_no_leading_zeros() {
    assert_eq!(dotted_address(10, 0, 100, 9), "10.0.100.9");
    assert_eq!(dotted_address(165, 232, 33, 77), "165.232.33.77");
}

#[test]
fn peer_to_string() {
    assert_eq!(Peer("example.org".to_string(), 80).to_string(), "example.org:80");
}

#[test]
fn peers_field_as_bytes_or_list() {
    let mut compact = b"6:".to_vec();
    compact.extend_from_slice(&[178, 62, 85, 20, 0xc9, 0x21]);
    let from_bytes = deserialize_vec(&decode_all(&compact, false).unwrap()).unwrap();
    assert_eq!(from_bytes[0].to_string(), "178.62.85.20:51489");
    let list = b"li178ei62ei85ei20ei201ei33ee";
    let from_list = deserialize_vec(&decode_all(list, false).unwrap()).unwrap();
    assert_eq!(from_list.len(), 1);
    assert_eq!(from_list[0].0, from_bytes[0].0);
    assert_eq!(from_list[0].1, from_bytes[0].1);
    assert_eq!(
        deserialize_vec(&decode_all(b"i1e", false).unwrap()).unwrap_err(),
        FieldError::InvalidField
    );
}

fn reply_body() -> Vec<u8> {
    let mut body = b"d8:completei3e10:incompletei1e8:intervali60e12:min intervali30e5:peers12:".to_vec();
    body.extend_from_slice(&[165, 232, 33, 77, 0xc9, 0x0b, 178, 62, 82, 89, 0xc8, 0xf8]);
    body.push(b'e');
    body
}

#[test]
fn tracker_reply_with_peers() {
    let reply = tracker_reply(200, &reply_body()).unwrap();
    assert_eq!(reply.complete, 3);
    assert_eq!(reply.incomplete, 1);
    assert_eq!(reply.interval, 60);
    assert_eq!(reply.min_interval, 30);
    let peers: Vec<String> = reply.peers.iter().map(|p| p.to_string()).collect();
    assert_eq!(peers, vec!["165.232.33.77:51467", "178.62.82.89:51448"]);
}

#[test]
fn tracker_reply_without_min_interval() {
    let body = b"d8:completei0e10:incompletei0e8:intervali1800e5:peers0:e";
    let reply = tracker_reply(204, body).unwrap();
    assert_eq!(reply.min_interval, 0);
    assert_eq!(reply.interval, 1800);
    assert!(reply.peers.is_empty());
}

#[test]
fn tracker_reply_of_a_value() {
    let value = decode_all(&reply_body(), false).unwrap();
    let reply = PeersResponse::from_bencode(&value).unwrap();
    assert_eq!(reply.peers.len(), 2);
}

#[test]
fn tracker_http_error() {
    for status in [0u16, 199, 300, 404, 500] {
        match tracker_reply(status, &reply_body()) {
            Err(TrackerError::TrackerHttpError(s)) => assert_eq!(s, status),
            other => panic!("status {}: {:?}", status, other),
        }
    }
    assert!(tracker_reply(299, &reply_body()).is_ok());
}

#[test]
fn tracker_decode_error() {
    let bodies: Vec<&[u8]> = vec![
        b"",
        b"not bencode",
        b"i1e",
        b"de",
        b"d8:completei3e10:incompletei1e5:peers0:e",
        b"d8:completei3e10:incompletei1e8:intervali60ee",
        b"d8:completei-3e10:incompletei1e8:intervali60e5:peers0:e",
        b"d8:completei3e10:incompletei1e8:intervali60e12:min interval1:x5:peers0:e",
        b"d8:completei3e10:incompletei1e8:intervali60e5:peersi1ee",
        b"d14:failure reasoni1ee",
        b"d8:completei3e10:incompletei1e8:intervali60e5:peers0:ex",
    ];
    for body in bodies {
        match tracker_reply(200, body) {
            Err(TrackerError::TrackerDecodeError) => {}
            other => panic!("{:?}: {:?}", body, other),
        }
    }
}

#[test]
fn tracker_failure_reason() {
    let body = b"d14:failure reason17:torrent not known8:intervali60ee";
    match tracker_reply(200, body) {
        Err(TrackerError::TrackerFailureReason(msg)) => assert_eq!(msg, "torrent not known"),
        other => panic!("{:?}", other),
    }
}
