use bittorrent::bencode::decode::decode_all;
use bittorrent::bencode::encode::{encode, is_well_formed};
use bittorrent::bencode::grammar::BencodeError;
use bittorrent::torrent::fields::{bytes_of, count_of, deserialize, dict_get, FieldError};
use bittorrent::torrent::hashes::Hashes;
use bittorrent::torrent::metainfo::{
    get_file_length, FileInfo, Info, Keys, MetainfoError, Torrent,
};

fn sha1_digest(data: &[u8]) -> [u8; 20] {
    <sha1::Sha1 as sha1::Digest>::digest(data).into()
}

fn to_hex(data: &[u8]) -> String {
    hex::encode(data)
}

fn sample_info_bytes() -> Vec<u8> {
    let mut bytes = b"d6:lengthi32768e4:name6:sample12:piece lengthi32768e6:pieces20:".to_vec();
    bytes.extend_from_slice(&[0xaa; 20]);
    bytes.push(b'e');
    bytes
}

fn sample_torrent_bytes() -> Vec<u8> {
    let mut bytes = b"d8:announce31:http://tracker.example/announce4:info".to_vec();
    bytes.extend_from_slice(&sample_info_bytes());
    bytes.push(b'e');
    bytes
}

fn sample_torrent() -> Torrent {
    Torrent {
        announce: "http://tracker.example/announce".to_string(),
        created_by: String::new(),
        info: Info {
            name: b"sample".to_vec(),
            piece_length: 32768,
            pieces: Hashes(vec![[0xaa; 20]]),
            keys: Keys::Single { length: 32768 },
        },
    }
}

fn torrent_with(total: u64, piece_length: u64, pieces: usize) -> Torrent {
    Torrent {
        announce: "http://t/a".to_string(),
        created_by: String::new(),
        info: Info {
            name: b"x".to_vec(),
            piece_length,
            pieces: Hashes(vec![[0; 20]; pieces]),
            keys: Keys::Single { length: total },
        },
    }
}

#[test]
fn parse_reads_the_fields_by_name() {
    let torrent = Torrent::parse(&sample_torrent_bytes()).unwrap();
    assert_eq!(torrent.announce, "http://tracker.example/announce");
    assert_eq!(torrent.created_by, "");
    assert_eq!(torrent.info.name, b"sample");
    assert_eq!(torrent.info.piece_length, 32768);
    assert_eq!(torrent.info.pieces.0, vec![[0xaa; 20]]);
    match torrent.info.keys {
        Keys::Single { length } => assert_eq!(length, 32768),
        Keys::Multiple { .. } => panic!("a single-file torrent"),
    }
    assert!(torrent.info.is_valid());
}

#[test]
fn info_hash_of_the_sample_torrent() {
    let expected = "160a3ca8897b18eab1e4cc08a43daac3e9371325";
    assert_eq!(to_hex(&sample_torrent().info_hash()), expected);
    assert_eq!(to_hex(&Torrent::parse(&sample_torrent_bytes()).unwrap().info_hash()), expected);
    assert_eq!(sample_torrent().info_hash(), sha1_digest(&sample_info_bytes()));
    assert_eq!(sample_torrent().info.hash(), sample_torrent().info_hash());
}

#[test]
fn info_is_written_in_canonical_form() {
    let value = sample_torrent().info.to_bencode();
    assert!(is_well_formed(&value));
    assert_eq!(encode(&value), sample_info_bytes());
}

#[test]
fn info_hash_does_not_depend_on_key_order_of_the_file() {
    let mut shuffled = b"d4:infod6:pieces20:".to_vec();
    shuffled.extend_from_slice(&[0xaa; 20]);
    shuffled.extend_from_slice(
        b"12:piece lengthi32768e4:name6:sample6:lengthi32768ee8:announce31:http://tracker.example/announcee",
    );
    let torrent = Torrent::parse(&shuffled).unwrap();
    assert_eq!(torrent.info_hash(), sample_torrent().info_hash());
}

#[test]
fn info_hash_survives_a_round_trip() {
    let first = sample_torrent().info;
    let bytes = encode(&first.to_bencode());
    let second = Info::from_bencode(&decode_all(&bytes, true).unwrap()).unwrap();
    assert_eq!(second.name, first.name);
    assert_eq!(second.piece_length, first.piece_length);
    assert_eq!(second.pieces.0, first.pieces.0);
    assert_eq!(encode(&second.to_bencode()), bytes);
    assert_eq!(second.hash(), first.hash());
}

#[test]
fn name_keeps_its_raw_bytes() {
    let mut bytes = b"d8:announce3:a/b4:infod6:lengthi1e4:name3:".to_vec();
    bytes.extend_from_slice(&[0xff, 0xfe, b'x']);
    bytes.extend_from_slice(b"12:piece lengthi1e6:pieces0:ee");
    let torrent = Torrent::parse(&bytes).unwrap();
    assert_eq!(torrent.info.name, vec![0xff, 0xfe, b'x']);
    let mut info = b"d6:lengthi1e4:name3:".to_vec();
    info.extend_from_slice(&[0xff, 0xfe, b'x']);
    info.extend_from_slice(b"12:piece lengthi1e6:pieces0:e");
    assert_eq!(torrent.info_hash(), sha1_digest(&info));
}

#[test]
fn multi_file_torrent() {
    let bytes = b"d8:announce3:a/b10:created by4:test4:infod5:filesld6:lengthi10e4:pathl1:a1:beed6:lengthi5e4:pathl1:ceee4:name3:dir12:piece lengthi8e6:pieces0:ee";
    let torrent = Torrent::parse(bytes).unwrap();
    assert_eq!(torrent.created_by, "test");
    match &torrent.info.keys {
        Keys::Multiple { files } => {
            assert_eq!(files.len(), 2);
            assert_eq!(files[0].length, 10);
            assert_eq!(files[0].path, vec![b"a".to_vec(), b"b".to_vec()]);
            assert_eq!(files[1].length, 5);
            assert_eq!(files[1].path, vec![b"c".to_vec()]);
        }
        Keys::Single { .. } => panic!("a multi-file torrent"),
    }
    assert_eq!(torrent.total_length(), 15);
    assert_eq!(torrent.get_file_length(), 15);
    assert_eq!(get_file_length(&torrent), 15);
    let info = b"d5:filesld6:lengthi10e4:pathl1:a1:beed6:lengthi5e4:pathl1:ceee4:name3:dir12:piece lengthi8e6:pieces0:e";
    assert_eq!(encode(&torrent.info.to_bencode()), info);
    assert_eq!(torrent.info_hash(), sha1_digest(info));
}

#[test]
fn file_entry_as_bencode() {
    let file = FileInfo { length: 7, path: vec![b"dir".to_vec(), b"f.txt".to_vec()] };
    let value = file.to_bencode();
    assert_eq!(encode(&value), b"d6:lengthi7e4:pathl3:dir5:f.txtee");
    let back = FileInfo::from_bencode(&value).unwrap();
    assert_eq!(back.length, 7);
    assert_eq!(back.path, file.path);
}

#[test]
fn string_fields_may_be_lists_of_byte_integers() {
    let bytes = b"d8:announceli97ei47ei98ee4:infod6:lengthi1e4:nameli110ee12:piece lengthi1e6:pieces0:ee";
    let torrent = Torrent::parse(bytes).unwrap();
    assert_eq!(torrent.announce, "a/b");
    assert_eq!(torrent.info.name, b"n");
    let value = decode_all(b"li104ei105ee", false).unwrap();
    assert_eq!(deserialize(&value).unwrap(), "hi");
    assert_eq!(bytes_of(&value).unwrap(), b"hi");
    let too_big = decode_all(b"li256ee", false).unwrap();
    assert_eq!(deserialize(&too_big).unwrap_err(), FieldError::InvalidField);
    let negative = decode_all(b"li-1ee", false).unwrap();
    assert_eq!(bytes_of(&negative).unwrap_err(), FieldError::InvalidField);
    let nested = decode_all(b"ll1:aee", false).unwrap();
    assert_eq!(bytes_of(&nested).unwrap_err(), FieldError::InvalidField);
}

#[test]
fn text_that_is_no_utf8_is_replaced() {
    let mut bytes = b"3:".to_vec();
    bytes.extend_from_slice(&[b'a', 0xff, b'b']);
    let value = decode_all(&bytes, false).unwrap();
    assert_eq!(deserialize(&value).unwrap(), "a\u{fffd}b");
    let integer = decode_all(b"i1e", false).unwrap();
    assert_eq!(deserialize(&integer).unwrap_err(), FieldError::InvalidField);
}

#[test]
fn counts_are_not_negative() {
    assert_eq!(count_of(&decode_all(b"i0e", false).unwrap()), Ok(0));
    assert_eq!(count_of(&decode_all(b"i9223372036854775807e", false).unwrap()), Ok(i64::MAX as u64));
    assert_eq!(count_of(&decode_all(b"i-1e", false).unwrap()), Err(FieldError::InvalidField));
    assert_eq!(count_of(&decode_all(b"1:1", false).unwrap()), Err(FieldError::InvalidField));
}

#[test]
fn dict_get_finds_fields() {
    let value = decode_all(b"d1:ai1e2:abi2ee", false).unwrap();
    assert!(dict_get(&value, b"a").is_some());
    assert!(dict_get(&value, b"ab").is_some());
    assert!(dict_get(&value, b"b").is_none());
    assert!(dict_get(&value, b"").is_none());
    let list = decode_all(b"l1:ae", false).unwrap();
    assert!(dict_get(&list, b"a").is_none());
}

#[test]
fn parse_errors() {
    assert_eq!(
        Torrent::parse(b"d8:announce").unwrap_err(),
        MetainfoError::Bencode(BencodeError::UnexpectedEof)
    );
    assert_eq!(
        Torrent::parse(b"i1ex").unwrap_err(),
        MetainfoError::Bencode(BencodeError::TrailingData)
    );
    assert_eq!(
        Torrent::parse(b"i1e").unwrap_err(),
        MetainfoError::Field(FieldError::InvalidField)
    );
    assert_eq!(
        Torrent::parse(b"d4:infodee").unwrap_err(),
        MetainfoError::Field(FieldError::MissingField)
    );
    assert_eq!(
        Torrent::parse(b"d8:announce1:ae").unwrap_err(),
        MetainfoError::Field(FieldError::MissingField)
    );
    assert_eq!(
        Torrent::parse(b"d8:announcei1e4:infodee").unwrap_err(),
        MetainfoError::Field(FieldError::InvalidField)
    );
    assert_eq!(
        Torrent::parse(b"d8:announce1:a4:infod4:name1:nee").unwrap_err(),
        MetainfoError::Field(FieldError::MissingField)
    );
    assert_eq!(
        Torrent::parse(b"d8:announce1:a4:infod4:name1:n12:piece lengthi0e6:pieces0:6:lengthi1eee")
            .unwrap_err(),
        MetainfoError::Field(FieldError::InvalidField)
    );
    assert_eq!(
        Torrent::parse(b"d8:announce1:a4:infod4:name1:n12:piece lengthi4e6:pieces3:abc6:lengthi1eee")
            .unwrap_err(),
        MetainfoError::Field(FieldError::MalformedHashes)
    );
    assert_eq!(
        Torrent::parse(b"d8:announce1:a4:infod4:name1:n12:piece lengthi4e6:pieces0:ee").unwrap_err(),
        MetainfoError::Field(FieldError::MissingField)
    );
    assert_eq!(
        Torrent::parse(b"d8:announce1:a4:infod4:name1:n12:piece lengthi4e6:pieces0:6:lengthi-1eee")
            .unwrap_err(),
        MetainfoError::Field(FieldError::InvalidField)
    );
    assert_eq!(
        Torrent::parse(b"d8:announce1:a4:infod4:name1:n12:piece lengthi4e6:pieces0:5:filesi1eee")
            .unwrap_err(),
        MetainfoError::Field(FieldError::InvalidField)
    );
}

#[test]
fn hashes_from_bytes() {
    let mut bytes = vec![1u8; 20];
    bytes.extend_from_slice(&[2u8; 20]);
    let hashes = Hashes::from_bytes(&bytes).unwrap();
    assert_eq!(hashes.0, vec![[1u8; 20], [2u8; 20]]);
    assert_eq!(hashes.len(), 2);
    assert_eq!(hashes.serialize(), bytes);
    assert_eq!(Hashes::from_bytes(&bytes[..39]).unwrap_err(), FieldError::MalformedHashes);
    assert_eq!(Hashes::from_bytes(&[]).unwrap().0.len(), 0);
    let mixed: Vec<u8> = (0..40).collect();
    let cut = Hashes::from_bytes(&mixed).unwrap();
    assert_eq!(cut.0[1][0], 20);
    assert_eq!(cut.0[1][19], 39);
    assert_eq!(cut.serialize(), mixed);
}

#[test]
fn hashes_from_a_field() {
    let mut bytes = b"20:".to_vec();
    bytes.extend_from_slice(&[7u8; 20]);
    let hashes = Hashes::deserialize(&decode_all(&bytes, false).unwrap()).unwrap();
    assert_eq!(hashes.0, vec![[7u8; 20]]);
    assert_eq!(
        Hashes::deserialize(&decode_all(b"3:abc", false).unwrap()).unwrap_err(),
        FieldError::MalformedHashes
    );
    assert_eq!(
        Hashes::deserialize(&decode_all(b"i3e", false).unwrap()).unwrap_err(),
        FieldError::InvalidField
    );
}

#[test]
fn piece_lengths_add_up_to_the_total() {
    let torrent = torrent_with(100_000, 32768, 4);
    assert_eq!(torrent.piece_count(), 4);
    let lengths: Vec<u32> = (0..4).map(|i| torrent.piece_length(i).unwrap()).collect();
    assert_eq!(lengths, vec![32768, 32768, 32768, 1696]);
    assert_eq!(lengths.iter().map(|n| *n as u64).sum::<u64>(), torrent.total_length());
    assert_eq!(torrent.piece_length(4), None);
}

#[test]
fn last_piece_is_full_where_the_total_is_a_multiple() {
    let torrent = torrent_with(65536, 32768, 2);
    assert_eq!(torrent.piece_length(0), Some(32768));
    assert_eq!(torrent.piece_length(1), Some(32768));
    let single = sample_torrent();
    assert_eq!(single.piece_length(0), Some(32768));
    assert_eq!(single.total_length(), 32768);
    assert_eq!(single.get_file_length(), 32768);
}

#[test]
fn last_piece_where_nothing_is_left_for_it() {
    let torrent = torrent_with(10, 8, 3);
    assert_eq!(torrent.piece_length(0), Some(8));
    assert_eq!(torrent.piece_length(1), Some(8));
    assert_eq!(torrent.piece_length(2), Some(8));
}

#[test]
fn piece_length_that_does_not_fit() {
    let torrent = torrent_with(1 << 40, 1 << 33, 2);
    assert_eq!(torrent.piece_length(0), None);
    let long_tail = torrent_with(1 << 40, 16, 2);
    assert_eq!(long_tail.piece_length(0), Some(16));
    assert_eq!(long_tail.piece_length(1), None);
}

#[test]
fn validity_of_hand_made_info() {
    assert!(sample_torrent().info.is_valid());
    assert!(!torrent_with(1, 0, 1).info.is_valid());
    assert!(!torrent_with(u64::MAX, 1, 1).info.is_valid());
    let files = vec![
        FileInfo { length: i64::MAX as u64, path: vec![] },
        FileInfo { length: i64::MAX as u64, path: vec![] },
        FileInfo { length: 2, path: vec![] },
    ];
    let keys = Keys::Multiple { files };
    assert!(keys.lengths_fit());
    assert_eq!(keys.total(), None);
    assert_eq!(Keys::Single { length: 5 }.total(), Some(5));
}

#[test]
fn format_info_of_the_sample_torrent() {
    let mut torrent = sample_torrent();
    torrent.info.pieces = Hashes(vec![[0xaa; 20], [0x01; 20]]);
    let hash = to_hex(&torrent.info_hash());
    let expected = format!(
        "Tracker URL: http://tracker.example/announce\nLength: 32768\nInfo Hash: {}\nPiece Length: 32768\nPiece Hashes:\n{}\n{}",
        hash,
        "aa".repeat(20),
        "01".repeat(20)
    );
    assert_eq!(torrent.format_info(), expected);
}

#[test]
fn format_info_without_pieces() {
    let mut torrent = sample_torrent();
    torrent.info.pieces = Hashes(vec![]);
    assert!(torrent.format_info().ends_with("Piece Length: 32768\nPiece Hashes:\n"));
}

#[test]
fn format_info_of_a_multi_file_torrent() {
    let torrent = Torrent {
        announce: "http://t/a".to_string(),
        created_by: String::new(),
        info: Info {
            name: b"dir".to_vec(),
            piece_length: 8,
            pieces: Hashes(vec![[0x0f; 20], [0xf0; 20]]),
            keys: Keys::Multiple {
                files: vec![
                    FileInfo { length: 10, path: vec![b"a".to_vec()] },
                    FileInfo { length: 5, path: vec![b"b".to_vec()] },
                ],
            },
        },
    };
    assert_eq!(torrent.get_file_length(), 15);
    let expected = format!(
        "Tracker URL: http://t/a\nLength: 15\nInfo Hash: {}\nPiece Length: 8\nPiece Hashes:\n{}\n{}",
        to_hex(&torrent.info_hash()),
        "0f".repeat(20),
        "f0".repeat(20)
    );
    assert_eq!(torrent.format_info(), expected);
}

#[test]
fn file_length_is_the_total_length() {
    let single = sample_torrent();
    assert_eq!(single.get_file_length(), 32768);
    assert_eq!(get_file_length(&single), single.total_length());
    let empty = Torrent {
        announce: String::new(),
        created_by: String::new(),
        info: Info {
            name: Vec::new(),
            piece_length: 1,
            pieces: Hashes(vec![]),
            keys: Keys::Multiple { files: vec![] },
        },
    };
    assert_eq!(empty.get_file_length(), 0);
}
