use bittorrent::bencode::decode::{decode, decode_all, decode_with, split_once};
use bittorrent::bencode::encode::{encode, is_well_formed};
use bittorrent::bencode::grammar::BencodeError;
use bittorrent::bencode::value::{dict_insert, Bencode};

fn bytes(s: &str) -> Vec<u8> {
    s.as_bytes().to_vec()
}

fn as_bytes(v: &Bencode) -> &[u8] {
    match v {
        Bencode::Byte(b) => b,
        other => panic!("not a byte string: {:?}", other),
    }
}

fn as_int(v: &Bencode) -> i64 {
    match v {
        Bencode::Integer(i) => *i,
        other => panic!("not an integer: {:?}", other),
    }
}

#[test]
fn decode_scalar_string() {
    let (value, rest) = decode(b"5:hello").unwrap();
    assert_eq!(as_bytes(&value), b"hello");
    assert!(rest.is_empty());
}

#[test]
fn decode_string_leaves_the_rest() {
    let (value, rest) = decode(b"4:spamXYZ").unwrap();
    assert_eq!(as_bytes(&value), b"spam");
    assert_eq!(rest, b"XYZ");
}

#[test]
fn decode_empty_string() {
    let (value, rest) = decode(b"0:").unwrap();
    assert_eq!(as_bytes(&value), b"");
    assert!(rest.is_empty());
}

#[test]
fn decode_integer() {
    let (value, rest) = decode(b"i-42e").unwrap();
    assert_eq!(as_int(&value), -42);
    assert!(rest.is_empty());
    let (value, _) = decode(b"i52e").unwrap();
    assert_eq!(as_int(&value), 52);
    let (value, _) = decode(b"i0e").unwrap();
    assert_eq!(as_int(&value), 0);
}

#[test]
fn decode_integer_rejects_minus_zero() {
    assert_eq!(decode(b"i-0e").unwrap_err(), BencodeError::BadInteger);
}

#[test]
fn decode_integer_rejects_leading_zero() {
    assert_eq!(decode(b"i03e").unwrap_err(), BencodeError::BadInteger);
    assert_eq!(decode(b"i00e").unwrap_err(), BencodeError::BadInteger);
    assert_eq!(decode(b"i01e").unwrap_err(), BencodeError::BadInteger);
}

#[test]
fn decode_integer_rejects_what_is_no_number() {
    assert_eq!(decode(b"ie").unwrap_err(), BencodeError::BadInteger);
    assert_eq!(decode(b"i-e").unwrap_err(), BencodeError::BadInteger);
    assert_eq!(decode(b"i1x2e").unwrap_err(), BencodeError::BadInteger);
    assert_eq!(decode(b"i+5e").unwrap_err(), BencodeError::BadInteger);
}

#[test]
fn decode_integer_limits() {
    let (value, _) = decode(b"i9223372036854775807e").unwrap();
    assert_eq!(as_int(&value), i64::MAX);
    let (value, _) = decode(b"i-9223372036854775808e").unwrap();
    assert_eq!(as_int(&value), i64::MIN);
    assert_eq!(decode(b"i9223372036854775808e").unwrap_err(), BencodeError::BadInteger);
    assert_eq!(decode(b"i-9223372036854775809e").unwrap_err(), BencodeError::BadInteger);
    assert_eq!(
        decode(b"i99999999999999999999999999e").unwrap_err(),
        BencodeError::BadInteger
    );
}

#[test]
fn decode_list_and_dict() {
    let (value, rest) = decode(b"l5:helloi52ee").unwrap();
    assert!(rest.is_empty());
    match &value {
        Bencode::List(items) => {
            assert_eq!(items.len(), 2);
            assert_eq!(as_bytes(&items[0]), b"hello");
            assert_eq!(as_int(&items[1]), 52);
        }
        other => panic!("not a list: {:?}", other),
    }
    let (value, rest) = decode(b"d3:cow3:moo4:spam4:eggse").unwrap();
    assert!(rest.is_empty());
    match &value {
        Bencode::Dict(entries) => {
            assert_eq!(entries.len(), 2);
            assert_eq!(entries[0].0, b"cow");
            assert_eq!(as_bytes(&entries[0].1), b"moo");
            assert_eq!(entries[1].0, b"spam");
            assert_eq!(as_bytes(&entries[1].1), b"eggs");
        }
        other => panic!("not a dictionary: {:?}", other),
    }
}

#[test]
fn decode_errors_by_kind() {
    assert_eq!(decode(b"").unwrap_err(), BencodeError::UnexpectedEof);
    assert_eq!(decode(b"5:hel").unwrap_err(), BencodeError::UnexpectedEof);
    assert_eq!(decode(b"5").unwrap_err(), BencodeError::UnexpectedEof);
    assert_eq!(decode(b"i12").unwrap_err(), BencodeError::UnexpectedEof);
    assert_eq!(decode(b"l5:hello").unwrap_err(), BencodeError::UnexpectedEof);
    assert_eq!(decode(b"d3:cow").unwrap_err(), BencodeError::UnexpectedEof);
    assert_eq!(decode(b"x").unwrap_err(), BencodeError::BadPrefix);
    assert_eq!(decode(b"e").unwrap_err(), BencodeError::BadPrefix);
    assert_eq!(decode(b"di1e3:mooe").unwrap_err(), BencodeError::BadPrefix);
    assert_eq!(decode(b"5x:hello").unwrap_err(), BencodeError::BadLength);
    assert_eq!(
        decode(b"99999999999999999999999999:x").unwrap_err(),
        BencodeError::UnexpectedEof
    );
}

#[test]
fn decode_all_rejects_trailing_data() {
    assert_eq!(decode_all(b"i1ei2e", false).unwrap_err(), BencodeError::TrailingData);
    assert_eq!(as_int(&decode_all(b"i1e", false).unwrap()), 1);
}

#[test]
fn lenient_mode_sorts_keys_and_keeps_the_later_of_two() {
    let (value, _) = decode(b"d4:spam4:eggs3:cow3:mooe").unwrap();
    assert_eq!(encode(&value), b"d3:cow3:moo4:spam4:eggse");
    let (value, _) = decode(b"d1:ai1e1:ai2ee").unwrap();
    assert_eq!(encode(&value), b"d1:ai2ee");
}

#[test]
fn strict_mode_rejects_what_is_not_canonical() {
    assert_eq!(
        decode_with(b"d4:spam4:eggs3:cow3:mooe", true).unwrap_err(),
        BencodeError::NonLexicographicKeys
    );
    assert_eq!(
        decode_with(b"d1:ai1e1:ai2ee", true).unwrap_err(),
        BencodeError::NonLexicographicKeys
    );
    assert_eq!(decode_with(b"05:hello", true).unwrap_err(), BencodeError::BadLength);
    let (value, _) = decode_with(b"05:hello", false).unwrap();
    assert_eq!(as_bytes(&value), b"hello");
    assert!(decode_with(b"d3:cow3:moo4:spam4:eggse", true).is_ok());
}

#[test]
fn encode_round_trip_of_canonical_input() {
    let inputs: Vec<&[u8]> = vec![
        b"5:hello",
        b"0:",
        b"i0e",
        b"i-42e",
        b"le",
        b"de",
        b"l5:helloi52ee",
        b"d3:cow3:moo4:spam4:eggse",
        b"d1:ad1:bl1:ci-7eee1:d0:e",
        b"i-9223372036854775808e",
    ];
    for input in inputs {
        let value = decode_all(input, true).unwrap();
        assert_eq!(encode(&value), input);
    }
}

#[test]
fn decode_encode_decode_is_stable() {
    let input = b"d1:zi1e1:al1:b01:ce1:zi2ee";
    let first = decode_all(input, false).unwrap();
    let bytes = encode(&first);
    assert_eq!(bytes, b"d1:al1:b1:ce1:zi2ee");
    let second = decode_all(&bytes, true).unwrap();
    assert_eq!(encode(&second), bytes);
}

#[test]
fn encode_writes_values_by_hand() {
    let mut entries = Vec::new();
    dict_insert(&mut entries, bytes("spam"), Bencode::Byte(bytes("eggs")));
    dict_insert(&mut entries, bytes("cow"), Bencode::Integer(-3));
    dict_insert(&mut entries, bytes("cow"), Bencode::List(vec![Bencode::Integer(10)]));
    let value = Bencode::Dict(entries);
    assert!(is_well_formed(&value));
    assert_eq!(encode(&value), b"d3:cowli10ee4:spam4:eggse");
}

#[test]
fn is_well_formed_tells_unsorted_keys() {
    let unsorted = Bencode::Dict(vec![
        (bytes("b"), Bencode::Integer(1)),
        (bytes("a"), Bencode::Integer(2)),
    ]);
    assert!(!is_well_formed(&unsorted));
    let twice = Bencode::Dict(vec![
        (bytes("a"), Bencode::Integer(1)),
        (bytes("a"), Bencode::Integer(2)),
    ]);
    assert!(!is_well_formed(&twice));
    let nested = Bencode::List(vec![unsorted]);
    assert!(!is_well_formed(&nested));
    let prefix = Bencode::Dict(vec![
        (bytes("a"), Bencode::Integer(1)),
        (bytes("ab"), Bencode::Integer(2)),
        (vec![0x61, 0xff], Bencode::Integer(3)),
    ]);
    assert!(is_well_formed(&prefix));
}

#[test]
fn split_once_at_the_first_match() {
    let (head, tail) = split_once(b"12:ab:cd", b':').unwrap();
    assert_eq!(head, b"12");
    assert_eq!(tail, b"ab:cd");
    assert!(split_once(b"abc", b':').is_none());
    let (head, tail) = split_once(b":", b':').unwrap();
    assert!(head.is_empty() && tail.is_empty());
}

#[test]
fn bytes_behind_a_value_change_nothing() {
    let inputs: Vec<&[u8]> = vec![
        b"5:hello",
        b"05:hello",
        b"i-42e",
        b"l5:helloi52ee",
        b"d4:spam4:eggs3:cow3:mooe",
        b"d1:ad1:bl1:ci-7eee1:d0:e",
    ];
    let tails: Vec<&[u8]> = vec![b"", b"e", b"i1e", b"5:hello", b"\x00\xff"];
    for input in &inputs {
        let alone = encode(&decode_all(input, false).unwrap());
        for tail in &tails {
            let mut longer = input.to_vec();
            longer.extend_from_slice(tail);
            let (value, rest) = decode(&longer).unwrap();
            assert_eq!(encode(&value), alone);
            assert_eq!(rest, *tail);
        }
    }
}
