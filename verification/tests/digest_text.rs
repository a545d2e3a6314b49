use bittorrent::bencode::decode::decode_all;
use bittorrent::bencode::json::to_json;
use bittorrent::digest::digest_eq;
use bittorrent::text::{ascii_string, decimal_string};

#[test]
fn digests_are_compared_byte_by_byte() {
    let a = [7u8; 20];
    let mut b = a;
    assert!(digest_eq(&a, &b));
    b[19] = 8;
    assert!(!digest_eq(&a, &b));
    b[19] = 7;
    b[0] = 0;
    assert!(!digest_eq(&a, &b));
}

#[test]
fn text_of_ascii_bytes_and_numbers() {
    assert_eq!(ascii_string(b"x=1"), "x=1");
    assert_eq!(decimal_string(0), "0");
    assert_eq!(decimal_string(6881), "6881");
    assert_eq!(decimal_string(u64::MAX), "18446744073709551615");
}

#[test]
fn json_of_scalars() {
    let text = to_json(&decode_all(b"5:hello", false).unwrap());
    assert_eq!(text, serde_json::Value::from("hello"));
    assert_eq!(text.to_string(), "\"hello\"");
    let number = to_json(&decode_all(b"i-42e", false).unwrap());
    assert_eq!(number, serde_json::Value::from(-42));
    assert_eq!(number.to_string(), "-42");
}

#[test]
fn json_of_list_and_dict() {
    let list = to_json(&decode_all(b"l5:helloi52ee", false).unwrap());
    assert_eq!(list.to_string(), "[\"hello\",52]");
    let dict = to_json(&decode_all(b"d3:cow3:moo4:spam4:eggse", false).unwrap());
    assert_eq!(dict.to_string(), "{\"cow\":\"moo\",\"spam\":\"eggs\"}");
    let nested = to_json(&decode_all(b"d1:al1:bd1:ci1eeee", false).unwrap());
    assert_eq!(nested.to_string(), "{\"a\":[\"b\",{\"c\":1}]}");
    let empty = to_json(&decode_all(b"lledee", false).unwrap());
    assert_eq!(empty.to_string(), "[[],{}]");
}

#[test]
fn json_of_bytes_that_are_no_utf8() {
    let mut bytes = b"2:".to_vec();
    bytes.extend_from_slice(&[0xff, b'a']);
    let value = to_json(&decode_all(&bytes, false).unwrap());
    assert_eq!(value, serde_json::Value::from("\u{fffd}a"));
}
