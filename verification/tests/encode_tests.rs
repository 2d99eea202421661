//! Writing RESP values as bytes, and reading them back.

use bytes::Bytes;
use redis_lite::protocol::{RespValue, encode, parse_value};

#[test]
fn encode_simple_string() {
    let val = RespValue::SimpleString("OK".to_string());
    assert_eq!(Bytes::from(encode(&val)), Bytes::from("+OK\r\n"));
}

#[test]
fn encode_error() {
    let val = RespValue::Error("ERR something".to_string());
    assert_eq!(Bytes::from(encode(&val)), Bytes::from("-ERR something\r\n"));
}

#[test]
fn encode_integer() {
    let val = RespValue::Integer(42);
    assert_eq!(Bytes::from(encode(&val)), Bytes::from(":42\r\n"));
}

#[test]
fn encode_negative_integer() {
    let val = RespValue::Integer(-1);
    assert_eq!(Bytes::from(encode(&val)), Bytes::from(":-1\r\n"));
}

#[test]
fn encode_bulk_string() {
    let val = RespValue::BulkString(Some(Bytes::from("foo").to_vec()));
    assert_eq!(Bytes::from(encode(&val)), Bytes::from("$3\r\nfoo\r\n"));
}

#[test]
fn encode_null_bulk_string() {
    let val = RespValue::BulkString(None);
    assert_eq!(Bytes::from(encode(&val)), Bytes::from("$-1\r\n"));
}

#[test]
fn encode_empty_bulk_string() {
    let val = RespValue::BulkString(Some(Bytes::from("").to_vec()));
    assert_eq!(Bytes::from(encode(&val)), Bytes::from("$0\r\n\r\n"));
}

#[test]
fn encode_array() {
    let val = RespValue::Array(vec![
        RespValue::BulkString(Some(Bytes::from("SET").to_vec())),
        RespValue::BulkString(Some(Bytes::from("foo").to_vec())),
        RespValue::BulkString(Some(Bytes::from("bar").to_vec())),
    ]);
    let expected = "*3\r\n$3\r\nSET\r\n$3\r\nfoo\r\n$3\r\nbar\r\n";
    assert_eq!(Bytes::from(encode(&val)), Bytes::from(expected));
}

#[test]
fn encode_empty_array() {
    let val = RespValue::Array(vec![]);
    assert_eq!(Bytes::from(encode(&val)), Bytes::from("*0\r\n"));
}

#[test]
fn round_trip_simple_string() {
    let value = RespValue::SimpleString("hello".to_string());
    let encoded = encode(&value);
    let mut pos = 0;
    let decoded = parse_value(&encoded, &mut pos).unwrap();
    assert_eq!(value, decoded);
}

#[test]
fn round_trip_bulk_string() {
    let value = RespValue::BulkString(Some(Bytes::from("hello world").to_vec()));
    let encoded = encode(&value);
    let mut pos = 0;
    let decoded = parse_value(&encoded, &mut pos).unwrap();
    assert_eq!(value, decoded);
}

#[test]
fn round_trip_array() {
    let value = RespValue::Array(vec![
        RespValue::Integer(1),
        RespValue::SimpleString("OK".to_string()),
        RespValue::BulkString(Some(Bytes::from("data").to_vec())),
    ]);
    let encoded = encode(&value);
    let mut pos = 0;
    let decoded = parse_value(&encoded, &mut pos).unwrap();
    assert_eq!(value, decoded);
}
