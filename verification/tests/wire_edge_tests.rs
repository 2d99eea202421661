//! Reading RESP values: the errors, where the cursor is left, and the cases
//! at the edges of the format.

use redis_lite::protocol::{ProtocolError, RespValue, encode, parse_value};

fn read(buf: &[u8]) -> (Result<RespValue, ProtocolError>, usize) {
    let mut pos = 0;
    let r = parse_value(buf, &mut pos);
    (r, pos)
}

#[test]
fn simple_string_with_invalid_utf8() {
    let (r, pos) = read(b"+\xff\xfe\r\n");
    assert_eq!(r, Err(ProtocolError::InvalidFormat("invalid utf8".to_string())));
    assert_eq!(pos, 1);
}

#[test]
fn simple_string_with_multibyte_text() {
    let (r, pos) = read("+héllo\r\n".as_bytes());
    assert_eq!(r, Ok(RespValue::SimpleString("héllo".to_string())));
    assert_eq!(pos, 9);
}

#[test]
fn integer_out_of_range() {
    let (r, pos) = read(b":9223372036854775808\r\n");
    assert_eq!(r, Err(ProtocolError::InvalidFormat("invalid integer".to_string())));
    assert_eq!(pos, 1);
}

#[test]
fn integer_extremes_and_signs() {
    assert_eq!(read(b":-9223372036854775808\r\n").0, Ok(RespValue::Integer(i64::MIN)));
    assert_eq!(read(b":9223372036854775807\r\n").0, Ok(RespValue::Integer(i64::MAX)));
    assert_eq!(read(b":+17\r\n").0, Ok(RespValue::Integer(17)));
    assert_eq!(read(b":007\r\n").0, Ok(RespValue::Integer(7)));
    assert!(matches!(read(b":-\r\n").0, Err(ProtocolError::InvalidFormat(_))));
    assert!(matches!(read(b":\r\n").0, Err(ProtocolError::InvalidFormat(_))));
    assert!(matches!(read(b": 1\r\n").0, Err(ProtocolError::InvalidFormat(_))));
}

#[test]
fn integer_incomplete_rolls_back() {
    let (r, pos) = read(b":12\r");
    assert_eq!(r, Err(ProtocolError::Incomplete));
    assert_eq!(pos, 0);
}

#[test]
fn bulk_string_missing_terminator() {
    let (r, pos) = read(b"$3\r\nabcX");
    assert_eq!(r, Err(ProtocolError::InvalidFormat("missing bulk string terminator".to_string())));
    assert_eq!(pos, 0);
    let (r, pos) = read(b"$3\r\nabc\rX");
    assert_eq!(r, Err(ProtocolError::InvalidFormat("missing bulk string terminator".to_string())));
    assert_eq!(pos, 0);
}

#[test]
fn bulk_string_cut_short_is_incomplete() {
    for buf in [&b"$3\r\nab"[..], &b"$3\r\nabc"[..], &b"$3\r\nabc\r"[..], &b"$12\r\nab"[..]] {
        let (r, pos) = read(buf);
        assert_eq!(r, Err(ProtocolError::Incomplete));
        assert_eq!(pos, 0);
    }
}

#[test]
fn bulk_string_negative_length() {
    let (r, pos) = read(b"$-2\r\n");
    assert_eq!(r, Err(ProtocolError::InvalidFormat("Failed conversion".to_string())));
    assert_eq!(pos, 1);
}

#[test]
fn array_negative_length() {
    let (r, pos) = read(b"*-2\r\n");
    assert_eq!(r, Err(ProtocolError::InvalidFormat("negative array length".to_string())));
    assert_eq!(pos, 1);
}

#[test]
fn array_element_error_rolls_back() {
    let (r, pos) = read(b"*2\r\n:1\r\n!x\r\n");
    assert_eq!(r, Err(ProtocolError::InvalidType(b'!')));
    assert_eq!(pos, 0);
    let (r, pos) = read(b"*1\r\n+\xff\r\n");
    assert_eq!(r, Err(ProtocolError::InvalidFormat("invalid utf8".to_string())));
    assert_eq!(pos, 0);
}

#[test]
fn cursor_past_the_end_is_incomplete() {
    let mut pos = 9;
    assert_eq!(parse_value(b"+OK\r\n", &mut pos), Err(ProtocolError::Incomplete));
    assert_eq!(pos, 9);
}

#[test]
fn reads_continue_from_the_cursor() {
    let buf = b"+A\r\n:2\r\n$1\r\nc\r\n";
    let mut pos = 0;
    assert_eq!(parse_value(buf, &mut pos), Ok(RespValue::SimpleString("A".to_string())));
    assert_eq!(parse_value(buf, &mut pos), Ok(RespValue::Integer(2)));
    assert_eq!(parse_value(buf, &mut pos), Ok(RespValue::BulkString(Some(b"c".to_vec()))));
    assert_eq!(pos, buf.len());
    assert_eq!(parse_value(buf, &mut pos), Err(ProtocolError::Incomplete));
}

#[test]
fn round_trip_error_integer_and_null() {
    for value in [
        RespValue::Error("ERR bad".to_string()),
        RespValue::Integer(i64::MIN),
        RespValue::BulkString(None),
        RespValue::Array(vec![RespValue::Array(vec![]), RespValue::BulkString(Some(b"a\r\nb".to_vec()))]),
    ] {
        let encoded = encode(&value);
        let mut pos = 0;
        assert_eq!(parse_value(&encoded, &mut pos), Ok(value));
        assert_eq!(pos, encoded.len());
    }
}

#[test]
fn encoded_value_cut_short_is_incomplete() {
    let value = RespValue::Array(vec![
        RespValue::Integer(-5),
        RespValue::BulkString(Some(b"xyz".to_vec())),
        RespValue::SimpleString("ok".to_string()),
    ]);
    let encoded = encode(&value);
    for k in 0..encoded.len() {
        let mut pos = 0;
        assert_eq!(parse_value(&encoded[..k], &mut pos), Err(ProtocolError::Incomplete));
        assert_eq!(pos, 0);
    }
}

#[test]
fn error_messages() {
    assert_eq!(ProtocolError::Incomplete.message(), "incomplete data, need more bytes");
    assert_eq!(ProtocolError::InvalidType(b'!').message(), "invalid RESP type byte: 0x21");
    assert_eq!(ProtocolError::InvalidType(0xab).message(), "invalid RESP type byte: 0xab");
    assert_eq!(
        ProtocolError::InvalidFormat("invalid utf8".to_string()).message(),
        "invalid format: invalid utf8"
    );
    assert_eq!(
        ProtocolError::InvalidCommand("FLUSHALL".to_string()).message(),
        "invalid command: FLUSHALL"
    );
    assert_eq!(
        ProtocolError::WrongArgCount { command: "GET".to_string(), expected: 1, got: 12 }.message(),
        "wrong arg count for GET: expected 1, got 12"
    );
}

#[test]
fn every_prefix_of_a_frame_is_incomplete() {
    let frame: &[u8] = b"*3\r\n+ok\r\n$4\r\na\r\nb\r\n*2\r\n:-7\r\n$-1\r\n";
    let (r, pos) = read(frame);
    assert!(r.is_ok());
    assert_eq!(pos, frame.len());
    for k in 0..frame.len() {
        let (r, pos) = read(&frame[..k]);
        assert_eq!(r, Err(ProtocolError::Incomplete), "prefix of length {}", k);
        assert_eq!(pos, 0);
    }
}

#[test]
fn incomplete_leaves_a_cursor_in_the_middle_where_it_was() {
    let buf: &[u8] = b":1\r\n$5\r\nab";
    let mut pos = 4;
    assert_eq!(parse_value(buf, &mut pos), Err(ProtocolError::Incomplete));
    assert_eq!(pos, 4);
}
