//! Reading commands: flags, cases and errors beyond the basic ones.

use redis_lite::protocol::command::{command_from_name, ttl_from_flag};
use redis_lite::protocol::{Command, ProtocolError, RespValue, parse_command};

fn bulk_bytes(b: &[u8]) -> RespValue {
    RespValue::BulkString(Some(b.to_vec()))
}

fn command(args: &[&[u8]]) -> RespValue {
    RespValue::Array(args.iter().map(|a| bulk_bytes(a)).collect())
}

#[test]
fn set_flags_ignore_case() {
    let r = parse_command(command(&[b"set", b"k", b"v", b"px", b"7"])).unwrap();
    assert_eq!(r, Command::SetKey { key: "k".to_string(), value: b"v".to_vec(), ttl: Some(7_000_000) });
    let r = parse_command(command(&[b"Set", b"k", b"v", b"eX", b"+2"])).unwrap();
    assert_eq!(r, Command::SetKey { key: "k".to_string(), value: b"v".to_vec(), ttl: Some(2_000_000_000) });
}

#[test]
fn set_unknown_flag_is_named_upper_cased() {
    let r = parse_command(command(&[b"SET", b"foo", b"bar", b"xx", b"10"]));
    assert_eq!(r, Err(ProtocolError::InvalidFormat("unknown SET flag: XX".to_string())));
}

#[test]
fn set_bad_ttl_value() {
    let r = parse_command(command(&[b"SET", b"foo", b"bar", b"EX", b"-1"]));
    assert_eq!(r, Err(ProtocolError::InvalidFormat("invalid ttl value".to_string())));
    // the amount is read before the flag is looked at
    let r = parse_command(command(&[b"SET", b"foo", b"bar", b"ZZ", b"ten"]));
    assert_eq!(r, Err(ProtocolError::InvalidFormat("invalid ttl value".to_string())));
}

#[test]
fn set_largest_ttl() {
    let r = parse_command(command(&[b"SET", b"k", b"v", b"EX", b"18446744073709551615"])).unwrap();
    assert_eq!(
        r,
        Command::SetKey { key: "k".to_string(), value: b"v".to_vec(), ttl: Some(u64::MAX as u128 * 1_000_000_000) }
    );
}

#[test]
fn set_value_keeps_raw_bytes() {
    let r = parse_command(command(&[b"SET", b"k", b"\xff\x00\r\n"])).unwrap();
    assert_eq!(r, Command::SetKey { key: "k".to_string(), value: b"\xff\x00\r\n".to_vec(), ttl: None });
}

#[test]
fn invalid_utf8_key_or_name() {
    let r = parse_command(command(&[b"GET", b"\xff"]));
    assert_eq!(r, Err(ProtocolError::InvalidFormat("invalid utf8".to_string())));
    let r = parse_command(command(&[b"\xc3"]));
    assert_eq!(r, Err(ProtocolError::InvalidFormat("invalid utf8".to_string())));
}

#[test]
fn wrong_arg_counts_report_the_numbers() {
    let r = parse_command(command(&[b"del"]));
    assert_eq!(r, Err(ProtocolError::WrongArgCount { command: "DEL".to_string(), expected: 1, got: 0 }));
    let r = parse_command(command(&[b"EXISTS", b"a", b"b"]));
    assert_eq!(r, Err(ProtocolError::WrongArgCount { command: "EXISTS".to_string(), expected: 1, got: 2 }));
    let r = parse_command(command(&[b"SET", b"a", b"b", b"c", b"d", b"e"]));
    assert_eq!(r, Err(ProtocolError::WrongArgCount { command: "SET".to_string(), expected: 2, got: 5 }));
}

#[test]
fn unknown_command_is_named_upper_cased() {
    let r = parse_command(command(&[b"flushall"]));
    assert_eq!(r, Err(ProtocolError::InvalidCommand("FLUSHALL".to_string())));
}

#[test]
fn null_bulk_string_is_not_an_argument() {
    let r = parse_command(RespValue::Array(vec![bulk_bytes(b"GET"), RespValue::BulkString(None)]));
    assert_eq!(r, Err(ProtocolError::InvalidFormat("expected bulk string".to_string())));
}

#[test]
fn command_from_an_upper_cased_name() {
    let r = command_from_name(&"EXISTS".to_string(), &vec![b"k".to_vec()]);
    assert_eq!(r, Ok(Command::Exists { key: "k".to_string() }));
    let r = command_from_name(&"exists".to_string(), &vec![b"k".to_vec()]);
    assert_eq!(r, Err(ProtocolError::InvalidCommand("exists".to_string())));
}

#[test]
fn ttl_from_flags() {
    assert_eq!(ttl_from_flag(&"EX".to_string(), 3), Ok(3_000_000_000));
    assert_eq!(ttl_from_flag(&"PX".to_string(), 3), Ok(3_000_000));
    assert_eq!(
        ttl_from_flag(&"ex".to_string(), 3),
        Err(ProtocolError::InvalidFormat("unknown SET flag: ex".to_string()))
    );
}

#[test]
fn names_and_flags_read_alike_in_any_case() {
    let variants: [[&[u8]; 5]; 3] = [
        [b"SET", b"Key", b"Value", b"EX", b"5"],
        [b"set", b"Key", b"Value", b"ex", b"5"],
        [b"sEt", b"Key", b"Value", b"Ex", b"5"],
    ];
    let first = parse_command(command(&variants[0]));
    for v in variants.iter() {
        assert_eq!(parse_command(command(v)), first);
    }
    assert_eq!(
        first,
        Ok(Command::SetKey { key: "Key".to_string(), value: b"Value".to_vec(), ttl: Some(5_000_000_000) })
    );
    assert_eq!(parse_command(command(&[b"exists", b"a"])), parse_command(command(&[b"EXISTS", b"a"])));
    assert_ne!(parse_command(command(&[b"GET", b"a"])), parse_command(command(&[b"GET", b"A"])));
}
