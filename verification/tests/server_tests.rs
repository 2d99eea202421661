//! Serving frames: running commands against the store, the replies, and
//! what goes to the write log.

use redis_lite::protocol::{Command, RespValue};
use redis_lite::server::{FrameOutcome, execute_command, execute_command_at, serve_frame, serve_frame_at};
use redis_lite::storage::Store;

#[test]
fn ping_answers_pong() {
    let mut store = Store::new();
    assert_eq!(execute_command(Command::Ping, &mut store), RespValue::SimpleString("PONG".to_string()));
}

#[test]
fn commands_against_the_store() {
    let mut store = Store::new();
    let set = Command::SetKey { key: "hello".to_string(), value: b"world".to_vec(), ttl: None };
    assert_eq!(execute_command_at(set, &mut store, 0), RespValue::SimpleString("OK".to_string()));
    assert_eq!(
        execute_command_at(Command::Get { key: "hello".to_string() }, &mut store, 1),
        RespValue::BulkString(Some(b"world".to_vec()))
    );
    assert_eq!(execute_command_at(Command::Exists { key: "hello".to_string() }, &mut store, 1), RespValue::Integer(1));
    assert_eq!(execute_command_at(Command::Del { key: "hello".to_string() }, &mut store, 1), RespValue::Integer(1));
    assert_eq!(execute_command_at(Command::Del { key: "hello".to_string() }, &mut store, 1), RespValue::Integer(0));
    assert_eq!(execute_command_at(Command::Exists { key: "hello".to_string() }, &mut store, 1), RespValue::Integer(0));
    assert_eq!(
        execute_command_at(Command::Get { key: "hello".to_string() }, &mut store, 1),
        RespValue::BulkString(None)
    );
}

#[test]
fn key_with_ttl_expires() {
    let mut store = Store::new();
    let set = Command::SetKey { key: "temp".to_string(), value: b"data".to_vec(), ttl: Some(10_000_000_000) };
    execute_command_at(set, &mut store, 5);
    assert_eq!(
        execute_command_at(Command::Get { key: "temp".to_string() }, &mut store, 10_000_000_005),
        RespValue::BulkString(Some(b"data".to_vec()))
    );
    assert_eq!(
        execute_command_at(Command::Get { key: "temp".to_string() }, &mut store, 10_000_000_006),
        RespValue::BulkString(None)
    );
}

#[test]
fn set_frame_is_answered_and_logged() {
    let mut store = Store::new();
    let frame = b"*3\r\n$3\r\nSET\r\n$3\r\nfoo\r\n$3\r\nbar\r\n";
    match serve_frame_at(frame, &mut store, 0) {
        FrameOutcome::Handled { consumed, reply, log } => {
            assert_eq!(consumed, frame.len());
            assert_eq!(reply, b"+OK\r\n".to_vec());
            assert_eq!(log, Some(frame.to_vec()));
        }
        _ => panic!("expected the frame to be handled"),
    }
    assert_eq!(store.get_at("foo", 0), Some(b"bar".to_vec()));
}

#[test]
fn pipelined_frames_are_served_one_at_a_time() {
    let mut store = Store::new();
    let buf = b"*1\r\n$4\r\nPING\r\n*2\r\n$3\r\nGET\r\n$1\r\nx\r\n*2\r\n$3";
    let mut start = 0;
    let mut replies: Vec<Vec<u8>> = Vec::new();
    loop {
        match serve_frame(&buf[start..], &mut store) {
            FrameOutcome::NeedMore => break,
            FrameOutcome::Rejected { .. } => panic!("unexpected rejection"),
            FrameOutcome::Handled { consumed, reply, log } => {
                assert_eq!(log, None);
                start += consumed;
                replies.push(reply);
            }
        }
    }
    assert_eq!(replies, vec![b"+PONG\r\n".to_vec(), b"$-1\r\n".to_vec()]);
    assert_eq!(&buf[start..], b"*2\r\n$3");
}

#[test]
fn garbage_is_rejected_with_an_error_reply() {
    let mut store = Store::new();
    match serve_frame_at(b"hello\r\n", &mut store, 0) {
        FrameOutcome::Rejected { reply } => {
            assert_eq!(reply, b"-invalid RESP type byte: 0x68\r\n".to_vec());
        }
        _ => panic!("expected a rejection"),
    }
}

#[test]
fn bad_command_is_answered_and_consumed() {
    let mut store = Store::new();
    let frame = b"*1\r\n$8\r\nFLUSHALL\r\n";
    match serve_frame_at(frame, &mut store, 0) {
        FrameOutcome::Handled { consumed, reply, log } => {
            assert_eq!(consumed, frame.len());
            assert_eq!(reply, b"-invalid command: FLUSHALL\r\n".to_vec());
            assert_eq!(log, None);
        }
        _ => panic!("expected the frame to be handled"),
    }
}

#[test]
fn writes_leave_other_keys_alone() {
    let mut store = Store::new();
    store.set_at("other", b"o".to_vec(), None, 0);
    execute_command_at(Command::SetKey { key: "k".to_string(), value: b"v".to_vec(), ttl: Some(1) }, &mut store, 0);
    execute_command_at(Command::Del { key: "k".to_string() }, &mut store, 0);
    assert_eq!(
        execute_command_at(Command::Get { key: "other".to_string() }, &mut store, 9),
        RespValue::BulkString(Some(b"o".to_vec()))
    );
}
