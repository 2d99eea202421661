//! Serving a client's buffer after each read, and sessions whose bytes are
//! split into reads in different ways.

use redis_lite::session::{BufferOutcome, serve_buffer};
use redis_lite::storage::Store;

const SET: &[u8] = b"*3\r\n$3\r\nSET\r\n$3\r\nfoo\r\n$3\r\nbar\r\n";
const GET: &[u8] = b"*2\r\n$3\r\nGET\r\n$3\r\nfoo\r\n";
const DEL: &[u8] = b"*2\r\n$3\r\nDEL\r\n$3\r\nfoo\r\n";

/// Runs a session as the server loop does: after each read, serve the
/// buffer, keep what is not done with.
fn session(reads: &[&[u8]]) -> (Vec<u8>, Vec<u8>, Vec<u8>, Store) {
    let mut store = Store::new();
    let mut buf: Vec<u8> = Vec::new();
    let mut replies = Vec::new();
    let mut log = Vec::new();
    for chunk in reads {
        buf.extend_from_slice(chunk);
        let BufferOutcome { replies: r, log: l, consumed } = serve_buffer(&buf, &mut store);
        replies.extend_from_slice(&r);
        log.extend_from_slice(&l);
        buf.drain(..consumed);
    }
    (replies, log, buf, store)
}

#[test]
fn whole_frames_in_one_read_are_all_served() {
    let mut store = Store::new();
    let mut buf = Vec::new();
    buf.extend_from_slice(SET);
    buf.extend_from_slice(GET);
    buf.extend_from_slice(&DEL[..5]);
    let out = serve_buffer(&buf, &mut store);
    assert_eq!(out.replies, b"+OK\r\n$3\r\nbar\r\n".to_vec());
    assert_eq!(out.log, SET.to_vec());
    assert_eq!(out.consumed, SET.len() + GET.len());
}

#[test]
fn nothing_whole_means_nothing_served() {
    let mut store = Store::new();
    let out = serve_buffer(&SET[..SET.len() - 1], &mut store);
    assert!(out.replies.is_empty());
    assert!(out.log.is_empty());
    assert_eq!(out.consumed, 0);
    assert_eq!(store.get_at("foo", 0), None);
}

#[test]
fn bytes_that_are_not_resp_drop_the_buffer() {
    let mut store = Store::new();
    let mut buf = Vec::new();
    buf.extend_from_slice(GET);
    buf.extend_from_slice(b"?oops\r\n");
    buf.extend_from_slice(SET);
    let out = serve_buffer(&buf, &mut store);
    assert_eq!(out.replies, b"$-1\r\n-invalid RESP type byte: 0x3f\r\n".to_vec());
    assert_eq!(out.consumed, buf.len());
    assert!(out.log.is_empty());
}

#[test]
fn any_split_into_reads_serves_the_same() {
    let mut all = Vec::new();
    all.extend_from_slice(SET);
    all.extend_from_slice(GET);
    all.extend_from_slice(DEL);
    all.extend_from_slice(GET);
    all.extend_from_slice(&SET[..9]);
    let (replies, log, pending, _) = session(&[&all]);
    assert_eq!(replies, b"+OK\r\n$3\r\nbar\r\n:1\r\n$-1\r\n".to_vec());
    let mut logged = SET.to_vec();
    logged.extend_from_slice(DEL);
    assert_eq!(log, logged);
    assert_eq!(pending, SET[..9].to_vec());
    for a in 0..=all.len() {
        for b in a..=all.len() {
            let (r, l, p, _) = session(&[&all[..a], &all[a..b], &all[b..]]);
            assert_eq!(r, replies, "split at {} and {}", a, b);
            assert_eq!(l, log);
            assert_eq!(p, pending);
        }
    }
}
