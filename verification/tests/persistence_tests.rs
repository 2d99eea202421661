//! Snapshots and the write log.

use redis_lite::persistence::aof::{replay, replay_at};
use redis_lite::persistence::snapshot::{
    SnapshotEntry, collect_snapshot, collect_snapshot_at, load_snapshot_at, restore_snapshot,
};
use redis_lite::server::{FrameOutcome, serve_frame_at};
use redis_lite::storage::Store;

#[test]
fn snapshot_skips_expired_keys_and_keeps_remaining_ttl() {
    let mut store = Store::new();
    store.set_at("keep", b"1".to_vec(), None, 0);
    store.set_at("soon", b"2".to_vec(), Some(50), 0);
    store.set_at("gone", b"3".to_vec(), Some(5), 0);
    let mut entries = collect_snapshot_at(&store, 20);
    entries.sort_by(|a, b| a.key.cmp(&b.key));
    assert_eq!(entries.len(), 2);
    assert_eq!(entries[0].key, "keep");
    assert_eq!(entries[0].ttl_remaining, None);
    assert_eq!(entries[1].key, "soon");
    assert_eq!(entries[1].value, b"2".to_vec());
    assert_eq!(entries[1].ttl_remaining, Some(30));
}

#[test]
fn loading_a_snapshot_gives_back_the_live_entries() {
    let mut store = Store::new();
    store.set_at("a", b"x".to_vec(), Some(100), 0);
    store.set_at("b", b"y".to_vec(), None, 0);
    let entries = collect_snapshot_at(&store, 40);
    let mut restored = Store::new();
    load_snapshot_at(&mut restored, &entries, 1000);
    assert_eq!(restored.get_at("a", 1060), Some(b"x".to_vec()));
    assert_eq!(restored.get_at("a", 1061), None);
    assert_eq!(restored.get_at("b", u128::MAX), Some(b"y".to_vec()));
}

#[test]
fn restore_snapshot_makes_a_new_store() {
    let entries = vec![SnapshotEntry { key: "k".to_string(), value: b"v".to_vec(), ttl_remaining: None }];
    let mut store = restore_snapshot(&entries);
    assert_eq!(store.get("k"), Some(b"v".to_vec()));
    let mut again = Store::new();
    again.set("z", b"w".to_vec(), None);
    assert_eq!(collect_snapshot(&again).len(), 1);
}

#[test]
fn replaying_the_log_repeats_the_writes() {
    let mut log = Vec::new();
    log.extend_from_slice(b"*3\r\n$3\r\nSET\r\n$1\r\na\r\n$1\r\n1\r\n");
    log.extend_from_slice(b"*3\r\n$3\r\nSET\r\n$1\r\nb\r\n$1\r\n2\r\n");
    log.extend_from_slice(b"*2\r\n$3\r\nDEL\r\n$1\r\na\r\n");
    let mut store = Store::new();
    let used = replay_at(&log, &mut store, 0);
    assert_eq!(used, log.len());
    assert_eq!(store.get_at("a", 0), None);
    assert_eq!(store.get_at("b", 0), Some(b"2".to_vec()));
}

#[test]
fn replay_stops_at_a_cut_off_tail() {
    let mut log = b"*3\r\n$3\r\nSET\r\n$1\r\na\r\n$1\r\n1\r\n".to_vec();
    let whole = log.len();
    log.extend_from_slice(b"*3\r\n$3\r\nSET\r\n$1\r\nb");
    let mut store = Store::new();
    assert_eq!(replay(&log, &mut store), whole);
    assert_eq!(store.get("a"), Some(b"1".to_vec()));
    assert_eq!(store.get("b"), None);
}

#[test]
fn what_the_server_logs_replays_to_the_same_store() {
    let frames: [&[u8]; 3] = [
        b"*3\r\n$3\r\nSET\r\n$1\r\nk\r\n$2\r\nv1\r\n",
        b"*2\r\n$3\r\nGET\r\n$1\r\nk\r\n",
        b"*5\r\n$3\r\nSET\r\n$1\r\nt\r\n$2\r\nv2\r\n$2\r\nPX\r\n$2\r\n50\r\n",
    ];
    let mut live = Store::new();
    let mut log = Vec::new();
    for frame in frames {
        if let FrameOutcome::Handled { log: Some(record), .. } = serve_frame_at(frame, &mut live, 7) {
            log.extend_from_slice(&record);
        }
    }
    let mut replayed = Store::new();
    assert_eq!(replay_at(&log, &mut replayed, 7), log.len());
    let mut a: Vec<(String, Vec<u8>, Option<u128>)> =
        live.snapshot_entries().into_iter().map(|(k, e)| (k, e.value, e.expires_at)).collect();
    let mut b: Vec<(String, Vec<u8>, Option<u128>)> =
        replayed.snapshot_entries().into_iter().map(|(k, e)| (k, e.value, e.expires_at)).collect();
    a.sort();
    b.sort();
    assert_eq!(a, b);
    assert_eq!(a.len(), 2);
}
