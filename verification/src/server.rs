//! What the server does with the bytes that a client sends: read one frame,
//! turn it into a command, run it against the store, and say what to answer
//! and what to append to the write log.

use vstd::prelude::*;

use crate::protocol::{Command, CommandView, ErrorView, ProtocolError, RespValue, RespView, error_message};
use crate::protocol::command::{command_result_view, parse_command, spec_parse_command};
use crate::protocol::encode::{encode, spec_encode};
use crate::protocol::wire::{parse_value, spec_parse_value, suffix};
use crate::storage::{Contents, Store, spec_expiry, spec_live, spec_purge, spec_value};
use crate::text::{copy_range, string_of};

verus! {

/// The reply to a command, and the store's contents afterwards, at clock
/// reading `now`.
pub open spec fn spec_execute(cmd: CommandView, m: Contents, now: u128) -> (RespView, Contents) {
    match cmd {
        CommandView::Ping => (RespView::SimpleString("PONG"@), m),
        CommandView::Exists { key } => {
            let after = spec_purge(m, key, now);
            (RespView::Integer(if after.contains_key(key) { 1 } else { 0 }), after)
        },
        CommandView::Del { key } => (
            RespView::Integer(if m.contains_key(key) { 1 } else { 0 }),
            m.remove(key),
        ),
        CommandView::Get { key } => {
            let after = spec_purge(m, key, now);
            (RespView::BulkString(spec_value(after, key)), after)
        },
        CommandView::SetKey { key, value, ttl } => (
            RespView::SimpleString("OK"@),
            m.insert(key, (value, spec_expiry(now, ttl))),
        ),
    }
}

/// Runs `cmd` against `store` at clock reading `now` and gives the reply.
pub fn execute_command_at(cmd: Command, store: &mut Store, now: u128) -> (r: RespValue)
    ensures
        (r.view(), final(store)@) == spec_execute(cmd.view(), old(store)@, now),
        final(store).clock() == old(store).clock(),
{
    match cmd {
        Command::Ping => RespValue::SimpleString(string_of("PONG")),
        Command::Exists { key } => {
            if store.key_exists_at(key.as_str(), now) {
                RespValue::Integer(1)
            } else {
                RespValue::Integer(0)
            }
        },
        Command::Del { key } => {
            if store.del(key.as_str()) {
                RespValue::Integer(1)
            } else {
                RespValue::Integer(0)
            }
        },
        Command::Get { key } => match store.get_at(key.as_str(), now) {
            Some(value) => RespValue::BulkString(Some(value)),
            None => RespValue::BulkString(None),
        },
        Command::SetKey { key, value, ttl } => {
            store.set_at(key.as_str(), value, ttl, now);
            RespValue::SimpleString(string_of("OK"))
        },
    }
}

/// Runs `cmd` against `store` now (see `execute_command_at`).
pub fn execute_command(cmd: Command, store: &mut Store) -> (r: RespValue)
    ensures
        exists|now: u128|
            now >= old(store).clock() && final(store).clock() == now && (r.view(), final(store)@)
                == spec_execute(cmd.view(), old(store)@, now),
{
    let now = store.now();
    execute_command_at(cmd, store, now)
}

/// Whether a command changes the store, so that it belongs in the write log.
pub open spec fn is_write(cmd: CommandView) -> bool {
    cmd is SetKey || cmd is Del
}

/// What to do with the bytes at the front of a client's buffer.
pub enum FrameOutcome {
    /// No whole frame yet: read more bytes.
    NeedMore,
    /// The bytes are not RESP: send `reply` and drop the buffer.
    Rejected { reply: Vec<u8> },
    /// A frame of `consumed` bytes was handled: drop those bytes, append
    /// `log` to the write log if it is there, and send `reply`.
    Handled { consumed: usize, reply: Vec<u8>, log: Option<Vec<u8>> },
}

/// The model of a `FrameOutcome`.
pub enum FrameView {
    NeedMore,
    Rejected { reply: Seq<u8> },
    Handled { consumed: int, reply: Seq<u8>, log: Option<Seq<u8>> },
}

impl FrameOutcome {
    pub open spec fn view(&self) -> FrameView {
        match self {
            FrameOutcome::NeedMore => FrameView::NeedMore,
            FrameOutcome::Rejected { reply } => FrameView::Rejected { reply: reply@ },
            FrameOutcome::Handled { consumed, reply, log } => FrameView::Handled {
                consumed: *consumed as int,
                reply: reply@,
                log: match log {
                    Some(l) => Some(l@),
                    None => None,
                },
            },
        }
    }
}

/// The bytes of the error reply for `e`.
pub open spec fn error_reply(e: ErrorView) -> Seq<u8> {
    spec_encode(RespView::Error(error_message(e)))
}

/// What the server does with the front of the buffer `buf` at clock reading
/// `now`, and the store's contents afterwards.
pub open spec fn spec_serve_frame(buf: Seq<u8>, m: Contents, now: u128) -> (FrameView, Contents) {
    let (read, used) = spec_parse_value(buf);
    match read {
        Err(ErrorView::Incomplete) => (FrameView::NeedMore, m),
        Err(e) => (FrameView::Rejected { reply: error_reply(e) }, m),
        Ok(v) => match spec_parse_command(v) {
            Err(e) => (FrameView::Handled { consumed: used, reply: error_reply(e), log: None }, m),
            Ok(cmd) => {
                let (answer, after) = spec_execute(cmd, m, now);
                (
                    FrameView::Handled {
                        consumed: used,
                        reply: spec_encode(answer),
                        log: if is_write(cmd) {
                            Some(buf.subrange(0, used))
                        } else {
                            None
                        },
                    },
                    after,
                )
            },
        },
    }
}

fn error_reply_bytes(e: &ProtocolError) -> (r: Vec<u8>)
    ensures
        r@ == error_reply(e.view()),
{
    encode(&RespValue::Error(e.message()))
}

/// Handles the frame at the front of `buf` at clock reading `now`: reads it,
/// runs the command it holds, and says what to answer, how many bytes it
/// took, and what to append to the write log (the frame's own bytes, for
/// `SET` and `DEL`).
pub fn serve_frame_at(buf: &[u8], store: &mut Store, now: u128) -> (r: FrameOutcome)
    ensures
        (r.view(), final(store)@) == spec_serve_frame(buf@, old(store)@, now),
        final(store).clock() == old(store).clock(),
{
    let mut pos: usize = 0;
    let read = parse_value(buf, &mut pos);
    assert(suffix(buf@, 0) == buf@);
    match read {
        Err(ProtocolError::Incomplete) => FrameOutcome::NeedMore,
        Err(e) => FrameOutcome::Rejected { reply: error_reply_bytes(&e) },
        Ok(value) => {
            proof {
                crate::protocol::wire::lemma_parse_value_bounds(buf@);
            }
            let raw = copy_range(buf, 0, pos);
            let parsed = parse_command(value);
            match parsed {
                Err(e) => FrameOutcome::Handled {
                    consumed: pos,
                    reply: error_reply_bytes(&e),
                    log: None,
                },
                Ok(cmd) => {
                    let write = match cmd {
                        Command::SetKey { .. } => true,
                        Command::Del { .. } => true,
                        _ => false,
                    };
                    let answer = execute_command_at(cmd, store, now);
                    let reply = encode(&answer);
                    FrameOutcome::Handled {
                        consumed: pos,
                        reply,
                        log: if write {
                            Some(raw)
                        } else {
                            None
                        },
                    }
                },
            }
        },
    }
}

/// Handles the frame at the front of `buf` now (see `serve_frame_at`).
pub fn serve_frame(buf: &[u8], store: &mut Store) -> (r: FrameOutcome)
    ensures
        exists|now: u128|
            now >= old(store).clock() && final(store).clock() == now && (r.view(), final(store)@)
                == spec_serve_frame(buf@, old(store)@, now),
{
    let now = store.now();
    serve_frame_at(buf, store, now)
}

/// A read gives back what a write stored: after `SET key value` (with or
/// without a time to live) at clock reading `set_at`, `GET key` at any later
/// reading `get_at` answers with `value` until the entry has expired, and
/// with the null bulk string afterwards.
pub proof fn lemma_get_after_set(
    m: Contents,
    key: Seq<char>,
    value: Seq<u8>,
    ttl: Option<u128>,
    set_at: u128,
    get_at: u128,
)
    ensures
        ({
            let stored = spec_execute(CommandView::SetKey { key, value, ttl }, m, set_at).1;
            let expired = match spec_expiry(set_at, ttl) {
                Some(t) => get_at > t,
                None => false,
            };
            spec_execute(CommandView::Get { key }, stored, get_at).0 == RespView::BulkString(
                if expired {
                    None
                } else {
                    Some(value)
                },
            )
        }),
{
}

/// A write touches only its own key: `SET` and `DEL` of one key leave what
/// `GET` answers for every other key as it was.
pub proof fn lemma_write_leaves_other_keys(
    m: Contents,
    key: Seq<char>,
    other: Seq<char>,
    value: Seq<u8>,
    ttl: Option<u128>,
    write_at: u128,
    get_at: u128,
)
    requires
        key != other,
    ensures
        spec_execute(
            CommandView::Get { key: other },
            spec_execute(CommandView::SetKey { key, value, ttl }, m, write_at).1,
            get_at,
        ).0 == spec_execute(CommandView::Get { key: other }, m, get_at).0,
        spec_execute(
            CommandView::Get { key: other },
            spec_execute(CommandView::Del { key }, m, write_at).1,
            get_at,
        ).0 == spec_execute(CommandView::Get { key: other }, m, get_at).0,
{
    let set = m.insert(key, (value, spec_expiry(write_at, ttl)));
    assert(spec_purge(set, other, get_at) =~= spec_purge(m, other, get_at).insert(
        key,
        (value, spec_expiry(write_at, ttl)),
    ));
    let del = m.remove(key);
    assert(spec_purge(del, other, get_at) =~= spec_purge(m, other, get_at).remove(key));
}

/// A deleted key is gone: after `DEL key`, `GET key` answers with the null
/// bulk string and `EXISTS key` with `0`; `DEL` answers `1` exactly when the
/// key was there.
pub proof fn lemma_deleted_key_is_gone(m: Contents, key: Seq<char>, at: u128, later: u128)
    ensures
        ({
            let (answer, after) = spec_execute(CommandView::Del { key }, m, at);
            &&& answer == RespView::Integer(if m.contains_key(key) { 1 } else { 0 })
            &&& spec_execute(CommandView::Get { key }, after, later).0 == RespView::BulkString(None)
            &&& spec_execute(CommandView::Exists { key }, after, later).0 == RespView::Integer(0)
        }),
{
}

/// Pipelining: the frame at the front of the buffer is served the same way
/// whatever bytes come after it, so a batch of frames read at once is served
/// one frame at a time.
pub proof fn lemma_serve_frame_ignores_later_bytes(
    buf: Seq<u8>,
    later: Seq<u8>,
    m: Contents,
    now: u128,
)
    requires
        spec_serve_frame(buf, m, now).0 is Handled,
    ensures
        spec_serve_frame(buf + later, m, now) == spec_serve_frame(buf, m, now),
{
    let used = spec_parse_value(buf).1;
    crate::protocol::wire::lemma_parse_value_bounds(buf);
    assert((buf + later).subrange(0, used) =~= buf.subrange(0, used));
    crate::protocol::laws::lemma_parse_frame(buf, buf + later);
}

/// A frame that has only partly arrived is left alone: for every proper
/// prefix of a frame, the server asks for more bytes and the store does not
/// change.
pub proof fn lemma_partial_frame_waits(frame: Seq<u8>, k: int, m: Contents, now: u128)
    requires
        spec_parse_value(frame).0 is Ok,
        0 <= k < spec_parse_value(frame).1,
    ensures
        spec_serve_frame(frame.subrange(0, k), m, now) == (FrameView::NeedMore, m),
{
    crate::protocol::laws::lemma_parse_prefix(frame, k);
}

/// Whether `key` holds a value at clock reading `now`: it is stored, and its
/// expiry, if it has one, is not before `now`.
pub open spec fn holds_value(m: Contents, key: Seq<char>, now: u128) -> bool {
    &&& m.contains_key(key)
    &&& match m[key].1 {
        Some(t) => now <= t,
        None => true,
    }
}

/// `EXISTS` and `GET` answer from the same entries: at any clock reading,
/// `EXISTS` answers `1` exactly when `GET` gives a value, which is when the
/// key is stored and has not expired; `GET` gives the stored value. Both
/// drop an expired key and leave every other key as it was.
pub proof fn lemma_exists_agrees_with_get(m: Contents, key: Seq<char>, now: u128)
    ensures
        spec_execute(CommandView::Exists { key }, m, now).0 == RespView::Integer(1)
            <==> spec_execute(CommandView::Get { key }, m, now).0 matches RespView::BulkString(
            Some(_),
        ),
        spec_execute(CommandView::Exists { key }, m, now).0 == RespView::Integer(
            if holds_value(m, key, now) {
                1
            } else {
                0
            },
        ),
        spec_execute(CommandView::Get { key }, m, now).0 == RespView::BulkString(
            if holds_value(m, key, now) {
                Some(m[key].0)
            } else {
                None
            },
        ),
        spec_execute(CommandView::Exists { key }, m, now).1 == spec_execute(
            CommandView::Get { key },
            m,
            now,
        ).1,
        spec_execute(CommandView::Exists { key }, m, now).1 == (if holds_value(m, key, now) {
            m
        } else {
            m.remove(key)
        }),
{
    if !holds_value(m, key, now) && !m.contains_key(key) {
        assert(m.remove(key) =~= m);
    }
}

/// A key set with a time to live `d` at reading `set_at` exists until
/// `set_at + d` and no longer: `EXISTS` at a later reading answers `0`, and
/// `1` at any reading up to that point.
pub proof fn lemma_exists_after_set(
    m: Contents,
    key: Seq<char>,
    value: Seq<u8>,
    d: u128,
    set_at: u128,
    at: u128,
)
    requires
        set_at + d <= u128::MAX,
    ensures
        spec_execute(
            CommandView::Exists { key },
            spec_execute(CommandView::SetKey { key, value, ttl: Some(d) }, m, set_at).1,
            at,
        ).0 == RespView::Integer(
            if at > set_at + d {
                0
            } else {
                1
            },
        ),
{
}

/// The store's clock never runs back, so a key that had expired by a reading
/// the store already used reads as gone at every reading the store takes
/// later: `GET` gives nothing, `EXISTS` answers `0`, a sweep removes it, and
/// no snapshot holds it.
pub proof fn lemma_expired_stays_gone(m: Contents, key: Seq<char>, t: u128, used: u128, later: u128)
    requires
        m.contains_key(key),
        m[key].1 == Some(t),
        t < used,
        used <= later,
    ensures
        spec_execute(CommandView::Get { key }, m, later).0 == RespView::BulkString(None),
        spec_execute(CommandView::Exists { key }, m, later).0 == RespView::Integer(0),
        !spec_live(m, later).contains_key(key),
{
}

/// A sweep at `now` keeps exactly the keys that hold a value at `now`, with
/// their entries unchanged.
pub proof fn lemma_sweep_keeps_holding_keys(m: Contents, now: u128, key: Seq<char>)
    ensures
        spec_live(m, now).contains_key(key) == holds_value(m, key, now),
        spec_live(m, now).contains_key(key) ==> spec_live(m, now)[key] == m[key],
{
}

} // verus!
