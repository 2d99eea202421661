//! The append-only file: every write command, as the bytes of the frame that
//! carried it, appended in the order in which the commands ran. On startup
//! the file is replayed, command by command, on top of the last snapshot.

use vstd::prelude::*;

use crate::protocol::ErrorView;
use crate::protocol::command::{command_result_view, parse_command, spec_parse_command};
use crate::protocol::wire::{lemma_parse_value_bounds, parse_value, spec_parse_value, suffix};
use crate::server::{FrameView, execute_command_at, spec_execute, spec_serve_frame};
use crate::protocol::laws::lemma_parse_frame;
use crate::storage::{Contents, Store};

verus! {

/// Replaying the log `log` on `m` at clock reading `now`: the contents
/// afterwards, and how many bytes of whole frames were replayed. Replay stops
/// at the first frame that cannot be read (a cut-off tail, or damage); a
/// frame that holds no valid command is skipped.
pub open spec fn spec_replay(log: Seq<u8>, m: Contents, now: u128) -> (Contents, int)
    decreases log.len(),
{
    let (read, used) = spec_parse_value(log);
    match read {
        Ok(v) => if 0 < used <= log.len() {
            let after = match spec_parse_command(v) {
                Ok(cmd) => spec_execute(cmd, m, now).1,
                Err(_) => m,
            };
            let rest = spec_replay(log.subrange(used, log.len() as int), after, now);
            (rest.0, used + rest.1)
        } else {
            (m, 0)
        },
        Err(_) => (m, 0),
    }
}

/// Replays the log `log` on `store` at clock reading `now`; gives the number
/// of bytes replayed, which is the length of the log unless its end is cut
/// off or damaged.
pub fn replay_at(log: &[u8], store: &mut Store, now: u128) -> (r: usize)
    ensures
        (final(store)@, r as int) == spec_replay(log@, old(store)@, now),
        final(store).clock() == old(store).clock(),
{
    let ghost total = spec_replay(log@, store@, now);
    let mut pos: usize = 0;
    proof {
        assert(suffix(log@, 0) == log@);
    }
    loop
        invariant
            0 <= pos <= log@.len(),
            total == spec_replay(log@, old(store)@, now),
            store.clock() == old(store).clock(),
            total.0 == spec_replay(suffix(log@, pos as int), store@, now).0,
            total.1 == pos + spec_replay(suffix(log@, pos as int), store@, now).1,
        decreases log@.len() - pos,
    {
        let here = pos;
        let ghost rest = suffix(log@, here as int);
        proof {
            lemma_parse_value_bounds(rest);
        }
        let mut cursor = pos;
        let read = parse_value(log, &mut cursor);
        match read {
            Ok(value) => {
                pos = cursor;
                match parse_command(value) {
                    Ok(cmd) => {
                        execute_command_at(cmd, store, now);
                    },
                    Err(_) => {},
                }
                proof {
                    let used = spec_parse_value(rest).1;
                    assert(rest.subrange(used, rest.len() as int) =~= suffix(log@, pos as int));
                }
            },
            Err(_) => {
                return here;
            },
        }
    }
}

/// Replays the log `log` on `store` at one clock reading taken now (see
/// `replay_at`).
pub fn replay(log: &[u8], store: &mut Store) -> (r: usize)
    ensures
        exists|now: u128|
            now >= old(store).clock() && final(store).clock() == now && (final(store)@, r as int)
                == spec_replay(log@, old(store)@, now),
{
    let now = store.now();
    replay_at(log, store, now)
}

/// The write log that the server keeps replays to the state that serving
/// the frame produced: when a frame was handled and its bytes were logged,
/// replaying those bytes on the store as it was before gives the store as it
/// is after, and replays the whole record.
pub proof fn lemma_replay_logged_frame(buf: Seq<u8>, m: Contents, now: u128)
    requires
        spec_serve_frame(buf, m, now).0 matches FrameView::Handled { log: Some(_), .. },
    ensures
        ({
            let (outcome, after) = spec_serve_frame(buf, m, now);
            let record = outcome->Handled_log->Some_0;
            spec_replay(record, m, now) == (after, record.len() as int)
        }),
{
    let (read, used) = spec_parse_value(buf);
    lemma_parse_value_bounds(buf);
    let record = buf.subrange(0, used);
    assert(record.subrange(0, used) =~= buf.subrange(0, used));
    lemma_parse_frame(buf, record);
    let tail = record.subrange(used, record.len() as int);
    assert(tail =~= Seq::<u8>::empty());
    assert(spec_parse_value(tail).0 is Err);
    let v = read->Ok_0;
    let cmd = spec_parse_command(v)->Ok_0;
    let after = spec_execute(cmd, m, now).1;
    assert(spec_replay(tail, after, now) == (after, 0int));
    assert(spec_serve_frame(buf, m, now).1 == after);
    assert(spec_serve_frame(buf, m, now).0->Handled_log->Some_0 == record);
    assert(spec_replay(record, m, now) == (after, used));
}

/// Replay runs frame after frame: when a log `first` replays whole, replaying
/// it followed by `second` is replaying `second` on what `first` gave.
pub proof fn lemma_replay_append(first: Seq<u8>, second: Seq<u8>, m: Contents, now: u128)
    requires
        spec_replay(first, m, now).1 == first.len(),
    ensures
        ({
            let mid = spec_replay(first, m, now).0;
            spec_replay(first + second, m, now) == (
                spec_replay(second, mid, now).0,
                first.len() + spec_replay(second, mid, now).1,
            )
        }),
    decreases first.len(),
{
    if first.len() == 0 {
        assert(first + second =~= second);
    } else {
        let whole = first + second;
        let (read, used) = spec_parse_value(first);
        lemma_parse_value_bounds(first);
        assert(whole.subrange(0, used) =~= first.subrange(0, used));
        lemma_parse_frame(first, whole);
        let v = read->Ok_0;
        let after = match spec_parse_command(v) {
            Ok(cmd) => spec_execute(cmd, m, now).1,
            Err(_) => m,
        };
        let rest = first.subrange(used, first.len() as int);
        assert(whole.subrange(used, whole.len() as int) =~= rest + second);
        lemma_replay_append(rest, second, after, now);
    }
}

} // verus!
