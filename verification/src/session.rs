//! A client's session as the server loop runs it: after each read, every
//! whole frame at the front of the buffer is served, and what is left waits
//! for the next read. The law here says that the way the bytes are split into
//! reads does not matter.

use vstd::prelude::*;

use crate::protocol::laws::lemma_parse_prefix;
use crate::protocol::wire::{lemma_parse_value_bounds, spec_parse_value};
use crate::server::{FrameOutcome, FrameView, lemma_serve_frame_ignores_later_bytes, serve_frame_at, spec_serve_frame};
use crate::storage::{Contents, Store};
use crate::text::append_bytes;

verus! {

/// Where a session stands: the replies sent so far, the bytes appended to the
/// write log, the bytes waiting in the buffer, the store's contents, and how
/// many frames have been served.
#[verifier::ext_equal]
pub struct SessionView {
    pub replies: Seq<u8>,
    pub log: Seq<u8>,
    pub pending: Seq<u8>,
    pub store: Contents,
    pub served: nat,
}

/// `a`, and then `b`.
pub open spec fn then(a: SessionView, b: SessionView) -> SessionView {
    SessionView {
        replies: a.replies + b.replies,
        log: a.log + b.log,
        pending: b.pending,
        store: b.store,
        served: b.served,
    }
}

/// Nothing sent or logged; `pending` waits.
pub open spec fn idle(pending: Seq<u8>, m: Contents, n: nat) -> SessionView {
    SessionView { replies: Seq::empty(), log: Seq::empty(), pending, store: m, served: n }
}

/// The bytes a frame appends to the write log.
pub open spec fn log_bytes(log: Option<Seq<u8>>) -> Seq<u8> {
    match log {
        Some(l) => l,
        None => Seq::empty(),
    }
}

/// What serving one frame adds to a session, with `after` the store's
/// contents afterwards and `n` the frames served before it.
pub open spec fn frame_step(out: FrameView, after: Contents, n: nat) -> SessionView {
    match out {
        FrameView::Handled { reply, log, .. } => SessionView {
            replies: reply,
            log: log_bytes(log),
            pending: Seq::empty(),
            store: after,
            served: n + 1,
        },
        FrameView::Rejected { reply } => SessionView {
            replies: reply,
            log: Seq::empty(),
            pending: Seq::empty(),
            store: after,
            served: n,
        },
        FrameView::NeedMore => idle(Seq::empty(), after, n),
    }
}

/// Serves every whole frame at the front of `buf`, as the server does after
/// each read: a handled frame is answered and dropped from the buffer, bytes
/// that are not RESP are answered and the buffer dropped, and a frame that
/// has not fully arrived waits. The `n`-th frame served runs at clock reading
/// `clock(n)`.
pub open spec fn spec_drain(buf: Seq<u8>, m: Contents, clock: spec_fn(nat) -> u128, n: nat) -> SessionView
    decreases buf.len(),
{
    let (out, after) = spec_serve_frame(buf, m, clock(n));
    match out {
        FrameView::NeedMore => idle(buf, m, n),
        FrameView::Rejected { .. } => frame_step(out, after, n),
        FrameView::Handled { consumed, .. } => if 0 < consumed <= buf.len() {
            then(
                frame_step(out, after, n),
                spec_drain(buf.subrange(consumed, buf.len() as int), after, clock, n + 1),
            )
        } else {
            frame_step(out, after, n)
        },
    }
}

/// A session in which the client's bytes arrive as the reads `chunks`, with
/// `buf` already waiting and `n` frames served: after each read the buffer
/// is drained, as `serve_buffer` does, and what is left waits.
pub open spec fn spec_session(
    chunks: Seq<Seq<u8>>,
    buf: Seq<u8>,
    m: Contents,
    clock: spec_fn(nat) -> u128,
    n: nat,
) -> SessionView
    decreases chunks.len(),
{
    if chunks.len() == 0 {
        idle(buf, m, n)
    } else {
        let d = spec_drain(buf + chunks[0], m, clock, n);
        then(d, spec_session(chunks.drop_first(), d.pending, d.store, clock, d.served))
    }
}

/// Serving the given frames one after the other, the `n`-th at `clock(n)`.
pub open spec fn spec_serve_frames(
    frames: Seq<Seq<u8>>,
    m: Contents,
    clock: spec_fn(nat) -> u128,
    n: nat,
) -> SessionView
    decreases frames.len(),
{
    if frames.len() == 0 {
        idle(Seq::empty(), m, n)
    } else {
        let (out, after) = spec_serve_frame(frames[0], m, clock(n));
        then(frame_step(out, after, n), spec_serve_frames(frames.drop_first(), after, clock, n + 1))
    }
}

/// Draining a buffer depends on the clock readings of the frames it serves
/// and on nothing else: two clocks that give the same readings from frame
/// `n1` and frame `n2` on drain it alike.
proof fn lemma_drain_clock(
    buf: Seq<u8>,
    m: Contents,
    c1: spec_fn(nat) -> u128,
    n1: nat,
    c2: spec_fn(nat) -> u128,
    n2: nat,
)
    requires
        forall|i: nat, j: nat| n1 <= i && n2 <= j && i - n1 == j - n2 ==> #[trigger] c1(i) == #[trigger] c2(j),
    ensures
        ({
            let a = spec_drain(buf, m, c1, n1);
            let b = spec_drain(buf, m, c2, n2);
            &&& a.replies == b.replies
            &&& a.log == b.log
            &&& a.pending == b.pending
            &&& a.store == b.store
        }),
    decreases buf.len(),
{
    assert(c1(n1) == c2(n2));
    let (out, after) = spec_serve_frame(buf, m, c1(n1));
    if let FrameView::Handled { consumed, .. } = out {
        if 0 < consumed <= buf.len() {
            lemma_drain_clock(buf.subrange(consumed, buf.len() as int), after, c1, n1 + 1, c2, n2 + 1);
        }
    }
}

/// What serving the whole frames in a buffer gives.
pub struct BufferOutcome {
    /// The replies to send, one after the other.
    pub replies: Vec<u8>,
    /// The bytes to append to the write log: the frames of the writes.
    pub log: Vec<u8>,
    /// How many bytes at the front of the buffer are done with; the rest
    /// waits for the next read.
    pub consumed: usize,
}

/// `r` is what draining `buf` from `start` on gives, the frames served
/// from the `n`-th on at the readings of `clock`, with `m` and `after` the
/// store's contents before and after.
pub open spec fn drained(
    buf: Seq<u8>,
    start: int,
    m: Contents,
    clock: spec_fn(nat) -> u128,
    n: nat,
    r: BufferOutcome,
    after: Contents,
) -> bool {
    let d = spec_drain(buf.subrange(start, buf.len() as int), m, clock, n);
    &&& start <= r.consumed <= buf.len()
    &&& r.replies@ == d.replies
    &&& r.log@ == d.log
    &&& buf.subrange(r.consumed as int, buf.len() as int) == d.pending
    &&& after == d.store
}

/// The readings of `clock` from frame `n` on never run back, and lie between
/// `from` and `to`.
pub open spec fn readings_between(clock: spec_fn(nat) -> u128, n: nat, from: u128, to: u128) -> bool {
    forall|i: nat, j: nat|
        n <= i <= j ==> from <= #[trigger] clock(i) && clock(i) <= #[trigger] clock(j) && clock(j) <= to
}

fn serve_from(buf: &[u8], start: usize, store: &mut Store, Ghost(n): Ghost<nat>) -> (r: BufferOutcome)
    requires
        start <= buf@.len(),
    ensures
        old(store).clock() <= final(store).clock(),
        exists|clock: spec_fn(nat) -> u128|
            #[trigger] drained(buf@, start as int, old(store)@, clock, n, r, final(store)@)
                && readings_between(clock, n, old(store).clock(), final(store).clock()),
    decreases buf@.len() - start,
{
    let ghost m = store@;
    let rest = vstd::slice::slice_subrange(buf, start, buf.len());
    let now = store.now();
    let ghost c0 = |i: nat| now;
    proof {
        lemma_parse_value_bounds(rest@);
    }
    match serve_frame_at(rest, store, now) {
        FrameOutcome::NeedMore => {
            let r = BufferOutcome { replies: Vec::new(), log: Vec::new(), consumed: start };
            assert(drained(buf@, start as int, m, c0, n, r, store@));
            assert(readings_between(c0, n, old(store).clock(), store.clock()));
            r
        },
        FrameOutcome::Rejected { reply } => {
            let r = BufferOutcome { replies: reply, log: Vec::new(), consumed: buf.len() };
            assert(buf@.subrange(buf@.len() as int, buf@.len() as int) =~= Seq::<u8>::empty());
            assert(r.replies@ =~= reply@);
            assert(drained(buf@, start as int, m, c0, n, r, store@));
            assert(readings_between(c0, n, old(store).clock(), store.clock()));
            r
        },
        FrameOutcome::Handled { consumed, reply, log } => {
            let ghost mid = store@;
            let ghost mid_clock = store.clock();
            let tail = serve_from(buf, start + consumed, store, Ghost(n + 1));
            let ghost c2 = choose|clock: spec_fn(nat) -> u128|
                #[trigger] drained(buf@, start + consumed, mid, clock, n + 1, tail, store@)
                    && readings_between(clock, n + 1, mid_clock, store.clock());
            let ghost c = |i: nat|
                if i == n {
                    now
                } else {
                    c2(i)
                };
            let mut replies = reply;
            append_bytes(&mut replies, tail.replies.as_slice());
            let mut written = match log {
                Some(l) => l,
                None => Vec::new(),
            };
            append_bytes(&mut written, tail.log.as_slice());
            let r = BufferOutcome { replies, log: written, consumed: tail.consumed };
            proof {
                let later = rest@.subrange(consumed as int, rest@.len() as int);
                assert(later =~= buf@.subrange(start + consumed, buf@.len() as int));
                lemma_drain_clock(later, mid, c, n + 1, c2, n + 1);
                assert(c(n) == now);
                assert(drained(buf@, start as int, m, c, n, r, store@));
                assert(c2(n + 1) >= now && c2(n + 1) <= store.clock());
                assert forall|i: nat, j: nat| n <= i <= j implies old(store).clock() <= #[trigger] c(
                    i,
                ) && c(i) <= #[trigger] c(j) && c(j) <= store.clock() by {
                    if i > n {
                        assert(c(i) == c2(i) && c(j) == c2(j));
                    } else if j > n {
                        assert(c(j) == c2(j));
                        assert(c2(j) >= now);
                    }
                }
                assert(readings_between(c, n, old(store).clock(), store.clock()));
            }
            r
        },
    }
}

/// `r` is what draining `buf` gives when `n` frames were served before, at
/// clock readings that never run back and lie between `from` and `to`.
pub open spec fn drains_as(
    buf: Seq<u8>,
    m: Contents,
    n: nat,
    r: BufferOutcome,
    after: Contents,
    from: u128,
    to: u128,
) -> bool {
    exists|clock: spec_fn(nat) -> u128|
        #[trigger] drained(buf, 0, m, clock, n, r, after) && readings_between(clock, n, from, to)
}

/// Serves every whole frame at the front of `buf`, as the server does after
/// each read: says what to send, what to append to the write log and how
/// many bytes are done with (all of them after bytes that are not RESP).
/// Each frame runs at a clock reading of its own, whatever the count of the
/// frames served before: the readings never run back, the first is no
/// earlier than any the store used before, and the store remembers the
/// latest.
pub fn serve_buffer(buf: &[u8], store: &mut Store) -> (r: BufferOutcome)
    ensures
        old(store).clock() <= final(store).clock(),
        forall|n: nat|
            #[trigger] drains_as(
                buf@,
                old(store)@,
                n,
                r,
                final(store)@,
                old(store).clock(),
                final(store).clock(),
            ),
{
    let ghost m = store@;
    let ghost before = store.clock();
    let r = serve_from(buf, 0, store, Ghost(0));
    proof {
        let c0 = choose|clock: spec_fn(nat) -> u128|
            #[trigger] drained(buf@, 0, m, clock, 0, r, store@)
                && readings_between(clock, 0, before, store.clock());
        assert forall|n: nat| #[trigger] drains_as(buf@, m, n, r, store@, before, store.clock()) by {
            let c = |i: nat|
                if i >= n {
                    c0((i - n) as nat)
                } else {
                    0u128
                };
            lemma_drain_clock(buf@.subrange(0, buf@.len() as int), m, c0, 0, c, n);
            assert(drained(buf@, 0, m, c, n, r, store@));
            assert forall|i: nat, j: nat| n <= i <= j implies before <= #[trigger] c(i) && c(i)
                <= #[trigger] c(j) && c(j) <= store.clock() by {
                assert(c(i) == c0((i - n) as nat) && c(j) == c0((j - n) as nat));
            }
            assert(readings_between(c, n, before, store.clock()));
        }
    }
    r
}

/// Exactly one value's bytes.
pub open spec fn whole_frame(f: Seq<u8>) -> bool {
    spec_parse_value(f).0 is Ok && spec_parse_value(f).1 == f.len()
}

/// The first bytes of a value, not all of them.
pub open spec fn partial_frame(t: Seq<u8>) -> bool {
    exists|g: Seq<u8>|
        #![trigger spec_parse_value(g)]
        spec_parse_value(g).0 is Ok && t.len() < spec_parse_value(g).1 && t == g.subrange(
            0,
            t.len() as int,
        )
}

/// The bytes from frame `j` on.
spec fn from_frame(frames: Seq<Seq<u8>>, t: Seq<u8>, j: nat) -> Seq<u8> {
    frames.subrange(j as int, frames.len() as int).flatten() + t
}

/// No whole frame among the first `q` bytes from frame `j` on.
spec fn waiting(frames: Seq<Seq<u8>>, j: nat, q: int) -> bool {
    j == frames.len() || (j < frames.len() && q < frames[j as int].len())
}

/// What serving the first `q` bytes from frame `j` on gives.
spec fn spec_expected(
    frames: Seq<Seq<u8>>,
    t: Seq<u8>,
    j: nat,
    q: int,
    m: Contents,
    clock: spec_fn(nat) -> u128,
) -> SessionView
    decreases frames.len() - j,
{
    if j < frames.len() && frames[j as int].len() <= q {
        let (out, after) = spec_serve_frame(frames[j as int], m, clock(j));
        then(
            frame_step(out, after, j),
            spec_expected(frames, t, j + 1, q - frames[j as int].len(), after, clock),
        )
    } else {
        idle(from_frame(frames, t, j).subrange(0, q), m, j)
    }
}

proof fn lemma_from_frame_split(frames: Seq<Seq<u8>>, t: Seq<u8>, j: nat)
    ensures
        j < frames.len() ==> from_frame(frames, t, j) == frames[j as int] + from_frame(
            frames,
            t,
            j + 1,
        ),
        j == frames.len() ==> from_frame(frames, t, j) == t,
{
    let s = frames.subrange(j as int, frames.len() as int);
    if j < frames.len() {
        assert(s.first() == frames[j as int]);
        assert(s.drop_first() =~= frames.subrange(j + 1int, frames.len() as int));
        assert(s.flatten() == s.first() + s.drop_first().flatten());
        assert((frames[j as int] + s.drop_first().flatten()) + t =~= frames[j as int] + (
        s.drop_first().flatten() + t));
    } else if j == frames.len() {
        assert(s =~= Seq::<Seq<u8>>::empty());
        assert(Seq::<u8>::empty() + t =~= t);
    }
}

/// Draining the first `q` bytes from frame `j` on serves exactly the whole
/// frames among them.
proof fn lemma_drain_expected(
    frames: Seq<Seq<u8>>,
    t: Seq<u8>,
    j: nat,
    q: int,
    m: Contents,
    clock: spec_fn(nat) -> u128,
)
    requires
        forall|i: int| 0 <= i < frames.len() ==> whole_frame(#[trigger] frames[i]),
        partial_frame(t),
        j <= frames.len(),
        0 <= q <= from_frame(frames, t, j).len(),
    ensures
        spec_drain(from_frame(frames, t, j).subrange(0, q), m, clock, j) == spec_expected(
            frames,
            t,
            j,
            q,
            m,
            clock,
        ),
    decreases frames.len() - j,
{
    let y = from_frame(frames, t, j);
    let b = y.subrange(0, q);
    lemma_from_frame_split(frames, t, j);
    if j < frames.len() {
        let f = frames[j as int];
        let y1 = from_frame(frames, t, j + 1);
        assert(whole_frame(f));
        lemma_parse_value_bounds(f);
        if f.len() <= q {
            let later = y1.subrange(0, q - f.len());
            assert(b =~= f + later);
            lemma_serve_frame_ignores_later_bytes(f, later, m, clock(j));
            assert(b.subrange(f.len() as int, b.len() as int) =~= later);
            lemma_drain_expected(frames, t, j + 1, q - f.len(), spec_serve_frame(f, m, clock(j)).1, clock);
        } else {
            assert(b =~= f.subrange(0, q));
            lemma_parse_prefix(f, q);
        }
    } else {
        let g = choose|g: Seq<u8>|
            #![trigger spec_parse_value(g)]
            spec_parse_value(g).0 is Ok && t.len() < spec_parse_value(g).1 && t == g.subrange(
                0,
                t.len() as int,
            );
        lemma_parse_value_bounds(g);
        assert(y == t);
        assert(b =~= g.subrange(0, q));
        lemma_parse_prefix(g, q);
    }
}

/// Where serving the first `q` bytes from frame `j` on leaves the session:
/// the frames up to `served` are done, and the bytes left are the first ones
/// from there on, holding no whole frame.
proof fn lemma_expected_stops(
    frames: Seq<Seq<u8>>,
    t: Seq<u8>,
    j: nat,
    q: int,
    m: Contents,
    clock: spec_fn(nat) -> u128,
)
    requires
        j <= frames.len(),
        0 <= q <= from_frame(frames, t, j).len(),
    ensures
        ({
            let a = spec_expected(frames, t, j, q, m, clock);
            let r = a.pending.len() as int;
            &&& j <= a.served <= frames.len()
            &&& 0 <= r <= q
            &&& a.pending == from_frame(frames, t, a.served).subrange(0, r)
            &&& from_frame(frames, t, a.served) == from_frame(frames, t, j).subrange(
                q - r,
                from_frame(frames, t, j).len() as int,
            )
            &&& waiting(frames, a.served, r)
        }),
    decreases frames.len() - j,
{
    let y = from_frame(frames, t, j);
    lemma_from_frame_split(frames, t, j);
    if j < frames.len() && frames[j as int].len() <= q {
        let f = frames[j as int];
        let after = spec_serve_frame(f, m, clock(j)).1;
        lemma_expected_stops(frames, t, j + 1, q - f.len(), after, clock);
        let y1 = from_frame(frames, t, j + 1);
        let a1 = spec_expected(frames, t, j + 1, q - f.len(), after, clock);
        let r = a1.pending.len() as int;
        assert(y1 =~= y.subrange(f.len() as int, y.len() as int));
        assert(y1.subrange(q - f.len() - r, y1.len() as int) =~= y.subrange(q - r, y.len() as int));
    } else {
        assert(y.subrange(0, y.len() as int) =~= y);
    }
}

/// Serving the first `q` bytes is serving the first `q2 <= q`, and then the
/// rest from where that stopped.
proof fn lemma_expected_then(
    frames: Seq<Seq<u8>>,
    t: Seq<u8>,
    j: nat,
    q2: int,
    q: int,
    m: Contents,
    clock: spec_fn(nat) -> u128,
)
    requires
        j <= frames.len(),
        0 <= q2 <= q,
        q <= from_frame(frames, t, j).len(),
    ensures
        ({
            let a = spec_expected(frames, t, j, q2, m, clock);
            spec_expected(frames, t, j, q, m, clock) == then(
                a,
                spec_expected(frames, t, a.served, q - q2 + a.pending.len(), a.store, clock),
            )
        }),
    decreases frames.len() - j,
{
    lemma_from_frame_split(frames, t, j);
    if j < frames.len() && frames[j as int].len() <= q2 {
        let f = frames[j as int];
        let (out, after) = spec_serve_frame(f, m, clock(j));
        lemma_expected_then(frames, t, j + 1, q2 - f.len(), q - f.len(), after, clock);
        let s = frame_step(out, after, j);
        let a1 = spec_expected(frames, t, j + 1, q2 - f.len(), after, clock);
        let x = spec_expected(frames, t, a1.served, q - q2 + a1.pending.len(), a1.store, clock);
        assert(then(s, then(a1, x)) =~= then(then(s, a1), x));
    } else {
        let a = spec_expected(frames, t, j, q2, m, clock);
        let e = spec_expected(frames, t, j, q, m, clock);
        assert(then(a, e) =~= e);
    }
}

/// A session that has received the first `q` bytes from frame `j` on, and
/// receives the rest as `chunks`, serves the same as if all of them had come
/// at once.
proof fn lemma_session_expected(
    chunks: Seq<Seq<u8>>,
    frames: Seq<Seq<u8>>,
    t: Seq<u8>,
    j: nat,
    q: int,
    m: Contents,
    clock: spec_fn(nat) -> u128,
)
    requires
        forall|i: int| 0 <= i < frames.len() ==> whole_frame(#[trigger] frames[i]),
        partial_frame(t),
        j <= frames.len(),
        0 <= q <= from_frame(frames, t, j).len(),
        waiting(frames, j, q),
        chunks.flatten() == from_frame(frames, t, j).subrange(q, from_frame(frames, t, j).len() as int),
    ensures
        spec_session(chunks, from_frame(frames, t, j).subrange(0, q), m, clock, j) == spec_expected(
            frames,
            t,
            j,
            from_frame(frames, t, j).len() as int,
            m,
            clock,
        ),
    decreases chunks.len(),
{
    let y = from_frame(frames, t, j);
    let b = y.subrange(0, q);
    if chunks.len() == 0 {
        assert(q == y.len());
    } else {
        let c0 = chunks[0];
        let rest = chunks.drop_first();
        assert(chunks.flatten() == chunks.first() + rest.flatten());
        let q2 = q + c0.len();
        assert(y.subrange(q, y.len() as int) =~= c0 + rest.flatten());
        assert(q2 <= y.len());
        assert forall|i: int| 0 <= i < q2 implies #[trigger] (b + c0)[i] == y.subrange(0, q2)[i] by {
            if i >= q {
                assert(c0[i - q] == y.subrange(q, y.len() as int)[i - q]);
            }
        }
        assert(b + c0 =~= y.subrange(0, q2));
        lemma_drain_expected(frames, t, j, q2, m, clock);
        lemma_expected_stops(frames, t, j, q2, m, clock);
        let d = spec_expected(frames, t, j, q2, m, clock);
        let r = d.pending.len() as int;
        let yj = from_frame(frames, t, d.served);
        assert(rest.flatten() =~= (c0 + rest.flatten()).subrange(c0.len() as int, (c0
            + rest.flatten()).len() as int));
        assert(rest.flatten() =~= y.subrange(q2, y.len() as int));
        assert(rest.flatten() =~= yj.subrange(r, yj.len() as int));
        lemma_session_expected(rest, frames, t, d.served, r, d.store, clock);
        lemma_expected_then(frames, t, j, q2, y.len() as int, m, clock);
    }
}

/// Serving all the bytes from frame `j` on serves each remaining frame in
/// turn and leaves the partial frame `t` waiting.
proof fn lemma_expected_frames(
    frames: Seq<Seq<u8>>,
    t: Seq<u8>,
    j: nat,
    m: Contents,
    clock: spec_fn(nat) -> u128,
)
    requires
        j <= frames.len(),
    ensures
        ({
            let e = spec_expected(frames, t, j, from_frame(frames, t, j).len() as int, m, clock);
            let s = spec_serve_frames(frames.subrange(j as int, frames.len() as int), m, clock, j);
            &&& e.replies == s.replies
            &&& e.log == s.log
            &&& e.pending == t
            &&& e.store == s.store
            &&& e.served == frames.len()
            &&& s.served == frames.len()
        }),
    decreases frames.len() - j,
{
    lemma_from_frame_split(frames, t, j);
    let sub = frames.subrange(j as int, frames.len() as int);
    if j < frames.len() {
        let f = frames[j as int];
        let after = spec_serve_frame(f, m, clock(j)).1;
        lemma_expected_frames(frames, t, j + 1, m, clock);
        lemma_expected_frames(frames, t, j + 1, after, clock);
        assert(sub[0] == f);
        assert(sub.drop_first() =~= frames.subrange(j + 1int, frames.len() as int));
    } else {
        assert(sub =~= Seq::<Seq<u8>>::empty());
        assert(from_frame(frames, t, j).subrange(0, t.len() as int) =~= t);
    }
}

/// However a client's bytes are split into reads, the server answers the
/// same: when the bytes are whole frames followed by the first bytes of one
/// more, every whole frame is served in order (its reply sent and, for a
/// write, its bytes logged) and the unfinished frame waits in the buffer.
pub proof fn lemma_session_any_split(
    chunks: Seq<Seq<u8>>,
    frames: Seq<Seq<u8>>,
    t: Seq<u8>,
    m: Contents,
    clock: spec_fn(nat) -> u128,
)
    requires
        forall|i: int| 0 <= i < frames.len() ==> whole_frame(#[trigger] frames[i]),
        partial_frame(t),
        chunks.flatten() == frames.flatten() + t,
    ensures
        ({
            let s = spec_session(chunks, Seq::empty(), m, clock, 0);
            let e = spec_serve_frames(frames, m, clock, 0);
            &&& s.replies == e.replies
            &&& s.log == e.log
            &&& s.pending == t
            &&& s.store == e.store
            &&& s.served == frames.len()
        }),
{
    let y = from_frame(frames, t, 0);
    assert(frames.subrange(0, frames.len() as int) =~= frames);
    assert(y.subrange(0, 0) =~= Seq::<u8>::empty());
    assert(y.subrange(0, y.len() as int) =~= y);
    if frames.len() > 0 {
        assert(whole_frame(frames[0]));
        lemma_parse_value_bounds(frames[0]);
    }
    lemma_session_expected(chunks, frames, t, 0, 0, m, clock);
    lemma_expected_frames(frames, t, 0, m, clock);
}

} // verus!
