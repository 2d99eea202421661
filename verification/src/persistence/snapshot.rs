//! Snapshots: every live key with its value and remaining time to live, and
//! the store that a snapshot gives back.

use vstd::prelude::*;

use crate::storage::{Contents, EntryView, Store, spec_expiry, spec_live};
use crate::text::copy_range;

verus! {

/// One key of a snapshot.
pub struct SnapshotEntry {
    pub key: String,
    pub value: Vec<u8>,
    /// Nanoseconds the key had left to live when the snapshot was taken;
    /// `None` for a key that does not expire.
    pub ttl_remaining: Option<u128>,
}

/// The model of a snapshot entry: key, value, remaining time to live.
pub type SnapshotView = (Seq<char>, Seq<u8>, Option<u128>);

impl SnapshotEntry {
    pub open spec fn view(&self) -> SnapshotView {
        (self.key@, self.value@, self.ttl_remaining)
    }
}

pub open spec fn snapshot_views(es: Seq<SnapshotEntry>) -> Seq<SnapshotView> {
    Seq::new(es.len(), |i: int| es[i].view())
}

/// The time an entry with expiry `expires_at` has left at `now` (for an
/// entry that has not expired).
pub open spec fn spec_remaining(expires_at: Option<u128>, now: u128) -> Option<u128> {
    match expires_at {
        Some(t) => Some((t - now) as u128),
        None => None,
    }
}

/// `es` is a snapshot of the contents `m` taken at `now`: each live key once,
/// with its value and remaining time to live, in some order.
pub open spec fn is_snapshot_of(es: Seq<SnapshotView>, m: Contents, now: u128) -> bool {
    let live = spec_live(m, now);
    &&& forall|i: int|
        0 <= i < es.len() ==> live.contains_key(#[trigger] es[i].0) && es[i].1 == live[es[i].0].0
            && es[i].2 == spec_remaining(live[es[i].0].1, now)
    &&& forall|i: int, j: int| 0 <= i < j < es.len() ==> #[trigger] es[i].0 != #[trigger] es[j].0
    &&& forall|k: Seq<char>|
        #[trigger] live.contains_key(k) ==> exists|i: int| 0 <= i < es.len() && #[trigger] es[i].0 == k
}

/// The contents that loading the snapshot `es` into `base` at `now` gives:
/// each entry stored in turn, expiring its remaining time after `now`.
pub open spec fn spec_restore(base: Contents, es: Seq<SnapshotView>, now: u128) -> Contents
    decreases es.len(),
{
    if es.len() == 0 {
        base
    } else {
        let last = es[es.len() - 1];
        spec_restore(base, es.subrange(0, es.len() - 1), now).insert(
            last.0,
            (last.1, spec_expiry(now, last.2)),
        )
    }
}

/// Collects the snapshot of `store` at clock reading `now`: every entry that
/// has not expired, with the time it has left.
pub fn collect_snapshot_at(store: &Store, now: u128) -> (r: Vec<SnapshotEntry>)
    ensures
        is_snapshot_of(snapshot_views(r@), store@, now),
{
    let entries = store.snapshot_entries();
    let ghost m = store@;
    let ghost live = spec_live(m, now);
    let mut out: Vec<SnapshotEntry> = Vec::new();
    let mut i: usize = 0;
    while i < entries.len()
        invariant
            0 <= i <= entries@.len(),
            m == store@,
            live == spec_live(m, now),
            forall|a: int|
                0 <= a < entries@.len() ==> m.contains_key(#[trigger] entries@[a].0@)
                    && entries@[a].1.view() == m[entries@[a].0@],
            forall|a: int, b: int|
                0 <= a < b < entries@.len() ==> #[trigger] entries@[a].0@
                    != #[trigger] entries@[b].0@,
            forall|k: Seq<char>|
                #[trigger] m.contains_key(k) ==> exists|a: int|
                    0 <= a < entries@.len() && #[trigger] entries@[a].0@ == k,
            // `out` holds exactly the live entries among the first `i`, each
            // key once
            forall|c: int|
                0 <= c < out@.len() ==> live.contains_key(#[trigger] out@[c].key@)
                    && out@[c].value@ == live[out@[c].key@].0 && out@[c].ttl_remaining
                    == spec_remaining(live[out@[c].key@].1, now),
            forall|c: int|
                0 <= c < out@.len() ==> exists|a: int|
                    0 <= a < i && #[trigger] entries@[a].0@ == (#[trigger] out@[c]).key@,
            forall|c: int, d: int|
                0 <= c < d < out@.len() ==> #[trigger] out@[c].key@ != #[trigger] out@[d].key@,
            forall|a: int|
                0 <= a < i && #[trigger] live.contains_key(entries@[a].0@) ==> exists|c: int|
                    0 <= c < out@.len() && #[trigger] out@[c].key@ == entries@[a].0@,
        decreases entries@.len() - i,
    {
        let key = &entries[i].0;
        let entry = &entries[i].1;
        if !entry.expired_at(now) {
            let ttl_remaining = match entry.expires_at {
                Some(t) => Some(t - now),
                None => None,
            };
            let value = copy_range(entry.value.as_slice(), 0, entry.value.len());
            proof {
                assert(entry.value@.subrange(0, entry.value@.len() as int) == entry.value@);
            }
            let item = SnapshotEntry { key: key.clone(), value, ttl_remaining };
            let ghost before = out@;
            out.push(item);
            proof {
                assert(out@[before.len() as int] == item);
                assert forall|c: int, d: int|
                    0 <= c < d < out@.len() implies #[trigger] out@[c].key@
                    != #[trigger] out@[d].key@ by {
                    if d == before.len() {
                        let a = choose|a: int|
                            0 <= a < i && #[trigger] entries@[a].0@ == before[c].key@;
                        assert(out@[c] == before[c]);
                        assert(a != i);
                    } else {
                        assert(out@[c] == before[c] && out@[d] == before[d]);
                    }
                }
                assert forall|c: int|
                    0 <= c < out@.len() implies exists|a: int|
                    0 <= a < i + 1 && #[trigger] entries@[a].0@ == (#[trigger] out@[c]).key@ by {
                    if c == before.len() {
                        assert(entries@[i as int].0@ == out@[c].key@);
                    } else {
                        assert(out@[c] == before[c]);
                        let a = choose|a: int|
                            0 <= a < i && #[trigger] entries@[a].0@ == before[c].key@;
                        assert(entries@[a].0@ == out@[c].key@);
                    }
                }
                assert forall|a: int|
                    0 <= a < i + 1 && #[trigger] live.contains_key(entries@[a].0@) implies exists|
                    c: int,
                | 0 <= c < out@.len() && #[trigger] out@[c].key@ == entries@[a].0@ by {
                    if a == i {
                        assert(out@[before.len() as int].key@ == entries@[a].0@);
                    } else {
                        let c = choose|c: int|
                            0 <= c < before.len() && #[trigger] before[c].key@ == entries@[a].0@;
                        assert(out@[c] == before[c]);
                    }
                }
            }
        } else {
            proof {
                assert forall|c: int|
                    0 <= c < out@.len() implies exists|a: int|
                    0 <= a < i + 1 && #[trigger] entries@[a].0@ == (#[trigger] out@[c]).key@ by {
                    let a = choose|a: int| 0 <= a < i && #[trigger] entries@[a].0@ == out@[c].key@;
                }
                assert(!live.contains_key(entries@[i as int].0@));
            }
        }
        i = i + 1;
    }
    proof {
        let es = snapshot_views(out@);
        assert forall|k: Seq<char>| #[trigger] live.contains_key(k) implies exists|c: int|
            0 <= c < es.len() && #[trigger] es[c].0 == k by {
            let a = choose|a: int| 0 <= a < entries@.len() && #[trigger] entries@[a].0@ == k;
            assert(live.contains_key(entries@[a].0@));
            let c = choose|c: int| 0 <= c < out@.len() && #[trigger] out@[c].key@ == entries@[a].0@;
            assert(es[c].0 == k);
        }
    }
    out
}

/// Collects the snapshot of `store` now (see `collect_snapshot_at`), at a
/// clock reading no earlier than any the store has used.
pub fn collect_snapshot(store: &Store) -> (r: Vec<SnapshotEntry>)
    ensures
        exists|now: u128| now >= store.clock() && is_snapshot_of(snapshot_views(r@), store@, now),
{
    let now = store.reading();
    collect_snapshot_at(store, now)
}

/// Loads the snapshot `entries` into `store` at clock reading `now`: each
/// entry stored in turn, with its remaining time to live.
pub fn load_snapshot_at(store: &mut Store, entries: &Vec<SnapshotEntry>, now: u128)
    ensures
        final(store)@ == spec_restore(old(store)@, snapshot_views(entries@), now),
        final(store).clock() == old(store).clock(),
{
    let ghost base = store@;
    let ghost es = snapshot_views(entries@);
    let mut i: usize = 0;
    while i < entries.len()
        invariant
            0 <= i <= entries@.len(),
            es == snapshot_views(entries@),
            store@ == spec_restore(base, es.subrange(0, i as int), now),
            store.clock() == old(store).clock(),
        decreases entries@.len() - i,
    {
        let e = &entries[i];
        let value = copy_range(e.value.as_slice(), 0, e.value.len());
        proof {
            assert(e.value@.subrange(0, e.value@.len() as int) == e.value@);
        }
        store.set_at(e.key.as_str(), value, e.ttl_remaining, now);
        proof {
            assert(es.subrange(0, i + 1).subrange(0, i as int) == es.subrange(0, i as int));
        }
        i = i + 1;
    }
    proof {
        assert(es.subrange(0, entries@.len() as int) == es);
    }
}

/// A new store holding the snapshot `entries`, loaded at the new store's
/// first clock reading.
pub fn restore_snapshot(entries: &Vec<SnapshotEntry>) -> (r: Store)
    ensures
        exists|now: u128|
            r.clock() == now && r@ == spec_restore(
                Map::<Seq<char>, EntryView>::empty(),
                snapshot_views(entries@),
                now,
            ),
{
    let mut store = Store::new();
    let now = store.now();
    load_snapshot_at(&mut store, entries, now);
    store
}

/// Loading a snapshot whose keys are distinct gives a store that holds
/// exactly those keys, each with the value it came with and an expiry its
/// remaining time to live after the load's clock reading.
pub proof fn lemma_restore_distinct(es: Seq<SnapshotView>, now: u128)
    requires
        forall|i: int, j: int| 0 <= i < j < es.len() ==> #[trigger] es[i].0 != #[trigger] es[j].0,
    ensures
        forall|k: Seq<char>|
            #[trigger] spec_restore(Map::empty(), es, now).contains_key(k) <==> exists|i: int|
                0 <= i < es.len() && #[trigger] es[i].0 == k,
        forall|i: int|
            0 <= i < es.len() ==> #[trigger] spec_restore(Map::empty(), es, now)[es[i].0] == (
            es[i].1,
            spec_expiry(now, es[i].2),
            ),
    decreases es.len(),
{
    if es.len() > 0 {
        let n = es.len() - 1;
        let front = es.subrange(0, n);
        lemma_restore_distinct(front, now);
        let r = spec_restore(Map::empty(), es, now);
        assert forall|k: Seq<char>| #[trigger] r.contains_key(k) <==> exists|i: int|
            0 <= i < es.len() && #[trigger] es[i].0 == k by {
            if exists|i: int| 0 <= i < es.len() && #[trigger] es[i].0 == k {
                let i = choose|i: int| 0 <= i < es.len() && #[trigger] es[i].0 == k;
                if i < n {
                    assert(front[i].0 == k);
                }
            }
            if spec_restore(Map::empty(), front, now).contains_key(k) {
                let i = choose|i: int| 0 <= i < front.len() && #[trigger] front[i].0 == k;
                assert(es[i].0 == k);
            }
        }
        assert forall|i: int| 0 <= i < es.len() implies #[trigger] r[es[i].0] == (
            es[i].1,
            spec_expiry(now, es[i].2),
        ) by {
            assert(r == spec_restore(Map::empty(), front, now).insert(
                es[n].0,
                (es[n].1, spec_expiry(now, es[n].2)),
            ));
            if i < n {
                assert(front[i] == es[i]);
                assert(es[i].0 != es[n].0);
                assert(spec_restore(Map::empty(), front, now)[front[i].0] == (
                    front[i].1,
                    spec_expiry(now, front[i].2),
                ));
            }
        }
    }
}

/// Loading a snapshot of a store, at the clock reading at which it was
/// taken, gives back exactly the store's live entries: the same keys, values
/// and expiry times.
pub proof fn lemma_restore_snapshot(es: Seq<SnapshotView>, m: Contents, now: u128)
    requires
        is_snapshot_of(es, m, now),
    ensures
        spec_restore(Map::empty(), es, now) == spec_live(m, now),
{
    let live = spec_live(m, now);
    let r = spec_restore(Map::empty(), es, now);
    lemma_restore_distinct(es, now);
    assert forall|k: Seq<char>| #[trigger] r.contains_key(k) <==> live.contains_key(k) by {
        if live.contains_key(k) {
            let i = choose|i: int| 0 <= i < es.len() && #[trigger] es[i].0 == k;
        }
        if r.contains_key(k) {
            let i = choose|i: int| 0 <= i < es.len() && #[trigger] es[i].0 == k;
        }
    }
    assert forall|k: Seq<char>| #[trigger] r.contains_key(k) implies r[k] == live[k] by {
        let i = choose|i: int| 0 <= i < es.len() && #[trigger] es[i].0 == k;
        assert(r[es[i].0] == (es[i].1, spec_expiry(now, es[i].2)));
    }
    assert(r =~= live);
}

/// What a snapshot taken at `now` holds: each key that holds a value at
/// `now` (stored, and not expired), once, with its value; its remaining time
/// to live is its expiry minus `now`, and none for a key that does not
/// expire. A key that has expired by `now` is left out.
pub proof fn lemma_snapshot_contents(es: Seq<SnapshotView>, m: Contents, now: u128)
    requires
        is_snapshot_of(es, m, now),
    ensures
        forall|i: int|
            0 <= i < es.len() ==> m.contains_key(#[trigger] es[i].0) && es[i].1 == m[es[i].0].0
                && match m[es[i].0].1 {
                Some(t) => now <= t && es[i].2 == Some((t - now) as u128),
                None => es[i].2 is None,
            },
        forall|k: Seq<char>|
            #[trigger] m.contains_key(k) && (m[k].1 matches Some(t) && t < now) ==> forall|i: int|
                0 <= i < es.len() ==> #[trigger] es[i].0 != k,
        forall|k: Seq<char>|
            #[trigger] m.contains_key(k) && !(m[k].1 matches Some(t) && t < now) ==> exists|i: int|
                0 <= i < es.len() && #[trigger] es[i].0 == k,
{
    let live = spec_live(m, now);
    assert forall|k: Seq<char>|
        #[trigger] m.contains_key(k) && !(m[k].1 matches Some(t) && t < now) implies exists|i: int|
        0 <= i < es.len() && #[trigger] es[i].0 == k by {
        assert(live.contains_key(k));
    }
}

} // verus!
