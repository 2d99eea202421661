//! The in-memory store: keys mapped to byte values, each with an optional
//! expiry time, held in a `DashMap`.
//!
//! Time is read from the store's own clock, in nanoseconds since the store was
//! made. The clock never runs back: the store remembers the latest reading it
//! has used (`clock`), and every new reading is at least that. Every operation
//! that looks at expiry has a form `..._at` that takes the clock reading as an
//! argument and is specified exactly; the form without `_at` reads the clock
//! itself, at a reading no earlier than any taken before, and remembers it.

use vstd::prelude::*;

use dashmap::DashMap;
use tokio::time::Instant;

verus! {

#[verifier::external_type_specification]
#[verifier::external_body]
#[verifier::reject_recursive_types(K)]
#[verifier::reject_recursive_types(V)]
#[verifier::reject_recursive_types(S)]
pub struct ExDashMap<K, V, S>(DashMap<K, V, S>);

#[verifier::external_type_specification]
#[verifier::external_body]
pub struct ExInstant(Instant);

/// The model of an entry: its value and, if it expires, the clock reading
/// after which it is gone.
pub type EntryView = (Seq<u8>, Option<u128>);

/// The model of the store's contents: each key's value and expiry.
pub type Contents = Map<Seq<char>, EntryView>;

/// A stored value.
#[derive(Clone)]
pub struct Entry {
    pub value: Vec<u8>,
    /// The clock reading (nanoseconds) after which the entry is expired;
    /// `None` for an entry that never expires.
    pub expires_at: Option<u128>,
}

impl Entry {
    pub open spec fn view(&self) -> EntryView {
        (self.value@, self.expires_at)
    }

    /// Whether the entry has expired at clock reading `now`.
    pub fn expired_at(&self, now: u128) -> (r: bool)
        ensures
            r == spec_expired(self.view(), now),
    {
        match self.expires_at {
            Some(t) => now > t,
            None => false,
        }
    }
}

/// An entry is expired once the clock has gone past its expiry time.
pub open spec fn spec_expired(e: EntryView, now: u128) -> bool {
    match e.1 {
        Some(t) => now > t,
        None => false,
    }
}

/// The expiry time of an entry set at `now` with time to live `ttl`
/// (saturating at the end of the clock's range).
pub open spec fn spec_expiry(now: u128, ttl: Option<u128>) -> Option<u128> {
    match ttl {
        Some(d) => Some(
            if now + d > u128::MAX {
                u128::MAX
            } else {
                (now + d) as u128
            },
        ),
        None => None,
    }
}

/// The contents after the lazy expiry check of `key`: gone if it has expired.
pub open spec fn spec_purge(m: Contents, key: Seq<char>, now: u128) -> Contents {
    if m.contains_key(key) && spec_expired(m[key], now) {
        m.remove(key)
    } else {
        m
    }
}

/// The value stored under `key`, if any.
pub open spec fn spec_value(m: Contents, key: Seq<char>) -> Option<Seq<u8>> {
    if m.contains_key(key) {
        Some(m[key].0)
    } else {
        None
    }
}

/// The entries that are still live at `now`.
pub open spec fn spec_live(m: Contents, now: u128) -> Contents {
    Map::new(|k: Seq<char>| m.contains_key(k) && !spec_expired(m[k], now), |k: Seq<char>| m[k])
}

pub open spec fn bytes_view(r: Option<Vec<u8>>) -> Option<Seq<u8>> {
    match r {
        Some(v) => Some(v@),
        None => None,
    }
}

pub open spec fn empty_contents() -> Contents {
    Map::empty()
}

/// What a `DashMap` of the store holds, by key.
pub uninterp spec fn map_contents(m: DashMap<String, Entry>) -> Contents;

/// `DashMap::new`: an empty map.
#[verifier::external_body]
fn map_new() -> (r: DashMap<String, Entry>)
    ensures
        map_contents(r) == empty_contents(),
{
    DashMap::new()
}

/// `DashMap::insert`: the key now maps to the entry (replacing any old one).
#[verifier::external_body]
fn map_insert(m: &mut DashMap<String, Entry>, key: String, entry: Entry)
    ensures
        map_contents(*final(m)) == map_contents(*old(m)).insert(key@, entry.view()),
{
    m.insert(key, entry);
}

/// `DashMap::get`, with the entry found cloned out of the map.
#[verifier::external_body]
fn map_get(m: &DashMap<String, Entry>, key: &str) -> (r: Option<Entry>)
    ensures
        match r {
            Some(e) => map_contents(*m).contains_key(key@) && e.view() == map_contents(*m)[key@],
            None => !map_contents(*m).contains_key(key@),
        },
{
    match m.get(key) {
        Some(found) => Some(found.value().clone()),
        None => None,
    }
}

/// `DashMap::contains_key`.
#[verifier::external_body]
fn map_contains(m: &DashMap<String, Entry>, key: &str) -> (r: bool)
    ensures
        r == map_contents(*m).contains_key(key@),
{
    m.contains_key(key)
}

/// `DashMap::remove`: the key is gone; the result says whether it was there.
#[verifier::external_body]
fn map_remove(m: &mut DashMap<String, Entry>, key: &str) -> (r: bool)
    ensures
        map_contents(*final(m)) == map_contents(*old(m)).remove(key@),
        r == map_contents(*old(m)).contains_key(key@),
{
    m.remove(key).is_some()
}

/// `DashMap::remove_if` with the expiry test at `now` as the condition: the
/// key is removed exactly when it is present and its entry has expired.
#[verifier::external_body]
fn map_remove_expired(m: &mut DashMap<String, Entry>, key: &str, now: u128)
    ensures
        map_contents(*final(m)) == spec_purge(map_contents(*old(m)), key@, now),
{
    m.remove_if(key, |_, entry| entry.expired_at(now));
}

/// `DashMap::iter`, with each key and entry cloned out: every key of the map
/// comes out once, with its entry, in an order that the contract leaves open.
#[verifier::external_body]
fn map_entries(m: &DashMap<String, Entry>) -> (r: Vec<(String, Entry)>)
    ensures
        forall|i: int|
            0 <= i < r@.len() ==> map_contents(*m).contains_key(#[trigger] r@[i].0@)
                && r@[i].1.view() == map_contents(*m)[r@[i].0@],
        forall|i: int, j: int| 0 <= i < j < r@.len() ==> #[trigger] r@[i].0@ != #[trigger] r@[j].0@,
        forall|k: Seq<char>|
            #[trigger] map_contents(*m).contains_key(k) ==> exists|i: int|
                0 <= i < r@.len() && #[trigger] r@[i].0@ == k,
{
    m.iter().map(|item| (item.key().clone(), item.value().clone())).collect()
}

/// `Instant::now`.
#[verifier::external_body]
fn instant_now() -> (r: Instant) {
    Instant::now()
}

/// `Instant::elapsed`, in nanoseconds: the contract says nothing of the
/// reading, which depends on the time at which it is taken.
#[verifier::external_body]
fn nanos_since(origin: &Instant) -> (r: u128) {
    origin.elapsed().as_nanos()
}

/// The key-value store.
pub struct Store {
    data: DashMap<String, Entry>,
    origin: Instant,
    /// The latest clock reading the store has used.
    latest: u128,
}

impl Store {
    /// The keys of the store with their values and expiry times.
    pub closed spec fn view(&self) -> Contents {
        map_contents(self.data)
    }

    /// The latest clock reading the store has used: no later reading is
    /// below it.
    pub closed spec fn clock(&self) -> u128 {
        self.latest
    }

    /// An empty store, whose clock starts now.
    pub fn new() -> (s: Store)
        ensures
            s@ == Map::<Seq<char>, EntryView>::empty(),
            s.clock() == 0,
    {
        Store { data: map_new(), origin: instant_now(), latest: 0 }
    }

    /// A reading of the store's clock, never below the latest one used.
    pub(crate) fn reading(&self) -> (r: u128)
        ensures
            r >= self.clock(),
    {
        let t = nanos_since(&self.origin);
        if t < self.latest {
            self.latest
        } else {
            t
        }
    }

    /// The store's clock: nanoseconds since the store was made. The reading
    /// is no earlier than any taken before, and the store remembers it.
    pub fn now(&mut self) -> (r: u128)
        ensures
            r >= old(self).clock(),
            final(self).clock() == r,
            final(self)@ == old(self)@,
    {
        let r = self.reading();
        self.latest = r;
        r
    }

    /// Every key with its entry, each key once.
    pub fn snapshot_entries(&self) -> (r: Vec<(String, Entry)>)
        ensures
            forall|i: int|
                0 <= i < r@.len() ==> self@.contains_key(#[trigger] r@[i].0@) && r@[i].1.view()
                    == self@[r@[i].0@],
            forall|i: int, j: int|
                0 <= i < j < r@.len() ==> #[trigger] r@[i].0@ != #[trigger] r@[j].0@,
            forall|k: Seq<char>|
                #[trigger] self@.contains_key(k) ==> exists|i: int|
                    0 <= i < r@.len() && #[trigger] r@[i].0@ == k,
    {
        map_entries(&self.data)
    }

    /// The value of `key` at clock reading `now`. An expired key is removed
    /// first and reads as absent.
    pub fn get_at(&mut self, key: &str, now: u128) -> (r: Option<Vec<u8>>)
        ensures
            final(self).clock() == old(self).clock(),
            final(self)@ == spec_purge(old(self)@, key@, now),
            bytes_view(r) == spec_value(final(self)@, key@),
    {
        map_remove_expired(&mut self.data, key, now);
        match map_get(&self.data, key) {
            Some(entry) => Some(entry.value),
            None => None,
        }
    }

    /// The value of `key` now (see `get_at`).
    pub fn get(&mut self, key: &str) -> (r: Option<Vec<u8>>)
        ensures
            exists|now: u128|
                now >= old(self).clock() && final(self).clock() == now && final(self)@ == spec_purge(old(self)@, key@, now) && bytes_view(r) == spec_value(
                    spec_purge(old(self)@, key@, now),
                    key@,
                ),
    {
        let now = self.now();
        self.get_at(key, now)
    }

    /// Stores `value` under `key` at clock reading `now`; with a time to live
    /// (nanoseconds) the entry expires that long after `now`.
    pub fn set_at(&mut self, key: &str, value: Vec<u8>, ttl: Option<u128>, now: u128)
        ensures
            final(self).clock() == old(self).clock(),
            final(self)@ == old(self)@.insert(key@, (value@, spec_expiry(now, ttl))),
    {
        let expires_at = match ttl {
            Some(d) => Some(now.saturating_add(d)),
            None => None,
        };
        let owned = key.to_owned();
        map_insert(&mut self.data, owned, Entry { value, expires_at });
    }

    /// Stores `value` under `key` now (see `set_at`).
    pub fn set(&mut self, key: &str, value: Vec<u8>, ttl: Option<u128>)
        ensures
            exists|now: u128|
                now >= old(self).clock() && final(self).clock() == now && final(self)@ == old(self)@.insert(key@, (value@, spec_expiry(now, ttl))),
    {
        let now = self.now();
        self.set_at(key, value, ttl, now);
    }

    /// Whether `key` is present at clock reading `now`; an expired key is
    /// removed first.
    pub fn key_exists_at(&mut self, key: &str, now: u128) -> (r: bool)
        ensures
            final(self).clock() == old(self).clock(),
            final(self)@ == spec_purge(old(self)@, key@, now),
            r == final(self)@.contains_key(key@),
    {
        map_remove_expired(&mut self.data, key, now);
        map_contains(&self.data, key)
    }

    /// Whether `key` is present now (see `key_exists_at`).
    pub fn key_exists(&mut self, key: &str) -> (r: bool)
        ensures
            exists|now: u128|
                now >= old(self).clock() && final(self).clock() == now && final(self)@ == spec_purge(old(self)@, key@, now) && r == spec_purge(
                    old(self)@,
                    key@,
                    now,
                ).contains_key(key@),
    {
        let now = self.now();
        self.key_exists_at(key, now)
    }

    /// Removes `key`; the result says whether it was there (expired or not).
    pub fn del(&mut self, key: &str) -> (r: bool)
        ensures
            final(self).clock() == old(self).clock(),
            final(self)@ == old(self)@.remove(key@),
            r == old(self)@.contains_key(key@),
    {
        map_remove(&mut self.data, key)
    }

    /// Removes every entry that has expired at clock reading `now`.
    pub fn sweep_expired_at(&mut self, now: u128)
        ensures
            final(self).clock() == old(self).clock(),
            final(self)@ == spec_live(old(self)@, now),
    {
        let ghost start = self@;
        let entries = self.snapshot_entries();
        let mut i: usize = 0;
        while i < entries.len()
            invariant
                0 <= i <= entries@.len(),
                self.clock() == old(self).clock(),
                forall|a: int|
                    0 <= a < entries@.len() ==> start.contains_key(#[trigger] entries@[a].0@)
                        && entries@[a].1.view() == start[entries@[a].0@],
                forall|a: int, b: int|
                    0 <= a < b < entries@.len() ==> #[trigger] entries@[a].0@
                        != #[trigger] entries@[b].0@,
                forall|k: Seq<char>|
                    #[trigger] start.contains_key(k) ==> exists|a: int|
                        0 <= a < entries@.len() && #[trigger] entries@[a].0@ == k,
                self@ == Map::new(
                    |k: Seq<char>|
                        start.contains_key(k) && !(spec_expired(start[k], now) && exists|a: int|
                            0 <= a < i && #[trigger] entries@[a].0@ == k),
                    |k: Seq<char>| start[k],
                ),
            decreases entries@.len() - i,
        {
            let expired = entries[i].1.expired_at(now);
            if expired {
                self.del(entries[i].0.as_str());
            }
            proof {
                let ki = entries@[i as int].0@;
                let next = Map::new(
                    |k: Seq<char>|
                        start.contains_key(k) && !(spec_expired(start[k], now) && exists|a: int|
                            0 <= a < i + 1 && #[trigger] entries@[a].0@ == k),
                    |k: Seq<char>| start[k],
                );
                assert forall|k: Seq<char>| #[trigger] self@.contains_key(k) == next.contains_key(
                    k,
                ) by {
                    if k == ki {
                        assert(entries@[i as int].0@ == k);
                    } else {
                        if exists|a: int| 0 <= a < i + 1 && #[trigger] entries@[a].0@ == k {
                            let a = choose|a: int| 0 <= a < i + 1 && #[trigger] entries@[a].0@ == k;
                            assert(a != i);
                        }
                    }
                }
                assert(self@ =~= next);
            }
            i = i + 1;
        }
        proof {
            assert forall|k: Seq<char>| #[trigger] self@.contains_key(k) == spec_live(
                start,
                now,
            ).contains_key(k) by {
                if start.contains_key(k) {
                    let a = choose|a: int| 0 <= a < entries@.len() && #[trigger] entries@[a].0@ == k;
                    assert(entries@[a].0@ == k);
                }
            }
            assert(self@ =~= spec_live(start, now));
        }
    }

    /// Removes every entry that has expired now (see `sweep_expired_at`).
    pub fn sweep_expired(&mut self)
        ensures
            exists|now: u128|
                now >= old(self).clock() && final(self).clock() == now && final(self)@ == spec_live(old(self)@, now),
    {
        let now = self.now();
        self.sweep_expired_at(now);
    }
}

/// The background sweep and the lazy check on access agree: after sweeping
/// at `now`, every key reads at `now` as it would have without the sweep.
pub proof fn lemma_sweep_preserves_reads(m: Contents, key: Seq<char>, now: u128)
    ensures
        spec_value(spec_purge(spec_live(m, now), key, now), key) == spec_value(
            spec_purge(m, key, now),
            key,
        ),
        spec_purge(spec_live(m, now), key, now).contains_key(key) == spec_purge(
            m,
            key,
            now,
        ).contains_key(key),
{
}

} // verus!
