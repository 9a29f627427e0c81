//! Server-side storage of a HyperDHT node: announced peer records per topic,
//! mutable and immutable values, and the handlers of the storage commands.
//!
//! Ages are measured on a monotonic clock in nanoseconds since each cache was
//! made; each operation reads the clock once and hands the reading to a
//! verified function that does the rest.
use vstd::prelude::*;
use vstd::pervasive::VecAdditionalExecFns;
use core::time::Duration;
use std::time::Instant;
use crate::text::same_str;
use crate::compact_encoding::{decode_uint, enc_buffer, enc_uint, parse_uint, uint_size, State};
use crate::crypto::{blake2b_256, ed25519_verify, hash, mutable_signable, ns_mutable_put, verify_detached};
use crate::hex::{encode as to_hex, hex_text};
use crate::hyperdht_messages::{
    decode_mutable_get_response_from_bytes, decode_mutable_put_request_from_bytes,
    encode_mutable_get_response_to_bytes, enc_mutable_get_response, parse_mutable_get_response,
    parse_mutable_put_request, MutableGetResponse, MutableGetResponseView, MutablePutRequestView,
    decode_hyper_peer_from_bytes, encode_lookup_raw_reply_to_bytes, enc_lookup_raw_reply, lookup_raw_reply_size,
    hyper_peers_size, hyper_peer_size, hyper_peers_view, parse_hyper_peer, all_relays, HyperPeer, HyperPeerView,
    LookupRawReply, LookupRawReplyView, decode_announce_from_bytes, encode_hyper_peer_to_bytes, enc_hyper_peer,
    parse_announce, AnnounceView, AnnounceMessage,
};
use crate::compact_encoding::{encode_uint as put_uint, preencode_uint};
use crate::crypto::{ann_signable, ns_announce, ns_unannounce, namespace_entry, dht_name_hash};
use crate::compact_encoding::valid_peers;
use crate::messages::Ipv4Peer;
use crate::peer::NodeId;

verus! {

/// `std::time::Instant`, a reading of the monotonic clock.
#[verifier::external_type_specification]
#[verifier::external_body]
pub struct ExInstant(Instant);

/// `Instant::now()`: a reading of the monotonic clock.
#[verifier::external_body]
fn instant_now() -> Instant {
    Instant::now()
}

/// `Instant::elapsed`: the time since `origin`. It depends on the clock, so
/// nothing is stated of it.
#[verifier::external_body]
fn elapsed(origin: &Instant) -> Duration {
    origin.elapsed()
}

/// `Duration::as_nanos`. The duration is opaque here, so nothing is stated
/// of the number.
#[verifier::external_body]
fn duration_nanos(d: &Duration) -> u128 {
    d.as_nanos()
}

/// How long a stored value lives, in nanoseconds.
#[derive(Debug, Clone, Copy, PartialEq, Eq)]
pub struct Age {
    pub nanos: u128,
}

impl Age {
    /// An age of `s` seconds.
    pub fn from_secs(s: u64) -> (a: Self)
        ensures
            a.nanos == s * 1_000_000_000,
    {
        Age { nanos: s as u128 * 1_000_000_000 }
    }

    /// An age of `n` nanoseconds.
    pub fn from_nanos(n: u128) -> (a: Self)
        ensures
            a.nanos == n,
    {
        Age { nanos: n }
    }

    /// The age in nanoseconds.
    pub fn as_nanos(&self) -> (n: u128)
        ensures
            n == self.nanos,
    {
        self.nanos
    }
}

/// Nanoseconds since `origin`, as the clock reads now.
fn nanos_since(origin: &Instant) -> u128 {
    let d = elapsed(origin);
    duration_nanos(&d)
}

/// The error code of a mutable put whose sequence number is already stored.
pub const SEQ_REUSED: u64 = 16;

/// The error code of a mutable put whose sequence number is older than the stored one.
pub const SEQ_TOO_LOW: u64 = 17;

/// The most records a lookup answers with.
pub const MAX_RECORDS_PER_LOOKUP: usize = 20;

/// The most relay addresses kept with an announced peer.
pub const MAX_RELAY_ADDRESSES: usize = 3;

/// How the storage is sized.
#[derive(Debug, Clone)]
pub struct PersistentConfig {
    pub max_records: usize,
    pub max_record_age: Age,
    pub max_per_key: usize,
    pub max_lru_size: usize,
    pub max_lru_age: Age,
}

impl Default for PersistentConfig {
    /// 65536 records of at most 20 per topic and 65536 values per cache, each
    /// kept for 20 minutes.
    fn default() -> (c: Self)
        ensures
            c.max_records == 65536,
            c.max_per_key == 20,
            c.max_lru_size == 65536,
            c.max_record_age.nanos == 1_200_000_000_000,
            c.max_lru_age.nanos == 1_200_000_000_000,
    {
        PersistentConfig {
            max_records: 65536,
            max_record_age: Age::from_secs(20 * 60),
            max_per_key: 20,
            max_lru_size: 65536,
            max_lru_age: Age::from_secs(20 * 60),
        }
    }
}

// ── Ages ────────────────────────────────────────────────────────────────────

/// Whether a value written at `at` is still alive at `now`: less than
/// `max_age` has passed (a clock reading before `at` counts as no time).
pub open spec fn alive(at: u128, now: u128, max_age: u128) -> bool {
    (if now >= at { now - at } else { 0 }) < max_age
}

/// Whether `i` is the first position of the least of `ts`.
pub open spec fn is_first_min(ts: Seq<u128>, i: int) -> bool {
    &&& 0 <= i < ts.len()
    &&& forall|j: int| 0 <= j < ts.len() ==> ts[i] <= #[trigger] ts[j]
    &&& forall|j: int| 0 <= j < i ==> ts[i] < #[trigger] ts[j]
}

/// The first position of the least of `ts` (`ts` not empty).
pub open spec fn first_min(ts: Seq<u128>) -> int {
    choose|i: int| is_first_min(ts, i)
}

/// A sequence that is not empty has a first position of its least.
pub proof fn lemma_first_min_exists(ts: Seq<u128>)
    requires
        ts.len() > 0,
    ensures
        is_first_min(ts, first_min(ts)),
        0 <= first_min(ts) < ts.len(),
    decreases ts.len(),
{
    if ts.len() == 1 {
        assert(is_first_min(ts, 0));
    } else {
        let p = ts.drop_last();
        lemma_first_min_exists(p);
        let k = first_min(p);
        let n = ts.len() - 1;
        if ts[n] < p[k] {
            assert forall|j: int| 0 <= j < ts.len() implies ts[n] <= #[trigger] ts[j] by {
                if j < n {
                    assert(p[k] <= p[j]);
                }
            }
            assert forall|j: int| 0 <= j < n implies ts[n] < #[trigger] ts[j] by {
                assert(p[k] <= p[j]);
            }
            assert(is_first_min(ts, n));
        } else {
            assert forall|j: int| 0 <= j < ts.len() implies ts[k] <= #[trigger] ts[j] by {
                if j < n {
                    assert(p[k] <= p[j]);
                }
            }
            assert forall|j: int| 0 <= j < k implies ts[k] < #[trigger] ts[j] by {
                assert(p[k] < p[j]);
            }
            assert(is_first_min(ts, k));
        }
    }
}

/// There is one first position of the least.
pub proof fn lemma_first_min_unique(ts: Seq<u128>, i: int)
    requires
        is_first_min(ts, i),
    ensures
        first_min(ts) == i,
{
    let k = first_min(ts);
    assert(is_first_min(ts, k));
    if k < i {
        assert(ts[i] < ts[k]);
    } else if k > i {
        assert(ts[k] < ts[i]);
    }
}

// ── Value cache ─────────────────────────────────────────────────────────────

/// A value of a [`LruCache`].
struct CacheEntry {
    key: String,
    value: Vec<u8>,
    inserted_at: u128,
}

/// A value of a cache as plain values: its key, its bytes, when it was written.
pub type CacheEntryView = (Seq<char>, Seq<u8>, u128);

/// A cache of values by key that forget a value after an age, and the oldest
/// value when full.
pub struct LruCache {
    origin: Instant,
    entries: Vec<CacheEntry>,
    max_size: usize,
    max_age: u128,
}

/// The plain values of cache entries.
spec fn cache_entries_view(es: Seq<CacheEntry>) -> Seq<CacheEntryView> {
    es.map_values(|e: CacheEntry| (e.key@, e.value@, e.inserted_at))
}

/// The write times of cache entries.
pub open spec fn cache_times(es: Seq<CacheEntryView>) -> Seq<u128> {
    es.map_values(|e: CacheEntryView| e.2)
}

/// Whether no two entries share a key.
pub open spec fn keys_distinct(es: Seq<CacheEntryView>) -> bool {
    forall|i: int, j: int| 0 <= i < j < es.len() ==> (#[trigger] es[i]).0 != (#[trigger] es[j]).0
}

/// The position of `key` among the entries, if it is there.
pub open spec fn cache_find(es: Seq<CacheEntryView>, key: Seq<char>) -> Option<int> {
    if exists|i: int| 0 <= i < es.len() && (#[trigger] es[i]).0 == key {
        Some(choose|i: int| 0 <= i < es.len() && (#[trigger] es[i]).0 == key)
    } else {
        None
    }
}

/// The value of `key` at `now`: present and still alive.
pub open spec fn cache_lookup(es: Seq<CacheEntryView>, max_age: u128, key: Seq<char>, now: u128) -> Option<Seq<u8>> {
    match cache_find(es, key) {
        Some(i) => if alive(es[i].2, now, max_age) {
            Some(es[i].1)
        } else {
            None
        },
        None => None,
    }
}

/// The entries after `key` is set to `v` at `now`: when the cache holds
/// `max_size` or more, the oldest entry goes first; then the key's entry is
/// replaced, or a new one added.
pub open spec fn cache_set(es: Seq<CacheEntryView>, max_size: nat, key: Seq<char>, v: Seq<u8>, now: u128) -> Seq<
    CacheEntryView,
> {
    let es1 = if es.len() >= max_size && es.len() > 0 {
        es.remove(first_min(cache_times(es)))
    } else {
        es
    };
    match cache_find(es1, key) {
        Some(i) => es1.update(i, (key, v, now)),
        None => es1.push((key, v, now)),
    }
}

/// The entries after `key` is deleted.
pub open spec fn cache_delete(es: Seq<CacheEntryView>, key: Seq<char>) -> Seq<CacheEntryView> {
    match cache_find(es, key) {
        Some(i) => es.remove(i),
        None => es,
    }
}

/// With distinct keys, a position holding `key` is the one found.
proof fn lemma_cache_find_at(es: Seq<CacheEntryView>, key: Seq<char>, i: int)
    requires
        keys_distinct(es),
        0 <= i < es.len(),
        es[i].0 == key,
    ensures
        cache_find(es, key) == Some(i),
{
    let k = choose|k: int| 0 <= k < es.len() && (#[trigger] es[k]).0 == key;
    if k != i {
        if k < i {
            assert(es[k].0 != es[i].0);
        } else {
            assert(es[i].0 != es[k].0);
        }
    }
}

impl LruCache {
    /// The entries, in the cache's own order.
    pub closed spec fn spec_entries(&self) -> Seq<CacheEntryView> {
        cache_entries_view(self.entries@)
    }

    /// The most entries before the oldest is dropped.
    pub closed spec fn spec_max_size(&self) -> nat {
        self.max_size as nat
    }

    /// The age in nanoseconds at which a value is forgotten.
    pub closed spec fn spec_max_age(&self) -> u128 {
        self.max_age
    }

    /// No two entries share a key.
    pub open spec fn wf(&self) -> bool {
        keys_distinct(self.spec_entries())
    }

    /// An empty cache of at most `max_size` values, each forgotten after `max_age`.
    pub fn new(max_size: usize, max_age: Age) -> (c: Self)
        ensures
            c.wf(),
            c.spec_entries().len() == 0,
            c.spec_max_size() == max_size,
            c.spec_max_age() == max_age.nanos,
    {
        LruCache::with_age_nanos(max_size, max_age.as_nanos())
    }

    /// An empty cache of at most `max_size` values, each forgotten
    /// `max_age_nanos` nanoseconds after it was set.
    pub fn with_age_nanos(max_size: usize, max_age_nanos: u128) -> (c: Self)
        ensures
            c.wf(),
            c.spec_entries().len() == 0,
            c.spec_max_size() == max_size,
            c.spec_max_age() == max_age_nanos,
    {
        let c = LruCache { origin: instant_now(), entries: Vec::new(), max_size, max_age: max_age_nanos };
        proof {
            assert(c.spec_entries() =~= Seq::<CacheEntryView>::empty());
        }
        c
    }

    /// The position of `key`, if it is there.
    fn find(&self, key: &str) -> (r: Option<usize>)
        requires
            self.wf(),
        ensures
            match r {
                Some(i) => cache_find(self.spec_entries(), key@) == Some(i as int) && i < self.entries@.len(),
                None => cache_find(self.spec_entries(), key@) is None,
            },
    {
        let ghost es = self.spec_entries();
        let mut i: usize = 0;
        while i < self.entries.len()
            invariant
                i <= self.entries@.len(),
                es == self.spec_entries(),
                es.len() == self.entries@.len(),
                keys_distinct(es),
                forall|j: int| 0 <= j < i ==> (#[trigger] es[j]).0 != key@,
            decreases self.entries@.len() - i,
        {
            proof {
                assert(es[i as int] == (self.entries@[i as int].key@, self.entries@[i as int].value@, self.entries@[i as int].inserted_at));
            }
            if same_str(self.entries[i].key.as_str(), key) {
                proof {
                    assert(es[i as int].0 == key@);
                    lemma_cache_find_at(es, key@, i as int);
                }
                return Some(i);
            }
            i = i + 1;
        }
        None
    }

    /// The value of `key` at clock reading `now`, if present and alive.
    pub fn get_at(&self, key: &str, now: u128) -> (r: Option<Vec<u8>>)
        requires
            self.wf(),
        ensures
            match r {
                Some(v) => cache_lookup(self.spec_entries(), self.spec_max_age(), key@, now) == Some(v@),
                None => cache_lookup(self.spec_entries(), self.spec_max_age(), key@, now) is None,
            },
    {
        match self.find(key) {
            Some(i) => {
                let e = &self.entries[i];
                let age = now.saturating_sub(e.inserted_at);
                if age >= self.max_age {
                    None
                } else {
                    Some(e.value.clone())
                }
            },
            None => None,
        }
    }

    /// The value of `key`, if present and not older than the cache's age,
    /// as [`LruCache::get_at`] gives it at the clock's reading.
    pub fn get(&self, key: &str) -> (r: Option<Vec<u8>>)
        requires
            self.wf(),
        ensures
            exists|now: u128|
                match r {
                    Some(v) => cache_lookup(self.spec_entries(), self.spec_max_age(), key@, now) == Some(v@),
                    None => cache_lookup(self.spec_entries(), self.spec_max_age(), key@, now) is None,
                },
            r matches Some(v) ==> cache_find(self.spec_entries(), key@) matches Some(i) && self.spec_entries()[i].1
                == v@,
            cache_find(self.spec_entries(), key@) is None ==> r is None,
    {
        let now = nanos_since(&self.origin);
        self.get_at(key, now)
    }

    /// The position of the oldest entry: the first of the earliest write.
    fn oldest(&self) -> (r: usize)
        requires
            self.entries@.len() > 0,
        ensures
            is_first_min(cache_times(self.spec_entries()), r as int),
    {
        let ghost ts = cache_times(self.spec_entries());
        let mut best: usize = 0;
        let mut i: usize = 1;
        while i < self.entries.len()
            invariant
                0 < i <= self.entries@.len(),
                best < i,
                ts == cache_times(self.spec_entries()),
                ts.len() == self.entries@.len(),
                forall|j: int| 0 <= j < i ==> ts[best as int] <= #[trigger] ts[j],
                forall|j: int| 0 <= j < best ==> ts[best as int] < #[trigger] ts[j],
            decreases self.entries@.len() - i,
        {
            if self.entries[i].inserted_at < self.entries[best].inserted_at {
                best = i;
            }
            i = i + 1;
        }
        best
    }

    /// Sets `key` to `value` at clock reading `now` (see [`cache_set`]).
    pub fn set_at(&mut self, key: &str, value: Vec<u8>, now: u128)
        requires
            old(self).wf(),
        ensures
            final(self).wf(),
            final(self).spec_entries() == cache_set(
                old(self).spec_entries(),
                old(self).spec_max_size(),
                key@,
                value@,
                now,
            ),
            final(self).spec_max_size() == old(self).spec_max_size(),
            final(self).spec_max_age() == old(self).spec_max_age(),
    {
        let ghost es = self.spec_entries();
        if self.entries.len() >= self.max_size && self.entries.len() > 0 {
            let o = self.oldest();
            proof {
                lemma_first_min_unique(cache_times(es), o as int);
            }
            self.entries.remove(o);
            proof {
                assert(self.spec_entries() =~= es.remove(o as int));
            }
        }
        let ghost es1 = self.spec_entries();
        proof {
            assert(es1 == (if es.len() >= self.max_size && es.len() > 0 {
                es.remove(first_min(cache_times(es)))
            } else {
                es
            }));
            assert(keys_distinct(es1)) by {
                assert forall|a: int, b: int| 0 <= a < b < es1.len() implies (#[trigger] es1[a]).0 != (
                #[trigger] es1[b]).0 by {
                    if es1.len() < es.len() {
                        let o = first_min(cache_times(es));
                        let a0 = if a < o { a } else { a + 1 };
                        let b0 = if b < o { b } else { b + 1 };
                        assert(es1[a] == es[a0] && es1[b] == es[b0]);
                    }
                }
            }
        }
        match self.find(key) {
            Some(i) => {
                let entry = CacheEntry { key: key.to_owned(), value, inserted_at: now };
                let ghost ev = (entry.key@, entry.value@, entry.inserted_at);
                self.entries.set(i, entry);
                proof {
                    assert(self.spec_entries() =~= es1.update(i as int, ev));
                }
            },
            None => {
                let entry = CacheEntry { key: key.to_owned(), value, inserted_at: now };
                let ghost ev = (entry.key@, entry.value@, entry.inserted_at);
                self.entries.push(entry);
                proof {
                    assert(self.spec_entries() =~= es1.push(ev));
                    assert forall|j: int| 0 <= j < es1.len() implies (#[trigger] es1[j]).0 != key@ by {
                        if es1[j].0 == key@ {
                            assert(exists|i: int| 0 <= i < es1.len() && (#[trigger] es1[i]).0 == key@);
                        }
                    }
                }
            },
        }
    }

    /// Sets `key` to `value`, dropping the oldest value first when the cache is full.
    pub fn set(&mut self, key: &str, value: Vec<u8>)
        requires
            old(self).wf(),
        ensures
            final(self).wf(),
            exists|now: u128|
                final(self).spec_entries() == cache_set(
                    old(self).spec_entries(),
                    old(self).spec_max_size(),
                    key@,
                    value@,
                    now,
                ),
            final(self).spec_max_size() == old(self).spec_max_size(),
            final(self).spec_max_age() == old(self).spec_max_age(),
    {
        let now = nanos_since(&self.origin);
        self.set_at(key, value, now);
    }

    /// Deletes `key`.
    pub fn delete(&mut self, key: &str)
        requires
            old(self).wf(),
        ensures
            final(self).wf(),
            final(self).spec_entries() == cache_delete(old(self).spec_entries(), key@),
            final(self).spec_max_size() == old(self).spec_max_size(),
            final(self).spec_max_age() == old(self).spec_max_age(),
    {
        let ghost es = self.spec_entries();
        match self.find(key) {
            Some(i) => {
                self.entries.remove(i);
                proof {
                    assert(self.spec_entries() =~= es.remove(i as int));
                    let es1 = es.remove(i as int);
                    assert forall|a: int, b: int| 0 <= a < b < es1.len() implies (#[trigger] es1[a]).0 != (
                    #[trigger] es1[b]).0 by {
                        let a0 = if a < i { a } else { a + 1 };
                        let b0 = if b < i { b } else { b + 1 };
                        assert(es1[a] == es[a0] && es1[b] == es[b0]);
                    }
                }
            },
            None => {},
        }
    }

    /// Forgets every value.
    pub fn destroy(&mut self)
        ensures
            final(self).wf(),
            final(self).spec_entries().len() == 0,
            final(self).spec_max_size() == old(self).spec_max_size(),
            final(self).spec_max_age() == old(self).spec_max_age(),
    {
        self.entries.clear();
        proof {
            assert(self.spec_entries() =~= Seq::<CacheEntryView>::empty());
        }
    }
}

// ── Announcement records ────────────────────────────────────────────────────

/// An announced record.
struct RecordEntry {
    public_key: [u8; 32],
    record: Vec<u8>,
    inserted_at: u128,
}

/// The records of one topic.
struct Topic {
    key: String,
    records: Vec<RecordEntry>,
}

/// A record as plain values: the announcer's public key, the record, when it was written.
pub type RecordView = (Seq<u8>, Seq<u8>, u128);

/// A topic as plain values: its key and its records.
pub type TopicView = (Seq<char>, Seq<RecordView>);

spec fn record_entries_view(rs: Seq<RecordEntry>) -> Seq<RecordView> {
    rs.map_values(|r: RecordEntry| (r.public_key@, r.record@, r.inserted_at))
}

spec fn topic_view(t: Topic) -> TopicView {
    (t.key@, record_entries_view(t.records@))
}

spec fn topics_view(ts: Seq<Topic>) -> Seq<TopicView> {
    ts.map_values(|t: Topic| topic_view(t))
}

/// The write times of records.
pub open spec fn record_times(rs: Seq<RecordView>) -> Seq<u128> {
    rs.map_values(|r: RecordView| r.2)
}

/// The number of records of all topics.
pub open spec fn total_of(ts: Seq<TopicView>) -> nat
    decreases ts.len(),
{
    if ts.len() == 0 {
        0
    } else {
        total_of(ts.drop_last()) + ts.last().1.len()
    }
}

/// The position of `key` among the topics, if it is there.
pub open spec fn topic_find(ts: Seq<TopicView>, key: Seq<char>) -> Option<int> {
    if exists|i: int| 0 <= i < ts.len() && (#[trigger] ts[i]).0 == key {
        Some(choose|i: int| 0 <= i < ts.len() && (#[trigger] ts[i]).0 == key)
    } else {
        None
    }
}

/// The position of the record of `pk` in `rs`, if it is there.
pub open spec fn pk_find(rs: Seq<RecordView>, pk: Seq<u8>) -> Option<int> {
    if exists|j: int| 0 <= j < rs.len() && (#[trigger] rs[j]).0 == pk {
        Some(choose|j: int| 0 <= j < rs.len() && (#[trigger] rs[j]).0 == pk)
    } else {
        None
    }
}

/// The write time of the oldest record of a topic (one with records).
pub open spec fn topic_min(t: TopicView) -> u128 {
    t.1[first_min(record_times(t.1))].2
}

/// Whether `b` is the first topic holding the oldest record of all.
pub open spec fn is_oldest_topic(ts: Seq<TopicView>, b: int) -> bool {
    &&& 0 <= b < ts.len()
    &&& ts[b].1.len() > 0
    &&& forall|c: int| 0 <= c < ts.len() && (#[trigger] ts[c]).1.len() > 0 ==> topic_min(ts[b]) <= topic_min(ts[c])
    &&& forall|c: int| 0 <= c < b && (#[trigger] ts[c]).1.len() > 0 ==> topic_min(ts[b]) < topic_min(ts[c])
}

/// The topics after the oldest record of all is dropped (with its topic,
/// when that leaves the topic empty); unchanged when there are no records.
pub open spec fn evicted(ts: Seq<TopicView>) -> Seq<TopicView> {
    if exists|b: int| is_oldest_topic(ts, b) {
        let b = choose|b: int| is_oldest_topic(ts, b);
        let rs = ts[b].1.remove(first_min(record_times(ts[b].1)));
        if rs.len() == 0 {
            ts.remove(b)
        } else {
            ts.update(b, (ts[b].0, rs))
        }
    } else {
        ts
    }
}

/// The topics after a record for (`key`, `pk`) is added at `now`: an existing
/// record of `pk` under `key` is replaced in place; else the oldest record of
/// the topic goes when the topic holds `max_per_key` or more, the oldest
/// record of all goes when there are `max_size` or more, and the record is
/// added at the end of its topic (a new topic at the end when there is none).
pub open spec fn record_added(
    ts: Seq<TopicView>,
    max_size: nat,
    max_per_key: nat,
    key: Seq<char>,
    pk: Seq<u8>,
    rec: Seq<u8>,
    now: u128,
) -> Seq<TopicView> {
    let found = topic_find(ts, key);
    if found matches Some(i) && pk_find(ts[i].1, pk) is Some {
        let i = found->0;
        let j = pk_find(ts[i].1, pk)->0;
        ts.update(i, (key, ts[i].1.update(j, (pk, rec, now))))
    } else {
        let ts1 = match found {
            Some(i) => if ts[i].1.len() >= max_per_key && ts[i].1.len() > 0 {
                ts.update(i, (key, ts[i].1.remove(first_min(record_times(ts[i].1)))))
            } else {
                ts
            },
            None => ts,
        };
        let ts2 = if total_of(ts1) >= max_size {
            evicted(ts1)
        } else {
            ts1
        };
        match topic_find(ts2, key) {
            Some(i) => ts2.update(i, (key, ts2[i].1.push((pk, rec, now)))),
            None => ts2.push((key, seq![(pk, rec, now)])),
        }
    }
}

/// The records of `rs` still alive at `now`, in order.
pub open spec fn live(rs: Seq<RecordView>, now: u128, max_age: u128) -> Seq<RecordView>
    decreases rs.len(),
{
    if rs.len() == 0 {
        Seq::empty()
    } else {
        let p = live(rs.drop_last(), now, max_age);
        if alive(rs.last().2, now, max_age) {
            p.push(rs.last())
        } else {
            p
        }
    }
}

/// The topics after the dead records of `key` are dropped at `now` (the
/// topic stays, even when empty).
pub open spec fn expired(ts: Seq<TopicView>, key: Seq<char>, now: u128, max_age: u128) -> Seq<TopicView> {
    match topic_find(ts, key) {
        Some(i) => ts.update(i, (key, live(ts[i].1, now, max_age))),
        None => ts,
    }
}

/// The bytes of each vector.
pub open spec fn vecs_view(vs: Seq<Vec<u8>>) -> Seq<Seq<u8>> {
    vs.map_values(|v: Vec<u8>| v@)
}

/// The record bytes of each record.
pub open spec fn records_bytes(rs: Seq<RecordView>) -> Seq<Seq<u8>> {
    rs.map_values(|r: RecordView| r.1)
}

/// What a read of `key` at `now` gives: the first `max` live records.
pub open spec fn records_read(ts: Seq<TopicView>, key: Seq<char>, max: nat, now: u128, max_age: u128) -> Seq<Seq<u8>> {
    match topic_find(ts, key) {
        Some(i) => {
            let l = live(ts[i].1, now, max_age);
            records_bytes(l.take(if max < l.len() { max as int } else { l.len() as int }))
        },
        None => Seq::empty(),
    }
}

/// The topics after the record of `pk` under `key` is removed (with the
/// topic, when that leaves it empty).
pub open spec fn record_removed(ts: Seq<TopicView>, key: Seq<char>, pk: Seq<u8>) -> Seq<TopicView> {
    match topic_find(ts, key) {
        Some(i) => {
            let rs = match pk_find(ts[i].1, pk) {
                Some(j) => ts[i].1.remove(j),
                None => ts[i].1,
            };
            if rs.len() == 0 {
                ts.remove(i)
            } else {
                ts.update(i, (key, rs))
            }
        },
        None => ts,
    }
}

/// No two topics share a key and no topic holds two records of one key.
pub open spec fn topics_wf(ts: Seq<TopicView>) -> bool {
    &&& forall|a: int, b: int| 0 <= a < b < ts.len() ==> (#[trigger] ts[a]).0 != (#[trigger] ts[b]).0
    &&& forall|i: int, a: int, b: int|
        0 <= i < ts.len() && 0 <= a < b < ts[i].1.len() ==> (#[trigger] ts[i].1[a]).0 != (#[trigger] ts[i].1[b]).0
}

/// Updating a topic changes the total by the change of its size.
proof fn lemma_total_update(ts: Seq<TopicView>, i: int, t: TopicView)
    requires
        0 <= i < ts.len(),
    ensures
        total_of(ts.update(i, t)) == total_of(ts) - ts[i].1.len() + t.1.len(),
    decreases ts.len(),
{
    if i < ts.len() - 1 {
        lemma_total_update(ts.drop_last(), i, t);
        assert(ts.update(i, t).drop_last() =~= ts.drop_last().update(i, t));
    } else {
        assert(ts.update(i, t).drop_last() =~= ts.drop_last());
    }
}

/// Removing a topic takes its records off the total.
proof fn lemma_total_remove(ts: Seq<TopicView>, i: int)
    requires
        0 <= i < ts.len(),
    ensures
        total_of(ts.remove(i)) == total_of(ts) - ts[i].1.len(),
    decreases ts.len(),
{
    if i < ts.len() - 1 {
        lemma_total_remove(ts.drop_last(), i);
        assert(ts.remove(i).drop_last() =~= ts.drop_last().remove(i));
    } else {
        assert(ts.remove(i) =~= ts.drop_last());
    }
}

/// Adding a topic adds its records to the total.
proof fn lemma_total_push(ts: Seq<TopicView>, t: TopicView)
    ensures
        total_of(ts.push(t)) == total_of(ts) + t.1.len(),
{
    assert(ts.push(t).drop_last() =~= ts);
}

/// Whether no two records of `rs` share a key.
pub open spec fn pks_distinct(rs: Seq<RecordView>) -> bool {
    forall|a: int, b: int| 0 <= a < b < rs.len() ==> (#[trigger] rs[a]).0 != (#[trigger] rs[b]).0
}

/// Whether no record of the topic `key` is one of `pk`.
pub open spec fn pk_absent(ts: Seq<TopicView>, key: Seq<char>, pk: Seq<u8>) -> bool {
    forall|i: int, j: int| 0 <= i < ts.len() && ts[i].0 == key && 0 <= j < ts[i].1.len() ==> (#[trigger] ts[i].1[j]).0 != pk
}

/// Dropping a record keeps the keys of the others distinct.
proof fn lemma_pks_remove(rs: Seq<RecordView>, j: int)
    requires
        pks_distinct(rs),
        0 <= j < rs.len(),
    ensures
        pks_distinct(rs.remove(j)),
{
    let r = rs.remove(j);
    assert forall|a: int, b: int| 0 <= a < b < r.len() implies (#[trigger] r[a]).0 != (#[trigger] r[b]).0 by {
        let a0 = if a < j { a } else { a + 1 };
        let b0 = if b < j { b } else { b + 1 };
        assert(r[a] == rs[a0] && r[b] == rs[b0]);
    }
}

/// A topic's records with one updated or dropped keeps the topics well formed.
proof fn lemma_topics_update(ts: Seq<TopicView>, i: int, rs: Seq<RecordView>)
    requires
        topics_wf(ts),
        0 <= i < ts.len(),
        pks_distinct(rs),
    ensures
        topics_wf(ts.update(i, (ts[i].0, rs))),
{
    let u = ts.update(i, (ts[i].0, rs));
    assert forall|a: int, b: int| 0 <= a < b < u.len() implies (#[trigger] u[a]).0 != (#[trigger] u[b]).0 by {
        assert(u[a].0 == ts[a].0 && u[b].0 == ts[b].0);
    }
    assert forall|x: int, a: int, b: int| 0 <= x < u.len() && 0 <= a < b < u[x].1.len() implies (
    #[trigger] u[x].1[a]).0 != (#[trigger] u[x].1[b]).0 by {
        if x != i {
            assert(u[x] == ts[x]);
        }
    }
}

/// Dropping a topic keeps the topics well formed.
proof fn lemma_topics_remove(ts: Seq<TopicView>, i: int)
    requires
        topics_wf(ts),
        0 <= i < ts.len(),
    ensures
        topics_wf(ts.remove(i)),
{
    let u = ts.remove(i);
    assert forall|a: int, b: int| 0 <= a < b < u.len() implies (#[trigger] u[a]).0 != (#[trigger] u[b]).0 by {
        let a0 = if a < i { a } else { a + 1 };
        let b0 = if b < i { b } else { b + 1 };
        assert(u[a] == ts[a0] && u[b] == ts[b0]);
    }
    assert forall|x: int, a: int, b: int| 0 <= x < u.len() && 0 <= a < b < u[x].1.len() implies (
    #[trigger] u[x].1[a]).0 != (#[trigger] u[x].1[b]).0 by {
        let x0 = if x < i { x } else { x + 1 };
        assert(u[x] == ts[x0]);
    }
}

/// The plain value of one record entry.
spec fn record_view(r: RecordEntry) -> RecordView {
    (r.public_key@, r.record@, r.inserted_at)
}

/// A cache of announced records per topic: at most `max_per_key` per topic
/// and `max_size` in all, the oldest going first; a record dies after `max_age`.
pub struct RecordCache {
    origin: Instant,
    topics: Vec<Topic>,
    max_size: usize,
    max_age: u128,
    max_per_key: usize,
    total: usize,
}

impl RecordCache {
    /// The topics and their records, in the cache's own order.
    pub closed spec fn spec_topics(&self) -> Seq<TopicView> {
        topics_view(self.topics@)
    }

    /// The most records in all.
    pub closed spec fn spec_max_size(&self) -> nat {
        self.max_size as nat
    }

    /// The most records per topic.
    pub closed spec fn spec_max_per_key(&self) -> nat {
        self.max_per_key as nat
    }

    /// The age in nanoseconds at which a record dies.
    pub closed spec fn spec_max_age(&self) -> u128 {
        self.max_age
    }

    /// Topics and keys are distinct and the count of records is kept.
    pub closed spec fn wf(&self) -> bool {
        &&& topics_wf(self.spec_topics())
        &&& self.total == total_of(self.spec_topics())
    }

    /// The number of records held.
    pub open spec fn spec_total(&self) -> nat {
        total_of(self.spec_topics())
    }

    /// An empty cache.
    pub fn new(max_size: usize, max_age: Age, max_per_key: usize) -> (c: Self)
        ensures
            c.wf(),
            c.spec_topics().len() == 0,
            c.spec_max_size() == max_size,
            c.spec_max_per_key() == max_per_key,
            c.spec_max_age() == max_age.nanos,
    {
        RecordCache::with_age_nanos(max_size, max_age.as_nanos(), max_per_key)
    }

    /// An empty cache of at most `max_size` records, at most `max_per_key`
    /// under one key, each forgotten `max_age_nanos` nanoseconds after it was added.
    pub fn with_age_nanos(max_size: usize, max_age_nanos: u128, max_per_key: usize) -> (c: Self)
        ensures
            c.wf(),
            c.spec_topics().len() == 0,
            c.spec_max_size() == max_size,
            c.spec_max_per_key() == max_per_key,
            c.spec_max_age() == max_age_nanos,
    {
        let c = RecordCache { origin: instant_now(), topics: Vec::new(), max_size, max_age: max_age_nanos, max_per_key, total: 0 };
        proof {
            assert(c.spec_topics() =~= Seq::<TopicView>::empty());
        }
        c
    }

    /// The position of the topic `key`, if it is there.
    fn find_topic(&self, key: &str) -> (r: Option<usize>)
        requires
            self.wf(),
        ensures
            match r {
                Some(i) => topic_find(self.spec_topics(), key@) == Some(i as int) && i < self.topics@.len(),
                None => topic_find(self.spec_topics(), key@) is None,
            },
    {
        let ghost ts = self.spec_topics();
        let mut i: usize = 0;
        while i < self.topics.len()
            invariant
                i <= self.topics@.len(),
                ts == self.spec_topics(),
                ts.len() == self.topics@.len(),
                topics_wf(ts),
                forall|j: int| 0 <= j < i ==> (#[trigger] ts[j]).0 != key@,
            decreases self.topics@.len() - i,
        {
            proof {
                assert(ts[i as int] == topic_view(self.topics@[i as int]));
            }
            if same_str(self.topics[i].key.as_str(), key) {
                proof {
                    let k = choose|k: int| 0 <= k < ts.len() && (#[trigger] ts[k]).0 == key@;
                    if k != i {
                        if k < i {
                            assert(ts[k].0 != ts[i as int].0);
                        } else {
                            assert(ts[i as int].0 != ts[k].0);
                        }
                    }
                }
                return Some(i);
            }
            i = i + 1;
        }
        None
    }

    /// The position of the record of `pk` in `t`, if it is there.
    fn find_pk(t: &Topic, pk: &[u8; 32]) -> (r: Option<usize>)
        requires
            pks_distinct(topic_view(*t).1),
        ensures
            match r {
                Some(j) => pk_find(topic_view(*t).1, pk@) == Some(j as int) && j < t.records@.len(),
                None => pk_find(topic_view(*t).1, pk@) is None,
            },
    {
        let ghost rs = topic_view(*t).1;
        let mut j: usize = 0;
        while j < t.records.len()
            invariant
                j <= t.records@.len(),
                rs == topic_view(*t).1,
                rs.len() == t.records@.len(),
                pks_distinct(rs),
                forall|m: int| 0 <= m < j ==> (#[trigger] rs[m]).0 != pk@,
            decreases t.records@.len() - j,
        {
            proof {
                assert(rs[j as int] == record_view(t.records@[j as int]));
            }
            if crate::blind_relay::same_token(&t.records[j].public_key, pk) {
                proof {
                    let k = choose|k: int| 0 <= k < rs.len() && (#[trigger] rs[k]).0 == pk@;
                    if k != j {
                        if k < j {
                            assert(rs[k].0 != rs[j as int].0);
                        } else {
                            assert(rs[j as int].0 != rs[k].0);
                        }
                    }
                }
                return Some(j);
            }
            j = j + 1;
        }
        None
    }

    /// The position of the oldest record of `t`: the first of the earliest write.
    fn oldest_in(t: &Topic) -> (r: usize)
        requires
            t.records@.len() > 0,
        ensures
            is_first_min(record_times(topic_view(*t).1), r as int),
            r < t.records@.len(),
    {
        let ghost ts = record_times(topic_view(*t).1);
        let mut best: usize = 0;
        let mut i: usize = 1;
        while i < t.records.len()
            invariant
                0 < i <= t.records@.len(),
                best < i,
                ts == record_times(topic_view(*t).1),
                ts.len() == t.records@.len(),
                forall|j: int| 0 <= j < i ==> ts[best as int] <= #[trigger] ts[j],
                forall|j: int| 0 <= j < best ==> ts[best as int] < #[trigger] ts[j],
            decreases t.records@.len() - i,
        {
            if t.records[i].inserted_at < t.records[best].inserted_at {
                best = i;
            }
            i = i + 1;
        }
        best
    }

    /// The first topic holding the oldest record of all, if any holds one.
    fn oldest_topic(&self) -> (r: Option<usize>)
        ensures
            match r {
                Some(b) => is_oldest_topic(self.spec_topics(), b as int),
                None => !exists|b: int| is_oldest_topic(self.spec_topics(), b),
            },
    {
        let ghost ts = self.spec_topics();
        let mut best: Option<(usize, u128)> = None;
        let mut i: usize = 0;
        while i < self.topics.len()
            invariant
                i <= self.topics@.len(),
                ts == self.spec_topics(),
                ts.len() == self.topics@.len(),
                match best {
                    Some((b, t)) => {
                        &&& b < i
                        &&& ts[b as int].1.len() > 0
                        &&& t == topic_min(ts[b as int])
                        &&& forall|c: int| 0 <= c < i && (#[trigger] ts[c]).1.len() > 0 ==> t <= topic_min(ts[c])
                        &&& forall|c: int| 0 <= c < b && (#[trigger] ts[c]).1.len() > 0 ==> t < topic_min(ts[c])
                    },
                    None => forall|c: int| 0 <= c < i ==> (#[trigger] ts[c]).1.len() == 0,
                },
            decreases self.topics@.len() - i,
        {
            proof {
                assert(ts[i as int] == topic_view(self.topics@[i as int]));
            }
            if self.topics[i].records.len() > 0 {
                let o = Self::oldest_in(&self.topics[i]);
                let t = self.topics[i].records[o].inserted_at;
                proof {
                    lemma_first_min_unique(record_times(ts[i as int].1), o as int);
                    assert(t == topic_min(ts[i as int]));
                }
                match best {
                    Some((_b, bt)) => {
                        if t < bt {
                            best = Some((i, t));
                        }
                    },
                    None => {
                        best = Some((i, t));
                    },
                }
            }
            i = i + 1;
        }
        match best {
            Some((b, _t)) => Some(b),
            None => {
                proof {
                    assert forall|b: int| !is_oldest_topic(ts, b) by {
                        if 0 <= b < ts.len() {
                            assert(ts[b].1.len() == 0);
                        }
                    }
                }
                None
            },
        }
    }

    /// Takes topic `i` out, leaving an empty placeholder.
    fn take_topic(&mut self, i: usize) -> (t: Topic)
        requires
            i < old(self).topics@.len(),
        ensures
            t == old(self).topics@[i as int],
            final(self).topics@ == old(self).topics@.update(
                i as int,
                Topic { key: final(self).topics@[i as int].key, records: final(self).topics@[i as int].records },
            ),
            final(self).topics@[i as int].records@.len() == 0,
            final(self).total == old(self).total,
            final(self).max_size == old(self).max_size,
            final(self).max_per_key == old(self).max_per_key,
            final(self).max_age == old(self).max_age,
    {
        let mut t = Topic { key: String::new(), records: Vec::new() };
        self.topics.set_and_swap(i, &mut t);
        t
    }
}


/// There is one first topic holding the oldest record.
proof fn lemma_oldest_unique(ts: Seq<TopicView>, b: int)
    requires
        is_oldest_topic(ts, b),
    ensures
        (choose|c: int| is_oldest_topic(ts, c)) == b,
{
    let c = choose|c: int| is_oldest_topic(ts, c);
    assert(is_oldest_topic(ts, c));
    if c < b {
        assert(topic_min(ts[b]) < topic_min(ts[c]));
    } else if c > b {
        assert(topic_min(ts[c]) < topic_min(ts[b]));
    }
}

/// A topic holds no more records than all topics.
proof fn lemma_total_ge(ts: Seq<TopicView>, i: int)
    requires
        0 <= i < ts.len(),
    ensures
        total_of(ts) >= ts[i].1.len(),
{
    lemma_total_update(ts, i, (ts[i].0, Seq::empty()));
}

/// Dropping a record of a topic keeps `pk` out of the topic `key`.
proof fn lemma_absent_update(ts: Seq<TopicView>, key: Seq<char>, pk: Seq<u8>, i: int, k: int)
    requires
        pk_absent(ts, key, pk),
        0 <= i < ts.len(),
        0 <= k < ts[i].1.len(),
    ensures
        pk_absent(ts.update(i, (ts[i].0, ts[i].1.remove(k))), key, pk),
{
    let u = ts.update(i, (ts[i].0, ts[i].1.remove(k)));
    assert forall|x: int, j: int| 0 <= x < u.len() && u[x].0 == key && 0 <= j < u[x].1.len() implies (
    #[trigger] u[x].1[j]).0 != pk by {
        if x == i {
            let j0 = if j < k { j } else { j + 1 };
            assert(u[x].1[j] == ts[i].1[j0]);
        } else {
            assert(u[x] == ts[x]);
        }
    }
}

/// Dropping a topic keeps `pk` out of the topic `key`.
proof fn lemma_absent_remove(ts: Seq<TopicView>, key: Seq<char>, pk: Seq<u8>, i: int)
    requires
        pk_absent(ts, key, pk),
        0 <= i < ts.len(),
    ensures
        pk_absent(ts.remove(i), key, pk),
{
    let u = ts.remove(i);
    assert forall|x: int, j: int| 0 <= x < u.len() && u[x].0 == key && 0 <= j < u[x].1.len() implies (
    #[trigger] u[x].1[j]).0 != pk by {
        let x0 = if x < i { x } else { x + 1 };
        assert(u[x] == ts[x0]);
    }
}

impl RecordCache {
    /// Drops the oldest record of all (see [`evicted`]).
    fn evict_oldest(&mut self)
        requires
            old(self).wf(),
        ensures
            final(self).wf(),
            final(self).spec_topics() == evicted(old(self).spec_topics()),
            final(self).max_size == old(self).max_size,
            final(self).max_per_key == old(self).max_per_key,
            final(self).max_age == old(self).max_age,
    {
        let ghost ts = self.spec_topics();
        match self.oldest_topic() {
            None => {},
            Some(b) => {
                proof {
                    lemma_oldest_unique(ts, b as int);
                    lemma_total_ge(ts, b as int);
                }
                let mut t = self.take_topic(b);
                let o = Self::oldest_in(&t);
                proof {
                    assert(topic_view(t) == ts[b as int]);
                    lemma_first_min_unique(record_times(ts[b as int].1), o as int);
                }
                let ghost rs0 = t.records@;
                t.records.remove(o);
                let ghost rs = ts[b as int].1.remove(o as int);
                proof {
                    assert(record_entries_view(t.records@) =~= rs);
                    lemma_pks_remove(ts[b as int].1, o as int);
                }
                self.total = self.total - 1;
                if t.records.len() == 0 {
                    self.topics.remove(b);
                    proof {
                        assert(self.spec_topics() =~= ts.remove(b as int));
                        lemma_total_remove(ts, b as int);
                        lemma_topics_remove(ts, b as int);
                    }
                } else {
                    self.topics.set(b, t);
                    proof {
                        assert(self.spec_topics() =~= ts.update(b as int, (ts[b as int].0, rs)));
                        lemma_total_update(ts, b as int, (ts[b as int].0, rs));
                        lemma_topics_update(ts, b as int, rs);
                    }
                }
            },
        }
    }

    /// Drops the oldest record of topic `i`, keeping the topic.
    fn cap_topic(&mut self, i: usize)
        requires
            old(self).wf(),
            i < old(self).spec_topics().len(),
            old(self).spec_topics()[i as int].1.len() > 0,
        ensures
            final(self).wf(),
            final(self).spec_topics() == old(self).spec_topics().update(
                i as int,
                (
                    old(self).spec_topics()[i as int].0,
                    old(self).spec_topics()[i as int].1.remove(
                        first_min(record_times(old(self).spec_topics()[i as int].1)),
                    ),
                ),
            ),
            final(self).max_size == old(self).max_size,
            final(self).max_per_key == old(self).max_per_key,
            final(self).max_age == old(self).max_age,
    {
        let ghost ts = self.spec_topics();
        proof {
            lemma_total_ge(ts, i as int);
        }
        let mut t = self.take_topic(i);
        let o = Self::oldest_in(&t);
        proof {
            assert(topic_view(t) == ts[i as int]);
            lemma_first_min_unique(record_times(ts[i as int].1), o as int);
        }
        t.records.remove(o);
        let ghost rs = ts[i as int].1.remove(o as int);
        proof {
            assert(record_entries_view(t.records@) =~= rs);
            lemma_pks_remove(ts[i as int].1, o as int);
        }
        self.total = self.total - 1;
        self.topics.set(i, t);
        proof {
            assert(self.spec_topics() =~= ts.update(i as int, (ts[i as int].0, rs)));
            lemma_total_update(ts, i as int, (ts[i as int].0, rs));
            lemma_topics_update(ts, i as int, rs);
        }
    }

    /// Adds a record of `pk` at the end of the topic `key` (a new topic when
    /// there is none); `pk` has no record there.
    fn push_record(&mut self, key: &str, public_key: [u8; 32], record: Vec<u8>, now: u128)
        requires
            old(self).wf(),
            pk_absent(old(self).spec_topics(), key@, public_key@),
            old(self).spec_total() < usize::MAX,
        ensures
            final(self).wf(),
            final(self).spec_topics() == (match topic_find(old(self).spec_topics(), key@) {
                Some(i) => old(self).spec_topics().update(
                    i,
                    (key@, old(self).spec_topics()[i].1.push((public_key@, record@, now))),
                ),
                None => old(self).spec_topics().push((key@, seq![(public_key@, record@, now)])),
            }),
            final(self).max_size == old(self).max_size,
            final(self).max_per_key == old(self).max_per_key,
            final(self).max_age == old(self).max_age,
    {
        let ghost ts = self.spec_topics();
        let entry = RecordEntry { public_key, record, inserted_at: now };
        let ghost ev = record_view(entry);
        match self.find_topic(key) {
            Some(i) => {
                let mut t = self.take_topic(i);
                proof {
                    assert(topic_view(t) == ts[i as int]);
                    assert(ts[i as int].0 == key@);
                }
                t.records.push(entry);
                let ghost rs = ts[i as int].1.push(ev);
                proof {
                    assert(record_entries_view(t.records@) =~= rs);
                    assert forall|a: int, b: int| 0 <= a < b < rs.len() implies (#[trigger] rs[a]).0 != (
                    #[trigger] rs[b]).0 by {
                        if b == rs.len() - 1 {
                            assert(ts[i as int].1[a].0 != public_key@);
                        } else {
                            assert(rs[a] == ts[i as int].1[a] && rs[b] == ts[i as int].1[b]);
                        }
                    }
                }
                self.total = self.total + 1;
                self.topics.set(i, t);
                proof {
                    assert(self.spec_topics() =~= ts.update(i as int, (key@, rs)));
                    lemma_total_update(ts, i as int, (key@, rs));
                    lemma_topics_update(ts, i as int, rs);
                }
            },
            None => {
                let t = Topic { key: key.to_owned(), records: vec![entry] };
                proof {
                    assert(record_entries_view(t.records@) =~= seq![ev]);
                }
                self.total = self.total + 1;
                self.topics.push(t);
                proof {
                    let nt = (key@, seq![ev]);
                    assert(self.spec_topics() =~= ts.push(nt));
                    lemma_total_push(ts, nt);
                    let u = ts.push(nt);
                    assert forall|a: int, b: int| 0 <= a < b < u.len() implies (#[trigger] u[a]).0 != (
                    #[trigger] u[b]).0 by {
                        if b == u.len() - 1 {
                            if ts[a].0 == key@ {
                                assert(exists|k: int| 0 <= k < ts.len() && (#[trigger] ts[k]).0 == key@);
                            }
                        } else {
                            assert(u[a] == ts[a] && u[b] == ts[b]);
                        }
                    }
                    assert forall|x: int, a: int, b: int| 0 <= x < u.len() && 0 <= a < b < u[x].1.len() implies (
                    #[trigger] u[x].1[a]).0 != (#[trigger] u[x].1[b]).0 by {
                        if x < ts.len() {
                            assert(u[x] == ts[x]);
                        }
                    }
                }
            },
        }
    }
}


impl RecordCache {
    /// Adds the record of `public_key` under `key` at clock reading `now`
    /// (see [`record_added`]).
    pub fn add_at(&mut self, key: &str, public_key: [u8; 32], record: Vec<u8>, now: u128)
        requires
            old(self).wf(),
            old(self).spec_total() < usize::MAX,
        ensures
            final(self).wf(),
            final(self).spec_topics() == record_added(
                old(self).spec_topics(),
                old(self).spec_max_size(),
                old(self).spec_max_per_key(),
                key@,
                public_key@,
                record@,
                now,
            ),
            final(self).spec_max_size() == old(self).spec_max_size(),
            final(self).spec_max_per_key() == old(self).spec_max_per_key(),
            final(self).spec_max_age() == old(self).spec_max_age(),
    {
        let ghost ts = self.spec_topics();
        let found = self.find_topic(key);
        if let Some(i) = found {
            proof {
                assert(topic_view(self.topics@[i as int]) == ts[i as int]);
            }
            if let Some(j) = Self::find_pk(&self.topics[i], &public_key) {
                let mut t = self.take_topic(i);
                let ghost rs0 = ts[i as int].1;
                let entry = RecordEntry { public_key, record, inserted_at: now };
                let ghost ev = record_view(entry);
                t.records.set(j, entry);
                let ghost rs = rs0.update(j as int, ev);
                proof {
                    assert(topic_view(t).1 =~= rs) by {
                        assert(record_entries_view(t.records@) =~= rs);
                    }
                    assert(rs0[j as int].0 == public_key@);
                    assert forall|a: int, b: int| 0 <= a < b < rs.len() implies (#[trigger] rs[a]).0 != (
                    #[trigger] rs[b]).0 by {
                        assert(rs0[a].0 != rs0[b].0);
                    }
                    assert(ts[i as int].0 == key@);
                }
                self.topics.set(i, t);
                proof {
                    assert(self.spec_topics() =~= ts.update(i as int, (key@, rs)));
                    lemma_total_update(ts, i as int, (key@, rs));
                    lemma_topics_update(ts, i as int, rs);
                }
                return ;
            }
        }
        proof {
            assert(pk_absent(ts, key@, public_key@)) by {
                assert forall|x: int, j: int|
                    0 <= x < ts.len() && ts[x].0 == key@ && 0 <= j < ts[x].1.len() implies (
                #[trigger] ts[x].1[j]).0 != public_key@ by {
                    let i = found->0 as int;
                    assert(found is Some);
                    if x != i {
                        if x < i {
                            assert(ts[x].0 != ts[i].0);
                        } else {
                            assert(ts[i].0 != ts[x].0);
                        }
                    }
                    if ts[x].1[j].0 == public_key@ {
                        assert(exists|m: int| 0 <= m < ts[x].1.len() && (#[trigger] ts[x].1[m]).0 == public_key@);
                    }
                }
            }
        }
        if let Some(i) = found {
            let len = self.topics[i].records.len();
            if len >= self.max_per_key && len > 0 {
                proof {
                    assert(topic_view(self.topics@[i as int]) == ts[i as int]);
                    lemma_first_min_exists(record_times(ts[i as int].1));
                    lemma_absent_update(ts, key@, public_key@, i as int, first_min(record_times(ts[i as int].1)));
                    assert(ts[i as int].0 == key@);
                }
                self.cap_topic(i);
            }
        }
        let ghost ts1 = self.spec_topics();
        if self.total >= self.max_size {
            proof {
                if exists|b: int| is_oldest_topic(ts1, b) {
                    let b = choose|b: int| is_oldest_topic(ts1, b);
                    lemma_first_min_exists(record_times(ts1[b].1));
                    let rs = ts1[b].1.remove(first_min(record_times(ts1[b].1)));
                    lemma_absent_update(ts1, key@, public_key@, b, first_min(record_times(ts1[b].1)));
                    if rs.len() == 0 {
                        lemma_absent_remove(ts1, key@, public_key@, b);
                    }
                }
            }
            self.evict_oldest();
        }
        let ghost ts2 = self.spec_topics();
        proof {
            assert(total_of(ts2) <= total_of(ts)) by {
                if total_of(ts1) >= self.max_size {
                    if exists|b: int| is_oldest_topic(ts1, b) {
                        let b = choose|b: int| is_oldest_topic(ts1, b);
                        lemma_first_min_exists(record_times(ts1[b].1));
                        let rs = ts1[b].1.remove(first_min(record_times(ts1[b].1)));
                        if rs.len() == 0 {
                            lemma_total_remove(ts1, b);
                        } else {
                            lemma_total_update(ts1, b, (ts1[b].0, rs));
                        }
                    }
                }
                if let Some(i0) = found {
                    let i = i0 as int;
                    let len = ts[i].1.len();
                    if len >= self.max_per_key && len > 0 {
                        lemma_first_min_exists(record_times(ts[i].1));
                        lemma_total_update(ts, i, (key@, ts[i].1.remove(first_min(record_times(ts[i].1)))));
                    }
                }
            }
        }
        self.push_record(key, public_key, record, now);
    }

    /// Adds the record of `public_key` under `key`, as [`RecordCache::add_at`]
    /// does at the clock's reading.
    pub fn add(&mut self, key: &str, public_key: [u8; 32], record: Vec<u8>)
        requires
            old(self).wf(),
            old(self).spec_total() < usize::MAX,
        ensures
            final(self).wf(),
            exists|now: u128|
                final(self).spec_topics() == record_added(
                    old(self).spec_topics(),
                    old(self).spec_max_size(),
                    old(self).spec_max_per_key(),
                    key@,
                    public_key@,
                    record@,
                    now,
                ),
            final(self).spec_max_size() == old(self).spec_max_size(),
            final(self).spec_max_per_key() == old(self).spec_max_per_key(),
            final(self).spec_max_age() == old(self).spec_max_age(),
    {
        let now = nanos_since(&self.origin);
        self.add_at(key, public_key, record, now);
    }

    /// Removes the record of `public_key` under `key` (see [`record_removed`]).
    pub fn remove(&mut self, key: &str, public_key: &[u8; 32])
        requires
            old(self).wf(),
        ensures
            final(self).wf(),
            final(self).spec_topics() == record_removed(old(self).spec_topics(), key@, public_key@),
            final(self).spec_max_size() == old(self).spec_max_size(),
            final(self).spec_max_per_key() == old(self).spec_max_per_key(),
            final(self).spec_max_age() == old(self).spec_max_age(),
    {
        let ghost ts = self.spec_topics();
        if let Some(i) = self.find_topic(key) {
            proof {
                assert(topic_view(self.topics@[i as int]) == ts[i as int]);
                assert(ts[i as int].0 == key@);
                lemma_total_ge(ts, i as int);
            }
            let mut t = self.take_topic(i);
            let ghost rs0 = ts[i as int].1;
            let ghost mut rs = rs0;
            if let Some(j) = Self::find_pk(&t, public_key) {
                t.records.remove(j);
                proof {
                    rs = rs0.remove(j as int);
                    assert(record_entries_view(t.records@) =~= rs);
                    lemma_pks_remove(rs0, j as int);
                }
                self.total = self.total - 1;
            }
            if t.records.len() == 0 {
                self.topics.remove(i);
                proof {
                    assert(self.spec_topics() =~= ts.remove(i as int));
                    lemma_total_remove(ts, i as int);
                    lemma_topics_remove(ts, i as int);
                }
            } else {
                self.topics.set(i, t);
                proof {
                    assert(self.spec_topics() =~= ts.update(i as int, (key@, rs)));
                    lemma_total_update(ts, i as int, (key@, rs));
                    lemma_topics_update(ts, i as int, rs);
                }
            }
        }
    }

    /// Drops the dead records of `key` at clock reading `now` and gives the
    /// first `max` live ones (see [`expired`] and [`records_read`]).
    pub fn get_at(&mut self, key: &str, max: usize, now: u128) -> (r: Vec<Vec<u8>>)
        requires
            old(self).wf(),
        ensures
            final(self).wf(),
            vecs_view(r@) == records_read(old(self).spec_topics(), key@, max as nat, now, old(self).spec_max_age()),
            final(self).spec_topics() == expired(old(self).spec_topics(), key@, now, old(self).spec_max_age()),
            final(self).spec_max_size() == old(self).spec_max_size(),
            final(self).spec_max_per_key() == old(self).spec_max_per_key(),
            final(self).spec_max_age() == old(self).spec_max_age(),
    {
        let ghost ts = self.spec_topics();
        match self.find_topic(key) {
            None => {
                let r: Vec<Vec<u8>> = Vec::new();
                proof {
                    assert(vecs_view(r@) =~= Seq::<Seq<u8>>::empty());
                }
                r
            },
            Some(i) => {
                proof {
                    assert(topic_view(self.topics@[i as int]) == ts[i as int]);
                    assert(ts[i as int].0 == key@);
                    lemma_total_ge(ts, i as int);
                }
                let mut t = self.take_topic(i);
                let ghost rs0 = ts[i as int].1;
                let mut kept: Vec<RecordEntry> = Vec::new();
                let mut j: usize = 0;
                while j < t.records.len()
                    invariant
                        j <= t.records@.len(),
                        rs0 == record_entries_view(t.records@),
                        record_entries_view(kept@) == live(rs0.take(j as int), now, self.max_age),
                        kept@.len() <= j,
                    decreases t.records@.len() - j,
                {
                    let e = &t.records[j];
                    let age = now.saturating_sub(e.inserted_at);
                    proof {
                        assert(rs0.take(j + 1).drop_last() =~= rs0.take(j as int));
                        assert(rs0.take(j + 1).last() == record_view(t.records@[j as int]));
                    }
                    if age < self.max_age {
                        let c = RecordEntry { public_key: e.public_key, record: e.record.clone(), inserted_at: e.inserted_at };
                        let ghost before = kept@;
                        kept.push(c);
                        proof {
                            assert(record_entries_view(kept@) =~= record_entries_view(before).push(record_view(c)));
                        }
                    }
                    j = j + 1;
                }
                proof {
                    assert(rs0.take(j as int) =~= rs0);
                }
                let ghost l = live(rs0, now, self.max_age);
                let n = if max < kept.len() { max } else { kept.len() };
                let mut out: Vec<Vec<u8>> = Vec::new();
                let mut m: usize = 0;
                while m < n
                    invariant
                        m <= n <= kept@.len(),
                        record_entries_view(kept@) == l,
                        vecs_view(out@) == records_bytes(l.take(m as int)),
                    decreases n - m,
                {
                    let ghost before = out@;
                    let c = kept[m].record.clone();
                    out.push(c);
                    proof {
                        assert(l[m as int] == record_view(kept@[m as int]));
                        assert(out@ == before.push(c));
                        assert(c@ == kept@[m as int].record@);
                        assert(c@ == l[m as int].1);
                        assert(l.take(m + 1) =~= l.take(m as int).push(l[m as int]));
                        assert(vecs_view(out@) =~= vecs_view(before).push(c@));
                        assert(records_bytes(l.take(m + 1)) =~= records_bytes(l.take(m as int)).push(l[m as int].1));
                    }
                    m = m + 1;
                }
                let removed = t.records.len() - kept.len();
                proof {
                    lemma_live_sub(rs0, now, self.max_age);
                }
                t.records = kept;
                self.total = self.total - removed;
                self.topics.set(i, t);
                proof {
                    assert(self.spec_topics() =~= ts.update(i as int, (key@, l)));
                    lemma_total_update(ts, i as int, (key@, l));
                    lemma_topics_update(ts, i as int, l);
                }
                out
            },
        }
    }

    /// Drops the dead records of `key` and gives the first `max` live ones,
    /// as [`RecordCache::get_at`] does at the clock's reading.
    pub fn get(&mut self, key: &str, max: usize) -> (r: Vec<Vec<u8>>)
        requires
            old(self).wf(),
        ensures
            final(self).wf(),
            exists|now: u128|
                vecs_view(r@) == records_read(
                    old(self).spec_topics(),
                    key@,
                    max as nat,
                    now,
                    old(self).spec_max_age(),
                ) && final(self).spec_topics() == expired(old(self).spec_topics(), key@, now, old(self).spec_max_age()),
            final(self).spec_max_size() == old(self).spec_max_size(),
            final(self).spec_max_per_key() == old(self).spec_max_per_key(),
            final(self).spec_max_age() == old(self).spec_max_age(),
    {
        let now = nanos_since(&self.origin);
        self.get_at(key, max, now)
    }

    /// Drops every record.
    pub fn destroy(&mut self)
        ensures
            final(self).wf(),
            final(self).spec_topics().len() == 0,
            final(self).spec_max_size() == old(self).spec_max_size(),
            final(self).spec_max_per_key() == old(self).spec_max_per_key(),
            final(self).spec_max_age() == old(self).spec_max_age(),
    {
        self.topics.clear();
        self.total = 0;
        proof {
            assert(self.spec_topics() =~= Seq::<TopicView>::empty());
        }
    }
}

/// The live records are some of the records, keys and all.
proof fn lemma_live_sub(rs: Seq<RecordView>, now: u128, max_age: u128)
    requires
        pks_distinct(rs),
    ensures
        live(rs, now, max_age).len() <= rs.len(),
        pks_distinct(live(rs, now, max_age)),
        forall|x: int| 0 <= x < live(rs, now, max_age).len() ==> rs.contains(#[trigger] live(rs, now, max_age)[x]),
    decreases rs.len(),
{
    if rs.len() > 0 {
        let p = rs.drop_last();
        assert(pks_distinct(p));
        lemma_live_sub(p, now, max_age);
        let l = live(rs, now, max_age);
        let lp = live(p, now, max_age);
        assert forall|x: int| 0 <= x < l.len() implies rs.contains(#[trigger] l[x]) by {
            if x < lp.len() {
                assert(l[x] == lp[x]);
                assert(p.contains(lp[x]));
                let y = choose|y: int| 0 <= y < p.len() && p[y] == lp[x];
                assert(rs[y] == p[y]);
            } else {
                assert(l[x] == rs.last());
                assert(rs[rs.len() - 1] == rs.last());
            }
        }
        assert forall|a: int, b: int| 0 <= a < b < l.len() implies (#[trigger] l[a]).0 != (#[trigger] l[b]).0 by {
            if b < lp.len() {
                assert(l[a] == lp[a] && l[b] == lp[b]);
            } else {
                assert(l[b] == rs.last());
                assert(l[a] == lp[a]);
                assert(p.contains(lp[a]));
                let y = choose|y: int| 0 <= y < p.len() && p[y] == lp[a];
                assert(rs[y] == p[y]);
                assert(rs[y].0 != rs[rs.len() - 1].0);
            }
        }
    }
}


// ── Laws of the caches ──────────────────────────────────────────────────────

/// Setting a value never takes a cache over its size: with at most
/// `max_size` entries before (and room for one), at most `max_size` after.
pub proof fn lemma_cache_set_bounded(es: Seq<CacheEntryView>, max_size: nat, key: Seq<char>, v: Seq<u8>, now: u128)
    requires
        es.len() <= max_size,
        max_size >= 1,
    ensures
        cache_set(es, max_size, key, v, now).len() <= max_size,
{
    if es.len() >= max_size && es.len() > 0 {
        lemma_first_min_exists(cache_times(es));
        let o = first_min(cache_times(es));
        assert(0 <= o < cache_times(es).len());
    }
}

/// A value just set reads back at the same clock reading, when values live
/// for some time at all.
pub proof fn lemma_cache_set_then_lookup(es: Seq<CacheEntryView>, max_size: nat, max_age: u128, key: Seq<char>, v: Seq<u8>, now: u128)
    requires
        keys_distinct(es),
        max_age > 0,
    ensures
        cache_lookup(cache_set(es, max_size, key, v, now), max_age, key, now) == Some(v),
{
    let es1 = if es.len() >= max_size && es.len() > 0 {
        lemma_first_min_exists(cache_times(es));
        es.remove(first_min(cache_times(es)))
    } else {
        es
    };
    assert(keys_distinct(es1)) by {
        if es.len() >= max_size && es.len() > 0 {
            let o = first_min(cache_times(es));
            assert forall|a: int, b: int| 0 <= a < b < es1.len() implies (#[trigger] es1[a]).0 != (#[trigger] es1[b]).0 by {
                let a0 = if a < o { a } else { a + 1 };
                let b0 = if b < o { b } else { b + 1 };
                assert(es1[a] == es[a0] && es1[b] == es[b0]);
            }
        }
    }
    let r = cache_set(es, max_size, key, v, now);
    match cache_find(es1, key) {
        Some(i) => {
            assert(0 <= i < es1.len() && es1[i].0 == key);
            let u = es1.update(i, (key, v, now));
            assert(keys_distinct(u)) by {
                assert forall|a: int, b: int| 0 <= a < b < u.len() implies (#[trigger] u[a]).0 != (#[trigger] u[b]).0 by {
                    assert(es1[a].0 != es1[b].0);
                }
            }
            lemma_cache_find_at(u, key, i);
        },
        None => {
            let u = es1.push((key, v, now));
            assert(keys_distinct(u)) by {
                assert forall|a: int, b: int| 0 <= a < b < u.len() implies (#[trigger] u[a]).0 != (#[trigger] u[b]).0 by {
                    if b == u.len() - 1 {
                        if es1[a].0 == key {
                            assert(exists|k: int| 0 <= k < es1.len() && (#[trigger] es1[k]).0 == key);
                        }
                    } else {
                        assert(u[a] == es1[a] && u[b] == es1[b]);
                    }
                }
            }
            lemma_cache_find_at(u, key, u.len() - 1);
        },
    }
}

/// A deleted key reads as absent.
pub proof fn lemma_cache_delete_then_lookup(es: Seq<CacheEntryView>, max_age: u128, key: Seq<char>, now: u128)
    requires
        keys_distinct(es),
    ensures
        cache_lookup(cache_delete(es, key), max_age, key, now) is None,
{
    match cache_find(es, key) {
        Some(i) => {
            assert(0 <= i < es.len() && es[i].0 == key);
            let u = es.remove(i);
            assert forall|k: int| 0 <= k < u.len() implies (#[trigger] u[k]).0 != key by {
                let k0 = if k < i { k } else { k + 1 };
                assert(u[k] == es[k0]);
                if k0 < i {
                    assert(es[k0].0 != es[i].0);
                } else {
                    assert(es[i].0 != es[k0].0);
                }
            }
        },
        None => {},
    }
}

/// A record just added is among the records of its topic.
pub proof fn lemma_record_added_present(
    ts: Seq<TopicView>,
    max_size: nat,
    max_per_key: nat,
    key: Seq<char>,
    pk: Seq<u8>,
    rec: Seq<u8>,
    now: u128,
)
    requires
        topics_wf(ts),
    ensures
        ({
            let u = record_added(ts, max_size, max_per_key, key, pk, rec, now);
            exists|i: int| 0 <= i < u.len() && (#[trigger] u[i]).0 == key && u[i].1.contains((pk, rec, now))
        }),
{
    let u = record_added(ts, max_size, max_per_key, key, pk, rec, now);
    let found = topic_find(ts, key);
    if found matches Some(i) && pk_find(ts[i].1, pk) is Some {
        let i = found->0;
        let j = pk_find(ts[i].1, pk)->0;
        assert(0 <= i < ts.len() && ts[i].0 == key);
        assert(0 <= j < ts[i].1.len());
        assert(u[i].1[j] == (pk, rec, now));
        assert(u[i].0 == key);
    } else {
        let ts1 = match found {
            Some(i) => if ts[i].1.len() >= max_per_key && ts[i].1.len() > 0 {
                ts.update(i, (key, ts[i].1.remove(first_min(record_times(ts[i].1)))))
            } else {
                ts
            },
            None => ts,
        };
        let ts2 = if total_of(ts1) >= max_size {
            evicted(ts1)
        } else {
            ts1
        };
        match topic_find(ts2, key) {
            Some(i) => {
                assert(0 <= i < ts2.len() && ts2[i].0 == key);
                let rs = ts2[i].1.push((pk, rec, now));
                assert(u[i] == (key, rs));
                assert(rs[rs.len() - 1] == (pk, rec, now));
            },
            None => {
                assert(u[ts2.len() as int] == (key, seq![(pk, rec, now)]));
                assert(seq![(pk, rec, now)][0] == (pk, rec, now));
            },
        }
    }
}

/// After a removal the topic holds no record of that key.
pub proof fn lemma_record_removed_absent(ts: Seq<TopicView>, key: Seq<char>, pk: Seq<u8>)
    requires
        topics_wf(ts),
    ensures
        pk_absent(record_removed(ts, key, pk), key, pk),
{
    let u = record_removed(ts, key, pk);
    match topic_find(ts, key) {
        Some(i) => {
            assert(0 <= i < ts.len() && ts[i].0 == key);
            let rs0 = ts[i].1;
            let rs = match pk_find(rs0, pk) {
                Some(j) => rs0.remove(j),
                None => rs0,
            };
            assert forall|k: int| 0 <= k < rs.len() implies (#[trigger] rs[k]).0 != pk by {
                match pk_find(rs0, pk) {
                    Some(j) => {
                        assert(0 <= j < rs0.len() && rs0[j].0 == pk);
                        let k0 = if k < j { k } else { k + 1 };
                        assert(rs[k] == rs0[k0]);
                        if k0 < j {
                            assert(rs0[k0].0 != rs0[j].0);
                        } else {
                            assert(rs0[j].0 != rs0[k0].0);
                        }
                    },
                    None => {
                        if rs0[k].0 == pk {
                            assert(exists|m: int| 0 <= m < rs0.len() && (#[trigger] rs0[m]).0 == pk);
                        }
                    },
                }
            }
            assert forall|x: int, j: int| 0 <= x < u.len() && u[x].0 == key && 0 <= j < u[x].1.len() implies (
            #[trigger] u[x].1[j]).0 != pk by {
                if rs.len() == 0 {
                    let x0 = if x < i { x } else { x + 1 };
                    assert(u[x] == ts[x0]);
                    if x0 < i {
                        assert(ts[x0].0 != ts[i].0);
                    } else {
                        assert(ts[i].0 != ts[x0].0);
                    }
                } else if x == i {
                    assert(u[x].1 == rs);
                } else {
                    assert(u[x] == ts[x]);
                    if x < i {
                        assert(ts[x].0 != ts[i].0);
                    } else {
                        assert(ts[i].0 != ts[x].0);
                    }
                }
            }
        },
        None => {
            assert forall|x: int, j: int| 0 <= x < u.len() && u[x].0 == key && 0 <= j < u[x].1.len() implies (
            #[trigger] u[x].1[j]).0 != pk by {
                assert(exists|k: int| 0 <= k < ts.len() && (#[trigger] ts[k]).0 == key);
            }
        },
    }
}


// ── Requests and replies ────────────────────────────────────────────────────

/// A storage request from another node.
pub struct IncomingHyperRequest {
    pub command: u64,
    pub target: Option<[u8; 32]>,
    pub token: Option<[u8; 32]>,
    pub value: Option<Vec<u8>>,
    pub from: Ipv4Peer,
    pub id: Option<NodeId>,
}

/// What a handler answers.
#[derive(Debug)]
pub enum HandlerReply {
    /// A value, with the token and closer nodes.
    Value(Option<Vec<u8>>),
    /// A value, without the token and closer nodes.
    ValueNoToken(Option<Vec<u8>>),
    /// An error code.
    Error(u64),
    /// No reply: the request was bad or incomplete.
    Silent,
}

/// A self-announcement kept for a topic.
struct RouterEntry {
    key: String,
    relay: Ipv4Peer,
    record: Vec<u8>,
}

/// The storage of a node.
pub struct Persistent {
    records: RecordCache,
    bumps: LruCache,
    refreshes: LruCache,
    mutables: LruCache,
    immutables: LruCache,
    router: Vec<RouterEntry>,
}

/// The key of a target in the caches: its hexadecimal text.
pub open spec fn target_key(t: Seq<u8>) -> Seq<char> {
    hex_text(t)
}

/// The sequence number of a stored mutable value, if it decodes.
pub open spec fn stored_seq(stored: Option<Seq<u8>>) -> Option<u64> {
    match stored {
        Some(b) => match parse_mutable_get_response(b) {
            Ok((m, _k)) => Some(m.seq),
            Err(_) => None,
        },
        None => None,
    }
}

/// The error of a mutable put of `seq` over a stored value of sequence
/// number `stored`: the same number is reused, a lower one too low.
pub open spec fn seq_error(stored: Option<u64>, seq: u64) -> Option<u64> {
    match stored {
        Some(s) => if s == seq {
            Some(SEQ_REUSED)
        } else if s > seq {
            Some(SEQ_TOO_LOW)
        } else {
            None
        },
        None => None,
    }
}

/// The requested sequence number of a mutable get: the uint the value
/// starts with, else 0.
pub open spec fn requested_seq(v: Seq<u8>) -> u64 {
    match parse_uint(v) {
        Ok((n, _k)) => n,
        Err(_) => 0,
    }
}

impl Persistent {
    /// The values stored by immutable puts.
    pub closed spec fn spec_immutables(&self) -> Seq<CacheEntryView> {
        self.immutables.spec_entries()
    }

    /// The age at which immutable values are forgotten.
    pub closed spec fn spec_immutable_age(&self) -> u128 {
        self.immutables.spec_max_age()
    }

    /// The most immutable values.
    pub closed spec fn spec_immutable_size(&self) -> nat {
        self.immutables.spec_max_size()
    }

    /// The values stored by mutable puts.
    pub closed spec fn spec_mutables(&self) -> Seq<CacheEntryView> {
        self.mutables.spec_entries()
    }

    /// The age at which mutable values are forgotten.
    pub closed spec fn spec_mutable_age(&self) -> u128 {
        self.mutables.spec_max_age()
    }

    /// The most mutable values.
    pub closed spec fn spec_mutable_size(&self) -> nat {
        self.mutables.spec_max_size()
    }

    /// The bump counters by topic key.
    pub closed spec fn spec_bumps(&self) -> Seq<CacheEntryView> {
        self.bumps.spec_entries()
    }

    /// The age at which bump counters are forgotten.
    pub closed spec fn spec_bump_age(&self) -> u128 {
        self.bumps.spec_max_age()
    }

    /// The age at which announced records die.
    pub closed spec fn spec_record_age(&self) -> u128 {
        self.records.spec_max_age()
    }

    /// The announced records.
    pub closed spec fn spec_records(&self) -> Seq<TopicView> {
        self.records.spec_topics()
    }

    /// The self-announcements by topic key.
    pub closed spec fn spec_router(&self) -> Seq<(Seq<char>, Seq<u8>)> {
        self.router@.map_values(|e: RouterEntry| (e.key@, e.record@))
    }

    /// The caches are well formed and the router has one entry per key.
    pub closed spec fn wf(&self) -> bool {
        &&& self.records.wf()
        &&& self.bumps.wf()
        &&& self.refreshes.wf()
        &&& self.mutables.wf()
        &&& self.immutables.wf()
        &&& forall|a: int, b: int|
            0 <= a < b < self.router@.len() ==> (#[trigger] self.router@[a]).key@ != (#[trigger] self.router@[b]).key@
    }

    /// Empty storage sized by `config`.
    pub fn new(config: PersistentConfig) -> (p: Self)
        ensures
            p.wf(),
            p.spec_immutables().len() == 0,
            p.spec_mutables().len() == 0,
            p.spec_records().len() == 0,
            p.spec_router().len() == 0,
            p.spec_immutable_size() == config.max_lru_size,
            p.spec_mutable_size() == config.max_lru_size,
            p.spec_bumps().len() == 0,
            p.spec_refreshes().len() == 0,
            p.spec_bump_size() == config.max_lru_size,
            p.spec_refresh_size() == config.max_lru_size,
            p.spec_record_size() == config.max_records,
            p.spec_record_per_key() == config.max_per_key,
            p.spec_record_age() == config.max_record_age.nanos,
            p.spec_bump_age() == config.max_lru_age.nanos,
            p.spec_refresh_age() == config.max_lru_age.nanos,
            p.spec_mutable_age() == config.max_lru_age.nanos,
            p.spec_immutable_age() == config.max_lru_age.nanos,
    {
        let record_age = config.max_record_age.as_nanos();
        let lru_age = config.max_lru_age.as_nanos();
        let p = Persistent {
            records: RecordCache::with_age_nanos(config.max_records, record_age, config.max_per_key),
            bumps: LruCache::with_age_nanos(config.max_lru_size, lru_age),
            refreshes: LruCache::with_age_nanos(config.max_lru_size, lru_age),
            mutables: LruCache::with_age_nanos(config.max_lru_size, lru_age),
            immutables: LruCache::with_age_nanos(config.max_lru_size, lru_age),
            router: Vec::new(),
        };
        proof {
            assert(p.spec_router() =~= Seq::<(Seq<char>, Seq<u8>)>::empty());
        }
        p
    }

    /// The position of the self-announcement of `key`, if any.
    fn find_route(&self, key: &str) -> (r: Option<usize>)
        requires
            self.wf(),
        ensures
            match r {
                Some(i) => i < self.router@.len() && self.router@[i as int].key@ == key@,
                None => forall|i: int| 0 <= i < self.router@.len() ==> (#[trigger] self.router@[i]).key@ != key@,
            },
    {
        let mut i: usize = 0;
        while i < self.router.len()
            invariant
                i <= self.router@.len(),
                forall|j: int| 0 <= j < i ==> (#[trigger] self.router@[j]).key@ != key@,
            decreases self.router@.len() - i,
        {
            if same_str(self.router[i].key.as_str(), key) {
                return Some(i);
            }
            i = i + 1;
        }
        None
    }

    /// What FIND_PEER answers and how it changes the store (see [`Persistent::on_find_peer`]).
    pub open spec fn find_peer_post(&self, req: IncomingHyperRequest, r: HandlerReply) -> bool {
        &&& (
            match req.target {
                None => r is Silent,
                Some(t) => match r {
                    HandlerReply::Value(Some(v)) => exists|i: int|
                        0 <= i < self.spec_router().len() && #[trigger] self.spec_router()[i] == (target_key(t@), v@),
                    HandlerReply::Value(None) => forall|i: int|
                        0 <= i < self.spec_router().len() ==> (#[trigger] self.spec_router()[i]).0 != target_key(t@),
                    _ => false,
                },
            }
        )
    }

    /// FIND_PEER: the self-announcement of the target, if any; silent
    /// without a target.
    pub fn on_find_peer(&self, req: &IncomingHyperRequest) -> (r: HandlerReply)
        requires
            self.wf(),
        ensures
            self.find_peer_post(*req, r),
    {
        let target = match &req.target {
            Some(t) => t,
            None => return HandlerReply::Silent,
        };
        let key = to_hex(target);
        match self.find_route(key.as_str()) {
            Some(i) => {
                let v = self.router[i].record.clone();
                proof {
                    assert(self.spec_router()[i as int] == (target_key(target@), v@));
                }
                HandlerReply::Value(Some(v))
            },
            None => {
                proof {
                    assert forall|i: int| 0 <= i < self.spec_router().len() implies (#[trigger] self.spec_router()[i]).0
                        != target_key(target@) by {
                        assert(self.spec_router()[i].0 == self.router@[i].key@);
                    }
                }
                HandlerReply::Value(None)
            },
        }
    }

    /// What IMMUTABLE_PUT answers and how it changes the store (see [`Persistent::on_immutable_put`]).
    pub open spec fn immutable_put_post(pre: Persistent, post: Persistent, req: IncomingHyperRequest, r: HandlerReply) -> bool {
        &&& (
            post.wf()
        )
        &&& (
            post.spec_mutables() == pre.spec_mutables()
        )
        &&& (
            post.spec_records() == pre.spec_records()
        )
        &&& (
            post.spec_immutable_age() == pre.spec_immutable_age()
        )
        &&& (
            post.spec_immutable_size() == pre.spec_immutable_size()
        )
        &&& (
            match (req.target, req.token, req.value) {
                (Some(t), Some(_), Some(v)) => if blake2b_256(v@) == t@ {
                    &&& r matches HandlerReply::Value(None)
                    &&& exists|now: u128|
                        post.spec_immutables() == cache_set(
                            pre.spec_immutables(),
                            pre.spec_immutable_size(),
                            target_key(t@),
                            v@,
                            now,
                        )
                } else {
                    r is Silent && post.spec_immutables() == pre.spec_immutables()
                },
                _ => r is Silent && post.spec_immutables() == pre.spec_immutables(),
            }
        )
    }

    /// IMMUTABLE_PUT: stores a value under its own hash; silent without a
    /// target, a token or a value, or when the value does not hash to the target.
    pub fn on_immutable_put(&mut self, req: &IncomingHyperRequest) -> (r: HandlerReply)
        requires
            old(self).wf(),
        ensures
            Persistent::immutable_put_post(*old(self), *final(self), *req, r),
    {
        let target = match &req.target {
            Some(t) => *t,
            None => return HandlerReply::Silent,
        };
        if req.token.is_none() {
            return HandlerReply::Silent;
        }
        let value = match &req.value {
            Some(v) => v.clone(),
            None => return HandlerReply::Silent,
        };
        proof {
            assert(value@ == req.value->0@);
        }
        let h = hash(value.as_slice());
        if !crate::blind_relay::same_token(&h, &target) {
            return HandlerReply::Silent;
        }
        let key = to_hex(&target);
        let ghost old_imm = self.immutables.spec_entries();
        let ghost vv = value@;
        let ghost ms = self.immutables.spec_max_size();
        let ks = key.as_str();
        self.immutables.set(ks, value);
        proof {
            assert(ks@ == key@);
            assert(key@ == target_key(target@));
            let n = choose|n: u128| self.immutables.spec_entries() == cache_set(old_imm, ms, ks@, vv, n);
            assert(self.spec_immutables() == cache_set(old_imm, ms, target_key(target@), req.value->0@, n));
            assert(old_imm == old(self).spec_immutables());
            assert(ms == old(self).spec_immutable_size());
            assert(target@ == req.target->0@);
            assert(self.spec_immutables() == cache_set(
                old(self).spec_immutables(),
                old(self).spec_immutable_size(),
                target_key(req.target->0@),
                req.value->0@,
                n,
            ));
        }
        HandlerReply::Value(None)
    }

    /// What IMMUTABLE_GET answers and how it changes the store (see [`Persistent::on_immutable_get`]).
    pub open spec fn immutable_get_post(&self, req: IncomingHyperRequest, r: HandlerReply) -> bool {
        &&& (
            match req.target {
                None => r is Silent,
                Some(t) => match r {
                    HandlerReply::Value(Some(v)) => cache_find(self.spec_immutables(), target_key(t@)) matches Some(i)
                        && self.spec_immutables()[i].1 == v@,
                    HandlerReply::Value(None) => true,
                    _ => false,
                },
            }
        )
        &&& (
            req.target matches Some(t) && cache_find(self.spec_immutables(), target_key(t@)) is None
                ==> r matches HandlerReply::Value(None)
        )
        &&& (
            req.target matches Some(t) ==> exists|now: u128|
                match r {
                    HandlerReply::Value(Some(v)) => cache_lookup(self.spec_immutables(), self.spec_immutable_age(), target_key(t@), now)
                        == Some(v@),
                    HandlerReply::Value(None) => cache_lookup(self.spec_immutables(), self.spec_immutable_age(), target_key(t@), now)
                        is None,
                    _ => false,
                }
        )
    }

    /// IMMUTABLE_GET: the live value stored under the target; silent without a target.
    pub fn on_immutable_get(&self, req: &IncomingHyperRequest) -> (r: HandlerReply)
        requires
            self.wf(),
        ensures
            self.immutable_get_post(*req, r),
    {
        let target = match &req.target {
            Some(t) => t,
            None => return HandlerReply::Silent,
        };
        let key = to_hex(target);
        let got = self.immutables.get(key.as_str());
        proof {
            assert(key@ == target_key(target@));
            let now = choose|now: u128|
                match got {
                    Some(v) => cache_lookup(self.immutables.spec_entries(), self.immutables.spec_max_age(), key@, now) == Some(v@),
                    None => cache_lookup(self.immutables.spec_entries(), self.immutables.spec_max_age(), key@, now) is None,
                };
            assert(match got {
                Some(v) => cache_lookup(self.spec_immutables(), self.spec_immutable_age(), target_key(target@), now) == Some(v@),
                None => cache_lookup(self.spec_immutables(), self.spec_immutable_age(), target_key(target@), now) is None,
            });
        }
        HandlerReply::Value(got)
    }
}


/// The reply bytes of a mutable get over the value stored at the target: the
/// stored bytes when they decode with a sequence number of at least `seq`.
pub open spec fn mutable_get_reply(stored: Option<Seq<u8>>, seq: u64) -> Option<Seq<u8>> {
    match stored {
        Some(b) => match parse_mutable_get_response(b) {
            Ok((m, _k)) => if m.seq >= seq {
                Some(b)
            } else {
                None
            },
            Err(_) => None,
        },
        None => None,
    }
}

/// The bytes a put stores: the value, its sequence number and its signature
/// as a get response.
pub open spec fn stored_bytes(put: MutablePutRequestView) -> Seq<u8> {
    enc_mutable_get_response(MutableGetResponseView { seq: put.seq, value: put.value, signature: put.signature })
}

/// Whether a decoded put is signed by its key over its sequence number and value.
pub open spec fn put_signed(put: MutablePutRequestView) -> bool {
    ed25519_verify(
        put.signature,
        crate::crypto::namespace_entry(crate::crypto::dht_name_hash(), 6) + blake2b_256(enc_uint(put.seq) + enc_buffer(Some(put.value))),
        put.public_key,
    )
}

/// A value read from a buffer is no longer than the buffer.
proof fn lemma_put_value_len(s: Seq<u8>)
    ensures
        parse_mutable_put_request(s) matches Ok((m, _k)) ==> m.value.len() <= s.len(),
{
}

impl Persistent {
    /// What MUTABLE_GET answers and how it changes the store (see [`Persistent::on_mutable_get`]).
    pub open spec fn mutable_get_post(&self, req: IncomingHyperRequest, r: HandlerReply) -> bool {
        &&& (
            match (req.target, req.value) {
                (Some(t), Some(v)) => exists|now: u128|
                    match r {
                        HandlerReply::Value(Some(b)) => mutable_get_reply(
                            cache_lookup(self.spec_mutables(), self.spec_mutable_age(), target_key(t@), now),
                            requested_seq(v@),
                        ) == Some(b@),
                        HandlerReply::Value(None) => mutable_get_reply(
                            cache_lookup(self.spec_mutables(), self.spec_mutable_age(), target_key(t@), now),
                            requested_seq(v@),
                        ) is None,
                        _ => false,
                    },
                _ => r is Silent,
            }
        )
    }

    /// MUTABLE_GET: the stored value of the target when its sequence number
    /// is at least the requested one; silent without a target or a value.
    pub fn on_mutable_get(&self, req: &IncomingHyperRequest) -> (r: HandlerReply)
        requires
            self.wf(),
        ensures
            self.mutable_get_post(*req, r),
    {
        let target = match &req.target {
            Some(t) => t,
            None => return HandlerReply::Silent,
        };
        let value = match &req.value {
            Some(v) => v,
            None => return HandlerReply::Silent,
        };
        let mut s = State::from_buffer(value.as_slice());
        proof {
            assert(s.rest() =~= value@);
        }
        let wanted = match decode_uint(&mut s) {
            Ok(n) => n,
            Err(_) => 0,
        };
        let key = to_hex(target);
        let ks = key.as_str();
        let got = self.mutables.get(ks);
        let ghost now = choose|now: u128|
            match got {
                Some(v) => cache_lookup(self.mutables.spec_entries(), self.mutables.spec_max_age(), ks@, now) == Some(v@),
                None => cache_lookup(self.mutables.spec_entries(), self.mutables.spec_max_age(), ks@, now) is None,
            };
        proof {
            assert(ks@ == target_key(target@));
        }
        let ghost reply = mutable_get_reply(
            cache_lookup(self.spec_mutables(), self.spec_mutable_age(), target_key(target@), now),
            requested_seq(value@),
        );
        proof {
            assert(requested_seq(value@) == wanted);
        }
        if let Some(stored_bytes) = got {
            if let Ok(stored) = decode_mutable_get_response_from_bytes(stored_bytes.as_slice()) {
                if stored.seq >= wanted {
                    proof {
                        assert(reply == Some(stored_bytes@));
                    }
                    return HandlerReply::Value(Some(stored_bytes));
                }
            }
        }
        proof {
            assert(reply is None);
        }
        HandlerReply::Value(None)
    }

    /// What MUTABLE_PUT answers and how it changes the store (see [`Persistent::on_mutable_put`]).
    pub open spec fn mutable_put_post(pre: Persistent, post: Persistent, req: IncomingHyperRequest, r: HandlerReply) -> bool {
        &&& (
            post.wf()
        )
        &&& (
            post.spec_immutables() == pre.spec_immutables()
        )
        &&& (
            post.spec_records() == pre.spec_records()
        )
        &&& (
            post.spec_mutable_age() == pre.spec_mutable_age()
        )
        &&& (
            post.spec_mutable_size() == pre.spec_mutable_size()
        )
        &&& (
            match (req.target, req.token, req.value) {
                (Some(t), Some(_), Some(v)) => match parse_mutable_put_request(v@) {
                    Ok((put, _k)) => if blake2b_256(put.public_key) != t@ || !put_signed(put) {
                        r is Silent && post.spec_mutables() == pre.spec_mutables()
                    } else {
                        exists|now: u128|
                            match seq_error(
                                stored_seq(#[trigger] cache_lookup(pre.spec_mutables(), pre.spec_mutable_age(), target_key(t@), now)),
                                put.seq,
                            ) {
                                Some(code) => r == HandlerReply::Error(code) && post.spec_mutables() == pre.spec_mutables(),
                                None => r matches HandlerReply::Value(None) && exists|later: u128|
                                    post.spec_mutables() == cache_set(
                                        pre.spec_mutables(),
                                        pre.spec_mutable_size(),
                                        target_key(t@),
                                        stored_bytes(put),
                                        later,
                                    ),
                            }
                    },
                    Err(_) => r is Silent && post.spec_mutables() == pre.spec_mutables(),
                },
                _ => r is Silent && post.spec_mutables() == pre.spec_mutables(),
            }
        )
    }

    /// MUTABLE_PUT: stores a signed value under the hash of its key; silent
    /// without a target, a token or a value, when the value does not decode,
    /// when the key does not hash to the target or the signature fails; an
    /// error when a stored value has the same or a higher sequence number.
    pub fn on_mutable_put(&mut self, req: &IncomingHyperRequest) -> (r: HandlerReply)
        requires
            old(self).wf(),
            req.value matches Some(v) ==> v@.len() <= usize::MAX / 2,
        ensures
            Persistent::mutable_put_post(*old(self), *final(self), *req, r),
    {
        let target = match &req.target {
            Some(t) => *t,
            None => return HandlerReply::Silent,
        };
        if req.token.is_none() {
            return HandlerReply::Silent;
        }
        let value = match &req.value {
            Some(v) => v,
            None => return HandlerReply::Silent,
        };
        let put = match decode_mutable_put_request_from_bytes(value.as_slice()) {
            Ok(p) => p,
            Err(_) => return HandlerReply::Silent,
        };
        proof {
            lemma_put_value_len(value@);
            crate::compact_encoding::lemma_uint_roundtrip(put.seq, Seq::empty());
        }
        let h = hash(&put.public_key);
        if !crate::blind_relay::same_token(&h, &target) {
            return HandlerReply::Silent;
        }
        let ns = ns_mutable_put();
        let signable = mutable_signable(&ns, put.seq, put.value.as_slice());
        if !verify_detached(&put.signature, &signable, &put.public_key) {
            return HandlerReply::Silent;
        }
        let key = to_hex(&target);
        let ks = key.as_str();
        let got = self.mutables.get(ks);
        let ghost now = choose|now: u128|
            match got {
                Some(v) => cache_lookup(self.mutables.spec_entries(), self.mutables.spec_max_age(), ks@, now) == Some(v@),
                None => cache_lookup(self.mutables.spec_entries(), self.mutables.spec_max_age(), ks@, now) is None,
            };
        proof {
            assert(ks@ == target_key(target@));
        }
        let ghost lookup = cache_lookup(old(self).spec_mutables(), old(self).spec_mutable_age(), target_key(target@), now);
        proof {
            assert(put_signed(put@)) by {
                assert(signable@ == ns@ + blake2b_256(enc_uint(put.seq) + enc_buffer(Some(put.value@))));
            }
            assert(parse_mutable_put_request(req.value->0@) matches Ok((w, _k)) && w == put@);
        }
        if let Some(existing_bytes) = got {
            if let Ok(existing) = decode_mutable_get_response_from_bytes(existing_bytes.as_slice()) {
                if existing.seq == put.seq {
                    proof {
                        assert(seq_error(stored_seq(lookup), put.seq) == Some(SEQ_REUSED));
                    }
                    return HandlerReply::Error(SEQ_REUSED);
                }
                if existing.seq > put.seq {
                    proof {
                        assert(seq_error(stored_seq(lookup), put.seq) == Some(SEQ_TOO_LOW));
                    }
                    return HandlerReply::Error(SEQ_TOO_LOW);
                }
            }
        }
        proof {
            assert(seq_error(stored_seq(lookup), put.seq) is None);
        }
        let response = MutableGetResponse { seq: put.seq, value: put.value, signature: put.signature };
        let ghost rv = response@;
        match encode_mutable_get_response_to_bytes(&response) {
            Ok(encoded) => {
                let ghost old_m = self.mutables.spec_entries();
                let ghost ms = self.mutables.spec_max_size();
                let ghost eb = encoded@;
                self.mutables.set(ks, encoded);
                proof {
                    let n = choose|n: u128| self.mutables.spec_entries() == cache_set(old_m, ms, ks@, eb, n);
                    assert(self.spec_mutables() == cache_set(
                        old(self).spec_mutables(),
                        old(self).spec_mutable_size(),
                        target_key(req.target->0@),
                        stored_bytes(put@),
                        n,
                    ));
                }
                HandlerReply::Value(None)
            },
            Err(_) => HandlerReply::Silent,
        }
    }
}


/// A stored put answers a get of any sequence number up to its own with the
/// bytes it stored, when read at the instant it was written.
pub proof fn lemma_mutable_put_then_get(
    es: Seq<CacheEntryView>,
    max_size: nat,
    max_age: u128,
    t: Seq<u8>,
    put: MutablePutRequestView,
    seq: u64,
    now: u128,
)
    requires
        keys_distinct(es),
        max_age > 0,
        put.signature.len() == 64,
        put.value.len() <= usize::MAX,
        seq <= put.seq,
    ensures
        mutable_get_reply(
            cache_lookup(cache_set(es, max_size, target_key(t), stored_bytes(put), now), max_age, target_key(t), now),
            seq,
        ) == Some(stored_bytes(put)),
{
    lemma_cache_set_then_lookup(es, max_size, max_age, target_key(t), stored_bytes(put), now);
    let m = MutableGetResponseView { seq: put.seq, value: put.value, signature: put.signature };
    crate::hyperdht_messages::lemma_mutable_get_response_roundtrip(m, Seq::empty());
    assert(enc_mutable_get_response(m) + Seq::empty() =~= enc_mutable_get_response(m));
}

/// A stored value of the same or a higher sequence number refuses a put:
/// the same number is reused, a lower one too low.
pub proof fn lemma_put_over_stored(stored: MutableGetResponseView, seq: u64)
    requires
        stored.signature.len() == 64,
        stored.value.len() <= usize::MAX,
    ensures
        seq_error(stored_seq(Some(enc_mutable_get_response(stored))), seq) == (if stored.seq == seq {
            Some(SEQ_REUSED)
        } else if stored.seq > seq {
            Some(SEQ_TOO_LOW)
        } else {
            None::<u64>
        }),
{
    crate::hyperdht_messages::lemma_mutable_get_response_roundtrip(stored, Seq::empty());
    assert(enc_mutable_get_response(stored) + Seq::empty() =~= enc_mutable_get_response(stored));
}


// ── Lookups ─────────────────────────────────────────────────────────────────

/// The peer records among `rs` that decode, in order.
pub open spec fn decoded_peers(rs: Seq<Seq<u8>>) -> Seq<HyperPeerView>
    decreases rs.len(),
{
    if rs.len() == 0 {
        Seq::empty()
    } else {
        let p = decoded_peers(rs.drop_last());
        match parse_hyper_peer(rs.last()) {
            Ok((v, _k)) => p.push(v),
            Err(_) => p,
        }
    }
}

/// The self-announcement stored for `key`, if any.
pub open spec fn route_of(router: Seq<(Seq<char>, Seq<u8>)>, key: Seq<char>) -> Option<Seq<u8>> {
    if exists|i: int| 0 <= i < router.len() && (#[trigger] router[i]).0 == key {
        Some(router[choose|i: int| 0 <= i < router.len() && (#[trigger] router[i]).0 == key].1)
    } else {
        None
    }
}

/// The peers a lookup answers with: the records read that decode, then the
/// self-announcement when it decodes and there is room.
pub open spec fn lookup_peers(read: Seq<Seq<u8>>, route: Option<Seq<u8>>) -> Seq<HyperPeerView> {
    let p = decoded_peers(read);
    if p.len() < MAX_RECORDS_PER_LOOKUP {
        match route {
            Some(b) => match parse_hyper_peer(b) {
                Ok((v, _k)) => p.push(v),
                Err(_) => p,
            },
            None => p,
        }
    } else {
        p
    }
}

/// The bump counter stored for a topic: the uint its value starts with, else 0.
pub open spec fn bump_of(stored: Option<Seq<u8>>) -> u64 {
    match stored {
        Some(b) => requested_seq(b),
        None => 0,
    }
}

/// The value a lookup answers with: none when there are no peers and no
/// bump, or when the reply does not encode (or would not fit in memory).
pub open spec fn lookup_reply(peers: Seq<HyperPeerView>, bump: u64) -> Option<Seq<u8>> {
    let v = LookupRawReplyView { peers, bump };
    if peers.len() == 0 && bump == 0 {
        None
    } else if lookup_raw_reply_size(v) > usize::MAX || !valid_peers(all_relays(peers)) {
        None
    } else {
        Some(enc_lookup_raw_reply(v))
    }
}

/// The records of a prefix take no more room than all of them.
proof fn lemma_peers_size_prefix(ps: Seq<HyperPeerView>, j: int)
    requires
        0 <= j <= ps.len(),
    ensures
        hyper_peers_size(ps.take(j)) <= hyper_peers_size(ps),
    decreases ps.len(),
{
    if j < ps.len() {
        lemma_peers_size_prefix(ps.drop_last(), j);
        assert(ps.drop_last().take(j) =~= ps.take(j));
    } else {
        assert(ps.take(j) =~= ps);
    }
}

/// The size of a lookup reply, if it fits in a `usize`.
fn lookup_reply_size(reply: &LookupRawReply) -> (r: Option<usize>)
    ensures
        match r {
            Some(n) => n == lookup_raw_reply_size(reply@),
            None => lookup_raw_reply_size(reply@) > usize::MAX,
        },
{
    let ghost ps = hyper_peers_view(reply.peers@);
    let mut total: usize = 0;
    let mut i: usize = 0;
    while i < reply.peers.len()
        invariant
            i <= reply.peers@.len(),
            ps == hyper_peers_view(reply.peers@),
            total == hyper_peers_size(ps.take(i as int)),
        decreases reply.peers@.len() - i,
    {
        let n = reply.peers[i].relay_addresses.len();
        proof {
            assert(ps.take(i + 1).drop_last() =~= ps.take(i as int));
            assert(ps[i as int] == reply.peers@[i as int]@);
            crate::compact_encoding::lemma_uint_roundtrip(n as u64, Seq::empty());
        }
        let us: usize = if (n as u64) <= 0xfc {
            1
        } else if (n as u64) <= 0xffff {
            3
        } else if (n as u64) <= 0xffff_ffff {
            5
        } else {
            9
        };
        proof {
            lemma_peers_size_prefix(ps, i + 1);
            assert(hyper_peers_size(ps.take(i + 1)) == total + 32 + us + 6 * n);
        }
        let addrs = match n.checked_mul(6) {
            Some(x) => x,
            None => return None,
        };
        let one = match addrs.checked_add(32 + us) {
            Some(x) => x,
            None => return None,
        };
        total = match total.checked_add(one) {
            Some(x) => x,
            None => return None,
        };
        i = i + 1;
    }
    proof {
        assert(ps.take(i as int) =~= ps);
    }
    let c = reply.peers.len() as u64;
    let cs: usize = if c <= 0xfc { 1 } else if c <= 0xffff { 3 } else if c <= 0xffff_ffff { 5 } else { 9 };
    let b = reply.bump;
    let bs: usize = if b <= 0xfc { 1 } else if b <= 0xffff { 3 } else if b <= 0xffff_ffff { 5 } else { 9 };
    total = match total.checked_add(cs) {
        Some(x) => x,
        None => return None,
    };
    total = match total.checked_add(bs) {
        Some(x) => x,
        None => return None,
    };
    Some(total)
}


impl Persistent {
    /// The self-announcement of `key`, if any.
    fn route_record(&self, key: &str) -> (r: Option<&Vec<u8>>)
        requires
            self.wf(),
        ensures
            match r {
                Some(b) => route_of(self.spec_router(), key@) == Some(b@),
                None => route_of(self.spec_router(), key@) is None,
            },
    {
        let ghost rt = self.spec_router();
        match self.find_route(key) {
            Some(i) => {
                proof {
                    assert(rt[i as int].0 == key@);
                    let k = choose|k: int| 0 <= k < rt.len() && (#[trigger] rt[k]).0 == key@;
                    if k != i {
                        assert(rt[k].0 == self.router@[k].key@);
                        assert(rt[i as int].0 == self.router@[i as int].key@);
                        if k < i {
                            assert(self.router@[k].key@ != self.router@[i as int].key@);
                        } else {
                            assert(self.router@[i as int].key@ != self.router@[k].key@);
                        }
                    }
                }
                Some(&self.router[i].record)
            },
            None => {
                proof {
                    assert forall|k: int| 0 <= k < rt.len() implies (#[trigger] rt[k]).0 != key@ by {
                        assert(rt[k].0 == self.router@[k].key@);
                    }
                }
                None
            },
        }
    }

    /// What LOOKUP answers and how it changes the store (see [`Persistent::on_lookup`]).
    pub open spec fn lookup_post(pre: Persistent, post: Persistent, req: IncomingHyperRequest, r: HandlerReply) -> bool {
        &&& (
            post.wf()
        )
        &&& (
            post.spec_immutables() == pre.spec_immutables()
        )
        &&& (
            post.spec_mutables() == pre.spec_mutables()
        )
        &&& (
            post.spec_bumps() == pre.spec_bumps()
        )
        &&& (
            post.spec_router() == pre.spec_router()
        )
        &&& (
            post.spec_record_age() == pre.spec_record_age()
        )
        &&& (
            match req.target {
                None => r is Silent && post.spec_records() == pre.spec_records(),
                Some(t) => exists|now: u128, later: u128|
                    {
                        &&& post.spec_records() == #[trigger] expired(
                            pre.spec_records(),
                            target_key(t@),
                            now,
                            pre.spec_record_age(),
                        )
                        &&& match r {
                            HandlerReply::Value(v) => opt_vec_view(v) == lookup_reply(
                                lookup_peers(
                                    records_read(
                                        pre.spec_records(),
                                        target_key(t@),
                                        MAX_RECORDS_PER_LOOKUP as nat,
                                        now,
                                        pre.spec_record_age(),
                                    ),
                                    route_of(pre.spec_router(), target_key(t@)),
                                ),
                                bump_of(
                                    #[trigger] cache_lookup(
                                        pre.spec_bumps(),
                                        pre.spec_bump_age(),
                                        target_key(t@),
                                        later,
                                    ),
                                ),
                            ),
                            _ => false,
                        }
                    },
            }
        )
    }

    /// LOOKUP: the announced peers of the target and its bump counter;
    /// silent without a target. Reading drops the topic's dead records.
    pub fn on_lookup(&mut self, req: &IncomingHyperRequest) -> (r: HandlerReply)
        requires
            old(self).wf(),
        ensures
            Persistent::lookup_post(*old(self), *final(self), *req, r),
    {
        let target = match &req.target {
            Some(t) => *t,
            None => return HandlerReply::Silent,
        };
        let key = to_hex(&target);
        let ks = key.as_str();
        let ghost ts0 = self.records.spec_topics();
        let records = self.records.get(ks, MAX_RECORDS_PER_LOOKUP);
        let ghost now = choose|now: u128|
            vecs_view(records@) == records_read(ts0, ks@, MAX_RECORDS_PER_LOOKUP as nat, now, self.records.spec_max_age())
                && self.records.spec_topics() == expired(ts0, ks@, now, self.records.spec_max_age());
        let ghost read = vecs_view(records@);
        let mut peers: Vec<HyperPeer> = Vec::new();
        let mut i: usize = 0;
        while i < records.len()
            invariant
                i <= records@.len(),
                read == vecs_view(records@),
                hyper_peers_view(peers@) == decoded_peers(read.take(i as int)),
                peers@.len() <= i,
            decreases records@.len() - i,
        {
            proof {
                assert(read.take(i + 1).drop_last() =~= read.take(i as int));
                assert(read.take(i + 1).last() == records@[i as int]@);
            }
            match decode_hyper_peer_from_bytes(records[i].as_slice()) {
                Ok(p) => {
                    let ghost before = peers@;
                    peers.push(p);
                    proof {
                        assert(hyper_peers_view(peers@) =~= hyper_peers_view(before).push(p@));
                    }
                },
                Err(_) => {},
            }
            i = i + 1;
        }
        proof {
            assert(read.take(i as int) =~= read);
        }
        let ghost route = route_of(self.spec_router(), ks@);
        if peers.len() < MAX_RECORDS_PER_LOOKUP {
            if let Some(b) = self.route_record(ks) {
                if let Ok(p) = decode_hyper_peer_from_bytes(b.as_slice()) {
                    let ghost before = peers@;
                    peers.push(p);
                    proof {
                        assert(hyper_peers_view(peers@) =~= hyper_peers_view(before).push(p@));
                    }
                }
            }
        }
        let ghost peers_v = hyper_peers_view(peers@);
        proof {
            assert(peers_v == lookup_peers(read, route));
        }
        let got = self.bumps.get(ks);
        let ghost later = choose|later: u128|
            match got {
                Some(v) => cache_lookup(self.bumps.spec_entries(), self.bumps.spec_max_age(), ks@, later) == Some(v@),
                None => cache_lookup(self.bumps.spec_entries(), self.bumps.spec_max_age(), ks@, later) is None,
            };
        let bump: u64 = match got {
            Some(b) => {
                let mut st = State::from_buffer(b.as_slice());
                proof {
                    assert(st.rest() =~= b@);
                }
                match decode_uint(&mut st) {
                    Ok(n) => n,
                    Err(_) => 0,
                }
            },
            None => 0,
        };
        let ghost want = lookup_reply(peers_v, bump);
        proof {
            assert(ks@ == target_key(target@));
            assert(bump == bump_of(cache_lookup(self.bumps.spec_entries(), self.bumps.spec_max_age(), ks@, later)));
        }
        if peers.len() == 0 && bump == 0 {
            proof {
                assert(want is None);
                let rd = records_read(old(self).spec_records(), target_key(target@), MAX_RECORDS_PER_LOOKUP as nat, now, old(self).spec_record_age());
                let ex = expired(old(self).spec_records(), target_key(target@), now, old(self).spec_record_age());
                let bl = cache_lookup(old(self).spec_bumps(), old(self).spec_bump_age(), target_key(target@), later);
                assert(rd == read);
                assert(ex == self.spec_records());
            }
            return HandlerReply::Value(None);
        }
        let reply = LookupRawReply { peers, bump };
        proof {
            assert(reply@ == LookupRawReplyView { peers: peers_v, bump });
        }
        let ghost rd = records_read(old(self).spec_records(), target_key(target@), MAX_RECORDS_PER_LOOKUP as nat, now, old(self).spec_record_age());
        let ghost ex = expired(old(self).spec_records(), target_key(target@), now, old(self).spec_record_age());
        let ghost bl = cache_lookup(old(self).spec_bumps(), old(self).spec_bump_age(), target_key(target@), later);
        proof {
            assert(rd == read);
            assert(ex == self.spec_records());
        }
        if lookup_reply_size(&reply).is_none() {
            return HandlerReply::Value(None);
        }
        match encode_lookup_raw_reply_to_bytes(&reply) {
            Ok(bytes) => HandlerReply::Value(Some(bytes)),
            Err(_) => HandlerReply::Value(None),
        }
    }
}

/// The bytes of an optional vector.
pub open spec fn opt_vec_view(v: Option<Vec<u8>>) -> Option<Seq<u8>> {
    match v {
        Some(b) => Some(b@),
        None => None,
    }
}


// ── Announcements ───────────────────────────────────────────────────────────

/// The refresh token bytes an announcement signs: the token, or nothing.
pub open spec fn refresh_bytes(r: Option<Seq<u8>>) -> Seq<u8> {
    match r {
        Some(b) => b,
        None => Seq::empty(),
    }
}

/// Whether `sig` by `p` signs the announcement of `p` on target `t` with
/// token `k` to node `id`, in the namespace of command `cmd`.
pub open spec fn announce_signed(
    cmd: u8,
    t: Seq<u8>,
    k: Seq<u8>,
    id: Seq<u8>,
    p: HyperPeerView,
    refresh: Option<Seq<u8>>,
    sig: Seq<u8>,
) -> bool {
    ed25519_verify(
        sig,
        namespace_entry(dht_name_hash(), cmd) + blake2b_256(t + id + k + enc_hyper_peer(p) + refresh_bytes(refresh)),
        p.public_key,
    )
}

/// Whether a peer record can be encoded: its hosts are addresses and its size fits.
pub open spec fn peer_encodable(p: HyperPeerView) -> bool {
    valid_peers(p.relay_addresses) && hyper_peer_size(p) <= usize::MAX
}

/// The self-announcements without the one of `key`.
pub open spec fn route_removed(rt: Seq<(Seq<char>, Seq<u8>)>, key: Seq<char>) -> Seq<(Seq<char>, Seq<u8>)> {
    if exists|i: int| 0 <= i < rt.len() && (#[trigger] rt[i]).0 == key {
        rt.remove(choose|i: int| 0 <= i < rt.len() && (#[trigger] rt[i]).0 == key)
    } else {
        rt
    }
}

/// The size of a peer record, if it fits in a `usize`.
fn hyper_peer_size_checked(p: &HyperPeer) -> (r: Option<usize>)
    ensures
        match r {
            Some(n) => n == hyper_peer_size(p@),
            None => hyper_peer_size(p@) > usize::MAX,
        },
{
    let n = p.relay_addresses.len();
    proof {
        crate::compact_encoding::lemma_uint_roundtrip(n as u64, Seq::empty());
    }
    let us: usize = if (n as u64) <= 0xfc {
        1
    } else if (n as u64) <= 0xffff {
        3
    } else if (n as u64) <= 0xffff_ffff {
        5
    } else {
        9
    };
    let addrs = match n.checked_mul(6) {
        Some(x) => x,
        None => return None,
    };
    addrs.checked_add(32 + us)
}

impl Persistent {
    /// Drops the self-announcement of `key`.
    fn remove_route(&mut self, key: &str)
        requires
            old(self).wf(),
        ensures
            final(self).wf(),
            final(self).spec_router() == route_removed(old(self).spec_router(), key@),
            final(self).spec_records() == old(self).spec_records(),
            final(self).spec_mutables() == old(self).spec_mutables(),
            final(self).spec_immutables() == old(self).spec_immutables(),
            final(self).spec_bumps() == old(self).spec_bumps(),
            final(self).spec_refreshes() == old(self).spec_refreshes(),
            final(self).spec_record_age() == old(self).spec_record_age(),
    {
        let ghost rt = self.spec_router();
        let ghost rv = self.router@;
        match self.find_route(key) {
            Some(i) => {
                proof {
                    assert(rt[i as int].0 == key@);
                    let k = choose|k: int| 0 <= k < rt.len() && (#[trigger] rt[k]).0 == key@;
                    if k != i {
                        assert(rt[k].0 == rv[k].key@);
                        if k < i {
                            assert(rv[k].key@ != rv[i as int].key@);
                        } else {
                            assert(rv[i as int].key@ != rv[k].key@);
                        }
                    }
                }
                self.router.remove(i);
                proof {
                    assert(self.spec_router() =~= rt.remove(i as int));
                    assert forall|a: int, b: int| 0 <= a < b < self.router@.len() implies (
                    #[trigger] self.router@[a]).key@ != (#[trigger] self.router@[b]).key@ by {
                        let a0 = if a < i { a } else { a + 1 };
                        let b0 = if b < i { b } else { b + 1 };
                        assert(self.router@[a] == rv[a0] && self.router@[b] == rv[b0]);
                    }
                }
            },
            None => {
                proof {
                    assert forall|k: int| 0 <= k < rt.len() implies (#[trigger] rt[k]).0 != key@ by {
                        assert(rt[k].0 == rv[k].key@);
                    }
                }
            },
        }
    }

    /// What UNANNOUNCE answers and how it changes the store (see [`Persistent::on_unannounce`]).
    pub open spec fn unannounce_post(pre: Persistent, post: Persistent, req: IncomingHyperRequest, node_id: [u8; 32], r: HandlerReply) -> bool {
        &&& (
            post.wf()
        )
        &&& (
            post.spec_mutables() == pre.spec_mutables()
        )
        &&& (
            post.spec_immutables() == pre.spec_immutables()
        )
        &&& (
            post.spec_bumps() == pre.spec_bumps()
        )
        &&& (
            post.spec_refreshes() == pre.spec_refreshes()
        )
        &&& (
            post.spec_record_age() == pre.spec_record_age()
        )
        &&& (
            match (req.target, req.token, req.value) {
                (Some(t), Some(k), Some(v)) => match parse_announce(v@) {
                    Ok((m, _n)) => if m.peer is Some && m.signature is Some && peer_encodable(m.peer->0)
                        && announce_signed(5, t@, k@, node_id@, m.peer->0, m.refresh, m.signature->0) {
                        &&& r matches HandlerReply::ValueNoToken(None)
                        &&& post.spec_records() == record_removed(
                            pre.spec_records(),
                            target_key(t@),
                            m.peer->0.public_key,
                        )
                        &&& post.spec_router() == route_removed(pre.spec_router(), target_key(t@))
                    } else {
                        r is Silent && post.spec_records() == pre.spec_records()
                            && post.spec_router() == pre.spec_router()
                    },
                    Err(_) => r is Silent && post.spec_records() == pre.spec_records()
                        && post.spec_router() == pre.spec_router(),
                },
                _ => r is Silent && post.spec_records() == pre.spec_records() && post.spec_router()
                    == pre.spec_router(),
            }
        )
    }

    /// UNANNOUNCE: drops the target's record of a peer that signs its
    /// withdrawal; silent without a target, a token or a value, when the
    /// value does not decode to a signed announcement with a peer, or when
    /// the signature fails.
    pub fn on_unannounce(&mut self, req: &IncomingHyperRequest, node_id: &[u8; 32]) -> (r: HandlerReply)
        requires
            old(self).wf(),
        ensures
            Persistent::unannounce_post(*old(self), *final(self), *req, *node_id, r),
    {
        let target = match &req.target {
            Some(t) => *t,
            None => return HandlerReply::Silent,
        };
        let token = match &req.token {
            Some(t) => *t,
            None => return HandlerReply::Silent,
        };
        let value = match &req.value {
            Some(v) => v,
            None => return HandlerReply::Silent,
        };
        let msg = match decode_announce_from_bytes(value.as_slice()) {
            Ok(m) => m,
            Err(_) => return HandlerReply::Silent,
        };
        let peer = match &msg.peer {
            Some(p) => p,
            None => return HandlerReply::Silent,
        };
        let signature = match &msg.signature {
            Some(s) => *s,
            None => return HandlerReply::Silent,
        };
        if hyper_peer_size_checked(peer).is_none() {
            return HandlerReply::Silent;
        }
        let peer_encoded = match encode_hyper_peer_to_bytes(peer) {
            Ok(b) => b,
            Err(_) => return HandlerReply::Silent,
        };
        let empty: [u8; 0] = [];
        let refresh: &[u8] = match &msg.refresh {
            Some(r) => r.as_slice(),
            None => empty.as_slice(),
        };
        proof {
            assert(refresh@ == refresh_bytes(msg@.refresh));
        }
        let ns = ns_unannounce();
        let signable = ann_signable(&target, &token, node_id, peer_encoded.as_slice(), refresh, &ns);
        if !verify_detached(&signature, &signable, &peer.public_key) {
            return HandlerReply::Silent;
        }
        let key = to_hex(&target);
        let ks = key.as_str();
        proof {
            assert(ks@ == target_key(target@));
        }
        self.records.remove(ks, &peer.public_key);
        self.remove_route(ks);
        HandlerReply::ValueNoToken(None)
    }

    /// Drops everything stored.
    pub fn destroy(&mut self)
        requires
            old(self).wf(),
        ensures
            final(self).wf(),
            final(self).spec_records().len() == 0,
            final(self).spec_mutables().len() == 0,
            final(self).spec_immutables().len() == 0,
            final(self).spec_bumps().len() == 0,
            final(self).spec_refreshes().len() == 0,
            final(self).spec_router().len() == 0,
    {
        self.records.destroy();
        self.bumps.destroy();
        self.refreshes.destroy();
        self.mutables.destroy();
        self.immutables.destroy();
        self.router.clear();
        proof {
            assert(self.spec_router() =~= Seq::<(Seq<char>, Seq<u8>)>::empty());
        }
    }
}


/// The peer an announcement stands for: its own, or, without one, the peer
/// stored under its refresh token when that decodes.
pub open spec fn announce_peer(m: AnnounceView, refreshed: Option<Seq<u8>>) -> Option<HyperPeerView> {
    match m.peer {
        Some(p) => Some(p),
        None => match (m.refresh, refreshed) {
            (Some(_), Some(b)) => match parse_hyper_peer(b) {
                Ok((v, _k)) => Some(v),
                Err(_) => None,
            },
            _ => None,
        },
    }
}

/// The peer as stored: with at most the first three relay addresses.
pub open spec fn stored_peer(p: HyperPeerView) -> HyperPeerView {
    HyperPeerView {
        public_key: p.public_key,
        relay_addresses: if p.relay_addresses.len() > MAX_RELAY_ADDRESSES {
            p.relay_addresses.take(MAX_RELAY_ADDRESSES as int)
        } else {
            p.relay_addresses
        },
    }
}

impl Persistent {
    /// The refresh cache entries.
    pub closed spec fn spec_refreshes(&self) -> Seq<CacheEntryView> {
        self.refreshes.spec_entries()
    }

    /// The age at which refresh entries are forgotten.
    pub closed spec fn spec_refresh_age(&self) -> u128 {
        self.refreshes.spec_max_age()
    }

    /// The most refresh entries.
    pub closed spec fn spec_refresh_size(&self) -> nat {
        self.refreshes.spec_max_size()
    }

    /// The most bump counters.
    pub closed spec fn spec_bump_size(&self) -> nat {
        self.bumps.spec_max_size()
    }

    /// The most records in all.
    pub closed spec fn spec_record_size(&self) -> nat {
        self.records.spec_max_size()
    }

    /// The most records per topic.
    pub closed spec fn spec_record_per_key(&self) -> nat {
        self.records.spec_max_per_key()
    }

    /// Stores a self-announcement for `key`, replacing any other.
    fn set_route(&mut self, key: &str, relay: Ipv4Peer, record: Vec<u8>)
        requires
            old(self).wf(),
        ensures
            final(self).wf(),
            route_of(final(self).spec_router(), key@) == Some(record@),
            final(self).spec_records() == old(self).spec_records(),
            final(self).spec_mutables() == old(self).spec_mutables(),
            final(self).spec_immutables() == old(self).spec_immutables(),
            final(self).spec_bumps() == old(self).spec_bumps(),
            final(self).spec_refreshes() == old(self).spec_refreshes(),
            final(self).spec_refresh_size() == old(self).spec_refresh_size(),
            final(self).spec_refresh_age() == old(self).spec_refresh_age(),
            final(self).spec_record_age() == old(self).spec_record_age(),
            final(self).spec_record_size() == old(self).spec_record_size(),
            final(self).spec_record_per_key() == old(self).spec_record_per_key(),
    {
        let ghost rv = self.router@;
        let entry = RouterEntry { key: key.to_owned(), relay, record };
        let ghost ev = entry;
        match self.find_route(key) {
            Some(i) => {
                self.router.set(i, entry);
                proof {
                    assert forall|a: int, b: int| 0 <= a < b < self.router@.len() implies (
                    #[trigger] self.router@[a]).key@ != (#[trigger] self.router@[b]).key@ by {
                        assert(rv[a].key@ != rv[b].key@);
                    }
                    let rt = self.spec_router();
                    assert(rt[i as int].0 == key@);
                    let k = choose|k: int| 0 <= k < rt.len() && (#[trigger] rt[k]).0 == key@;
                    if k != i {
                        assert(rt[k].0 == self.router@[k].key@);
                        if k < i {
                            assert(self.router@[k].key@ != self.router@[i as int].key@);
                        } else {
                            assert(self.router@[i as int].key@ != self.router@[k].key@);
                        }
                    }
                }
            },
            None => {
                self.router.push(entry);
                proof {
                    let n = rv.len() as int;
                    assert forall|a: int, b: int| 0 <= a < b < self.router@.len() implies (
                    #[trigger] self.router@[a]).key@ != (#[trigger] self.router@[b]).key@ by {
                        if b == n {
                            assert(self.router@[a] == rv[a]);
                        } else {
                            assert(rv[a].key@ != rv[b].key@);
                        }
                    }
                    let rt = self.spec_router();
                    assert(rt[n].0 == key@);
                    let k = choose|k: int| 0 <= k < rt.len() && (#[trigger] rt[k]).0 == key@;
                    if k != n {
                        assert(rt[k].0 == rv[k].key@);
                    }
                }
            },
        }
    }

    /// What ANNOUNCE answers and how it changes the store (see [`Persistent::on_announce`]).
    pub open spec fn announce_post(pre: Persistent, post: Persistent, req: IncomingHyperRequest, node_id: [u8; 32], r: HandlerReply) -> bool {
        &&& (
            post.wf()
        )
        &&& (
            post.spec_mutables() == pre.spec_mutables()
        )
        &&& (
            post.spec_immutables() == pre.spec_immutables()
        )
        &&& (
            r is Silent || r matches HandlerReply::ValueNoToken(None)
        )
        &&& (
            r is Silent ==> post.spec_records() == pre.spec_records() && post.spec_router() == pre.spec_router() && post.spec_bumps() == pre.spec_bumps() && post.spec_refreshes() == pre.spec_refreshes()
        )
        &&& (
            (req.target is None || req.token is None || req.value is None) ==> r is Silent
        )
        &&& (
            req.value matches Some(v) && parse_announce(v@) is Err ==> r is Silent
        )
        &&& (
            match (req.target, req.token, req.value) {
                (Some(t), Some(k), Some(v)) => match parse_announce(v@) {
                    Ok((m, _n)) => (m.peer matches Some(p) && m.signature is Some && peer_encodable(p)
                        && announce_signed(4, t@, k@, node_id@, p, m.refresh, m.signature->0)) ==> r matches HandlerReply::ValueNoToken(
                        None,
                    ),
                    Err(_) => true,
                },
                _ => true,
            }
        )
        &&& (
            match (req.target, req.token, req.value) {
                (Some(t), Some(k), Some(v)) => match parse_announce(v@) {
                    Ok((m, _n)) => r matches HandlerReply::ValueNoToken(None) ==> exists|now: u128|
                        {
                            let p = #[trigger] announce_peer(
                                m,
                                cache_lookup(pre.spec_refreshes(), pre.spec_refresh_age(), hex_text(m.refresh->0), now),
                            );
                            &&& p is Some
                            &&& m.signature is Some
                            &&& peer_encodable(p->0)
                            &&& announce_signed(4, t@, k@, node_id@, p->0, m.refresh, m.signature->0)
                            &&& match m.refresh {
                                Some(rf) => exists|at: u128|
                                    post.spec_refreshes() == #[trigger] cache_set(
                                        pre.spec_refreshes(),
                                        pre.spec_refresh_size(),
                                        hex_text(rf),
                                        enc_hyper_peer(stored_peer(p->0)),
                                        at,
                                    ),
                                None => post.spec_refreshes() == pre.spec_refreshes(),
                            }
                            &&& if blake2b_256(p->0.public_key) == t@ || m.bump == 0 {
                                post.spec_bumps() == pre.spec_bumps()
                            } else {
                                exists|at: u128|
                                    post.spec_bumps() == #[trigger] cache_set(
                                        pre.spec_bumps(),
                                        pre.spec_bump_size(),
                                        target_key(t@),
                                        enc_uint(m.bump),
                                        at,
                                    )
                            }
                            &&& if blake2b_256(p->0.public_key) == t@ {
                                &&& route_of(post.spec_router(), target_key(t@)) == Some(
                                    enc_hyper_peer(stored_peer(p->0)),
                                )
                                &&& post.spec_records() == record_removed(
                                    pre.spec_records(),
                                    target_key(t@),
                                    p->0.public_key,
                                )
                            } else {
                                &&& post.spec_router() == pre.spec_router()
                                &&& exists|later: u128|
                                    post.spec_records() == #[trigger] record_added(
                                        pre.spec_records(),
                                        pre.spec_record_size(),
                                        pre.spec_record_per_key(),
                                        target_key(t@),
                                        p->0.public_key,
                                        enc_hyper_peer(stored_peer(p->0)),
                                        later,
                                    )
                            }
                        },
                    Err(_) => true,
                },
                _ => true,
            }
        )
    }

    /// ANNOUNCE: stores the record of a peer that signs its announcement: as
    /// the target's self-announcement when the peer's key hashes to the
    /// target, else among the target's records; silent without a target, a
    /// token or a value, when the value does not decode to a signed
    /// announcement with a peer (or a refresh token of a stored one), or when
    /// the signature fails. The stored record keeps at most three relay addresses.
    pub fn on_announce(&mut self, req: &IncomingHyperRequest, node_id: &[u8; 32]) -> (r: HandlerReply)
        requires
            old(self).wf(),
            total_of(old(self).spec_records()) < usize::MAX,
        ensures
            Persistent::announce_post(*old(self), *final(self), *req, *node_id, r),
    {
        let target = match &req.target {
            Some(t) => *t,
            None => return HandlerReply::Silent,
        };
        let token = match &req.token {
            Some(t) => *t,
            None => return HandlerReply::Silent,
        };
        let value = match &req.value {
            Some(v) => v,
            None => return HandlerReply::Silent,
        };
        let msg = match decode_announce_from_bytes(value.as_slice()) {
            Ok(m) => m,
            Err(_) => return HandlerReply::Silent,
        };
        let ghost m = msg@;
        let AnnounceMessage { peer: msg_peer, refresh: msg_refresh, signature: msg_signature, bump: msg_bump } = msg;
        let mut peer_opt: Option<HyperPeer> = msg_peer;
        let ghost mut refreshed: Option<Seq<u8>> = None;
        let ghost mut now0: u128 = 0;
        if peer_opt.is_none() {
            if let Some(refresh) = &msg_refresh {
                let refresh_key = to_hex(refresh);
                let got = self.refreshes.get(refresh_key.as_str());
                proof {
                    now0 = choose|now: u128|
                        match got {
                            Some(v) => cache_lookup(self.refreshes.spec_entries(), self.refreshes.spec_max_age(), refresh_key@, now) == Some(v@),
                            None => cache_lookup(self.refreshes.spec_entries(), self.refreshes.spec_max_age(), refresh_key@, now) is None,
                        };
                    refreshed = cache_lookup(self.spec_refreshes(), self.spec_refresh_age(), hex_text(m.refresh->0), now0);
                    assert(refresh_key@ == hex_text(refresh@));
                }
                if let Some(stored) = got {
                    peer_opt = match decode_hyper_peer_from_bytes(stored.as_slice()) {
                        Ok(p) => Some(p),
                        Err(_) => None,
                    };
                }
            }
        }
        let ghost pv = announce_peer(m, refreshed);
        proof {
            assert(match peer_opt { Some(p) => pv == Some(p@), None => pv is None });
        }
        let peer = match peer_opt {
            Some(p) => p,
            None => return HandlerReply::Silent,
        };
        let signature = match &msg_signature {
            Some(s) => *s,
            None => return HandlerReply::Silent,
        };
        if hyper_peer_size_checked(&peer).is_none() {
            return HandlerReply::Silent;
        }
        let peer_encoded = match encode_hyper_peer_to_bytes(&peer) {
            Ok(b) => b,
            Err(_) => return HandlerReply::Silent,
        };
        let empty: [u8; 0] = [];
        let refresh_slice: &[u8] = match &msg_refresh {
            Some(r) => r.as_slice(),
            None => empty.as_slice(),
        };
        proof {
            assert(refresh_slice@ == refresh_bytes(m.refresh));
        }
        let ns = ns_announce();
        let signable = ann_signable(&target, &token, node_id, peer_encoded.as_slice(), refresh_slice, &ns);
        if !verify_detached(&signature, &signable, &peer.public_key) {
            return HandlerReply::Silent;
        }
        let mut stored = peer;
        if stored.relay_addresses.len() > MAX_RELAY_ADDRESSES {
            stored.relay_addresses.truncate(MAX_RELAY_ADDRESSES);
        }
        let ghost sp = stored@;
        proof {
            assert(sp.relay_addresses =~= stored_peer(pv->0).relay_addresses);
            assert(sp == stored_peer(pv->0));
            assert(valid_peers(sp.relay_addresses)) by {
                assert forall|i: int| 0 <= i < sp.relay_addresses.len() implies crate::compact_encoding::valid_host(
                    #[trigger] sp.relay_addresses[i].0,
                ) by {
                    assert(sp.relay_addresses[i] == pv->0.relay_addresses[i]);
                }
            }
        }
        let key = to_hex(&target);
        let ks = key.as_str();
        proof {
            assert(ks@ == target_key(target@));
        }
        let h = hash(&stored.public_key);
        let announce_self = crate::blind_relay::same_token(&h, &target);
        if hyper_peer_size_checked(&stored).is_none() {
            return HandlerReply::Silent;
        }
        let encoded = match encode_hyper_peer_to_bytes(&stored) {
            Ok(b) => b,
            Err(_) => return HandlerReply::Silent,
        };
        let ghost eb = encoded@;
        proof {
            assert(eb == enc_hyper_peer(stored_peer(pv->0)));
            assert(peer_encoded@ == enc_hyper_peer(pv->0));
            assert(ns@ == namespace_entry(dht_name_hash(), 4));
            assert(announce_signed(4, target@, token@, node_id@, pv->0, m.refresh, m.signature->0));
            assert(peer_encodable(pv->0));
            assert(announce_self == (blake2b_256(pv->0.public_key) == target@));
        }
        if announce_self {
            self.set_route(ks, req.from.clone(), encoded);
            self.records.remove(ks, &stored.public_key);
            proof {
                assert(route_of(self.spec_router(), target_key(target@)) == Some(enc_hyper_peer(stored_peer(pv->0))));
                assert(self.spec_records() == record_removed(old(self).spec_records(), target_key(target@), pv->0.public_key));
            }
        } else {
            let ghost before = self.records.spec_topics();
            self.records.add(ks, stored.public_key, encoded);
            proof {
                let later = choose|later: u128|
                    self.records.spec_topics() == record_added(
                        before,
                        self.records.spec_max_size(),
                        self.records.spec_max_per_key(),
                        ks@,
                        stored.public_key@,
                        eb,
                        later,
                    );
                assert(self.spec_records() == record_added(
                    old(self).spec_records(),
                    old(self).spec_record_size(),
                    old(self).spec_record_per_key(),
                    target_key(target@),
                    pv->0.public_key,
                    enc_hyper_peer(stored_peer(pv->0)),
                    later,
                ));
                assert(self.spec_router() == old(self).spec_router());
            }
            if msg_bump != 0 {
                let bump_bytes = crate::hyperdht::encode_compact_uint(msg_bump);
                let ghost bumps_before = self.bumps.spec_entries();
                let ghost bv = bump_bytes@;
                self.bumps.set(ks, bump_bytes);
                proof {
                    let at = choose|now: u128|
                        self.bumps.spec_entries() == cache_set(bumps_before, self.bumps.spec_max_size(), ks@, bv, now);
                    assert(self.spec_bumps() == cache_set(
                        old(self).spec_bumps(),
                        old(self).spec_bump_size(),
                        target_key(target@),
                        enc_uint(m.bump),
                        at,
                    ));
                }
            }
        }
        if let Some(refresh) = &msg_refresh {
            let refresh_key = to_hex(refresh);
            let peer_bytes = match encode_hyper_peer_to_bytes(&stored) {
                Ok(b) => b,
                Err(_) => Vec::new(),
            };
            proof {
                assert(peer_bytes@ == enc_hyper_peer(stored_peer(pv->0)));
                assert(refresh_key@ == hex_text(m.refresh->0));
            }
            let ghost refreshes_before = self.refreshes.spec_entries();
            let ghost pb = peer_bytes@;
            self.refreshes.set(refresh_key.as_str(), peer_bytes);
            proof {
                let at = choose|now: u128|
                    self.refreshes.spec_entries() == cache_set(
                        refreshes_before,
                        self.refreshes.spec_max_size(),
                        refresh_key@,
                        pb,
                        now,
                    );
                assert(refreshes_before == old(self).spec_refreshes());
                assert(pb == enc_hyper_peer(stored_peer(pv->0)));
                assert(self.refreshes.spec_max_size() == old(self).spec_refresh_size());
                assert(self.spec_refreshes() == cache_set(
                    old(self).spec_refreshes(),
                    old(self).spec_refresh_size(),
                    hex_text(m.refresh->0),
                    enc_hyper_peer(stored_peer(pv->0)),
                    at,
                ));
            }
        }
        proof {
            let nw = now0;
            let p = announce_peer(m, cache_lookup(old(self).spec_refreshes(), old(self).spec_refresh_age(), hex_text(m.refresh->0), nw));
            assert(p == pv);
            assert(m.signature is Some);
            assert(parse_announce(req.value->0@) matches Ok((w, _n)) && w == m);
        }
        HandlerReply::ValueNoToken(None)
    }
}

impl Persistent {
    /// What a self-announcement stores is what FIND_PEER reads back: when
    /// the router holds `b` for `key`, it holds an entry `(key, b)` and no
    /// other entry for `key`, so [`Persistent::on_find_peer`] for a target
    /// with that key answers `Value(Some(b))`.
    pub proof fn lemma_route_read_back(&self, key: Seq<char>, b: Seq<u8>)
        requires
            self.wf(),
            route_of(self.spec_router(), key) == Some(b),
        ensures
            exists|i: int| 0 <= i < self.spec_router().len() && #[trigger] self.spec_router()[i] == (key, b),
            forall|i: int|
                0 <= i < self.spec_router().len() && (#[trigger] self.spec_router()[i]).0 == key ==> self.spec_router()[i].1
                    == b,
    {
        let rt = self.spec_router();
        let k = choose|i: int| 0 <= i < rt.len() && (#[trigger] rt[i]).0 == key;
        assert(rt[k] == (key, b));
        assert forall|i: int| 0 <= i < rt.len() && (#[trigger] rt[i]).0 == key implies rt[i].1 == b by {
            if i != k {
                assert(rt[i].0 == self.router@[i].key@);
                assert(rt[k].0 == self.router@[k].key@);
                if i < k {
                    assert(self.router@[i].key@ != self.router@[k].key@);
                } else {
                    assert(self.router@[k].key@ != self.router@[i].key@);
                }
            }
        }
    }
}

/// The peer a topic's self-announcement gives, when it decodes.
pub open spec fn route_peer(route: Option<Seq<u8>>) -> Option<HyperPeerView> {
    match route {
        Some(b) => match parse_hyper_peer(b) {
            Ok((v, _k)) => Some(v),
            Err(_) => None,
        },
        None => None,
    }
}

/// A lookup answers with the records it read that decode, in order, and
/// then, when fewer than [`MAX_RECORDS_PER_LOOKUP`] decoded, the
/// self-announcement of the topic when it decodes: a server that announced
/// itself is found even when no other record is stored for its topic.
pub proof fn lemma_lookup_includes_route(read: Seq<Seq<u8>>, route: Option<Seq<u8>>)
    ensures
        lookup_peers(read, route).len() >= decoded_peers(read).len(),
        forall|k: int| 0 <= k < decoded_peers(read).len() ==> #[trigger] lookup_peers(read, route)[k] == decoded_peers(read)[k],
        (decoded_peers(read).len() < MAX_RECORDS_PER_LOOKUP && route_peer(route) is Some) ==> {
            &&& lookup_peers(read, route).len() == decoded_peers(read).len() + 1
            &&& lookup_peers(read, route).last() == route_peer(route)->0
            &&& lookup_peers(read, route).contains(route_peer(route)->0)
        },
        (read.len() == 0 && route_peer(route) is Some) ==> lookup_peers(read, route) == seq![route_peer(route)->0],
        (route_peer(route) is None || decoded_peers(read).len() >= MAX_RECORDS_PER_LOOKUP) ==> lookup_peers(read, route)
            == decoded_peers(read),
{
    let p = decoded_peers(read);
    if p.len() < MAX_RECORDS_PER_LOOKUP && route_peer(route) is Some {
        let v = route_peer(route)->0;
        let l = lookup_peers(read, route);
        assert(l == p.push(v));
        assert(l[l.len() - 1] == v);
    }
    if read.len() == 0 {
        assert(p =~= Seq::<HyperPeerView>::empty());
        if route_peer(route) is Some {
            assert(lookup_peers(read, route) =~= seq![route_peer(route)->0]);
        }
    }
}

} // verus!
