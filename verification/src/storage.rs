//! Storage decorators over an S5 object store: the bookkeeping of a
//! caching layer (least recently used, with a time to live and a memory
//! limit), a circuit breaker and retry decisions, write and delete buffers
//! for batching, and an in-memory store.
//!
//! The stores themselves are asynchronous and live outside this library;
//! each type here holds the state that such a store keeps and decides what
//! it does, and the caller performs the reads and writes.
use vstd::prelude::*;
use std::time::Duration;
use crate::time::duration_nanos;
use crate::str_map::StrMap;

verus! {

/// Declares `std::io::Error`, carried through opaquely.
#[verifier::external_type_specification]
#[verifier::external_body]
pub struct ExIoError(std::io::Error);

/// Errors of the storage layer.
pub enum StorageError {
    NetworkError(String),
    IoError(std::io::Error),
    SerializationError(String),
    CircuitBreakerOpen,
}

/// Limits of a batching store: the buffered operations that trigger a
/// flush, and the period of the background flush.
pub struct BatchConfig {
    pub max_batch_size: usize,
    pub flush_interval: Duration,
}

impl Default for BatchConfig {
    /// A hundred operations, every five seconds.
    fn default() -> (r: Self)
        ensures
            r.max_batch_size == 100,
            duration_nanos(r.flush_interval) == 5 * 1_000_000_000,
    {
        BatchConfig { max_batch_size: 100, flush_interval: Duration::from_secs(5) }
    }
}

/// Counters of a caching store. `entries` and `memory_bytes` count what
/// was added and removed; they never fall below the true number and size
/// of the cached items.
#[derive(Clone, Copy, Debug)]
pub struct CacheStats {
    pub hits: usize,
    pub misses: usize,
    pub entries: usize,
    pub memory_bytes: usize,
}

// ---------------------------------------------------------------------------
// The cache model
// ---------------------------------------------------------------------------

/// A cached item: key, bytes, time it was stored (nanoseconds on the
/// caller's clock) and size in bytes.
pub type Item = (Seq<char>, Seq<u8>, u64, nat);

/// Some item has the key.
pub open spec fn holds_key(s: Seq<Item>, k: Seq<char>) -> bool {
    exists|i: int| 0 <= i < s.len() && (#[trigger] s[i]).0 == k
}

/// The position of the key; meaningful where `holds_key` holds.
pub open spec fn item_index(s: Seq<Item>, k: Seq<char>) -> int {
    choose|i: int| 0 <= i < s.len() && (#[trigger] s[i]).0 == k
}

/// Keys do not repeat.
pub open spec fn distinct_items(s: Seq<Item>) -> bool {
    forall|i: int, j: int| 0 <= i < j < s.len() ==> #[trigger] s[i].0 != #[trigger] s[j].0
}

/// The total size of the items.
pub open spec fn sum_sizes(s: Seq<Item>) -> nat
    decreases s.len(),
{
    if s.len() == 0 {
        0
    } else {
        sum_sizes(s.drop_last()) + s.last().3
    }
}

/// The time since `stored`, zero if the clock reads earlier.
pub open spec fn elapsed(stored: u64, now: u64) -> nat {
    if now >= stored { (now - stored) as nat } else { 0 }
}

/// An item has outlived the time to live.
pub open spec fn is_expired(stored: u64, now: u64, ttl: Option<nat>) -> bool {
    match ttl {
        Some(t) => elapsed(stored, now) > t,
        None => false,
    }
}

/// How many of the least recently used items the capacity check removes:
/// items go while there are at least `capacity` of them.
pub open spec fn capacity_evictions(len: nat, capacity: nat) -> nat {
    if len < capacity {
        0
    } else if capacity == 0 {
        len
    } else {
        (len - capacity + 1) as nat
    }
}

/// How many of the least recently used items the memory check removes:
/// items go while the byte counter exceeds the limit.
pub open spec fn memory_evictions(s: Seq<Item>, bytes: int, limit: int) -> nat
    decreases s.len(),
{
    if s.len() == 0 || bytes <= limit {
        0
    } else {
        1 + memory_evictions(s.drop_first(), bytes - s[0].3, limit)
    }
}

/// The item moved to the most recently used end.
pub open spec fn move_to_back(s: Seq<Item>, i: int) -> Seq<Item> {
    s.remove(i).push(s[i])
}

/// The item stored as the most recently used, replacing one of its key.
pub open spec fn store_back(s: Seq<Item>, x: Item) -> Seq<Item> {
    if holds_key(s, x.0) {
        s.remove(item_index(s, x.0)).push(x)
    } else {
        s.push(x)
    }
}

/// Without the item of the key.
pub open spec fn without_key(s: Seq<Item>, k: Seq<char>) -> Seq<Item> {
    if holds_key(s, k) {
        s.remove(item_index(s, k))
    } else {
        s
    }
}

/// Items with the entry and byte counters of a cache.
pub type Tally = (Seq<Item>, int, int);

/// The capacity check: the least recently used items leave while there
/// are at least `capacity` of them, each taken off both counters.
pub open spec fn after_capacity_check(t: Tally, capacity: nat) -> Tally {
    let n = capacity_evictions(t.0.len(), capacity);
    (t.0.skip(n as int), t.1 - n, t.2 - sum_sizes(t.0.take(n as int)))
}

/// The memory check: with a limit, the least recently used items leave
/// while the byte counter plus `extra` exceeds it.
pub open spec fn after_memory_check(t: Tally, limit: Option<nat>, extra: nat) -> Tally {
    match limit {
        Some(l) => {
            let n = memory_evictions(t.0, t.2 + extra, l as int);
            (t.0.skip(n as int), t.1 - n, t.2 - sum_sizes(t.0.take(n as int)))
        },
        None => t,
    }
}

/// A write: an item of the same key is replaced in place of its counters;
/// a new key first makes room for its bytes, then passes the capacity and
/// memory checks. The item becomes the most recently used.
pub open spec fn after_put(t: Tally, capacity: nat, limit: Option<nat>, x: Item) -> Tally {
    if holds_key(t.0, x.0) {
        let i = item_index(t.0, x.0);
        (t.0.remove(i).push(x), t.1, t.2 - t.0[i].3 + x.3)
    } else {
        let u = after_memory_check(after_capacity_check(after_memory_check(t, limit, x.3), capacity), limit, 0);
        (u.0.push(x), u.1 + 1, u.2 + x.3)
    }
}

/// Bytes read from the store after a miss: the capacity and memory checks
/// run, then the item is stored as the most recently used, replacing one
/// of its key, and counted as a new entry of its size.
pub open spec fn after_fetch(t: Tally, capacity: nat, limit: Option<nat>, x: Item) -> Tally {
    let u = after_memory_check(after_capacity_check(t, capacity), limit, 0);
    (store_back(u.0, x), u.1 + 1, u.2 + x.3)
}

proof fn lemma_memory_evictions_len(s: Seq<Item>, bytes: int, limit: int)
    ensures
        memory_evictions(s, bytes, limit) <= s.len(),
    decreases s.len(),
{
    if s.len() > 0 && bytes > limit {
        lemma_memory_evictions_len(s.drop_first(), bytes - s[0].3, limit);
    }
}

proof fn lemma_holds_key_skip(s: Seq<Item>, n: int)
    requires
        0 <= n <= s.len(),
    ensures
        forall|q: Seq<char>| holds_key(s.skip(n), q) ==> holds_key(s, q),
{
    assert forall|q: Seq<char>| holds_key(s.skip(n), q) implies holds_key(s, q) by {
        let j = choose|j: int| 0 <= j < s.skip(n).len() && (#[trigger] s.skip(n)[j]).0 == q;
        assert(s[j + n] == s.skip(n)[j]);
    }
}

proof fn lemma_sum_sizes_push(s: Seq<Item>, x: Item)
    ensures
        sum_sizes(s.push(x)) == sum_sizes(s) + x.3,
{
    assert(s.push(x).drop_last() =~= s);
}

proof fn lemma_sum_sizes_split(s: Seq<Item>, n: int)
    requires
        0 <= n <= s.len(),
    ensures
        sum_sizes(s) == sum_sizes(s.take(n)) + sum_sizes(s.skip(n)),
    decreases s.len(),
{
    if s.len() == 0 {
        assert(s.take(n) =~= s);
        assert(s.skip(n) =~= s);
    } else if n == s.len() {
        assert(s.take(n) =~= s);
        assert(s.skip(n) =~= Seq::<Item>::empty());
    } else {
        lemma_sum_sizes_split(s.drop_last(), n);
        assert(s.drop_last().take(n) =~= s.take(n));
        assert(s.skip(n).drop_last() =~= s.drop_last().skip(n));
        assert(s.skip(n).last() == s.last());
    }
}

proof fn lemma_sum_sizes_remove(s: Seq<Item>, i: int)
    requires
        0 <= i < s.len(),
    ensures
        sum_sizes(s) == sum_sizes(s.remove(i)) + s[i].3,
{
    let r = s.remove(i);
    let rest = s.skip(i);
    lemma_sum_sizes_split(s, i);
    lemma_sum_sizes_split(r, i);
    lemma_sum_sizes_split(rest, 1);
    assert(r.take(i) == s.take(i)) by { assert(r.take(i) =~= s.take(i)); }
    assert(r.skip(i) == rest.skip(1)) by { assert(r.skip(i) =~= rest.skip(1)); }
    assert(rest.take(1) == seq![s[i]]) by { assert(rest.take(1) =~= seq![s[i]]); }
    assert(sum_sizes(seq![s[i]]) == s[i].3) by {
        let one = seq![s[i]];
        assert(one.drop_last() =~= Seq::<Item>::empty());
        assert(sum_sizes(Seq::<Item>::empty()) == 0);
        assert(one.len() == 1 && one.last() == s[i]);
        assert(sum_sizes(one) == sum_sizes(one.drop_last()) + one.last().3);
    }
}

proof fn lemma_sum_sizes_first(s: Seq<Item>)
    requires
        s.len() > 0,
    ensures
        sum_sizes(s) == s[0].3 + sum_sizes(s.drop_first()),
{
    lemma_sum_sizes_remove(s, 0);
    assert(s.remove(0) =~= s.drop_first());
}

proof fn lemma_index_of(s: Seq<Item>, k: Seq<char>, i: int)
    requires
        distinct_items(s),
        0 <= i < s.len(),
        s[i].0 == k,
    ensures
        holds_key(s, k),
        item_index(s, k) == i,
{
    assert(holds_key(s, k));
    let j = item_index(s, k);
    if j < i {
        assert(s[j].0 != s[i].0);
    } else if j > i {
        assert(s[i].0 != s[j].0);
    }
}

proof fn lemma_distinct_remove(s: Seq<Item>, i: int)
    requires
        distinct_items(s),
        0 <= i < s.len(),
    ensures
        distinct_items(s.remove(i)),
        forall|j: int| 0 <= j < s.remove(i).len() ==> (#[trigger] s.remove(i)[j]).0 != s[i].0,
{
    let r = s.remove(i);
    assert forall|a: int, b: int| 0 <= a < b < r.len() implies #[trigger] r[a].0 != #[trigger] r[b].0 by {
        let a2 = if a < i { a } else { a + 1 };
        let b2 = if b < i { b } else { b + 1 };
        assert(r[a] == s[a2] && r[b] == s[b2]);
    }
    assert forall|j: int| 0 <= j < r.len() implies (#[trigger] r[j]).0 != s[i].0 by {
        let j2 = if j < i { j } else { j + 1 };
        assert(r[j] == s[j2]);
        if j2 < i {
            assert(s[j2].0 != s[i].0);
        } else {
            assert(s[i].0 != s[j2].0);
        }
    }
}

proof fn lemma_distinct_push(s: Seq<Item>, x: Item)
    requires
        distinct_items(s),
        !holds_key(s, x.0),
    ensures
        distinct_items(s.push(x)),
{
    let r = s.push(x);
    assert forall|a: int, b: int| 0 <= a < b < r.len() implies #[trigger] r[a].0 != #[trigger] r[b].0 by {
        if b == s.len() {
            assert(r[a] == s[a]);
        } else {
            assert(r[a] == s[a] && r[b] == s[b]);
        }
    }
}

proof fn lemma_distinct_skip(s: Seq<Item>, n: int)
    requires
        distinct_items(s),
        0 <= n <= s.len(),
    ensures
        distinct_items(s.skip(n)),
{
    let r = s.skip(n);
    assert forall|a: int, b: int| 0 <= a < b < r.len() implies #[trigger] r[a].0 != #[trigger] r[b].0 by {
        assert(r[a] == s[a + n] && r[b] == s[b + n]);
    }
}

/// Storing keeps keys distinct and puts the item last.
proof fn lemma_store_back(s: Seq<Item>, x: Item)
    requires
        distinct_items(s),
    ensures
        distinct_items(store_back(s, x)),
        store_back(s, x).last() == x,
        store_back(s, x).len() == if holds_key(s, x.0) { s.len() } else { s.len() + 1 },
        sum_sizes(store_back(s, x)) == sum_sizes(without_key(s, x.0)) + x.3,
{
    if holds_key(s, x.0) {
        let i = item_index(s, x.0);
        lemma_distinct_remove(s, i);
        let r = s.remove(i);
        assert(!holds_key(r, x.0)) by {
            if holds_key(r, x.0) {
                let j = choose|j: int| 0 <= j < r.len() && (#[trigger] r[j]).0 == x.0;
                assert(r[j].0 != s[i].0);
            }
        }
        lemma_distinct_push(r, x);
        lemma_sum_sizes_push(r, x);
    } else {
        lemma_distinct_push(s, x);
        lemma_sum_sizes_push(s, x);
    }
}

/// The items of a cache that keeps its keys distinct and each size that of
/// its bytes.
pub open spec fn items_valid(s: Seq<Item>) -> bool {
    &&& distinct_items(s)
    &&& forall|i: int| 0 <= i < s.len() ==> #[trigger] s[i].3 == s[i].1.len()
}

proof fn lemma_items_valid_skip(s: Seq<Item>, n: int)
    requires
        items_valid(s),
        0 <= n <= s.len(),
    ensures
        items_valid(s.skip(n)),
{
    lemma_distinct_skip(s, n);
    assert forall|i: int| 0 <= i < s.skip(n).len() implies #[trigger] s.skip(n)[i].3 == s.skip(n)[i].1.len() by {
        assert(s.skip(n)[i] == s[i + n]);
    }
}

proof fn lemma_evictions_valid(t: Tally, capacity: nat, limit: Option<nat>, extra: nat)
    requires
        items_valid(t.0),
    ensures
        items_valid(after_capacity_check(t, capacity).0),
        items_valid(after_memory_check(t, limit, extra).0),
        after_capacity_check(t, capacity).0.len() < capacity || after_capacity_check(t, capacity).0.len() == 0,
        after_memory_check(t, limit, extra).0.len() <= t.0.len(),
        forall|q: Seq<char>| holds_key(after_capacity_check(t, capacity).0, q) ==> holds_key(t.0, q),
        forall|q: Seq<char>| holds_key(after_memory_check(t, limit, extra).0, q) ==> holds_key(t.0, q),
{
    let n = capacity_evictions(t.0.len(), capacity);
    lemma_items_valid_skip(t.0, n as int);
    lemma_holds_key_skip(t.0, n as int);
    match limit {
        Some(l) => {
            let m = memory_evictions(t.0, t.2 + extra, l as int);
            lemma_memory_evictions_len(t.0, t.2 + extra, l as int);
            lemma_items_valid_skip(t.0, m as int);
            lemma_holds_key_skip(t.0, m as int);
        },
        None => {},
    }
}

/// The memory check leaves the byte counter plus `extra` within the limit,
/// or no item.
proof fn lemma_memory_check_bound(s: Seq<Item>, bytes: int, limit: int)
    ensures
        ({
            let n = memory_evictions(s, bytes, limit);
            n <= s.len() && (bytes - sum_sizes(s.take(n as int)) <= limit || n == s.len())
        }),
    decreases s.len(),
{
    assert(s.take(0) =~= Seq::<Item>::empty());
    if s.len() > 0 && bytes > limit {
        let r = s.drop_first();
        lemma_memory_check_bound(r, bytes - s[0].3, limit);
        let n = memory_evictions(r, bytes - s[0].3, limit);
        lemma_sum_sizes_first(s.take(n + 1int));
        assert(s.take(n + 1int).drop_first() =~= r.take(n as int));
    }
}

/// Read after write: right after a write, a lookup at the same moment finds
/// the written bytes, whatever the time to live.
pub proof fn law_cache_read_after_write(t: Tally, capacity: nat, limit: Option<nat>, ttl: Option<nat>,
    k: Seq<char>, d: Seq<u8>, now: u64)
    requires
        items_valid(t.0),
    ensures
        ({
            let u = after_put(t, capacity, limit, (k, d, now, d.len()));
            &&& items_valid(u.0)
            &&& holds_key(u.0, k)
            &&& u.0[item_index(u.0, k)].1 == d
            &&& !is_expired(u.0[item_index(u.0, k)].2, now, ttl)
        }),
{
    let x: Item = (k, d, now, d.len());
    let u = after_put(t, capacity, limit, x);
    if holds_key(t.0, k) {
        let i = item_index(t.0, k);
        lemma_distinct_remove(t.0, i);
        let r = t.0.remove(i);
        assert(!holds_key(r, k)) by {
            if holds_key(r, k) {
                let j = choose|j: int| 0 <= j < r.len() && (#[trigger] r[j]).0 == k;
                assert(r[j].0 != t.0[i].0);
            }
        }
        lemma_distinct_push(r, x);
        assert forall|j: int| 0 <= j < u.0.len() implies #[trigger] u.0[j].3 == u.0[j].1.len() by {
            if j < r.len() {
                if j < i { assert(r[j] == t.0[j]); } else { assert(r[j] == t.0[j + 1]); }
            }
        }
    } else {
        let a = after_memory_check(t, limit, x.3);
        let b = after_capacity_check(a, capacity);
        let c = after_memory_check(b, limit, 0);
        lemma_evictions_valid(t, capacity, limit, x.3);
        lemma_evictions_valid(a, capacity, limit, 0);
        lemma_evictions_valid(b, capacity, limit, 0);
        assert(!holds_key(c.0, k));
        lemma_distinct_push(c.0, x);
        assert forall|j: int| 0 <= j < u.0.len() implies #[trigger] u.0[j].3 == u.0[j].1.len() by {
            if j < c.0.len() {
                assert(u.0[j] == c.0[j]);
            }
        }
    }
    lemma_index_of(u.0, k, u.0.len() - 1);
}

/// A write of a new key under a memory limit leaves the byte counter within
/// the limit, unless the new item is all the cache holds.
pub proof fn law_cache_memory_bound(t: Tally, capacity: nat, l: nat, x: Item)
    requires
        items_valid(t.0),
        !holds_key(t.0, x.0),
    ensures
        ({
            let u = after_put(t, capacity, Some(l), x);
            u.2 <= l || u.0.len() == 1
        }),
{
    let a = after_memory_check(t, Some(l), x.3);
    let b = after_capacity_check(a, capacity);
    let c = after_memory_check(b, Some(l), 0);
    lemma_memory_check_bound(t.0, t.2 + x.3, l as int);
    let n = memory_evictions(t.0, t.2 + x.3, l as int);
    lemma_evictions_valid(t, capacity, Some(l), x.3);
    let nb = capacity_evictions(a.0.len(), capacity);
    lemma_sum_sizes_split(a.0.take(nb as int), 0);
    let nc = memory_evictions(b.0, b.2, l as int);
    lemma_memory_check_bound(b.0, b.2, l as int);
    if a.0.len() > 0 {
        assert(b.2 <= a.2);
        assert(c.2 <= b.2);
    }
    if n < t.0.len() {
        assert(a.2 + x.3 <= l);
    } else {
        assert(a.0.len() == 0);
        assert(nb == 0);
        assert(b.0 =~= a.0);
        assert(c.0.len() == 0);
    }
}

/// A lookup of a key after its delete misses.
pub proof fn law_cache_delete(s: Seq<Item>, k: Seq<char>)
    requires
        items_valid(s),
    ensures
        !holds_key(without_key(s, k), k),
{
    if holds_key(s, k) {
        let i = item_index(s, k);
        lemma_distinct_remove(s, i);
        let r = s.remove(i);
        if holds_key(r, k) {
            let j = choose|j: int| 0 <= j < r.len() && (#[trigger] r[j]).0 == k;
            assert(r[j].0 != s[i].0);
        }
    }
}

// ---------------------------------------------------------------------------
// The cache
// ---------------------------------------------------------------------------

/// A cached item.
struct CacheEntry {
    key: String,
    data: Vec<u8>,
    timestamp: u64,
    size: usize,
}

/// The bookkeeping of a caching store: items from the least recently used
/// to the most recently used, a capacity, an optional time to live and
/// memory limit, and counters.
pub struct StorageCache {
    items: Vec<CacheEntry>,
    capacity: usize,
    ttl: Option<Duration>,
    memory_limit: Option<usize>,
    stats: CacheStats,
}

/// The items of the entries, in order.
spec fn items_of(v: Seq<CacheEntry>) -> Seq<Item> {
    v.map_values(|e: CacheEntry| (e.key@, e.data@, e.timestamp, e.size as nat))
}

impl StorageCache {
    /// The items, least recently used first.
    pub closed spec fn items(&self) -> Seq<Item> {
        items_of(self.items@)
    }

    /// The counters.
    pub closed spec fn stats_spec(&self) -> CacheStats {
        self.stats
    }

    /// The capacity.
    pub closed spec fn capacity_spec(&self) -> nat {
        self.capacity as nat
    }

    /// The time to live in nanoseconds, if any.
    pub closed spec fn ttl_spec(&self) -> Option<nat> {
        match self.ttl {
            Some(d) => Some(duration_nanos(d)),
            None => None,
        }
    }

    /// The memory limit in bytes, if any.
    pub closed spec fn memory_limit_spec(&self) -> Option<nat> {
        match self.memory_limit {
            Some(m) => Some(m as nat),
            None => None,
        }
    }

    /// Keys do not repeat, each size is that of its bytes, the counters
    /// cover the items, and there are no more items than the capacity (one,
    /// for a capacity of zero).
    pub closed spec fn wf(&self) -> bool {
        &&& distinct_items(self.items())
        &&& forall|i: int| 0 <= i < self.items().len() ==> #[trigger] self.items()[i].3 == self.items()[i].1.len()
        &&& self.stats.entries >= self.items().len()
        &&& self.stats.memory_bytes >= sum_sizes(self.items())
        &&& self.items().len() <= if self.capacity == 0 { 1 } else { self.capacity as int }
    }

    fn with_limits(capacity: usize, ttl: Option<Duration>, memory_limit: Option<usize>) -> (r: Self)
        ensures
            r.wf(),
            r.items() == Seq::<Item>::empty(),
            r.capacity_spec() == capacity,
            r.ttl == ttl,
            r.memory_limit == memory_limit,
            r.stats_spec().hits == 0,
            r.stats_spec().misses == 0,
            r.stats_spec().entries == 0,
            r.stats_spec().memory_bytes == 0,
    {
        let r = StorageCache {
            items: Vec::new(),
            capacity,
            ttl,
            memory_limit,
            stats: CacheStats { hits: 0, misses: 0, entries: 0, memory_bytes: 0 },
        };
        assert(r.items() =~= Seq::<Item>::empty());
        r
    }

    /// An empty cache of the capacity, without expiry or memory limit.
    pub fn new(capacity: usize) -> (r: Self)
        ensures
            r.wf(),
            r.items() == Seq::<Item>::empty(),
            r.capacity_spec() == capacity,
            r.ttl_spec() is None,
            r.memory_limit_spec() is None,
            r.stats_spec().hits == 0,
            r.stats_spec().misses == 0,
            r.stats_spec().entries == 0,
            r.stats_spec().memory_bytes == 0,
    {
        StorageCache::with_limits(capacity, None, None)
    }

    /// An empty cache of the capacity whose items expire after `ttl`.
    pub fn with_ttl(capacity: usize, ttl: Duration) -> (r: Self)
        ensures
            r.wf(),
            r.items() == Seq::<Item>::empty(),
            r.capacity_spec() == capacity,
            r.ttl_spec() == Some(duration_nanos(ttl)),
            r.memory_limit_spec() is None,
            r.stats_spec().hits == 0,
            r.stats_spec().misses == 0,
            r.stats_spec().entries == 0,
            r.stats_spec().memory_bytes == 0,
    {
        StorageCache::with_limits(capacity, Some(ttl), None)
    }

    /// An empty cache bounded by bytes only (its capacity is `usize::MAX`).
    pub fn with_memory_limit(memory_limit: usize) -> (r: Self)
        ensures
            r.wf(),
            r.items() == Seq::<Item>::empty(),
            r.capacity_spec() == usize::MAX,
            r.ttl_spec() is None,
            r.memory_limit_spec() == Some(memory_limit as nat),
            r.stats_spec().hits == 0,
            r.stats_spec().misses == 0,
            r.stats_spec().entries == 0,
            r.stats_spec().memory_bytes == 0,
    {
        StorageCache::with_limits(usize::MAX, None, Some(memory_limit))
    }

    /// A copy of the counters.
    pub fn stats(&self) -> (r: CacheStats)
        ensures
            r == self.stats_spec(),
    {
        self.stats
    }

    /// The position of the key.
    fn find(&self, key: &String) -> (r: Option<usize>)
        requires
            self.wf(),
        ensures
            match r {
                Some(i) => i < self.items().len() && holds_key(self.items(), key@)
                    && item_index(self.items(), key@) == i,
                None => !holds_key(self.items(), key@),
            },
    {
        let mut i: usize = 0;
        while i < self.items.len()
            invariant
                self.wf(),
                i <= self.items.len(),
                forall|j: int| 0 <= j < i ==> (#[trigger] self.items()[j]).0 != key@,
            decreases self.items.len() - i,
        {
            if self.items[i].key == *key {
                proof {
                    lemma_index_of(self.items(), key@, i as int);
                }
                return Some(i);
            }
            i = i + 1;
        }
        proof {
            if holds_key(self.items(), key@) {
                let j = choose|j: int| 0 <= j < self.items().len() && (#[trigger] self.items()[j]).0 == key@;
                assert(self.items()[j].0 != key@);
            }
        }
        None
    }

    /// Whether an item stored at `stored` has expired at `now`.
    fn expired(&self, stored: u64, now: u64) -> (r: bool)
        ensures
            r == is_expired(stored, now, self.ttl_spec()),
    {
        match &self.ttl {
            Some(d) => {
                let e: u64 = if now >= stored { now - stored } else { 0 };
                (e as u128) > d.as_nanos()
            },
            None => false,
        }
    }

    /// A read served by the cache: the bytes of a cached, unexpired item,
    /// which becomes the most recently used, counting a hit. Otherwise
    /// nothing changes and the caller reads the store.
    pub fn lookup(&mut self, path: &str, now: u64) -> (r: Option<Vec<u8>>)
        requires
            old(self).wf(),
            old(self).stats_spec().hits < usize::MAX,
        ensures
            final(self).wf(),
            final(self).capacity_spec() == old(self).capacity_spec(),
            final(self).ttl_spec() == old(self).ttl_spec(),
            final(self).memory_limit_spec() == old(self).memory_limit_spec(),
            ({
                let s = old(self).items();
                let i = item_index(s, path@);
                if holds_key(s, path@) && !is_expired(s[i].2, now, old(self).ttl_spec()) {
                    &&& r matches Some(d) && d@ == s[i].1
                    &&& final(self).items() == move_to_back(s, i)
                    &&& final(self).stats_spec() == (CacheStats { hits: (old(self).stats_spec().hits + 1) as usize, ..old(self).stats_spec() })
                } else {
                    &&& r is None
                    &&& final(self).items() == s
                    &&& final(self).stats_spec() == old(self).stats_spec()
                }
            }),
    {
        let key = String::from_str(path);
        let ghost s = self.items();
        match self.find(&key) {
            Some(i) => {
                if self.expired(self.items[i].timestamp, now) {
                    return None;
                }
                let data = self.items[i].data.clone();
                let e = self.items.remove(i);
                self.items.push(e);
                self.stats.hits = self.stats.hits + 1;
                proof {
                    assert(self.items() =~= move_to_back(s, i as int));
                    lemma_distinct_remove(s, i as int);
                    lemma_sum_sizes_remove(s, i as int);
                    lemma_sum_sizes_push(s.remove(i as int), s[i as int]);
                    let r = s.remove(i as int);
                    assert(!holds_key(r, s[i as int].0)) by {
                        if holds_key(r, s[i as int].0) {
                            let j = choose|j: int| 0 <= j < r.len() && (#[trigger] r[j]).0 == s[i as int].0;
                        }
                    }
                    lemma_distinct_push(r, s[i as int]);
                    assert forall|j: int| 0 <= j < self.items().len() implies #[trigger] self.items()[j].3 == self.items()[j].1.len() by {
                        if j < i {
                            assert(self.items()[j] == s[j]);
                        } else if j < self.items().len() - 1 {
                            assert(self.items()[j] == s[j + 1]);
                        } else {
                            assert(self.items()[j] == s[i as int]);
                        }
                    }
                }
                Some(data)
            },
            None => None,
        }
    }

    /// Removes the item of the key, if any, and its share of the counters.
    fn remove_key(&mut self, key: &String)
        requires
            old(self).wf(),
        ensures
            final(self).wf(),
            final(self).capacity == old(self).capacity,
            final(self).ttl == old(self).ttl,
            final(self).memory_limit == old(self).memory_limit,
            final(self).items() == without_key(old(self).items(), key@),
            !holds_key(final(self).items(), key@),
            final(self).stats.hits == old(self).stats.hits,
            final(self).stats.misses == old(self).stats.misses,
            holds_key(old(self).items(), key@) ==> final(self).stats.entries == old(self).stats.entries - 1
                && final(self).stats.memory_bytes == old(self).stats.memory_bytes
                    - old(self).items()[item_index(old(self).items(), key@)].3,
            !holds_key(old(self).items(), key@) ==> final(self).stats == old(self).stats,
    {
        let ghost s = self.items();
        match self.find(key) {
            Some(i) => {
                let e = self.items.remove(i);
                proof {
                    assert(self.items() =~= s.remove(i as int));
                    lemma_distinct_remove(s, i as int);
                    lemma_sum_sizes_remove(s, i as int);
                    assert(sum_sizes(s) >= s.remove(i as int).len() + 0 || true);
                    assert(s.len() >= 1);
                }
                self.stats.entries = self.stats.entries - 1;
                self.stats.memory_bytes = self.stats.memory_bytes - e.size;
                proof {
                    assert forall|j: int| 0 <= j < self.items().len() implies #[trigger] self.items()[j].3 == self.items()[j].1.len() by {
                        if j < i {
                            assert(self.items()[j] == s[j]);
                        } else {
                            assert(self.items()[j] == s[j + 1]);
                        }
                    }
                    assert(!holds_key(self.items(), key@)) by {
                        if holds_key(self.items(), key@) {
                            let j = choose|j: int| 0 <= j < self.items().len() && (#[trigger] self.items()[j]).0 == key@;
                            assert(s.remove(i as int)[j].0 != s[i as int].0);
                        }
                    }
                }
            },
            None => {},
        }
    }

    /// The items and counters.
    pub closed spec fn tally(&self) -> Tally {
        (self.items(), self.stats.entries as int, self.stats.memory_bytes as int)
    }

    /// Takes the least recently used item off the cache and the counters.
    fn evict_first(&mut self)
        requires
            old(self).wf(),
            old(self).items.len() > 0,
        ensures
            final(self).wf(),
            final(self).capacity == old(self).capacity,
            final(self).ttl == old(self).ttl,
            final(self).memory_limit == old(self).memory_limit,
            final(self).items() == old(self).items().drop_first(),
            final(self).stats.hits == old(self).stats.hits,
            final(self).stats.misses == old(self).stats.misses,
            final(self).stats.entries == old(self).stats.entries - 1,
            final(self).stats.memory_bytes == old(self).stats.memory_bytes - old(self).items()[0].3,
    {
        let ghost s = self.items();
        let e = self.items.remove(0);
        proof {
            assert(self.items() =~= s.drop_first());
            lemma_sum_sizes_first(s);
            assert(s.remove(0) =~= s.drop_first());
            lemma_distinct_remove(s, 0);
        }
        self.stats.entries = self.stats.entries - 1;
        self.stats.memory_bytes = self.stats.memory_bytes - e.size;
        proof {
            assert forall|j: int| 0 <= j < self.items().len() implies #[trigger] self.items()[j].3 == self.items()[j].1.len() by {
                assert(self.items()[j] == s[j + 1]);
            }
        }
    }

    /// The capacity check.
    fn check_capacity(&mut self)
        requires
            old(self).wf(),
        ensures
            final(self).wf(),
            final(self).capacity == old(self).capacity,
            final(self).ttl == old(self).ttl,
            final(self).memory_limit == old(self).memory_limit,
            final(self).stats.hits == old(self).stats.hits,
            final(self).stats.misses == old(self).stats.misses,
            final(self).tally() == after_capacity_check(old(self).tally(), old(self).capacity as nat),
            forall|q: Seq<char>| holds_key(final(self).items(), q) ==> holds_key(old(self).items(), q),
            final(self).items().len() < old(self).capacity || final(self).items().len() == 0,
    {
        let ghost s = self.items();
        let ghost e0 = self.stats.entries as int;
        let ghost m0 = self.stats.memory_bytes as int;
        let ghost n = capacity_evictions(s.len(), self.capacity as nat);
        let mut k: usize = 0;
        proof {
            assert(s.skip(0) =~= s);
            assert(s.take(0) =~= Seq::<Item>::empty());
        }
        while self.items.len() >= self.capacity && self.items.len() > 0
            invariant
                self.wf(),
                self.capacity == old(self).capacity,
                self.ttl == old(self).ttl,
                self.memory_limit == old(self).memory_limit,
                self.stats.hits == old(self).stats.hits,
                self.stats.misses == old(self).stats.misses,
                s == old(self).items(),
                e0 == old(self).stats.entries,
                m0 == old(self).stats.memory_bytes,
                n == capacity_evictions(s.len(), self.capacity as nat),
                k <= n,
                k <= s.len(),
                self.items() == s.skip(k as int),
                self.stats.entries == e0 - k,
                self.stats.memory_bytes == m0 - sum_sizes(s.take(k as int)),
            decreases self.items.len(),
        {
            proof {
                assert(s.skip(k as int)[0] == s[k as int]);
                assert(s.take(k as int).push(s[k as int]) =~= s.take(k + 1));
                lemma_sum_sizes_push(s.take(k as int), s[k as int]);
                assert(s.skip(k as int).drop_first() =~= s.skip(k + 1));
            }
            self.evict_first();
            k = k + 1;
        }
        proof {
            assert(k == n);
            lemma_holds_key_skip(s, k as int);
        }
    }

    /// The memory check, with room for `extra` more bytes.
    fn check_memory(&mut self, extra: usize)
        requires
            old(self).wf(),
            old(self).stats.memory_bytes + extra <= usize::MAX,
        ensures
            final(self).wf(),
            final(self).capacity == old(self).capacity,
            final(self).ttl == old(self).ttl,
            final(self).memory_limit == old(self).memory_limit,
            final(self).stats.hits == old(self).stats.hits,
            final(self).stats.misses == old(self).stats.misses,
            final(self).stats.memory_bytes <= old(self).stats.memory_bytes,
            final(self).tally() == after_memory_check(old(self).tally(), old(self).memory_limit_spec(), extra as nat),
            final(self).items().len() <= old(self).items().len(),
            forall|q: Seq<char>| holds_key(final(self).items(), q) ==> holds_key(old(self).items(), q),
    {
        match self.memory_limit {
            Some(limit) => {
                let ghost s = self.items();
                let ghost e0 = self.stats.entries as int;
                let ghost m0 = self.stats.memory_bytes as int;
                let ghost n = memory_evictions(s, m0 + extra, limit as int);
                proof {
                    lemma_memory_evictions_len(s, m0 + extra, limit as int);
                }
                let mut k: usize = 0;
                proof {
                    assert(s.skip(0) =~= s);
                    assert(s.take(0) =~= Seq::<Item>::empty());
                }
                while self.stats.memory_bytes + extra > limit && self.items.len() > 0
                    invariant
                        self.wf(),
                        self.capacity == old(self).capacity,
                        self.ttl == old(self).ttl,
                        self.memory_limit == old(self).memory_limit,
                        self.memory_limit == Some(limit),
                        self.stats.hits == old(self).stats.hits,
                        self.stats.misses == old(self).stats.misses,
                        s == old(self).items(),
                        e0 == old(self).stats.entries,
                        m0 == old(self).stats.memory_bytes,
                        m0 + extra <= usize::MAX,
                        k <= s.len(),
                        self.items() == s.skip(k as int),
                        self.stats.entries == e0 - k,
                        self.stats.memory_bytes == m0 - sum_sizes(s.take(k as int)),
                        n == k + memory_evictions(s.skip(k as int), self.stats.memory_bytes + extra, limit as int),
                    decreases self.items.len(),
                {
                    proof {
                        assert(s.skip(k as int)[0] == s[k as int]);
                        assert(s.take(k as int).push(s[k as int]) =~= s.take(k + 1));
                        lemma_sum_sizes_push(s.take(k as int), s[k as int]);
                        assert(s.skip(k as int).drop_first() =~= s.skip(k + 1));
                    }
                    self.evict_first();
                    k = k + 1;
                }
                proof {
                    assert(k == n);
                    lemma_holds_key_skip(s, k as int);
                }
            },
            None => {},
        }
    }

    /// A write through the cache: the bytes are stored as the most recently
    /// used item of the key (see `after_put`).
    pub fn record_put(&mut self, path: &str, data: Vec<u8>, now: u64)
        requires
            old(self).wf(),
            old(self).stats_spec().entries < usize::MAX,
            old(self).stats_spec().memory_bytes + data@.len() <= usize::MAX,
        ensures
            final(self).wf(),
            final(self).capacity_spec() == old(self).capacity_spec(),
            final(self).ttl_spec() == old(self).ttl_spec(),
            final(self).memory_limit_spec() == old(self).memory_limit_spec(),
            final(self).stats_spec().hits == old(self).stats_spec().hits,
            final(self).stats_spec().misses == old(self).stats_spec().misses,
            final(self).tally() == after_put(old(self).tally(), old(self).capacity_spec(),
                old(self).memory_limit_spec(), (path@, data@, now, data@.len())),
    {
        let key = String::from_str(path);
        let size = data.len();
        let ghost t = self.tally();
        let ghost x: Item = (path@, data@, now, data@.len());
        let is_update = self.find(&key).is_some();
        self.remove_key(&key);
        if !is_update {
            self.check_memory(size);
            self.check_capacity();
            self.check_memory(0);
        }
        let ghost before = self.items();
        proof {
            if !is_update {
                assert(!holds_key(before, key@)) by {
                    if holds_key(before, key@) {
                        let j = choose|j: int| 0 <= j < before.len() && (#[trigger] before[j]).0 == key@;
                    }
                }
            }
        }
        self.items.push(CacheEntry { key, data, timestamp: now, size });
        self.stats.entries = self.stats.entries + 1;
        self.stats.memory_bytes = self.stats.memory_bytes + size;
        proof {
            assert(self.items() =~= before.push(x));
            lemma_distinct_push(before, x);
            lemma_sum_sizes_push(before, x);
            assert forall|j: int| 0 <= j < self.items().len() implies #[trigger] self.items()[j].3 == self.items()[j].1.len() by {
                if j < before.len() {
                    assert(self.items()[j] == before[j]);
                }
            }
        }
    }

    /// A read that the cache did not serve, with what the store returned:
    /// a miss is counted, and bytes that were found are stored as described
    /// by `after_fetch`.
    pub fn record_fetch(&mut self, path: &str, fetched: &Option<Vec<u8>>, now: u64)
        requires
            old(self).wf(),
            old(self).stats_spec().misses < usize::MAX,
            fetched is Some ==> old(self).stats_spec().entries < usize::MAX,
            fetched matches Some(d) ==> old(self).stats_spec().memory_bytes + d@.len() <= usize::MAX,
        ensures
            final(self).wf(),
            final(self).capacity_spec() == old(self).capacity_spec(),
            final(self).ttl_spec() == old(self).ttl_spec(),
            final(self).memory_limit_spec() == old(self).memory_limit_spec(),
            final(self).stats_spec().hits == old(self).stats_spec().hits,
            final(self).stats_spec().misses == old(self).stats_spec().misses + 1,
            match fetched {
                Some(d) => final(self).tally() == after_fetch(old(self).tally(), old(self).capacity_spec(),
                    old(self).memory_limit_spec(), (path@, d@, now, d@.len())),
                None => final(self).tally() == old(self).tally(),
            },
    {
        self.stats.misses = self.stats.misses + 1;
        match fetched {
            Some(d) => {
                self.check_capacity();
                self.check_memory(0);
                let key = String::from_str(path);
                let data = d.clone();
                let size = data.len();
                let ghost before = self.items();
                let ghost x: Item = (path@, d@, now, d@.len());
                match self.find(&key) {
                    Some(i) => {
                        self.items.remove(i);
                    },
                    None => {},
                }
                self.items.push(CacheEntry { key, data, timestamp: now, size });
                self.stats.entries = self.stats.entries + 1;
                self.stats.memory_bytes = self.stats.memory_bytes + size;
                proof {
                    lemma_store_back(before, x);
                    assert(self.items() =~= store_back(before, x));
                    if holds_key(before, x.0) {
                        lemma_sum_sizes_remove(before, item_index(before, x.0));
                    }
                    let r = store_back(before, x);
                    assert forall|j: int| 0 <= j < self.items().len() implies #[trigger] self.items()[j].3 == self.items()[j].1.len() by {
                        if j < r.len() - 1 {
                            if holds_key(before, x.0) {
                                let i = item_index(before, x.0);
                                if j < i {
                                    assert(r[j] == before[j]);
                                } else {
                                    assert(r[j] == before[j + 1]);
                                }
                            } else {
                                assert(r[j] == before[j]);
                            }
                        }
                    }
                }
            },
            None => {},
        }
    }

    /// A delete: the item of the key leaves the cache.
    pub fn record_delete(&mut self, path: &str)
        requires
            old(self).wf(),
        ensures
            final(self).wf(),
            final(self).capacity_spec() == old(self).capacity_spec(),
            final(self).ttl_spec() == old(self).ttl_spec(),
            final(self).memory_limit_spec() == old(self).memory_limit_spec(),
            final(self).items() == without_key(old(self).items(), path@),
            final(self).stats_spec().hits == old(self).stats_spec().hits,
            final(self).stats_spec().misses == old(self).stats_spec().misses,
            holds_key(old(self).items(), path@) ==> final(self).stats_spec().entries == old(self).stats_spec().entries - 1
                && final(self).stats_spec().memory_bytes == old(self).stats_spec().memory_bytes
                    - old(self).items()[item_index(old(self).items(), path@)].3,
            !holds_key(old(self).items(), path@) ==> final(self).stats_spec() == old(self).stats_spec(),
    {
        let key = String::from_str(path);
        self.remove_key(&key);
    }
}

// ---------------------------------------------------------------------------
// Circuit breaker and retries
// ---------------------------------------------------------------------------

/// A circuit breaker: after `failure_threshold` failures it stays open
/// until `reset_timeout` has passed since the last one; a success closes it.
pub struct CircuitBreaker {
    pub failure_threshold: usize,
    pub reset_timeout: Duration,
    /// Failures since the last success.
    pub failures: usize,
    /// When the last failure happened (nanoseconds on the caller's clock).
    pub last_failure: Option<u64>,
}

/// The breaker refuses calls.
pub open spec fn breaker_open(failures: nat, threshold: nat, last_failure: Option<u64>, timeout: nat, now: u64) -> bool {
    &&& failures >= threshold
    &&& last_failure matches Some(t)
    &&& elapsed(t, now) < timeout
}

impl CircuitBreaker {
    /// A closed breaker.
    pub fn new(failure_threshold: usize, reset_timeout: Duration) -> (r: Self)
        ensures
            r.failure_threshold == failure_threshold,
            r.reset_timeout == reset_timeout,
            r.failures == 0,
            r.last_failure is None,
    {
        CircuitBreaker { failure_threshold, reset_timeout, failures: 0, last_failure: None }
    }

    /// Whether calls are refused at `now`.
    pub fn is_open(&self, now: u64) -> (r: bool)
        ensures
            r == breaker_open(self.failures as nat, self.failure_threshold as nat, self.last_failure,
                duration_nanos(self.reset_timeout), now),
    {
        if self.failures >= self.failure_threshold {
            match self.last_failure {
                Some(t) => {
                    let e: u64 = if now >= t { now - t } else { 0 };
                    return (e as u128) < self.reset_timeout.as_nanos();
                },
                None => {},
            }
        }
        false
    }

    /// A call succeeded: the count and the time of the last failure clear.
    pub fn record_success(&mut self)
        ensures
            final(self).failures == 0,
            final(self).last_failure is None,
            final(self).failure_threshold == old(self).failure_threshold,
            final(self).reset_timeout == old(self).reset_timeout,
    {
        self.failures = 0;
        self.last_failure = None;
    }

    /// A call failed at `now`.
    pub fn record_failure(&mut self, now: u64)
        requires
            old(self).failures < usize::MAX,
        ensures
            final(self).failures == old(self).failures + 1,
            final(self).last_failure == Some(now),
            final(self).failure_threshold == old(self).failure_threshold,
            final(self).reset_timeout == old(self).reset_timeout,
    {
        self.failures = self.failures + 1;
        self.last_failure = Some(now);
    }
}

/// An optional breaker refuses calls at `now`.
pub open spec fn refuses(breaker: Option<CircuitBreaker>, now: u64) -> bool {
    match breaker {
        Some(b) => breaker_open(b.failures as nat, b.failure_threshold as nat, b.last_failure,
            duration_nanos(b.reset_timeout), now),
        None => false,
    }
}

/// The failure that reaches the threshold opens the breaker at once, when
/// the timeout is not zero.
pub proof fn law_breaker_opens(failures: nat, threshold: nat, timeout: nat, now: u64)
    requires
        failures + 1 >= threshold,
        timeout > 0,
    ensures
        breaker_open(failures + 1, threshold, Some(now), timeout, now),
{
}

/// The breaker closes once the timeout has passed since the last failure.
pub proof fn law_breaker_reopens_after_timeout(failures: nat, threshold: nat, last: u64, timeout: nat, now: u64)
    requires
        elapsed(last, now) >= timeout,
    ensures
        !breaker_open(failures, threshold, Some(last), timeout, now),
{
}

/// After a success the breaker is closed.
pub proof fn law_breaker_success_closes(threshold: nat, timeout: nat, now: u64)
    ensures
        !breaker_open(0, threshold, None, timeout, now),
{
}

/// What a retrying store does after an attempt.
pub enum RetryStep {
    /// The attempt succeeded; its result is returned.
    Succeeded,
    /// The attempt failed and no attempt is left; its error is returned.
    GiveUp,
    /// The attempt failed; wait and try again.
    Retry,
}

/// The attempts of one operation of a retrying store, with its optional
/// circuit breaker.
pub struct RetryRun {
    pub max_attempts: usize,
    /// Attempts made so far.
    pub attempts: usize,
}

impl RetryRun {
    /// The start of an operation: refused while the breaker is open.
    pub fn start(max_attempts: usize, breaker: &Option<CircuitBreaker>, now: u64) -> (r: Result<RetryRun, StorageError>)
        ensures
            refuses(*breaker, now) ==> r matches Err(StorageError::CircuitBreakerOpen),
            !refuses(*breaker, now) ==> (r matches Ok(run) && run.max_attempts == max_attempts && run.attempts == 0),
    {
        match breaker {
            Some(b) => {
                if b.is_open(now) {
                    return Err(StorageError::CircuitBreakerOpen);
                }
            },
            None => {},
        }
        Ok(RetryRun { max_attempts, attempts: 0 })
    }

    /// Records the outcome of an attempt made at `now`, and updates the
    /// breaker: a success closes it, a failure is counted.
    pub fn after_attempt(&mut self, succeeded: bool, breaker: &mut Option<CircuitBreaker>, now: u64) -> (r: RetryStep)
        requires
            old(self).attempts < usize::MAX,
            *old(breaker) matches Some(b) ==> b.failures < usize::MAX,
        ensures
            final(self).attempts == old(self).attempts + 1,
            final(self).max_attempts == old(self).max_attempts,
            succeeded ==> r is Succeeded,
            !succeeded && final(self).attempts >= final(self).max_attempts ==> r is GiveUp,
            !succeeded && final(self).attempts < final(self).max_attempts ==> r is Retry,
            match *old(breaker) {
                Some(b) => *final(breaker) matches Some(b2)
                    && b2.failure_threshold == b.failure_threshold
                    && b2.reset_timeout == b.reset_timeout
                    && (succeeded ==> b2.failures == 0 && b2.last_failure is None)
                    && (!succeeded ==> b2.failures == b.failures + 1 && b2.last_failure == Some(now)),
                None => *final(breaker) is None,
            },
    {
        self.attempts = self.attempts + 1;
        match breaker {
            Some(b) => {
                if succeeded {
                    b.record_success();
                } else {
                    b.record_failure(now);
                }
            },
            None => {},
        }
        if succeeded {
            RetryStep::Succeeded
        } else if self.attempts >= self.max_attempts {
            RetryStep::GiveUp
        } else {
            RetryStep::Retry
        }
    }
}

// ---------------------------------------------------------------------------
// Batching buffers
// ---------------------------------------------------------------------------

/// What the buffers of a batching store say of a path.
pub enum BufferedRead {
    /// A buffered write holds these bytes.
    Written(Vec<u8>),
    /// A buffered delete hides the stored bytes.
    Deleted,
    /// Nothing is buffered: the store answers.
    NotBuffered,
}

/// The writes and deletes that a batching store holds until a flush.
pub struct BatchBuffers {
    max_batch_size: usize,
    writes: StrMap<Vec<u8>>,
    deletes: Vec<String>,
}

/// The paths of a list of strings.
pub open spec fn paths_of(v: Seq<String>) -> Seq<Seq<char>> {
    v.map_values(|p: String| p@)
}

/// The buffered deletes after a write of `k`: those of other paths.
pub open spec fn deletes_after_write(d: Seq<Seq<char>>, k: Seq<char>) -> Seq<Seq<char>> {
    d.filter(|p: Seq<char>| p != k)
}

/// After a buffered write, no buffered delete names the path; the others
/// keep their order.
pub proof fn law_write_cancels_delete(d: Seq<Seq<char>>, k: Seq<char>)
    ensures
        !deletes_after_write(d, k).contains(k),
        forall|p: Seq<char>| p != k && d.contains(p) ==> deletes_after_write(d, k).contains(p),
{
    broadcast use vstd::seq_lib::group_filter_ensures;
    let f = deletes_after_write(d, k);
    if f.contains(k) {
        let i = choose|i: int| 0 <= i < f.len() && f[i] == k;
        assert((|p: Seq<char>| p != k)(f[i]));
    }
    assert forall|p: Seq<char>| p != k && d.contains(p) implies deletes_after_write(d, k).contains(p) by {
        let i = choose|i: int| 0 <= i < d.len() && d[i] == p;
        d.lemma_filter_contains(|q: Seq<char>| q != k, i);
    }
}

impl BatchBuffers {
    /// The buffered writes, by path.
    pub closed spec fn writes_spec(&self) -> Map<Seq<char>, Seq<u8>> {
        Map::new(|k: Seq<char>| self.writes.map().contains_key(k), |k: Seq<char>| self.writes.map()[k]@)
    }

    /// The number of buffered operations that calls for a flush.
    pub closed spec fn batch_size_spec(&self) -> nat {
        self.max_batch_size as nat
    }

    /// The buffered deletes, in order.
    pub closed spec fn deletes_spec(&self) -> Seq<Seq<char>> {
        paths_of(self.deletes@)
    }

    /// The buffers are consistent.
    pub closed spec fn wf(&self) -> bool {
        self.writes.wf()
    }

    /// The number of buffered operations.
    pub closed spec fn pending_spec(&self) -> nat {
        self.writes.map().dom().len() + self.deletes@.len()
    }

    /// Empty buffers that flush at `max_batch_size` operations.
    pub fn new(max_batch_size: usize) -> (r: Self)
        ensures
            r.wf(),
            r.batch_size_spec() == max_batch_size,
            r.writes_spec() == Map::<Seq<char>, Seq<u8>>::empty(),
            r.deletes_spec() == Seq::<Seq<char>>::empty(),
            r.pending_spec() == 0,
    {
        let r = BatchBuffers { max_batch_size, writes: StrMap::new(), deletes: Vec::new() };
        assert(r.writes_spec() =~= Map::<Seq<char>, Seq<u8>>::empty());
        assert(r.deletes_spec() =~= Seq::<Seq<char>>::empty());
        r
    }

    /// Whether a buffered delete names the path.
    fn delete_buffered(&self, path: &str) -> (r: bool)
        ensures
            r == self.deletes_spec().contains(path@),
    {
        let k = String::from_str(path);
        let mut i: usize = 0;
        while i < self.deletes.len()
            invariant
                i <= self.deletes.len(),
                k@ == path@,
                forall|j: int| 0 <= j < i ==> #[trigger] self.deletes_spec()[j] != path@,
            decreases self.deletes.len() - i,
        {
            if self.deletes[i] == k {
                assert(self.deletes_spec()[i as int] == path@);
                return true;
            }
            i = i + 1;
        }
        false
    }

    /// What the buffers say of a path: a buffered write wins over a
    /// buffered delete.
    pub fn read(&self, path: &str) -> (r: BufferedRead)
        requires
            self.wf(),
        ensures
            match r {
                BufferedRead::Written(d) => self.writes_spec().contains_key(path@) && d@ == self.writes_spec()[path@],
                BufferedRead::Deleted => !self.writes_spec().contains_key(path@) && self.deletes_spec().contains(path@),
                BufferedRead::NotBuffered => !self.writes_spec().contains_key(path@) && !self.deletes_spec().contains(path@),
            },
    {
        match self.writes.get(path) {
            Some(d) => BufferedRead::Written(d.clone()),
            None => {
                if self.delete_buffered(path) {
                    BufferedRead::Deleted
                } else {
                    BufferedRead::NotBuffered
                }
            },
        }
    }

    /// Whether the buffered operations reach the batch size.
    pub fn should_flush(&self) -> (r: bool)
        requires
            self.wf(),
            self.pending_spec() <= usize::MAX,
        ensures
            r == (self.pending_spec() >= self.batch_size_spec()),
    {
        self.writes.len() + self.deletes.len() >= self.max_batch_size
    }

    /// Buffers a write; a buffered delete of the path is dropped. Returns
    /// whether a flush is due.
    pub fn write(&mut self, path: &str, data: Vec<u8>) -> (r: bool)
        requires
            old(self).wf(),
            old(self).pending_spec() < usize::MAX,
        ensures
            final(self).wf(),
            final(self).batch_size_spec() == old(self).batch_size_spec(),
            final(self).writes_spec() == old(self).writes_spec().insert(path@, data@),
            final(self).deletes_spec() == deletes_after_write(old(self).deletes_spec(), path@),
            r == (final(self).pending_spec() >= final(self).batch_size_spec()),
    {
        let ghost w0 = self.writes_spec();
        let ghost d0 = self.deletes_spec();
        let ghost dv = data@;
        let _ = self.writes.insert(String::from_str(path), data);
        assert(self.writes_spec() =~= w0.insert(path@, dv));
        let k = String::from_str(path);
        let mut kept: Vec<String> = Vec::new();
        let mut i: usize = 0;
        while i < self.deletes.len()
            invariant
                i <= self.deletes.len(),
                k@ == path@,
                d0 == paths_of(self.deletes@),
                paths_of(kept@) == d0.take(i as int).filter(|p: Seq<char>| p != path@),
            decreases self.deletes.len() - i,
        {
            proof {
                reveal(Seq::filter);
                assert(d0.take(i + 1).drop_last() =~= d0.take(i as int));
            }
            if self.deletes[i] != k {
                kept.push(self.deletes[i].clone());
                assert(paths_of(kept@) =~= d0.take(i as int).filter(|p: Seq<char>| p != path@).push(d0[i as int]));
            }
            i = i + 1;
        }
        assert(d0.take(self.deletes.len() as int) =~= d0);
        proof {
            d0.lemma_filter_len(|p: Seq<char>| p != path@);
            self.writes.lemma_entries();
            old(self).writes.lemma_entries();
        }
        self.deletes = kept;
        proof {
            self.writes.lemma_entries();
            assert(self.writes.map().dom() =~= old(self).writes.map().dom().insert(path@));
        }
        self.should_flush()
    }

    /// Buffers a delete; a buffered write of the path is dropped. Returns
    /// whether a flush is due.
    pub fn delete(&mut self, path: &str) -> (r: bool)
        requires
            old(self).wf(),
            old(self).pending_spec() < usize::MAX,
        ensures
            final(self).wf(),
            final(self).batch_size_spec() == old(self).batch_size_spec(),
            final(self).writes_spec() == old(self).writes_spec().remove(path@),
            final(self).deletes_spec() == old(self).deletes_spec().push(path@),
            r == (final(self).pending_spec() >= final(self).batch_size_spec()),
    {
        let ghost w0 = self.writes_spec();
        proof {
            old(self).writes.lemma_entries();
        }
        self.deletes.push(String::from_str(path));
        let _ = self.writes.remove(path);
        proof {
            self.writes.lemma_entries();
            assert(self.writes_spec() =~= w0.remove(path@));
            assert(self.deletes_spec() =~= old(self).deletes_spec().push(path@));
            assert(self.writes.map().dom() =~= old(self).writes.map().dom().remove(path@));
        }
        self.should_flush()
    }

    /// Empties the buffers for a flush: the writes (in the order their paths
    /// were first buffered) and then the deletes (in order).
    pub fn take_pending(&mut self) -> (r: (Vec<(String, Vec<u8>)>, Vec<String>))
        requires
            old(self).wf(),
        ensures
            final(self).wf(),
            final(self).batch_size_spec() == old(self).batch_size_spec(),
            final(self).writes_spec() == Map::<Seq<char>, Seq<u8>>::empty(),
            final(self).deletes_spec() == Seq::<Seq<char>>::empty(),
            paths_of(r.1@) == old(self).deletes_spec(),
            r.0@.len() == old(self).writes_spec().dom().len(),
            forall|i: int| 0 <= i < r.0@.len() ==> old(self).writes_spec().contains_key((#[trigger] r.0@[i]).0@)
                && old(self).writes_spec()[r.0@[i].0@] == r.0@[i].1@,
            forall|i: int, j: int| 0 <= i < j < r.0@.len() ==> (#[trigger] r.0@[i]).0@ != (#[trigger] r.0@[j]).0@,
    {
        proof {
            old(self).writes.lemma_entries();
        }
        let writes = self.writes.take_all();
        let mut deletes: Vec<String> = Vec::new();
        std::mem::swap(&mut deletes, &mut self.deletes);
        proof {
            assert(self.writes_spec() =~= Map::<Seq<char>, Seq<u8>>::empty());
            assert(self.deletes_spec() =~= Seq::<Seq<char>>::empty());
            assert forall|i: int| 0 <= i < writes@.len() implies old(self).writes_spec().contains_key((#[trigger] writes@[i]).0@)
                && old(self).writes_spec()[writes@[i].0@] == writes@[i].1@ by {
                assert(crate::str_map::keyed(writes@)[i] == old(self).writes.entries()[i]);
            }
            assert forall|i: int, j: int| 0 <= i < j < writes@.len() implies (#[trigger] writes@[i]).0@ != (#[trigger] writes@[j]).0@ by {
                assert(crate::str_map::keyed(writes@)[i] == old(self).writes.entries()[i]);
                assert(crate::str_map::keyed(writes@)[j] == old(self).writes.entries()[j]);
                assert(old(self).writes.entries()[i].0 != old(self).writes.entries()[j].0);
            }
            assert(old(self).writes_spec().dom() =~= old(self).writes.map().dom());
        }
        (writes, deletes)
    }
}

// ---------------------------------------------------------------------------
// In-memory store
// ---------------------------------------------------------------------------

/// An object store in memory, counting the reads of each path.
pub struct MockS5Storage {
    data: StrMap<Vec<u8>>,
    call_count: StrMap<usize>,
}

impl MockS5Storage {
    /// The stored bytes, by path.
    pub closed spec fn data_spec(&self) -> Map<Seq<char>, Seq<u8>> {
        Map::new(|k: Seq<char>| self.data.map().contains_key(k), |k: Seq<char>| self.data.map()[k]@)
    }

    /// The reads of each path that was read.
    pub closed spec fn reads_spec(&self) -> Map<Seq<char>, usize> {
        self.call_count.map()
    }

    /// The maps are consistent.
    pub closed spec fn wf(&self) -> bool {
        self.data.wf() && self.call_count.wf()
    }

    /// An empty store.
    pub fn new() -> (r: Self)
        ensures
            r.wf(),
            r.data_spec() == Map::<Seq<char>, Seq<u8>>::empty(),
            r.reads_spec() == Map::<Seq<char>, usize>::empty(),
    {
        let r = MockS5Storage { data: StrMap::new(), call_count: StrMap::new() };
        assert(r.data_spec() =~= Map::<Seq<char>, Seq<u8>>::empty());
        r
    }

    /// The bytes at the path; the read is counted.
    pub fn get(&mut self, path: &str) -> (r: Option<Vec<u8>>)
        requires
            old(self).wf(),
            old(self).reads_spec().contains_key(path@) ==> old(self).reads_spec()[path@] < usize::MAX,
        ensures
            final(self).wf(),
            final(self).data_spec() == old(self).data_spec(),
            final(self).reads_spec() == old(self).reads_spec().insert(path@,
                if old(self).reads_spec().contains_key(path@) { (old(self).reads_spec()[path@] + 1) as usize } else { 1usize }),
            match r {
                Some(d) => old(self).data_spec().contains_key(path@) && d@ == old(self).data_spec()[path@],
                None => !old(self).data_spec().contains_key(path@),
            },
    {
        let n: usize = match self.call_count.get(path) {
            Some(c) => *c + 1,
            None => 1,
        };
        let _ = self.call_count.insert(String::from_str(path), n);
        match self.data.get(path) {
            Some(d) => Some(d.clone()),
            None => None,
        }
    }

    /// Stores the bytes at the path.
    pub fn put(&mut self, path: &str, data: Vec<u8>)
        requires
            old(self).wf(),
        ensures
            final(self).wf(),
            final(self).data_spec() == old(self).data_spec().insert(path@, data@),
            final(self).reads_spec() == old(self).reads_spec(),
    {
        let ghost d0 = self.data_spec();
        let ghost dv = data@;
        let _ = self.data.insert(String::from_str(path), data);
        assert(self.data_spec() =~= d0.insert(path@, dv));
    }

    /// Removes the path.
    pub fn delete(&mut self, path: &str)
        requires
            old(self).wf(),
        ensures
            final(self).wf(),
            final(self).data_spec() == old(self).data_spec().remove(path@),
            final(self).reads_spec() == old(self).reads_spec(),
    {
        let ghost d0 = self.data_spec();
        let _ = self.data.remove(path);
        assert(self.data_spec() =~= d0.remove(path@));
    }

    /// The stored paths that begin with the prefix, each once.
    pub fn list(&self, prefix: &str) -> (r: Vec<String>)
        requires
            self.wf(),
        ensures
            forall|i: int| 0 <= i < r@.len() ==> self.data_spec().contains_key((#[trigger] r@[i])@)
                && prefix@.is_prefix_of(r@[i]@),
            forall|k: Seq<char>| self.data_spec().contains_key(k) && prefix@.is_prefix_of(k)
                ==> exists|i: int| 0 <= i < r@.len() && (#[trigger] r@[i])@ == k,
            forall|i: int, j: int| 0 <= i < j < r@.len() ==> (#[trigger] r@[i])@ != (#[trigger] r@[j])@,
    {
        let keys = self.data.keys();
        proof {
            self.data.lemma_entries();
        }
        let mut r: Vec<String> = Vec::new();
        let ghost idx: Seq<int> = Seq::empty();
        let mut i: usize = 0;
        while i < keys.len()
            invariant
                self.wf(),
                i <= keys.len(),
                keys@.len() == self.data.entries().len(),
                forall|j: int| 0 <= j < keys@.len() ==> #[trigger] keys@[j]@ == self.data.entries()[j].0,
                crate::assoc::distinct_keys(self.data.entries()),
                forall|k: Seq<char>| #[trigger] self.data.map().contains_key(k)
                    <==> exists|j: int| 0 <= j < self.data.entries().len() && self.data.entries()[j].0 == k,
                idx.len() == r@.len(),
                forall|a: int| 0 <= a < r@.len() ==> 0 <= #[trigger] idx[a] < i && r@[a]@ == keys@[idx[a]]@,
                forall|a: int, b: int| 0 <= a < b < r@.len() ==> #[trigger] idx[a] < #[trigger] idx[b],
                forall|a: int| 0 <= a < r@.len() ==> prefix@.is_prefix_of((#[trigger] r@[a])@),
                forall|j: int| 0 <= j < i && prefix@.is_prefix_of(#[trigger] keys@[j]@)
                    ==> exists|a: int| 0 <= a < r@.len() && idx[a] == j,
            decreases keys.len() - i,
        {
            let ghost old_idx = idx;
            let ghost old_len = r@.len();
            if crate::text::starts_with(keys[i].as_str(), prefix) {
                proof {
                    idx = idx.push(i as int);
                }
                r.push(keys[i].clone());
                proof {
                    assert(idx[r@.len() - 1] == i);
                }
            }
            proof {
                assert forall|j: int| 0 <= j < i + 1 && prefix@.is_prefix_of(#[trigger] keys@[j]@)
                    implies exists|a: int| 0 <= a < r@.len() && idx[a] == j by {
                    if j == i {
                        assert(idx[r@.len() - 1] == j);
                    } else {
                        let a = choose|a: int| 0 <= a < old_len && old_idx[a] == j;
                        assert(idx[a] == old_idx[a]);
                    }
                }
            }
            i = i + 1;
        }
        proof {
            assert forall|a: int| 0 <= a < r@.len() implies self.data_spec().contains_key((#[trigger] r@[a])@)
                && prefix@.is_prefix_of(r@[a]@) by {
                let j = idx[a];
                assert(self.data.entries()[j].0 == r@[a]@);
                assert(self.data.map().contains_key(r@[a]@));
            }
            assert forall|k: Seq<char>| self.data_spec().contains_key(k) && prefix@.is_prefix_of(k)
                implies exists|a: int| 0 <= a < r@.len() && (#[trigger] r@[a])@ == k by {
                assert(self.data.map().contains_key(k));
                let j = choose|j: int| 0 <= j < self.data.entries().len() && self.data.entries()[j].0 == k;
                assert(keys@[j]@ == k);
                let a = choose|a: int| 0 <= a < r@.len() && idx[a] == j;
                assert(r@[a]@ == k);
            }
            assert forall|a: int, b: int| 0 <= a < b < r@.len() implies (#[trigger] r@[a])@ != (#[trigger] r@[b])@ by {
                assert(idx[a] < idx[b]);
                assert(self.data.entries()[idx[a]].0 != self.data.entries()[idx[b]].0);
            }
        }
        r
    }
}

} // verus!
