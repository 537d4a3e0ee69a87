//! A least-recently-used cache of vector chunks, with hit, miss and
//! eviction counters.
//!
//! The cache itself is `lru::LruCache`. Its contents are named by
//! `lru_entries`: the key-chunk pairs from the most recently used to the
//! least recently used.
use vstd::prelude::*;
use std::num::NonZeroUsize;
use lru::LruCache;
use crate::assoc::distinct_keys;
use crate::chunk::VectorChunk;

verus! {

/// Declares `lru::LruCache`; its contents are seen only through
/// `lru_entries` and `lru_capacity`.
#[verifier::external_type_specification]
#[verifier::external_body]
#[verifier::reject_recursive_types(K)]
#[verifier::reject_recursive_types(V)]
#[verifier::reject_recursive_types(S)]
pub struct ExLruCache<K, V, S>(LruCache<K, V, S>);

/// The entries of a chunk cache, from the most recently used to the least
/// recently used, each key by its characters.
pub uninterp spec fn lru_entries(cache: LruCache<String, VectorChunk>) -> Seq<(Seq<char>, VectorChunk)>;

/// The capacity a chunk cache was made with.
pub uninterp spec fn lru_capacity(cache: LruCache<String, VectorChunk>) -> nat;

/// Cache entries, most recent first.
pub type Entries = Seq<(Seq<char>, VectorChunk)>;

/// Some entry has the key.
pub open spec fn has_key(s: Entries, k: Seq<char>) -> bool {
    exists|i: int| 0 <= i < s.len() && (#[trigger] s[i]).0 == k
}

/// The position of the key; meaningful where `has_key` holds.
pub open spec fn key_index(s: Entries, k: Seq<char>) -> int {
    choose|i: int| 0 <= i < s.len() && (#[trigger] s[i]).0 == k
}

/// The entries after a put: the pair goes first; an entry of the same key
/// leaves, and otherwise, with the cache full, the least recently used one.
pub open spec fn after_put(s: Entries, cap: nat, k: Seq<char>, v: VectorChunk) -> Entries {
    if has_key(s, k) {
        seq![(k, v)] + s.remove(key_index(s, k))
    } else if s.len() == cap {
        seq![(k, v)] + s.drop_last()
    } else {
        seq![(k, v)] + s
    }
}

/// The entries after a lookup: a found entry moves to the front.
pub open spec fn after_get(s: Entries, k: Seq<char>) -> Entries {
    if has_key(s, k) {
        seq![s[key_index(s, k)]] + s.remove(key_index(s, k))
    } else {
        s
    }
}

/// What the source of `lru` keeps of every cache: keys do not repeat and
/// there are no more entries than the capacity, which is positive.
pub open spec fn lru_valid(c: LruCache<String, VectorChunk>) -> bool {
    &&& distinct_keys(lru_entries(c))
    &&& lru_entries(c).len() <= lru_capacity(c)
    &&& lru_capacity(c) > 0
}

/// `LruCache::new`: an empty cache of the capacity.
#[verifier::external_body]
fn lru_new(capacity: usize) -> (r: LruCache<String, VectorChunk>)
    requires
        capacity > 0,
    ensures
        lru_entries(r) == Seq::<(Seq<char>, VectorChunk)>::empty(),
        lru_capacity(r) == capacity,
{
    LruCache::new(NonZeroUsize::new(capacity).expect("Cache capacity must be greater than 0"))
}

/// `LruCache::put`: the pair becomes the most recently used entry; it
/// replaces the entry of the same key, whose value comes back, or else,
/// with the cache full, the least recently used entry leaves.
#[verifier::external_body]
fn lru_put(cache: &mut LruCache<String, VectorChunk>, key: String, chunk: VectorChunk) -> (r: Option<VectorChunk>)
    requires
        lru_valid(*old(cache)),
    ensures
        lru_valid(*final(cache)),
        lru_capacity(*final(cache)) == lru_capacity(*old(cache)),
        lru_entries(*final(cache)) == after_put(lru_entries(*old(cache)), lru_capacity(*old(cache)), key@, chunk),
        match r {
            Some(v) => has_key(lru_entries(*old(cache)), key@)
                && v == lru_entries(*old(cache))[key_index(lru_entries(*old(cache)), key@)].1,
            None => !has_key(lru_entries(*old(cache)), key@),
        },
{
    cache.put(key, chunk)
}

/// `LruCache::get`: the chunk of the key, which becomes the most recently
/// used entry.
#[verifier::external_body]
fn lru_get<'a>(cache: &'a mut LruCache<String, VectorChunk>, key: &str) -> (r: Option<&'a VectorChunk>)
    requires
        lru_valid(*old(cache)),
    ensures
        lru_valid(*final(cache)),
        lru_capacity(*final(cache)) == lru_capacity(*old(cache)),
        lru_entries(*final(cache)) == after_get(lru_entries(*old(cache)), key@),
        match r {
            Some(v) => has_key(lru_entries(*old(cache)), key@)
                && *v == lru_entries(*old(cache))[key_index(lru_entries(*old(cache)), key@)].1,
            None => !has_key(lru_entries(*old(cache)), key@),
        },
{
    cache.get(key)
}

/// `LruCache::contains`: whether the key has an entry; the order stays.
#[verifier::external_body]
fn lru_contains(cache: &LruCache<String, VectorChunk>, key: &str) -> (r: bool)
    ensures
        r == has_key(lru_entries(*cache), key@),
{
    cache.contains(key)
}

/// `LruCache::len`: the number of entries.
#[verifier::external_body]
fn lru_len(cache: &LruCache<String, VectorChunk>) -> (r: usize)
    ensures
        r == lru_entries(*cache).len(),
{
    cache.len()
}

/// `LruCache::clear`: no entry is left; the capacity stays.
#[verifier::external_body]
fn lru_clear(cache: &mut LruCache<String, VectorChunk>)
    requires
        lru_valid(*old(cache)),
    ensures
        lru_valid(*final(cache)),
        lru_entries(*final(cache)) == Seq::<(Seq<char>, VectorChunk)>::empty(),
        lru_capacity(*final(cache)) == lru_capacity(*old(cache)),
{
    cache.clear()
}

/// `LruCache::clone`: a new cache of the same capacity into which the
/// entries are pushed from the least recently used to the most, each key
/// and chunk cloned; so the keys come in the same order. Nothing is claimed
/// of the cloned chunks.
#[verifier::external_body]
fn lru_clone(cache: &LruCache<String, VectorChunk>) -> (r: LruCache<String, VectorChunk>)
    ensures
        lru_capacity(r) == lru_capacity(*cache),
        lru_entries(r).len() == lru_entries(*cache).len(),
        forall|i: int| 0 <= i < lru_entries(r).len() ==> (#[trigger] lru_entries(r)[i]).0 == lru_entries(*cache)[i].0,
{
    cache.clone()
}

/// With keys distinct, the position of a present key is its only position.
proof fn lemma_key_index(s: Entries, k: Seq<char>, i: int)
    requires
        distinct_keys(s),
        0 <= i < s.len(),
        s[i].0 == k,
    ensures
        has_key(s, k),
        key_index(s, k) == i,
{
    assert(has_key(s, k));
    let j = key_index(s, k);
    if j != i {
        if j < i {
            assert(s[j].0 != s[i].0);
        } else {
            assert(s[i].0 != s[j].0);
        }
    }
}

/// A put keeps keys distinct and the entries within the capacity.
pub proof fn law_put_keeps_bounds(s: Entries, cap: nat, k: Seq<char>, v: VectorChunk)
    requires
        distinct_keys(s),
        s.len() <= cap,
        cap > 0,
    ensures
        distinct_keys(after_put(s, cap, k, v)),
        after_put(s, cap, k, v).len() <= cap,
{
    let r = after_put(s, cap, k, v);
    if has_key(s, k) {
        let p = key_index(s, k);
        let rest = s.remove(p);
        assert forall|i: int| 0 <= i < rest.len() implies #[trigger] rest[i].0 != k by {
            if i < p {
                assert(s[i].0 != s[p].0);
            } else {
                assert(s[p].0 != s[i + 1].0);
            }
        }
        assert forall|i: int, j: int| 0 <= i < j < r.len() implies #[trigger] r[i].0 != #[trigger] r[j].0 by {
            if i > 0 {
                assert(r[i] == rest[i - 1] && r[j] == rest[j - 1]);
                let a = if i - 1 < p { i - 1 } else { i };
                let b = if j - 1 < p { j - 1 } else { j };
                assert(rest[i - 1] == s[a] && rest[j - 1] == s[b]);
            } else {
                assert(r[j] == rest[j - 1]);
            }
        }
    } else {
        let rest = if s.len() == cap { s.drop_last() } else { s };
        assert forall|i: int, j: int| 0 <= i < j < r.len() implies #[trigger] r[i].0 != #[trigger] r[j].0 by {
            assert(r[j] == rest[j - 1] && rest[j - 1] == s[j - 1]);
            if i > 0 {
                assert(r[i] == rest[i - 1] && rest[i - 1] == s[i - 1]);
            }
        }
    }
}

/// Read after write: right after a put, the key is the most recently used
/// entry and holds the chunk that was put.
pub proof fn law_get_after_put(s: Entries, cap: nat, k: Seq<char>, v: VectorChunk)
    requires
        distinct_keys(s),
        s.len() <= cap,
        cap > 0,
    ensures
        has_key(after_put(s, cap, k, v), k),
        key_index(after_put(s, cap, k, v), k) == 0,
        after_put(s, cap, k, v)[0] == (k, v),
        after_get(after_put(s, cap, k, v), k) == after_put(s, cap, k, v),
{
    law_put_keeps_bounds(s, cap, k, v);
    let r = after_put(s, cap, k, v);
    lemma_key_index(r, k, 0);
    assert(r.remove(0) =~= r.subrange(1, r.len() as int));
    assert(seq![r[0]] + r.remove(0) =~= r);
}

/// A lookup only reorders: the same number of entries, the same keys, and
/// the found entry first.
pub proof fn law_get_reorders(s: Entries, k: Seq<char>)
    requires
        distinct_keys(s),
    ensures
        after_get(s, k).len() == s.len(),
        distinct_keys(after_get(s, k)),
        forall|q: Seq<char>| has_key(after_get(s, k), q) == has_key(s, q),
        has_key(s, k) ==> after_get(s, k)[0] == s[key_index(s, k)],
{
    if has_key(s, k) {
        let p = key_index(s, k);
        let r = after_get(s, k);
        let rest = s.remove(p);
        assert forall|i: int| 0 <= i < r.len() implies #[trigger] r[i] == s[if i == 0 { p } else if i - 1 < p { i - 1 } else { i }] by {
            if i > 0 {
                assert(r[i] == rest[i - 1]);
            }
        }
        assert forall|i: int, j: int| 0 <= i < j < r.len() implies #[trigger] r[i].0 != #[trigger] r[j].0 by {
            let a = if i == 0 { p } else if i - 1 < p { i - 1 } else { i };
            let b = if j == 0 { p } else if j - 1 < p { j - 1 } else { j };
            assert(r[i] == s[a] && r[j] == s[b]);
            assert(a != b);
            if a < b {
                assert(s[a].0 != s[b].0);
            } else {
                assert(s[b].0 != s[a].0);
            }
        }
        assert forall|q: Seq<char>| has_key(r, q) == has_key(s, q) by {
            if has_key(s, q) {
                let j = choose|j: int| 0 <= j < s.len() && (#[trigger] s[j]).0 == q;
                let i = if j == p { 0 } else if j < p { j + 1 } else { j };
                assert(r[i] == s[if i == 0 { p } else if i - 1 < p { i - 1 } else { i }]);
                assert(r[i].0 == q);
            }
            if has_key(r, q) {
                let i = choose|i: int| 0 <= i < r.len() && (#[trigger] r[i]).0 == q;
                let a = if i == 0 { p } else if i - 1 < p { i - 1 } else { i };
                assert(r[i] == s[a]);
            }
        }
    }
}

/// Least recently used goes first: a key just looked up stays when a new
/// key is put into a full cache of capacity two or more.
pub proof fn law_recently_used_stays(s: Entries, cap: nat, k: Seq<char>, k2: Seq<char>, v: VectorChunk)
    requires
        distinct_keys(s),
        s.len() <= cap,
        cap >= 2,
        has_key(s, k),
        k2 != k,
    ensures
        has_key(after_put(after_get(s, k), cap, k2, v), k),
{
    law_get_reorders(s, k);
    let g = after_get(s, k);
    let r = after_put(g, cap, k2, v);
    assert(g[0].0 == k);
    if has_key(g, k2) {
        let p = key_index(g, k2);
        assert(p != 0);
        assert(r[1] == g.remove(p)[0]);
        assert(r[1].0 == k);
    } else {
        assert(r[1] == g[0]);
    }
    assert(r[1].0 == k);
}

/// Counters of cache use.
#[derive(Debug, Clone, Copy)]
pub struct CacheMetrics {
    pub hits: u64,
    pub misses: u64,
    pub evictions: u64,
}

impl CacheMetrics {
    /// All counters at zero.
    pub fn new() -> (r: Self)
        ensures
            r.hits == 0,
            r.misses == 0,
            r.evictions == 0,
    {
        CacheMetrics { hits: 0, misses: 0, evictions: 0 }
    }

    /// Hits and misses together.
    pub fn total_requests(&self) -> (r: u64)
        requires
            self.hits + self.misses <= u64::MAX,
        ensures
            r == self.hits + self.misses,
    {
        self.hits + self.misses
    }

    /// Sets all counters to zero.
    pub fn reset(&mut self)
        ensures
            final(self).hits == 0,
            final(self).misses == 0,
            final(self).evictions == 0,
    {
        self.hits = 0;
        self.misses = 0;
        self.evictions = 0;
    }
}

impl Default for CacheMetrics {
    fn default() -> (r: Self)
        ensures
            r.hits == 0,
            r.misses == 0,
            r.evictions == 0,
    {
        CacheMetrics::new()
    }
}

/// A least-recently-used cache of chunks by key, of a fixed capacity.
#[derive(Debug)]
pub struct ChunkCache {
    cache: LruCache<String, VectorChunk>,
    metrics: CacheMetrics,
    capacity: usize,
}

impl ChunkCache {
    /// The cached entries, from the most recently used to the least.
    pub closed spec fn entries(&self) -> Entries {
        lru_entries(self.cache)
    }

    /// The counters.
    pub closed spec fn metrics_spec(&self) -> CacheMetrics {
        self.metrics
    }

    /// The capacity.
    pub closed spec fn capacity_spec(&self) -> nat {
        self.capacity as nat
    }

    /// The capacity is positive and is that of the underlying cache, which
    /// holds no more entries than it and no key twice.
    pub closed spec fn wf(&self) -> bool {
        &&& lru_valid(self.cache)
        &&& lru_capacity(self.cache) == self.capacity
    }

    /// An empty cache of the capacity, with zero counters. A zero capacity
    /// is refused by the caller (the cache cannot hold anything).
    pub fn new(capacity: usize) -> (r: Self)
        requires
            capacity > 0,
        ensures
            r.wf(),
            r.entries() == Seq::<(Seq<char>, VectorChunk)>::empty(),
            r.capacity_spec() == capacity,
            r.metrics_spec().hits == 0,
            r.metrics_spec().misses == 0,
            r.metrics_spec().evictions == 0,
    {
        ChunkCache { cache: lru_new(capacity), metrics: CacheMetrics::new(), capacity }
    }

    /// Inserts or replaces the chunk of the key, which becomes the most
    /// recently used; with the cache full and the key new, the least
    /// recently used entry is evicted and counted.
    pub fn put(&mut self, key: String, chunk: VectorChunk)
        requires
            old(self).wf(),
            old(self).metrics_spec().evictions < u64::MAX,
        ensures
            final(self).wf(),
            final(self).capacity_spec() == old(self).capacity_spec(),
            final(self).entries() == after_put(old(self).entries(), old(self).capacity_spec(), key@, chunk),
            final(self).metrics_spec().hits == old(self).metrics_spec().hits,
            final(self).metrics_spec().misses == old(self).metrics_spec().misses,
            final(self).metrics_spec().evictions == old(self).metrics_spec().evictions
                + if old(self).entries().len() == old(self).capacity_spec() && !has_key(old(self).entries(), key@) { 1int } else { 0int },
    {
        let n = lru_len(&self.cache);
        if n == self.capacity && !lru_contains(&self.cache, key.as_str()) {
            self.metrics.evictions = self.metrics.evictions + 1;
        }
        let _ = lru_put(&mut self.cache, key, chunk);
    }

    /// A copy of the chunk of the key, which becomes the most recently used;
    /// counts a hit or a miss.
    pub fn get(&mut self, key: &str) -> (r: Option<VectorChunk>)
        requires
            old(self).wf(),
            old(self).metrics_spec().hits < u64::MAX,
            old(self).metrics_spec().misses < u64::MAX,
        ensures
            final(self).wf(),
            final(self).capacity_spec() == old(self).capacity_spec(),
            final(self).entries() == after_get(old(self).entries(), key@),
            final(self).metrics_spec().evictions == old(self).metrics_spec().evictions,
            match r {
                Some(c) => has_key(old(self).entries(), key@)
                    && c@ == old(self).entries()[key_index(old(self).entries(), key@)].1@
                    && final(self).metrics_spec().hits == old(self).metrics_spec().hits + 1
                    && final(self).metrics_spec().misses == old(self).metrics_spec().misses,
                None => !has_key(old(self).entries(), key@)
                    && final(self).metrics_spec().hits == old(self).metrics_spec().hits
                    && final(self).metrics_spec().misses == old(self).metrics_spec().misses + 1,
            },
    {
        match lru_get(&mut self.cache, key) {
            Some(c) => {
                let copy = c.clone();
                self.metrics.hits = self.metrics.hits + 1;
                Some(copy)
            },
            None => {
                self.metrics.misses = self.metrics.misses + 1;
                None
            },
        }
    }

    /// Whether the key has an entry; the order of use stays.
    pub fn contains(&self, key: &str) -> (r: bool)
        ensures
            r == has_key(self.entries(), key@),
    {
        lru_contains(&self.cache, key)
    }

    /// Removes every entry; the counters and the capacity stay.
    pub fn clear(&mut self)
        requires
            old(self).wf(),
        ensures
            final(self).wf(),
            final(self).entries() == Seq::<(Seq<char>, VectorChunk)>::empty(),
            final(self).capacity_spec() == old(self).capacity_spec(),
            final(self).metrics_spec() == old(self).metrics_spec(),
    {
        lru_clear(&mut self.cache);
    }

    /// The number of entries.
    pub fn len(&self) -> (r: usize)
        ensures
            r == self.entries().len(),
    {
        lru_len(&self.cache)
    }

    /// Whether there is no entry.
    pub fn is_empty(&self) -> (r: bool)
        ensures
            r == (self.entries().len() == 0),
    {
        self.len() == 0
    }

    /// The capacity.
    pub fn capacity(&self) -> (r: usize)
        ensures
            r == self.capacity_spec(),
    {
        self.capacity
    }

    /// A copy of the counters.
    pub fn get_metrics(&self) -> (r: CacheMetrics)
        ensures
            r == self.metrics_spec(),
    {
        self.metrics
    }

    /// Sets the counters to zero; the entries stay.
    pub fn reset_metrics(&mut self)
        requires
            old(self).wf(),
        ensures
            final(self).wf(),
            final(self).entries() == old(self).entries(),
            final(self).capacity_spec() == old(self).capacity_spec(),
            final(self).metrics_spec().hits == 0,
            final(self).metrics_spec().misses == 0,
            final(self).metrics_spec().evictions == 0,
    {
        self.metrics.reset();
    }
}

impl Clone for ChunkCache {
    /// A copy of the cache: the same capacity and counters, and the same
    /// keys in the same order of use, each with a clone of its chunk. The
    /// copy is a cache of its own; a handle that shares one cache is the
    /// application's to make.
    fn clone(&self) -> (r: Self)
        ensures
            self.wf() ==> r.wf(),
            r.capacity_spec() == self.capacity_spec(),
            r.metrics_spec() == self.metrics_spec(),
            r.entries().len() == self.entries().len(),
            forall|i: int| 0 <= i < r.entries().len() ==> (#[trigger] r.entries()[i]).0 == self.entries()[i].0,
    {
        let r = ChunkCache { cache: lru_clone(&self.cache), metrics: self.metrics, capacity: self.capacity };
        proof {
            let a = lru_entries(self.cache);
            let b = lru_entries(r.cache);
            if self.wf() {
                assert forall|i: int, j: int| 0 <= i < j < b.len() implies #[trigger] b[i].0 != #[trigger] b[j].0 by {
                    assert(b[i].0 == a[i].0 && b[j].0 == a[j].0);
                }
            }
        }
        r
    }
}

} // verus!
