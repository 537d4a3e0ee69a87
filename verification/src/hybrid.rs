//! The hybrid index: recent vectors go to an HNSW index and older ones to an
//! IVF index, by the age of their timestamps. This module holds its
//! configuration and the bookkeeping that decides where each vector lives:
//! the timestamps, the counts of each tier, migration candidates and the
//! age distribution.
//!
//! Timestamps are nanoseconds since the Unix epoch; the caller reads the
//! clock.
use vstd::prelude::*;
use std::time::Duration;
use crate::time::duration_nanos;
use crate::types::VectorId;
use crate::hnsw::HNSWConfig;
use crate::ivf::IVFConfig;
use crate::assoc::{distinct_keys, pairs_map, lemma_pairs_map, lemma_pairs_map_push, lemma_pairs_map_lookup};
use crate::json::JsonValue;
use crate::metadata_filter::{FilterModel, MetadataFilter, filter_matches};
use crate::str_map::StrMap;

verus! {

/// Errors of the hybrid index.
#[derive(Debug)]
pub enum HybridError {
    HNSW(String),
    IVF(String),
    InvalidConfig(String),
    NotInitialized,
    DimensionMismatch { expected: usize, actual: usize },
    DuplicateVector(VectorId),
}

/// Settings of the hybrid index.
#[derive(Debug, Clone, Copy)]
pub struct HybridConfig {
    /// Vectors younger than this are recent.
    pub recent_threshold: Duration,
    pub hnsw_config: HNSWConfig,
    pub ivf_config: IVFConfig,
    pub migration_batch_size: usize,
    pub auto_migrate: bool,
}

/// Seconds in an hour, a day and a week.
pub const HOUR_SECS: u64 = 3600;
pub const DAY_SECS: u64 = 86400;
pub const WEEK_SECS: u64 = 604800;

impl Default for HybridConfig {
    /// A week's threshold, the default HNSW settings, a small IVF index
    /// (three clusters, two probed, nine training vectors), batches of a
    /// hundred, and automatic migration.
    fn default() -> (r: Self)
        ensures
            duration_nanos(r.recent_threshold) == WEEK_SECS * 1_000_000_000,
            r.hnsw_config.max_connections == 16,
            r.hnsw_config.max_connections_layer_0 == 32,
            r.hnsw_config.ef_construction == 200,
            r.hnsw_config.seed is None,
            r.ivf_config.n_clusters == 3,
            r.ivf_config.n_probe == 2,
            r.ivf_config.train_size == 9,
            r.ivf_config.max_iterations == 25,
            r.ivf_config.seed is None,
            r.migration_batch_size == 100,
            r.auto_migrate,
    {
        let mut ivf_config = IVFConfig::default();
        ivf_config.train_size = 9;
        ivf_config.n_clusters = 3;
        ivf_config.n_probe = 2;
        HybridConfig {
            recent_threshold: Duration::from_secs(WEEK_SECS),
            hnsw_config: HNSWConfig::default(),
            ivf_config,
            migration_batch_size: 100,
            auto_migrate: true,
        }
    }
}

impl HybridConfig {
    /// The threshold is at least a second and batches are not empty.
    pub fn is_valid(&self) -> (r: bool)
        ensures
            r == (duration_nanos(self.recent_threshold) >= 1_000_000_000 && self.migration_batch_size > 0),
    {
        self.recent_threshold.as_secs() > 0 && self.migration_batch_size > 0
    }
}

/// Errors of saving and loading the hybrid index.
#[allow(inconsistent_fields)]
#[derive(Debug)]
pub enum PersistenceError {
    Storage(String),
    Serialization(String),
    Deserialization(String),
    IncompatibleVersion { expected: u32, found: u32 },
    InvalidData(String),
    HNSWError(String),
    IVFError(String),
    MissingComponent(String),
}

/// The outcome of a migration.
pub struct MigrationResult {
    pub vectors_migrated: usize,
}

/// The outcome of a batch of deletes.
pub struct DeleteStats {
    pub successful: usize,
    pub failed: usize,
    pub errors: Vec<(VectorId, String)>,
}

/// What a vacuum removed.
pub struct VacuumStats {
    pub hnsw_removed: usize,
    pub ivf_removed: usize,
    pub total_removed: usize,
}

/// Settings of one search.
#[derive(Debug, Clone, Copy)]
pub struct HybridSearchConfig {
    pub search_recent: bool,
    pub search_historical: bool,
    /// Results taken from the recent index; `k` when zero.
    pub recent_k: usize,
    /// Results taken from the historical index; `k` when zero.
    pub historical_k: usize,
    pub recent_threshold_override: Option<Duration>,
    pub k: usize,
    pub hnsw_ef: usize,
    pub ivf_n_probe: usize,
}

impl Default for HybridSearchConfig {
    /// Both indexes, ten results, a candidate list of fifty, ten probes.
    fn default() -> (r: Self)
        ensures
            r.search_recent,
            r.search_historical,
            r.recent_k == 0,
            r.historical_k == 0,
            r.recent_threshold_override is None,
            r.k == 10,
            r.hnsw_ef == 50,
            r.ivf_n_probe == 10,
    {
        HybridSearchConfig {
            search_recent: true,
            search_historical: true,
            recent_k: 0,
            historical_k: 0,
            recent_threshold_override: None,
            k: 10,
            hnsw_ef: 50,
            ivf_n_probe: 10,
        }
    }
}

impl HybridSearchConfig {
    /// How many results to take from the recent and the historical index.
    pub fn tier_ks(&self) -> (r: (usize, usize))
        ensures
            r.0 == if self.recent_k > 0 { self.recent_k } else { self.k },
            r.1 == if self.historical_k > 0 { self.historical_k } else { self.k },
    {
        let recent_k = if self.recent_k > 0 { self.recent_k } else { self.k };
        let historical_k = if self.historical_k > 0 { self.historical_k } else { self.k };
        (recent_k, historical_k)
    }
}

// ---------------------------------------------------------------------------
// Ages
// ---------------------------------------------------------------------------

/// The age of a timestamp at `now`, zero for one in the future.
pub open spec fn age_nanos(now: i128, ts: i128) -> nat {
    if now >= ts { (now - ts) as nat } else { 0 }
}

/// A vector of this timestamp is recent at `now`.
pub open spec fn is_recent(now: i128, ts: i128, threshold: nat) -> bool {
    age_nanos(now, ts) < threshold
}

/// The age of a timestamp at `now`, in nanoseconds.
pub fn age_of(now: i128, ts: i128) -> (r: u128)
    ensures
        r == age_nanos(now, ts),
{
    if now < ts {
        0
    } else if ts >= 0 || now < 0 {
        (now - ts) as u128
    } else {
        let a = now as u128;
        let b = (-(ts + 1)) as u128;
        a + b + 1
    }
}

/// Where a vector lives.
#[derive(Debug, Clone, Copy, PartialEq, Eq, Structural)]
pub enum Tier {
    Recent,
    Historical,
}

/// The tier of a vector of this timestamp at `now`.
pub open spec fn tier_at(now: i128, ts: i128, threshold: nat) -> Tier {
    if is_recent(now, ts, threshold) { Tier::Recent } else { Tier::Historical }
}

/// The bucket of an age: under an hour, a day, a week, or older.
pub open spec fn age_bucket(age: nat) -> int {
    if age < HOUR_SECS * 1_000_000_000 {
        0
    } else if age < DAY_SECS * 1_000_000_000 {
        1
    } else if age < WEEK_SECS * 1_000_000_000 {
        2
    } else {
        3
    }
}

/// How many of the timestamps fall into the bucket at `now`.
pub open spec fn bucket_count(ts: Seq<i128>, now: i128, b: int) -> nat
    decreases ts.len(),
{
    if ts.len() == 0 {
        0
    } else {
        bucket_count(ts.drop_last(), now, b) + if age_bucket(age_nanos(now, ts.last())) == b { 1nat } else { 0nat }
    }
}

/// The latest timestamp; meaningful for a non-empty sequence.
pub open spec fn latest(ts: Seq<i128>) -> i128
    decreases ts.len(),
{
    if ts.len() <= 1 {
        ts[0]
    } else if ts.last() > latest(ts.drop_last()) {
        ts.last()
    } else {
        latest(ts.drop_last())
    }
}

/// The earliest timestamp; meaningful for a non-empty sequence.
pub open spec fn earliest(ts: Seq<i128>) -> i128
    decreases ts.len(),
{
    if ts.len() <= 1 {
        ts[0]
    } else if ts.last() < earliest(ts.drop_last()) {
        ts.last()
    } else {
        earliest(ts.drop_last())
    }
}

/// Every timestamp falls into exactly one bucket.
pub proof fn law_buckets_partition(ts: Seq<i128>, now: i128)
    ensures
        bucket_count(ts, now, 0) + bucket_count(ts, now, 1) + bucket_count(ts, now, 2) + bucket_count(ts, now, 3) == ts.len(),
    decreases ts.len(),
{
    if ts.len() > 0 {
        law_buckets_partition(ts.drop_last(), now);
    }
}

/// The latest and earliest timestamps bound all the others.
pub proof fn law_latest_earliest(ts: Seq<i128>)
    requires
        ts.len() > 0,
    ensures
        ts.contains(latest(ts)),
        ts.contains(earliest(ts)),
        forall|i: int| 0 <= i < ts.len() ==> earliest(ts) <= #[trigger] ts[i] <= latest(ts),
    decreases ts.len(),
{
    if ts.len() == 1 {
        assert(ts[0] == ts[0]);
    } else {
        let p = ts.drop_last();
        law_latest_earliest(p);
        assert forall|i: int| 0 <= i < ts.len() implies earliest(ts) <= #[trigger] ts[i] <= latest(ts) by {
            if i < ts.len() - 1 {
                assert(ts[i] == p[i]);
            }
        }
        if latest(ts) == latest(p) {
            let j = choose|j: int| 0 <= j < p.len() && p[j] == latest(p);
            assert(ts[j] == p[j]);
        } else {
            assert(ts[ts.len() - 1] == latest(ts));
        }
        if earliest(ts) == earliest(p) {
            let j = choose|j: int| 0 <= j < p.len() && p[j] == earliest(p);
            assert(ts[j] == p[j]);
        } else {
            assert(ts[ts.len() - 1] == earliest(ts));
        }
    }
}

/// How the timestamps of an index spread over ages.
pub struct AgeDistribution {
    pub under_1_hour: usize,
    pub under_1_day: usize,
    pub under_1_week: usize,
    pub over_1_week: usize,
    pub total_vectors: usize,
    /// The four counts, by label.
    pub buckets: Vec<(String, usize)>,
    /// The latest timestamp (`now` when there is none).
    pub newest_timestamp: i128,
    /// The earliest timestamp (`now` when there is none).
    pub oldest_timestamp: i128,
}

// ---------------------------------------------------------------------------
// The tracker
// ---------------------------------------------------------------------------

/// The timestamps and tier counts of a hybrid index.
pub struct HybridTracker {
    recent_threshold: Duration,
    timestamps: Vec<(VectorId, i128)>,
    initialized: bool,
    recent_count: usize,
    historical_count: usize,
}

/// The timestamps of the entries, in order.
pub open spec fn times_of(e: Seq<(VectorId, i128)>) -> Seq<i128> {
    e.map_values(|p: (VectorId, i128)| p.1)
}

/// The identifiers of the entries of at least the given age, in order.
pub open spec fn aged_ids(e: Seq<(VectorId, i128)>, now: i128, threshold: nat) -> Seq<VectorId>
    decreases e.len(),
{
    if e.len() == 0 {
        Seq::empty()
    } else {
        let rest = aged_ids(e.drop_last(), now, threshold);
        if age_nanos(now, e.last().1) >= threshold { rest.push(e.last().0) } else { rest }
    }
}

/// A vector is routed to the recent tier exactly when its age at `now`
/// (zero for a timestamp in the future) is under the threshold, and to the
/// historical tier otherwise.
pub proof fn law_tier_by_age(now: i128, ts: i128, threshold: nat)
    ensures
        tier_at(now, ts, threshold) == Tier::Recent <==> (if now >= ts { now - ts } else { 0 }) < threshold,
        tier_at(now, ts, threshold) == Tier::Historical <==> (if now >= ts { now - ts } else { 0 }) >= threshold,
        ts > now && threshold > 0 ==> tier_at(now, ts, threshold) == Tier::Recent,
{
}

/// The timestamp lies at least `threshold` nanoseconds before `now`.
pub open spec fn at_least_before(now: i128, ts: i128, threshold: nat) -> bool {
    threshold == 0 || (ts <= now && now - ts >= threshold)
}

/// Some entry of the identifier has a timestamp at least `threshold`
/// before `now`.
pub open spec fn taken_from(e: Seq<(VectorId, i128)>, id: VectorId, now: i128, threshold: nat) -> bool {
    exists|i: int| 0 <= i < e.len() && (#[trigger] e[i]).0 == id && at_least_before(now, e[i].1, threshold)
}

/// The vectors a migration takes are exactly those whose timestamp lies at
/// least the threshold before `now` (every one when the threshold is zero),
/// in the order they were recorded.
pub proof fn law_aged_ids(e: Seq<(VectorId, i128)>, now: i128, threshold: nat)
    ensures
        aged_ids(e, now, threshold).len() <= e.len(),
        forall|t: int| 0 <= t < aged_ids(e, now, threshold).len()
            ==> #[trigger] taken_from(e, aged_ids(e, now, threshold)[t], now, threshold),
        forall|i: int| 0 <= i < e.len() && at_least_before(now, (#[trigger] e[i]).1, threshold)
            ==> aged_ids(e, now, threshold).contains(e[i].0),
    decreases e.len(),
{
    if e.len() > 0 {
        let init = e.drop_last();
        law_aged_ids(init, now, threshold);
        let prev = aged_ids(init, now, threshold);
        let r = aged_ids(e, now, threshold);
        assert forall|t: int| 0 <= t < r.len() implies #[trigger] taken_from(e, r[t], now, threshold) by {
            if t < prev.len() {
                assert(r[t] == prev[t]);
                assert(taken_from(init, prev[t], now, threshold));
                let i = choose|i: int| 0 <= i < init.len() && (#[trigger] init[i]).0 == prev[t]
                    && at_least_before(now, init[i].1, threshold);
                assert(e[i] == init[i]);
            } else {
                let i = e.len() - 1;
                assert(e[i] == e.last());
                assert(age_nanos(now, e.last().1) >= threshold);
                assert(r == prev.push(e.last().0));
                assert(r[t] == e[i].0);
                assert(at_least_before(now, e[i].1, threshold));
            }
        }
        assert(r == aged_ids(e, now, threshold));

        assert forall|i: int| 0 <= i < e.len() && at_least_before(now, (#[trigger] e[i]).1, threshold)
            implies r.contains(e[i].0) by {
            if i < e.len() - 1 {
                assert(init[i] == e[i]);
                let t = choose|t: int| 0 <= t < prev.len() && prev[t] == init[i].0;
                assert(r[t] == prev[t]);
            } else {
                assert(e.last() == e[i]);
                assert(r[prev.len() as int] == e[i].0);
            }
        }
    } else {
        assert(aged_ids(e, now, threshold).len() == 0);
    }
}

impl HybridTracker {
    /// The identifiers and timestamps, in insertion order.
    pub closed spec fn entries(&self) -> Seq<(VectorId, i128)> {
        self.timestamps@
    }

    /// The timestamp of each vector.
    pub closed spec fn times(&self) -> Map<VectorId, i128> {
        pairs_map(self.timestamps@, self.timestamps@.len() as int)
    }

    /// The recency threshold in nanoseconds.
    pub closed spec fn threshold_spec(&self) -> nat {
        duration_nanos(self.recent_threshold)
    }

    /// Whether the index has been trained.
    pub closed spec fn initialized_spec(&self) -> bool {
        self.initialized
    }

    /// The count of recent vectors.
    pub closed spec fn recent_spec(&self) -> nat {
        self.recent_count as nat
    }

    /// The count of historical vectors.
    pub closed spec fn historical_spec(&self) -> nat {
        self.historical_count as nat
    }

    /// No identifier is timestamped twice.
    pub closed spec fn wf(&self) -> bool {
        distinct_keys(self.timestamps@)
    }

    /// A tracker with no vector, not yet initialized.
    pub fn new(recent_threshold: Duration) -> (r: Self)
        ensures
            r.wf(),
            r.entries() == Seq::<(VectorId, i128)>::empty(),
            r.times() == Map::<VectorId, i128>::empty(),
            r.threshold_spec() == duration_nanos(recent_threshold),
            !r.initialized_spec(),
            r.recent_spec() == 0,
            r.historical_spec() == 0,
    {
        let r = HybridTracker { recent_threshold, timestamps: Vec::new(), initialized: false, recent_count: 0, historical_count: 0 };
        assert(r.times() =~= Map::<VectorId, i128>::empty());
        r
    }

    /// A tracker of an index restored from saved parts: initialized, with
    /// the timestamps and counts given.
    pub fn from_parts(recent_threshold: Duration, timestamps: Vec<(VectorId, i128)>, recent_count: usize,
        historical_count: usize) -> (r: Self)
        requires
            distinct_keys(timestamps@),
        ensures
            r.wf(),
            r.entries() == timestamps@,
            r.threshold_spec() == duration_nanos(recent_threshold),
            r.initialized_spec(),
            r.recent_spec() == recent_count,
            r.historical_spec() == historical_count,
    {
        HybridTracker { recent_threshold, timestamps, initialized: true, recent_count, historical_count }
    }

    /// Marks the index trained.
    pub fn mark_initialized(&mut self)
        ensures
            final(self).initialized_spec(),
            final(self).entries() == old(self).entries(),
            final(self).threshold_spec() == old(self).threshold_spec(),
            final(self).recent_spec() == old(self).recent_spec(),
            final(self).historical_spec() == old(self).historical_spec(),
            old(self).wf() ==> final(self).wf(),
    {
        self.initialized = true;
    }

    /// Whether the index has been trained.
    pub fn is_initialized(&self) -> (r: bool)
        ensures
            r == self.initialized_spec(),
    {
        self.initialized
    }

    /// The position of the identifier.
    fn position(&self, id: &VectorId) -> (r: Option<usize>)
        requires
            self.wf(),
        ensures
            match r {
                Some(i) => i < self.entries().len() && self.entries()[i as int].0 == *id
                    && self.times().contains_key(*id) && self.times()[*id] == self.entries()[i as int].1,
                None => !self.times().contains_key(*id),
            },
    {
        proof {
            lemma_pairs_map_lookup(self.timestamps@, *id);
        }
        let mut i: usize = 0;
        while i < self.timestamps.len()
            invariant
                self.wf(),
                i <= self.timestamps.len(),
                forall|j: int| 0 <= j < i ==> #[trigger] self.timestamps@[j].0 != *id,
            decreases self.timestamps.len() - i,
        {
            if self.timestamps[i].0 == *id {
                assert(self.timestamps@[i as int].0.0@ =~= id.0@);
                assert(self.timestamps@[i as int].0.0 =~= id.0);
                proof {
                    lemma_pairs_map_lookup(self.timestamps@, *id);
                }
                return Some(i);
            }
            i = i + 1;
        }
        None
    }

    /// Where a new vector goes: refused before training and for an
    /// identifier already present; else recent when younger than the
    /// threshold at `now`, historical otherwise.
    pub fn route_new(&self, id: &VectorId, timestamp: i128, now: i128) -> (r: Result<Tier, HybridError>)
        requires
            self.wf(),
        ensures
            !self.initialized_spec() ==> r matches Err(HybridError::NotInitialized),
            self.initialized_spec() && self.times().contains_key(*id) ==> (r matches Err(HybridError::DuplicateVector(x)) && x == *id),
            self.initialized_spec() && !self.times().contains_key(*id) ==> r == Ok::<Tier, HybridError>(
                tier_at(now, timestamp, self.threshold_spec())),
    {
        if !self.initialized {
            return Err(HybridError::NotInitialized);
        }
        if self.position(id).is_some() {
            return Err(HybridError::DuplicateVector(id.clone()));
        }
        if age_of(now, timestamp) < self.recent_threshold.as_nanos() {
            Ok(Tier::Recent)
        } else {
            Ok(Tier::Historical)
        }
    }

    /// Records a vector inserted into the tier.
    pub fn record_insert(&mut self, id: VectorId, timestamp: i128, tier: Tier)
        requires
            old(self).wf(),
            !old(self).times().contains_key(id),
            tier == Tier::Recent ==> old(self).recent_spec() < usize::MAX,
            tier == Tier::Historical ==> old(self).historical_spec() < usize::MAX,
        ensures
            final(self).wf(),
            final(self).entries() == old(self).entries().push((id, timestamp)),
            final(self).times() == old(self).times().insert(id, timestamp),
            final(self).threshold_spec() == old(self).threshold_spec(),
            final(self).initialized_spec() == old(self).initialized_spec(),
            final(self).recent_spec() == old(self).recent_spec() + if tier == Tier::Recent { 1int } else { 0int },
            final(self).historical_spec() == old(self).historical_spec() + if tier == Tier::Historical { 1int } else { 0int },
    {
        let ghost s = self.timestamps@;
        proof {
            lemma_pairs_map(s, s.len() as int);
            assert forall|j: int| 0 <= j < s.len() implies #[trigger] s[j].0 != id by {
                if s[j].0 == id {
                    assert(pairs_map(s, s.len() as int).contains_key(id));
                }
            }
            lemma_pairs_map_push(s, id, timestamp);
        }
        self.timestamps.push((id, timestamp));
        match tier {
            Tier::Recent => { self.recent_count = self.recent_count + 1; },
            Tier::Historical => { self.historical_count = self.historical_count + 1; },
        }
    }

    /// The tier of a known vector at `now`.
    pub fn tier_of(&self, id: &VectorId, now: i128) -> (r: Option<Tier>)
        requires
            self.wf(),
        ensures
            match r {
                Some(t) => self.times().contains_key(*id) && t == tier_at(now, self.times()[*id], self.threshold_spec()),
                None => !self.times().contains_key(*id),
            },
    {
        match self.position(id) {
            Some(i) => {
                if age_of(now, self.timestamps[i].1) < self.recent_threshold.as_nanos() {
                    Some(Tier::Recent)
                } else {
                    Some(Tier::Historical)
                }
            },
            None => None,
        }
    }

    /// Where a delete goes: the tier of a known vector at `now`; an unknown
    /// vector is refused with the IVF error naming it.
    pub fn locate_for_delete(&self, id: &VectorId, now: i128) -> (r: Result<Tier, HybridError>)
        requires
            self.wf(),
        ensures
            self.times().contains_key(*id) ==> r == Ok::<Tier, HybridError>(tier_at(now, self.times()[*id], self.threshold_spec())),
            !self.times().contains_key(*id) ==> (r matches Err(HybridError::IVF(m))
                && m@ == "Vector "@ + id.debug_form() + " not found"@),
    {
        match self.tier_of(id, now) {
            Some(t) => Ok(t),
            None => {
                let mut m = String::from_str("Vector ");
                let d = id.debug_string();
                m.append(d.as_str());
                m.append(" not found");
                Err(HybridError::IVF(m))
            },
        }
    }

    /// The vectors at least `threshold` old at `now`, in insertion order.
    pub fn migration_candidates(&self, threshold: Duration, now: i128) -> (r: Vec<VectorId>)
        ensures
            r@ == aged_ids(self.entries(), now, duration_nanos(threshold)),
    {
        let t = threshold.as_nanos();
        let mut r: Vec<VectorId> = Vec::new();
        let mut i: usize = 0;
        while i < self.timestamps.len()
            invariant
                i <= self.timestamps.len(),
                t == duration_nanos(threshold),
                r@ == aged_ids(self.entries().take(i as int), now, duration_nanos(threshold)),
            decreases self.timestamps.len() - i,
        {
            proof {
                assert(self.entries().take(i + 1).drop_last() =~= self.entries().take(i as int));
            }
            if age_of(now, self.timestamps[i].1) >= t {
                r.push(self.timestamps[i].0.clone());
            }
            i = i + 1;
        }
        assert(self.entries().take(self.timestamps.len() as int) =~= self.entries());
        r
    }

    /// Records `migrated` vectors moved from the recent to the historical
    /// tier; the recent count does not go below zero.
    pub fn record_migrated(&mut self, migrated: usize)
        requires
            old(self).historical_spec() + migrated <= usize::MAX,
        ensures
            final(self).recent_spec() == if old(self).recent_spec() >= migrated { old(self).recent_spec() - migrated } else { 0 },
            final(self).historical_spec() == old(self).historical_spec() + migrated,
            final(self).entries() == old(self).entries(),
            final(self).threshold_spec() == old(self).threshold_spec(),
            final(self).initialized_spec() == old(self).initialized_spec(),
            old(self).wf() ==> final(self).wf(),
    {
        if migrated > 0 {
            self.recent_count = self.recent_count.saturating_sub(migrated);
            self.historical_count = self.historical_count + migrated;
        }
    }

    /// The count of recent vectors.
    pub fn recent_count(&self) -> (r: usize)
        ensures
            r == self.recent_spec(),
    {
        self.recent_count
    }

    /// The count of historical vectors.
    pub fn historical_count(&self) -> (r: usize)
        ensures
            r == self.historical_spec(),
    {
        self.historical_count
    }

    /// Both counts together.
    pub fn total_vectors(&self) -> (r: usize)
        requires
            self.recent_spec() + self.historical_spec() <= usize::MAX,
        ensures
            r == self.recent_spec() + self.historical_spec(),
    {
        self.recent_count + self.historical_count
    }

    /// The timestamps, in insertion order.
    pub fn timestamps(&self) -> (r: &Vec<(VectorId, i128)>)
        ensures
            r@ == self.entries(),
    {
        &self.timestamps
    }

    /// How the timestamps spread over ages at `now`.
    pub fn age_distribution(&self, now: i128) -> (r: AgeDistribution)
        ensures
            ({
                let ts = times_of(self.entries());
                &&& r.under_1_hour == bucket_count(ts, now, 0)
                &&& r.under_1_day == bucket_count(ts, now, 1)
                &&& r.under_1_week == bucket_count(ts, now, 2)
                &&& r.over_1_week == bucket_count(ts, now, 3)
                &&& r.total_vectors == ts.len()
                &&& r.buckets@.len() == 4
                &&& r.buckets@[0].0@ == "< 1 hour"@ && r.buckets@[0].1 == r.under_1_hour
                &&& r.buckets@[1].0@ == "< 1 day"@ && r.buckets@[1].1 == r.under_1_day
                &&& r.buckets@[2].0@ == "< 1 week"@ && r.buckets@[2].1 == r.under_1_week
                &&& r.buckets@[3].0@ == "> 1 week"@ && r.buckets@[3].1 == r.over_1_week
                &&& r.newest_timestamp == if ts.len() == 0 { now } else { latest(ts) }
                &&& r.oldest_timestamp == if ts.len() == 0 { now } else { earliest(ts) }
            }),
    {
        let ghost ts = times_of(self.entries());
        let hour = HOUR_SECS as u128 * 1_000_000_000;
        let day = DAY_SECS as u128 * 1_000_000_000;
        let week = WEEK_SECS as u128 * 1_000_000_000;
        let mut c0: usize = 0;
        let mut c1: usize = 0;
        let mut c2: usize = 0;
        let mut c3: usize = 0;
        let mut newest: i128 = now;
        let mut oldest: i128 = now;
        let mut i: usize = 0;
        while i < self.timestamps.len()
            invariant
                i <= self.timestamps.len(),
                ts == times_of(self.entries()),
                hour == HOUR_SECS * 1_000_000_000,
                day == DAY_SECS * 1_000_000_000,
                week == WEEK_SECS * 1_000_000_000,
                c0 == bucket_count(ts.take(i as int), now, 0),
                c1 == bucket_count(ts.take(i as int), now, 1),
                c2 == bucket_count(ts.take(i as int), now, 2),
                c3 == bucket_count(ts.take(i as int), now, 3),
                c0 + c1 + c2 + c3 == i,
                i > 0 ==> newest == latest(ts.take(i as int)) && oldest == earliest(ts.take(i as int)),
                i == 0 ==> newest == now && oldest == now,
            decreases self.timestamps.len() - i,
        {
            let t = self.timestamps[i].1;
            let age = age_of(now, t);
            proof {
                let p = ts.take(i + 1);
                assert(p.drop_last() =~= ts.take(i as int));
                assert(p.last() == t);
            }
            if age < hour {
                c0 = c0 + 1;
            } else if age < day {
                c1 = c1 + 1;
            } else if age < week {
                c2 = c2 + 1;
            } else {
                c3 = c3 + 1;
            }
            if i == 0 {
                newest = t;
                oldest = t;
            } else {
                if t > newest {
                    newest = t;
                }
                if t < oldest {
                    oldest = t;
                }
            }
            i = i + 1;
        }
        proof {
            assert(ts.take(self.timestamps.len() as int) =~= ts);
        }
        let total = c0 + c1 + c2 + c3;
        let mut buckets: Vec<(String, usize)> = Vec::new();
        buckets.push((String::from_str("< 1 hour"), c0));
        buckets.push((String::from_str("< 1 day"), c1));
        buckets.push((String::from_str("< 1 week"), c2));
        buckets.push((String::from_str("> 1 week"), c3));
        AgeDistribution {
            under_1_hour: c0,
            under_1_day: c1,
            under_1_week: c2,
            over_1_week: c3,
            total_vectors: total,
            buckets,
            newest_timestamp: newest,
            oldest_timestamp: oldest,
        }
    }
}

/// The rough memory of each index: 500 bytes per recent vector and 100 per
/// historical one.
pub fn estimated_memory(recent_count: usize, historical_count: usize) -> (r: (usize, usize))
    requires
        recent_count * 500 <= usize::MAX,
        historical_count * 100 <= usize::MAX,
    ensures
        r.0 == recent_count * 500,
        r.1 == historical_count * 100,
{
    (recent_count * 500, historical_count * 100)
}


/// A filtered search asks each index for three times the results wanted.
pub fn oversampled_k(k: usize) -> (r: usize)
    requires
        k <= usize::MAX / 3,
    ensures
        r == 3 * k,
{
    k * 3
}

/// Whether a search result is kept by a filter: its metadata is known and
/// matches.
pub open spec fn kept_result(id: Seq<char>, metadata: Map<Seq<char>, JsonValue>, f: FilterModel) -> bool {
    metadata.contains_key(id) && filter_matches(f, metadata[id]@)
}

/// The positions of the results kept by a filter, in order.
pub open spec fn kept_positions(ids: Seq<Seq<char>>, metadata: Map<Seq<char>, JsonValue>, f: FilterModel) -> Seq<usize>
    decreases ids.len(),
{
    if ids.len() == 0 {
        Seq::empty()
    } else if kept_result(ids.last(), metadata, f) {
        kept_positions(ids.drop_last(), metadata, f).push((ids.len() - 1) as usize)
    } else {
        kept_positions(ids.drop_last(), metadata, f)
    }
}

/// The positions a filter keeps are, in increasing order, exactly those of
/// the results whose metadata is known and matches the filter.
pub proof fn law_kept_positions(ids: Seq<Seq<char>>, metadata: Map<Seq<char>, JsonValue>, f: FilterModel)
    requires
        ids.len() <= usize::MAX,
    ensures
        forall|t: int| 0 <= t < kept_positions(ids, metadata, f).len() ==> {
            let p = #[trigger] kept_positions(ids, metadata, f)[t] as int;
            &&& 0 <= p < ids.len()
            &&& metadata.contains_key(ids[p])
            &&& filter_matches(f, metadata[ids[p]]@)
        },
        forall|t: int, u: int| 0 <= t < u < kept_positions(ids, metadata, f).len()
            ==> #[trigger] kept_positions(ids, metadata, f)[t] < #[trigger] kept_positions(ids, metadata, f)[u],
        forall|p: int| 0 <= p < ids.len() && metadata.contains_key(#[trigger] ids[p]) && filter_matches(f, metadata[ids[p]]@)
            ==> kept_positions(ids, metadata, f).contains(p as usize),
    decreases ids.len(),
{
    if ids.len() > 0 {
        let init = ids.drop_last();
        law_kept_positions(init, metadata, f);
        let prev = kept_positions(init, metadata, f);
        let kp = kept_positions(ids, metadata, f);
        assert forall|p: int| 0 <= p < ids.len() && metadata.contains_key(#[trigger] ids[p]) && filter_matches(f, metadata[ids[p]]@)
            implies kp.contains(p as usize) by {
            if p < ids.len() - 1 {
                assert(init[p] == ids[p]);
                let t = choose|t: int| 0 <= t < prev.len() && prev[t] == p as usize;
                assert(kp[t] == prev[t]);
            } else {
                assert(ids.last() == ids[p]);
                assert(kp[prev.len() as int] == (ids.len() - 1) as usize);
            }
        }
        assert forall|t: int| 0 <= t < kp.len() implies {
            let p = #[trigger] kp[t] as int;
            &&& 0 <= p < ids.len()
            &&& metadata.contains_key(ids[p])
            &&& filter_matches(f, metadata[ids[p]]@)
        } by {
            if t < prev.len() {
                assert(kp[t] == prev[t]);
                let p = prev[t] as int;
                assert(0 <= p < init.len());
                assert(init[p] == ids[p]);
            } else {
                assert(kp[t] == (ids.len() - 1) as usize);
                assert(kept_result(ids.last(), metadata, f));
                assert(ids.last() == ids[ids.len() - 1]);
            }
        }
        assert forall|t: int, u: int| 0 <= t < u < kp.len() implies #[trigger] kp[t] < #[trigger] kp[u] by {
            if u < prev.len() {
                assert(kp[t] == prev[t] && kp[u] == prev[u]);
            } else {
                assert(kp[t] == prev[t]);
            }
        }
    }
}

/// The identifiers of results, each by its characters.
pub open spec fn ids_view(ids: Seq<String>) -> Seq<Seq<char>> {
    ids.map_values(|s: String| s@)
}

/// A filtered search's selection: of the results (by identifier, nearest
/// first), the positions of the first `k` whose metadata is known and
/// matches the filter.
pub fn select_filtered(ids: &Vec<String>, metadata: &StrMap<JsonValue>, filter: &MetadataFilter, k: usize)
    -> (r: Vec<usize>)
    requires
        metadata.wf(),
    ensures
        r@ == kept_positions(ids_view(ids@), metadata.map(), filter@).take(
            if k < kept_positions(ids_view(ids@), metadata.map(), filter@).len() { k as int }
            else { kept_positions(ids_view(ids@), metadata.map(), filter@).len() as int }),
        r@.len() <= k,
        forall|t: int| 0 <= t < r@.len() ==> (#[trigger] r@[t]) < ids@.len()
            && metadata.map().contains_key(ids@[r@[t] as int]@)
            && filter_matches(filter@, metadata.map()[ids@[r@[t] as int]@]@),
        forall|t: int, u: int| 0 <= t < u < r@.len() ==> #[trigger] r@[t] < #[trigger] r@[u],
        r@.len() < k ==> forall|p: int| 0 <= p < ids@.len() && metadata.map().contains_key(#[trigger] ids@[p]@)
            && filter_matches(filter@, metadata.map()[ids@[p]@]@) ==> r@.contains(p as usize),
{
    let ghost all = ids_view(ids@);
    let mut r: Vec<usize> = Vec::new();
    let mut i: usize = 0;
    while i < ids.len()
        invariant
            metadata.wf(),
            all == ids_view(ids@),
            i <= ids@.len(),
            r@ == kept_positions(all.take(i as int), metadata.map(), filter@),
        decreases ids.len() - i,
    {
        proof {
            assert(all.take(i + 1).drop_last() =~= all.take(i as int));
            assert(all.take(i + 1).last() == ids@[i as int]@);
        }
        let keep = match metadata.get(ids[i].as_str()) {
            Some(m) => filter.matches(m),
            None => false,
        };
        if keep {
            r.push(i);
        }
        i = i + 1;
    }
    proof {
        assert(all.take(ids@.len() as int) =~= all);
        assert(ids.len() == ids@.len());
    }
    let ghost full = r@;
    r.truncate(k);
    proof {
        if k >= full.len() {
            assert(full.take(full.len() as int) =~= full);
        }
        law_kept_positions(all, metadata.map(), filter@);
        assert forall|t: int| 0 <= t < r@.len() implies (#[trigger] r@[t]) < ids@.len()
            && metadata.map().contains_key(ids@[r@[t] as int]@)
            && filter_matches(filter@, metadata.map()[ids@[r@[t] as int]@]@) by {
            assert(r@[t] == full[t]);
            assert(all[full[t] as int] == ids@[full[t] as int]@);
        }
        assert forall|t: int, u: int| 0 <= t < u < r@.len() implies #[trigger] r@[t] < #[trigger] r@[u] by {
            assert(r@[t] == full[t] && r@[u] == full[u]);
        }
        if r@.len() < k {
            assert(r@ =~= full);
            assert forall|p: int| 0 <= p < ids@.len() && metadata.map().contains_key(#[trigger] ids@[p]@)
                && filter_matches(filter@, metadata.map()[ids@[p]@]@) implies r@.contains(p as usize) by {
                assert(all[p] == ids@[p]@);
            }
        }
    }
    r
}

} // verus!
