//! Maintenance of the hybrid index: migration runs, cleanup, backups and
//! health reports.
use vstd::prelude::*;
use std::time::Duration;
use crate::time::duration_nanos;
use crate::types::VectorId;
use crate::text::push_decimal;
use crate::text::decimal;
use crate::s5::{parse_unsigned, parse_usize};

verus! {

/// Errors of maintenance.
pub enum MaintenanceError {
    Migration(String),
    Rebalancing(String),
    Cleanup(String),
    Backup(String),
    Monitoring(String),
    Storage(String),
    InvalidConfig(String),
}

/// When and how much a scheduler migrates.
pub struct MigrationPolicy {
    pub check_interval: Duration,
    pub batch_size: usize,
    pub max_vectors_per_run: usize,
    /// Hour ranges when migration is paused.
    pub quiet_hours: Vec<(u32, u32)>,
}

impl MigrationPolicy {
    /// Every five minutes, batches of a hundred, at most a thousand vectors
    /// a run, no quiet hours.
    pub fn standard() -> (r: Self)
        ensures
            duration_nanos(r.check_interval) == 300 * 1_000_000_000,
            r.batch_size == 100,
            r.max_vectors_per_run == 1000,
            r.quiet_hours@.len() == 0,
    {
        MigrationPolicy {
            check_interval: Duration::from_secs(300),
            batch_size: 100,
            max_vectors_per_run: 1000,
            quiet_hours: Vec::new(),
        }
    }
}

/// The outcome of a migration run.
pub struct MigrationRunResult {
    pub vectors_migrated: usize,
    pub batches_processed: usize,
    pub duration: Duration,
    pub errors: Vec<MigrationError>,
}

/// A vector that a run did not migrate.
pub struct MigrationError {
    pub vector_id: VectorId,
    pub error: String,
}

/// What a cleanup does.
pub struct CleanupConfig {
    pub remove_orphans: bool,
    pub compact_storage: bool,
    pub rebuild_stats: bool,
    pub dry_run: bool,
}

/// The outcome of a cleanup.
pub struct CleanupResult {
    pub orphans_removed: usize,
    pub space_reclaimed: usize,
    pub stats_rebuilt: bool,
    pub duration: Duration,
}

/// Problems a scan found.
pub struct IssueReport {
    pub orphaned_vectors: Vec<VectorId>,
    pub missing_timestamps: Vec<VectorId>,
    pub index_inconsistencies: Vec<String>,
    pub total_issues: usize,
}

/// The storage the index takes, in bytes.
pub struct StorageUsage {
    pub total_bytes: usize,
    pub recent_index_bytes: usize,
    pub historical_index_bytes: usize,
    pub metadata_bytes: usize,
}

/// The outcome of compacting storage.
pub struct CompactionResult {
    pub indices_compacted: usize,
    pub space_saved_bytes: usize,
    pub duration: Duration,
}

/// What a backup holds.
pub struct BackupConfig {
    pub include_recent: bool,
    pub include_historical: bool,
    pub compress: bool,
    pub encryption_key: Option<String>,
}

impl Default for BackupConfig {
    /// Both tiers, compressed, not encrypted.
    fn default() -> (r: Self)
        ensures
            r.include_recent,
            r.include_historical,
            r.compress,
            r.encryption_key is None,
    {
        BackupConfig { include_recent: true, include_historical: true, compress: true, encryption_key: None }
    }
}

/// The outcome of a restore.
pub struct RestoreResult {
    pub vectors_restored: usize,
    pub duration: Duration,
    pub warnings: Vec<String>,
}

/// The health of the index.
#[derive(Debug, Clone, Copy, PartialEq, Eq, Structural)]
pub enum HealthStatus {
    Healthy,
    Warning,
    Critical,
    Unknown,
}

/// A health report.
pub struct HealthReport {
    pub status: HealthStatus,
    pub recent_index_ok: bool,
    pub historical_index_ok: bool,
    pub migration_backlog: usize,
    pub search_latency_ok: bool,
    pub memory_usage_ok: bool,
    pub issues: Vec<String>,
}

/// How grave an alert is.
#[derive(Debug, Clone, Copy, PartialEq, Eq, Structural)]
pub enum AlertSeverity {
    Info,
    Warning,
    Critical,
}

/// The report of an index with these counts: the backlog is the recent
/// vectors; a backlog over its threshold, or memory at or over its
/// threshold, makes a warning with an issue each.
pub fn health_report(recent_vectors: usize, memory_usage: usize, backlog_threshold: usize,
    memory_threshold: usize) -> (r: HealthReport)
    ensures
        r.migration_backlog == recent_vectors,
        r.memory_usage_ok == (memory_usage < memory_threshold),
        r.recent_index_ok && r.historical_index_ok && r.search_latency_ok,
        r.status == if recent_vectors > backlog_threshold || memory_usage >= memory_threshold {
            HealthStatus::Warning
        } else {
            HealthStatus::Healthy
        },
        r.issues@.len() == (if recent_vectors > backlog_threshold { 1int } else { 0int })
            + (if memory_usage >= memory_threshold { 1int } else { 0int }),
        recent_vectors > backlog_threshold ==> r.issues@[0]@ == "High migration backlog: "@ + decimal(recent_vectors as nat),
        memory_usage >= memory_threshold ==> r.issues@[r.issues@.len() - 1]@ == "Memory usage exceeds threshold"@,
{
    let mut issues: Vec<String> = Vec::new();
    let mut status = HealthStatus::Healthy;
    if recent_vectors > backlog_threshold {
        let mut m = String::from_str("High migration backlog: ");
        push_decimal(&mut m, recent_vectors);
        issues.push(m);
        status = HealthStatus::Warning;
    }
    let memory_ok = memory_usage < memory_threshold;
    if !memory_ok {
        issues.push(String::from_str("Memory usage exceeds threshold"));
        status = HealthStatus::Warning;
    }
    HealthReport {
        status,
        recent_index_ok: true,
        historical_index_ok: true,
        migration_backlog: recent_vectors,
        search_latency_ok: true,
        memory_usage_ok: memory_ok,
        issues,
    }
}

/// The storage of an index: both indexes' bytes, and 100 bytes of metadata
/// per vector.
pub fn storage_usage(recent_index_bytes: usize, historical_index_bytes: usize, total_vectors: usize) -> (r: StorageUsage)
    requires
        recent_index_bytes + historical_index_bytes <= usize::MAX,
        total_vectors * 100 <= usize::MAX,
    ensures
        r.total_bytes == recent_index_bytes + historical_index_bytes,
        r.recent_index_bytes == recent_index_bytes,
        r.historical_index_bytes == historical_index_bytes,
        r.metadata_bytes == total_vectors * 100,
{
    StorageUsage {
        total_bytes: recent_index_bytes + historical_index_bytes,
        recent_index_bytes,
        historical_index_bytes,
        metadata_bytes: total_vectors * 100,
    }
}

/// The vectors a run migrates: the candidates in order, up to the per-run
/// limit (the first candidate is taken even with a limit of zero, as the
/// limit is checked after each one).
pub fn cap_candidates(candidates: &Vec<VectorId>, max_vectors_per_run: usize) -> (r: Vec<VectorId>)
    ensures
        r@ == candidates@.take(
            if candidates@.len() == 0 { 0 } else if max_vectors_per_run == 0 { 1 }
            else if candidates@.len() < max_vectors_per_run { candidates@.len() as int } else { max_vectors_per_run as int }),
{
    let mut r: Vec<VectorId> = Vec::new();
    let mut i: usize = 0;
    while i < candidates.len() && (i == 0 || i < max_vectors_per_run)
        invariant
            i <= candidates.len(),
            r@ == candidates@.take(i as int),
            i > 0 ==> i <= max_vectors_per_run || i == 1,
        decreases candidates.len() - i,
    {
        r.push(candidates[i].clone());
        assert(r@ =~= candidates@.take(i + 1));
        i = i + 1;
    }
    r
}

/// Of the first `j` identifiers, those whose check reported a failure, in
/// order.
pub open spec fn flagged(ids: Seq<VectorId>, failed: Seq<bool>, j: int) -> Seq<VectorId>
    decreases j,
{
    if j <= 0 {
        Seq::empty()
    } else {
        let prev = flagged(ids, failed, j - 1);
        if failed[j - 1] { prev.push(ids[j - 1]) } else { prev }
    }
}

/// Of the first `j` identifiers, those not in `bad`, in order.
pub open spec fn not_listed(ids: Seq<VectorId>, bad: Seq<VectorId>, j: int) -> Seq<VectorId>
    decreases j,
{
    if j <= 0 {
        Seq::empty()
    } else {
        let prev = not_listed(ids, bad, j - 1);
        if bad.contains(ids[j - 1]) { prev } else { prev.push(ids[j - 1]) }
    }
}

/// Splits a run's vectors by the verdicts of the error check, one per
/// vector in order: the failed ones, in order, and the vectors that still
/// migrate, those that are not among the failed ones.
pub fn split_by_verdicts(ids: &Vec<VectorId>, failed: &Vec<bool>) -> (r: (Vec<VectorId>, Vec<VectorId>))
    requires
        failed@.len() == ids@.len(),
    ensures
        r.1@ == flagged(ids@, failed@, ids@.len() as int),
        r.0@ == not_listed(ids@, r.1@, ids@.len() as int),
{
    let mut bad: Vec<VectorId> = Vec::new();
    let mut i: usize = 0;
    while i < ids.len()
        invariant
            i <= ids@.len(),
            failed@.len() == ids@.len(),
            bad@ == flagged(ids@, failed@, i as int),
        decreases ids@.len() - i,
    {
        if failed[i] {
            bad.push(ids[i].clone());
        }
        i = i + 1;
    }
    let mut kept: Vec<VectorId> = Vec::new();
    let mut j: usize = 0;
    while j < ids.len()
        invariant
            j <= ids@.len(),
            kept@ == not_listed(ids@, bad@, j as int),
        decreases ids@.len() - j,
    {
        if !crate::hnsw::list_contains(&bad, &ids[j]) {
            kept.push(ids[j].clone());
        }
        j = j + 1;
    }
    (kept, bad)
}

/// The batches a run reports when no per-vector check counted them: the
/// migrated vectors in batches of `batch_size`, rounded up.
pub fn batches_for(migrated: usize, batch_size: usize) -> (r: usize)
    requires
        batch_size > 0,
        migrated + batch_size - 1 <= usize::MAX,
    ensures
        r == (migrated + batch_size - 1) / (batch_size as int),
{
    (migrated + (batch_size - 1)) / batch_size
}


/// The estimated size of a backup: 50 bytes per vector compressed, 100
/// otherwise.
pub fn backup_size(total_vectors: usize, compress: bool) -> (r: usize)
    requires
        total_vectors * 100 <= usize::MAX,
    ensures
        r == if compress { total_vectors * 50 } else { total_vectors * 100 },
{
    if compress {
        total_vectors * 50
    } else {
        total_vectors * 100
    }
}

/// The marker a backup of `n` vectors stores.
pub fn backup_marker(n: usize) -> (r: String)
    ensures
        r@ == "backup_metadata_"@ + decimal(n as nat),
{
    let mut r = String::from_str("backup_metadata_");
    push_decimal(&mut r, n);
    r
}

/// The marker an incremental backup of `n` vectors stores.
pub fn incremental_marker(n: usize) -> (r: String)
    ensures
        r@ == "incr_backup_"@ + decimal(n as nat),
{
    let mut r = String::from_str("incr_backup_");
    push_decimal(&mut r, n);
    r
}

/// The text after the last underscore, or all of it without one.
pub open spec fn last_segment(s: Seq<char>) -> Seq<char>
    decreases s.len(),
{
    if s.len() == 0 {
        s
    } else if s.last() == '_' {
        Seq::empty()
    } else {
        last_segment(s.drop_last()).push(s.last())
    }
}

/// Where the text after the last underscore starts.
fn segment_start(text: &str) -> (r: usize)
    ensures
        r <= text@.len(),
        text@.subrange(r as int, text@.len() as int) == last_segment(text@),
{
    let n = text.unicode_len();
    let mut start: usize = 0;
    let mut i: usize = 0;
    proof {
        assert(text@.take(0) =~= Seq::<char>::empty());
    }
    while i < n
        invariant
            n == text@.len(),
            start <= i <= n,
            text@.subrange(start as int, i as int) == last_segment(text@.take(i as int)),
        decreases n - i,
    {
        let c = text.get_char(i);
        proof {
            assert(text@.take(i + 1).drop_last() =~= text@.take(i as int));
            assert(text@.take(i + 1).last() == c);
        }
        if c == '_' {
            start = i + 1;
            proof {
                assert(text@.subrange(start as int, i + 1) =~= Seq::<char>::empty());
            }
        } else {
            proof {
                assert(text@.subrange(start as int, i + 1) =~= text@.subrange(start as int, i as int).push(c));
            }
        }
        i = i + 1;
    }
    proof {
        assert(text@.take(n as int) =~= text@);
    }
    start
}

/// The vector count a backup marker records: the number after its last
/// underscore, zero when that is not a number.
pub fn marker_count(text: &str) -> (r: usize)
    ensures
        r == match parse_unsigned(last_segment(text@), usize::MAX as nat) {
            Some(v) => v as usize,
            None => 0,
        },
{
    let start = segment_start(text);
    let n = text.unicode_len();
    let segment = text.substring_char(start, n);
    match parse_usize(segment) {
        Some(v) => v,
        None => 0,
    }
}

} // verus!
