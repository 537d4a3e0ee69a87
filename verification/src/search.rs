//! Search across the tiers of the hybrid index: errors, merge strategies,
//! and the parameters suggested for a query.
use vstd::prelude::*;
use crate::hybrid::{HybridError, HybridSearchConfig};

verus! {

/// Errors of searches across the tiers.
pub enum SearchIntegrationError {
    Timeout,
    InvalidConfig(String),
    Hybrid(HybridError),
}

/// How the results of several searches are merged.
#[derive(Debug, Clone, Copy, PartialEq, Eq, Structural)]
pub enum MergeStrategy {
    TakeBest,
    Average,
    Weighted,
}

/// Which indexes a query uses, and the parameters suggested for it.
pub struct OptimizedQuery {
    pub use_hnsw: bool,
    pub use_ivf: bool,
    pub estimated_vectors: usize,
    pub suggested_n_probe: Option<usize>,
    pub suggested_ef: Option<usize>,
}

/// The suggested probe count and candidate list for an index of `total`
/// vectors: 5 and 50 under a thousand, 10 and 100 under ten thousand, else
/// 20 and 200.
pub open spec fn suggested_params(total: nat) -> (usize, usize) {
    if total < 1000 {
        (5, 50)
    } else if total < 10000 {
        (10, 100)
    } else {
        (20, 200)
    }
}

/// The plan for a query over an index with these counts: each index is used
/// when it holds vectors.
pub fn optimize_for_counts(recent_vectors: usize, historical_vectors: usize, total_vectors: usize) -> (r: OptimizedQuery)
    ensures
        r.use_hnsw == (recent_vectors > 0),
        r.use_ivf == (historical_vectors > 0),
        r.estimated_vectors == total_vectors,
        r.suggested_n_probe == Some(suggested_params(total_vectors as nat).0),
        r.suggested_ef == Some(suggested_params(total_vectors as nat).1),
{
    let (n_probe, ef): (usize, usize) = if total_vectors < 1000 {
        (5, 50)
    } else if total_vectors < 10000 {
        (10, 100)
    } else {
        (20, 200)
    };
    OptimizedQuery {
        use_hnsw: recent_vectors > 0,
        use_ivf: historical_vectors > 0,
        estimated_vectors: total_vectors,
        suggested_n_probe: Some(n_probe),
        suggested_ef: Some(ef),
    }
}

/// The search settings suggested for `k` results over an index with these
/// counts: 5 probes and a candidate list of 50 under ten results, 10 and
/// 100 under fifty, else 20 and 200; each tier is searched when it holds
/// vectors; the rest as by default.
pub fn suggest_config_for(k: usize, recent_vectors: usize, historical_vectors: usize) -> (r: HybridSearchConfig)
    ensures
        r.k == k,
        r.ivf_n_probe == (if k < 10 { 5usize } else if k < 50 { 10usize } else { 20usize }),
        r.hnsw_ef == (if k < 10 { 50usize } else if k < 50 { 100usize } else { 200usize }),
        r.search_recent == (recent_vectors > 0),
        r.search_historical == (historical_vectors > 0),
        r.recent_k == 0,
        r.historical_k == 0,
        r.recent_threshold_override is None,
{
    let mut config = HybridSearchConfig::default();
    config.k = k;
    if k < 10 {
        config.ivf_n_probe = 5;
        config.hnsw_ef = 50;
    } else if k < 50 {
        config.ivf_n_probe = 10;
        config.hnsw_ef = 100;
    } else {
        config.ivf_n_probe = 20;
        config.hnsw_ef = 200;
    }
    if recent_vectors == 0 {
        config.search_recent = false;
    }
    if historical_vectors == 0 {
        config.search_historical = false;
    }
    config
}

/// Produces variations of a query.
pub struct QueryExpander;

impl QueryExpander {
    /// An expander.
    pub fn new() -> (r: Self) {
        QueryExpander
    }
}

} // verus!
