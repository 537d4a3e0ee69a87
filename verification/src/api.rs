//! The REST service: its settings, the bodies of its answers, and the
//! checks it makes of requests.
use vstd::prelude::*;
use std::time::Duration;
use crate::time::duration_nanos;

verus! {

/// Settings of the REST service.
#[derive(Debug)]
pub struct ApiConfig {
    pub host: String,
    pub port: u16,
    /// Bytes.
    pub max_request_size: usize,
    pub timeout: Duration,
    pub cors_origins: Vec<String>,
}

impl Default for ApiConfig {
    /// `127.0.0.1:8080`, ten megabytes per request, thirty seconds, and the
    /// origin `http://localhost:3000`.
    fn default() -> (r: Self)
        ensures
            r.host@ == "127.0.0.1"@,
            r.port == 8080,
            r.max_request_size == 10 * 1024 * 1024,
            duration_nanos(r.timeout) == 30 * 1_000_000_000,
            r.cors_origins@.len() == 1,
            r.cors_origins@[0]@ == "http://localhost:3000"@,
    {
        let mut cors_origins: Vec<String> = Vec::new();
        cors_origins.push(String::from_str("http://localhost:3000"));
        ApiConfig {
            host: String::from_str("127.0.0.1"),
            port: 8080,
            max_request_size: 10 * 1024 * 1024,
            timeout: Duration::from_secs(30),
            cors_origins,
        }
    }
}

/// The storage backend the service was started with.
#[derive(Debug, Clone)]
pub struct StorageConfigInfo {
    /// `mock` or `real`.
    pub mode: String,
    pub url: String,
}

/// The answer to an insert.
pub struct InsertVectorResponse {
    pub id: String,
    pub index: String,
    pub timestamp: String,
}

/// The answer to a batch of inserts.
pub struct BatchInsertResponse {
    pub successful: usize,
    pub failed: usize,
    pub errors: Vec<BatchError>,
}

/// A failed insert of a batch.
pub struct BatchError {
    pub id: String,
    pub error: String,
}

/// The answer to a health check.
pub struct HealthResponse {
    pub status: String,
    pub version: String,
    pub storage: StorageHealth,
    pub indices: IndexHealth,
}

/// The health of the storage backend.
pub struct StorageHealth {
    pub mode: String,
    pub connected: bool,
    pub base_url: Option<String>,
    pub portal_url: Option<String>,
}

/// The health of both indexes.
pub struct IndexHealth {
    pub hnsw: IndexStatus,
    pub ivf: IndexStatus,
}

/// The health of one index.
pub struct IndexStatus {
    pub healthy: bool,
    pub vector_count: usize,
}

/// The answer to a statistics request.
pub struct StatisticsResponse {
    pub total_vectors: usize,
    pub recent_vectors: usize,
    pub historical_vectors: usize,
    pub memory_usage: MemoryUsage,
}

/// Memory of the indexes, in bytes.
pub struct MemoryUsage {
    pub total_bytes: usize,
    pub hnsw_bytes: usize,
    pub ivf_bytes: usize,
}

/// The answer to a rebalance.
pub struct RebalanceResponse {
    pub clusters_modified: usize,
    pub vectors_moved: usize,
}

/// A request for a backup.
pub struct BackupRequest {
    pub backup_path: String,
    pub compress: bool,
}

/// The health of the storage backend as the service reports it: the URL is
/// the base URL in mock mode and the portal URL in real mode.
pub fn storage_health(info: &StorageConfigInfo) -> (r: StorageHealth)
    ensures
        r.mode@ == info.mode@,
        r.connected,
        info.mode@ == "mock"@ ==> (r.base_url matches Some(u) && u@ == info.url@),
        info.mode@ != "mock"@ ==> r.base_url is None,
        info.mode@ == "real"@ ==> (r.portal_url matches Some(u) && u@ == info.url@),
        info.mode@ != "real"@ ==> r.portal_url is None,
{
    let mock_mode = String::from_str("mock");
    let real_mode = String::from_str("real");
    StorageHealth {
        mode: info.mode.clone(),
        connected: true,
        base_url: if info.mode == mock_mode { Some(info.url.clone()) } else { None },
        portal_url: if info.mode == real_mode { Some(info.url.clone()) } else { None },
    }
}

/// A vector to insert must not be empty.
pub fn validate_vector<T>(vector: &[T]) -> (r: Result<(), String>)
    ensures
        vector@.len() == 0 ==> (r matches Err(m) && m@ == "Vector cannot be empty"@),
        vector@.len() > 0 ==> r is Ok,
{
    if vector.len() == 0 {
        return Err(String::from_str("Vector cannot be empty"));
    }
    Ok(())
}

} // verus!
