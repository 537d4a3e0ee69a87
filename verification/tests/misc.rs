use std::time::Duration;
use vector_db::chunk_loader::{chunk_load_step, LoadOutcome, LoadStep};
use vector_db::client::{check_vector_id, index_flags, retry_delay_ms, should_retry, ClientError, SearchIndex};
use vector_db::api::{storage_health, validate_vector, ApiConfig, StorageConfigInfo};
use vector_db::hnsw::HNSWConfig;
use vector_db::ivf::IVFConfig;
use vector_db::maintenance::{
    backup_marker, backup_size, batches_for, cap_candidates, split_by_verdicts, health_report, incremental_marker, marker_count, storage_usage,
    HealthStatus, MigrationPolicy,
};
use vector_db::s5::parse_usize;
use vector_db::search::{optimize_for_counts, suggest_config_for, QueryExpander};
use vector_db::session::{
    batch_dimension, check_vector_dimension, training_sample_size, validate_session_config, VectorDBConfig,
};
use vector_db::types::VectorId;

#[test]
fn test_ivf_config_is_valid() {
    let c = IVFConfig::default();
    assert!(c.is_valid());
    assert_eq!(c.n_clusters, 256);
    let mut bad = c;
    bad.n_probe = 300;
    assert!(!bad.is_valid());
    let mut bad = c;
    bad.max_iterations = 0;
    assert!(!bad.is_valid());
}

#[test]
fn test_hnsw_config_default() {
    let c = HNSWConfig::default();
    assert_eq!(c.max_connections, 16);
    assert_eq!(c.max_connections_layer_0, 32);
    assert_eq!(c.ef_construction, 200);
    assert_eq!(c.seed, None);
}

#[test]
fn test_api_config_default() {
    let c = ApiConfig::default();
    assert_eq!(c.host, "127.0.0.1");
    assert_eq!(c.port, 8080);
    assert_eq!(c.max_request_size, 10 * 1024 * 1024);
    assert_eq!(c.timeout, Duration::from_secs(30));
    assert_eq!(c.cors_origins, vec!["http://localhost:3000".to_string()]);
}

#[test]
fn test_storage_health() {
    let h = storage_health(&StorageConfigInfo { mode: "mock".to_string(), url: "http://m".to_string() });
    assert_eq!(h.base_url, Some("http://m".to_string()));
    assert_eq!(h.portal_url, None);
    let h = storage_health(&StorageConfigInfo { mode: "real".to_string(), url: "http://p".to_string() });
    assert_eq!(h.base_url, None);
    assert_eq!(h.portal_url, Some("http://p".to_string()));
}

#[test]
fn test_validate_vector() {
    let empty: Vec<f32> = vec![];
    assert_eq!(validate_vector(&empty), Err("Vector cannot be empty".to_string()));
    assert_eq!(validate_vector(&[1.0f32]), Ok(()));
}

#[test]
fn test_health_report() {
    let r = health_report(5, 10, 100, 1000);
    assert_eq!(r.status, HealthStatus::Healthy);
    assert!(r.issues.is_empty());
    let r = health_report(101, 1000, 100, 1000);
    assert_eq!(r.status, HealthStatus::Warning);
    assert_eq!(r.issues, vec!["High migration backlog: 101".to_string(), "Memory usage exceeds threshold".to_string()]);
    assert!(!r.memory_usage_ok);
}

#[test]
fn test_storage_usage_and_batches() {
    let u = storage_usage(500, 100, 3);
    assert_eq!(u.total_bytes, 600);
    assert_eq!(u.metadata_bytes, 300);
    assert_eq!(batches_for(0, 100), 0);
    assert_eq!(batches_for(1, 100), 1);
    assert_eq!(batches_for(201, 100), 3);
    let ids: Vec<VectorId> = (0..5).map(|i| VectorId::from_string(&format!("v{}", i))).collect();
    assert_eq!(cap_candidates(&ids, 3).len(), 3);
    assert_eq!(cap_candidates(&ids, 10).len(), 5);
    assert_eq!(cap_candidates(&ids, 0).len(), 1);
    let p = MigrationPolicy::standard();
    assert_eq!(p.max_vectors_per_run, 1000);
}

#[test]
fn test_optimize_for_counts() {
    let q = optimize_for_counts(0, 5, 5);
    assert!(!q.use_hnsw);
    assert!(q.use_ivf);
    assert_eq!(q.suggested_n_probe, Some(5));
    assert_eq!(q.suggested_ef, Some(50));
    let q = optimize_for_counts(1, 0, 20000);
    assert_eq!(q.suggested_n_probe, Some(20));
    assert_eq!(q.suggested_ef, Some(200));
    let _ = QueryExpander::new();
}

#[test]
fn test_session_config() {
    let mut c = VectorDBConfig {
        s5_portal: "http://p".to_string(),
        user_seed_phrase: "seed".to_string(),
        session_id: "s".to_string(),
        memory_budget_mb: None,
        debug: None,
    };
    assert!(validate_session_config(&c).is_ok());
    c.s5_portal = String::new();
    assert_eq!(validate_session_config(&c), Err("s5_portal is required".to_string()));
}

#[test]
fn test_vector_id_forms() {
    let a = VectorId::from_string("x");
    let b = VectorId::from_string("x");
    assert!(a == b);
    assert!(VectorId::from_string("y") != a);
    assert_eq!(a.as_bytes(), blake3::hash(b"x").as_bytes());
    assert_eq!(a.hash_hex(), hex::encode(blake3::hash(b"x").as_bytes()));
    assert_eq!(a.to_string(), format!("vec_{}", &a.hash_hex()[..8]));
    let r1 = VectorId::new();
    let r2 = VectorId::new();
    assert!(r1 != r2);
}

#[test]
fn test_backup_size_and_markers() {
    assert_eq!(backup_size(10, true), 500);
    assert_eq!(backup_size(10, false), 1000);
    assert_eq!(backup_marker(42), "backup_metadata_42");
    assert_eq!(incremental_marker(7), "incr_backup_7");
}

#[test]
fn test_marker_count() {
    assert_eq!(marker_count("backup_metadata_42"), 42);
    assert_eq!(marker_count("incr_backup_7"), 7);
    assert_eq!(marker_count("incr_backup_x"), 0);
    assert_eq!(marker_count("19"), 19);
    assert_eq!(marker_count("a_"), 0);
    assert_eq!(marker_count("a_+3"), 3);
    assert_eq!(marker_count("ü_5"), 5);
}

#[test]
fn test_parse_usize() {
    assert_eq!(parse_usize("+5"), Some(5));
    assert_eq!(parse_usize("12"), Some(12));
    assert_eq!(parse_usize("-1"), None);
    assert_eq!(parse_usize(""), None);
    assert_eq!(parse_usize("99999999999999999999999"), None);
}

#[test]
fn test_suggest_config_for() {
    let c = suggest_config_for(5, 3, 0);
    assert_eq!((c.k, c.ivf_n_probe, c.hnsw_ef), (5, 5, 50));
    assert!(c.search_recent);
    assert!(!c.search_historical);
    let c = suggest_config_for(10, 0, 7);
    assert_eq!((c.ivf_n_probe, c.hnsw_ef), (10, 100));
    assert!(!c.search_recent && c.search_historical);
    let c = suggest_config_for(50, 1, 1);
    assert_eq!((c.ivf_n_probe, c.hnsw_ef), (20, 200));
    assert_eq!((c.recent_k, c.historical_k), (0, 0));
}

#[test]
fn test_client_vector_id_check() {
    assert!(check_vector_id("v1").is_ok());
    match check_vector_id("") {
        Err(ClientError::ValidationError(m)) => assert_eq!(m, "Vector ID cannot be empty"),
        _ => panic!("an empty identifier is refused"),
    }
}

#[test]
fn test_client_index_flags() {
    assert_eq!(index_flags(&vec![SearchIndex::Recent]), (true, false));
    assert_eq!(index_flags(&vec![SearchIndex::Historical, SearchIndex::Recent]), (true, true));
    assert_eq!(index_flags(&vec![]), (false, false));
}

#[test]
fn test_client_retry_schedule() {
    assert_eq!(retry_delay_ms(0), 0);
    assert_eq!(retry_delay_ms(3), 300);
    assert!(should_retry(3, 3));
    assert!(!should_retry(4, 3));
    assert!(should_retry(0, 0));
}

#[test]
fn test_chunk_load_steps() {
    assert_eq!(chunk_load_step(0, LoadOutcome::Loaded), LoadStep::Deliver);
    assert_eq!(chunk_load_step(1, LoadOutcome::Missing), LoadStep::NotFound);
    assert_eq!(chunk_load_step(0, LoadOutcome::Failed), LoadStep::RetryAfterMs(100));
    assert_eq!(chunk_load_step(1, LoadOutcome::Failed), LoadStep::RetryAfterMs(200));
    assert_eq!(chunk_load_step(2, LoadOutcome::Failed), LoadStep::GiveUp);
    assert_eq!(chunk_load_step(2, LoadOutcome::Loaded), LoadStep::Deliver);
}

#[test]
fn test_compression_round_trip() {
    let data = b"vector chunk bytes, vector chunk bytes".to_vec();
    let frame = vector_db::compression::compress(&data).unwrap();
    assert_ne!(frame, data);
    assert_eq!(vector_db::compression::decompress(&frame).unwrap(), data);
    assert!(vector_db::compression::decompress(b"not a frame").is_err());
}

#[test]
fn test_session_batch_dimensions() {
    assert_eq!(batch_dimension(None, None).unwrap(), None);
    assert_eq!(batch_dimension(None, Some(3)).unwrap(), Some(3));
    assert_eq!(batch_dimension(Some(3), Some(3)).unwrap(), Some(3));
    assert_eq!(batch_dimension(Some(3), None).unwrap(), Some(3));
    assert_eq!(batch_dimension(Some(3), Some(4)).unwrap_err(), "Vector dimension mismatch: expected 3, got 4");
    assert!(check_vector_dimension(None, 7).is_ok());
    assert!(check_vector_dimension(Some(7), 7).is_ok());
    assert_eq!(check_vector_dimension(Some(12), 7).unwrap_err(), "Vector dimension mismatch: expected 12, got 7");
    assert_eq!(training_sample_size(3), 3);
    assert_eq!(training_sample_size(25), 10);
}

#[test]
fn test_split_by_verdicts_removes_every_copy_of_a_failed_id() {
    let a = VectorId::from_string("a");
    let b = VectorId::from_string("b");
    let c = VectorId::from_string("c");
    let ids = vec![a.clone(), b.clone(), c.clone(), b.clone()];
    let (kept, failed) = split_by_verdicts(&ids, &vec![false, true, false, false]);
    assert_eq!(failed, vec![b.clone()]);
    assert_eq!(kept, vec![a, c]);
}
