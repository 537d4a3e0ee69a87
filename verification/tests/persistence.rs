use std::time::Duration;
use vector_db::hnsw::{HNSWConfig, HNSWIndex, HNSWMetadata, HNSWNode, PersistenceError};
use vector_db::hybrid::{HybridConfig, HybridTracker, PersistenceError as HybridPersistenceError};
use vector_db::ivf::{ClusterId, IVFConfig, IVFIndex, PersistenceError as IVFPersistenceError};
use vector_db::persistence::{
    check_chunk_count, chunk_bounds, chunk_path, cluster_path, expected_chunks, list_chunk_path, lists_in_own_files,
    merge_chunk, recovery_info, HybridMetadata, IVFMetadata, FORMAT_VERSION,
};
use vector_db::types::VectorId;

fn node(name: &str, x: f32) -> HNSWNode {
    HNSWNode::new(VectorId::from_string(name), vec![x.to_bits()])
}

#[test]
fn test_expected_chunks() {
    assert_eq!(expected_chunks(0, 1000), 0);
    assert_eq!(expected_chunks(1, 1000), 1);
    assert_eq!(expected_chunks(1000, 1000), 1);
    assert_eq!(expected_chunks(2500, 1000), 3);
}

#[test]
fn test_chunk_bounds_match_expected_chunks() {
    assert_eq!(chunk_bounds(2500, 1000), vec![(0, 1000), (1000, 2000), (2000, 2500)]);
    assert_eq!(chunk_bounds(0, 10), vec![]);
    assert_eq!(chunk_bounds(10, 10), vec![(0, 10)]);
    for len in 0..40 {
        for size in 1..7 {
            assert_eq!(chunk_bounds(len, size).len(), expected_chunks(len, size));
        }
    }
}

#[test]
fn test_chunk_path() {
    assert_eq!(chunk_path("idx", 7), "idx/nodes/chunk_0007.cbor");
    assert_eq!(chunk_path("a/b", 0), "a/b/nodes/chunk_0000.cbor");
    assert_eq!(chunk_path("p", 12345), "p/nodes/chunk_12345.cbor");
}

#[test]
fn test_check_chunk_count() {
    assert!(check_chunk_count(3, 3).is_ok());
    assert!(check_chunk_count(4, 3).is_ok());
    match check_chunk_count(2, 3) {
        Err(PersistenceError::IntegrityError(m)) => assert_eq!(m, "Expected 3 chunks, found 2"),
        other => panic!("unexpected {:?}", other),
    }
}

#[test]
fn test_metadata_version_check() {
    let index = HNSWIndex::new(HNSWConfig::default());
    let mut meta = HNSWMetadata::from_index(&index);
    assert_eq!(meta.version, 1);
    assert_eq!(meta.node_count, 0);
    assert!(meta.check_version().is_ok());
    meta.version = 2;
    match meta.check_version() {
        Err(PersistenceError::IncompatibleVersion { found, expected }) => {
            assert_eq!(found, 2);
            assert_eq!(expected, 1);
        }
        other => panic!("unexpected {:?}", other),
    }
}

#[test]
fn test_restore_saved_rebuilds_index() {
    let mut source = HNSWIndex::new(HNSWConfig::default());
    source.restore_node(node("a", 1.0)).unwrap();
    source.restore_node(node("b", 2.0)).unwrap();
    source.set_entry_point(VectorId::from_string("b"));
    let meta = HNSWMetadata::from_index(&source);
    let nodes = vec![node("a", 1.0), node("b", 2.0), node("a", 3.0)];
    let index = HNSWIndex::restore_saved(&meta, nodes);
    assert_eq!(index.node_count(), 2);
    assert_eq!(index.entry_point(), Some(VectorId::from_string("b")));
    assert_eq!(index.dimension(), Some(1));
    let a = index.get_node(&VectorId::from_string("a")).unwrap();
    assert_eq!(a.vector()[0], 3.0f32.to_bits());
}

#[test]
fn test_merge_chunk_replaces_and_appends() {
    let existing = vec![node("a", 1.0), node("b", 2.0), node("c", 3.0)];
    let updates = vec![node("b", 20.0), node("d", 4.0)];
    let merged = merge_chunk(existing, updates);
    let names: Vec<VectorId> = merged.iter().map(|n| n.id().clone()).collect();
    assert_eq!(
        names,
        vec![
            VectorId::from_string("a"),
            VectorId::from_string("c"),
            VectorId::from_string("b"),
            VectorId::from_string("d")
        ]
    );
    assert_eq!(merged[2].vector()[0], 20.0f32.to_bits());
}

#[test]
fn test_recovery_info() {
    let info = recovery_info(25, &vec![Some(10), None, Some(5), None]);
    assert_eq!(info.expected_nodes, 25);
    assert_eq!(info.found_nodes, 15);
    assert_eq!(info.missing_chunks, vec![1, 3]);
}

#[test]
fn test_version_compatibility() {
    let metadata = HybridMetadata {
        version: FORMAT_VERSION + 1,
        config: HybridConfig::default(),
        recent_count: 0,
        historical_count: 0,
        total_vectors: 0,
        timestamp: 0,
    };
    let result = metadata.check_version();
    assert!(result.is_err());
    match result {
        Err(HybridPersistenceError::IncompatibleVersion { expected, found }) => {
            assert_eq!(expected, FORMAT_VERSION);
            assert_eq!(found, FORMAT_VERSION + 1);
        }
        _ => panic!("Expected IncompatibleVersion error"),
    }
}

#[test]
fn test_hybrid_metadata_from_index() {
    let tracker = HybridTracker::new(Duration::from_secs(3600));
    let meta = HybridMetadata::from_index(HybridConfig::default(), &tracker, 42);
    assert_eq!(meta.version, 1);
    assert_eq!(meta.total_vectors, 0);
    assert_eq!(meta.timestamp, 42);
    assert!(meta.check_version().is_ok());
}

#[test]
fn test_cluster_path() {
    assert_eq!(cluster_path("idx", ClusterId(42)), "idx/inverted_lists/cluster_000042.cbor");
    assert_eq!(cluster_path("x", ClusterId(1234567)), "x/inverted_lists/cluster_1234567.cbor");
}

#[test]
fn test_ivf_metadata_checks() {
    let index = IVFIndex::new(IVFConfig::default());
    let mut meta = IVFMetadata::from_index(&index, 7);
    assert_eq!(meta.dimension, 0);
    assert_eq!(meta.n_vectors, 0);
    assert_eq!(meta.centroids_count, 0);
    assert!(meta.check_version().is_ok());
    assert!(meta.check_complete(0).is_ok());
    match meta.check_complete(3) {
        Err(IVFPersistenceError::IncompleteSave { expected, found }) => assert_eq!((expected, found), (0, 3)),
        other => panic!("unexpected {:?}", other),
    }
    meta.version = 5;
    assert!(matches!(meta.check_version(), Err(IVFPersistenceError::IncompatibleVersion { expected: 1, found: 5 })));
    meta.n_vectors = 4;
    let r = meta.integrity(true, &vec![Some(4), None]);
    assert_eq!(r.expected_vectors, 4);
    assert_eq!(r.found_vectors, 4);
    assert_eq!(r.missing_clusters, vec![ClusterId(1)]);
    assert!(!r.is_complete);
    let r = meta.integrity(false, &vec![Some(1), Some(3)]);
    assert!(r.is_complete);
    assert!(!r.has_centroids);
}

#[test]
fn test_list_chunk_layout() {
    assert_eq!(list_chunk_path("idx", 3), "idx/inverted_lists/chunk_0003.cbor");
    assert_eq!(list_chunk_path("a/b", 12345), "a/b/inverted_lists/chunk_12345.cbor");
    assert!(lists_in_own_files(1000));
    assert!(!lists_in_own_files(10));
}

#[test]
fn test_index_round_trip_through_chunks() {
    let mut source = HNSWIndex::new(HNSWConfig::default());
    for (i, name) in ["a", "b", "c", "d", "e"].iter().enumerate() {
        source.restore_node(node(name, i as f32)).unwrap();
    }
    source.set_entry_point(VectorId::from_string("c"));
    let meta = HNSWMetadata::from_index(&source);
    let mut saved = Vec::new();
    for (start, end) in chunk_bounds(source.node_count(), 2) {
        for p in start..end {
            saved.push(source.node_at(p).clone());
        }
    }
    let loaded = HNSWIndex::restore_saved(&meta, saved);
    assert_eq!(loaded.node_count(), source.node_count());
    assert_eq!(loaded.entry_point(), source.entry_point());
    assert_eq!(loaded.config(), source.config());
    for p in 0..source.node_count() {
        assert_eq!(loaded.node_at(p).id(), source.node_at(p).id());
        assert_eq!(loaded.node_at(p).vector(), source.node_at(p).vector());
    }
}

#[test]
fn test_hybrid_counts_round_trip() {
    let mut tracker = HybridTracker::new(Duration::from_secs(3600));
    tracker.record_insert(VectorId::from_string("r"), 10, vector_db::hybrid::Tier::Recent);
    tracker.record_insert(VectorId::from_string("h"), 5, vector_db::hybrid::Tier::Historical);
    tracker.record_insert(VectorId::from_string("h2"), 6, vector_db::hybrid::Tier::Historical);
    let meta = HybridMetadata::from_index(HybridConfig::default(), &tracker, 99);
    let loaded = HybridTracker::from_parts(
        meta.config.recent_threshold,
        tracker.timestamps().clone(),
        meta.recent_count,
        meta.historical_count,
    );
    assert!(loaded.is_initialized());
    assert_eq!(loaded.recent_count(), 1);
    assert_eq!(loaded.historical_count(), 2);
    assert_eq!(loaded.total_vectors(), meta.total_vectors);
}
