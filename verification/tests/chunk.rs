use vector_db::chunk::{ChunkError, ChunkMetadata, HNSWManifest, IVFManifest, Manifest, VectorChunk, MANIFEST_VERSION};
use vector_db::types::VectorId;

fn bits(v: &[f32]) -> Vec<u32> {
    v.iter().map(|x| x.to_bits()).collect()
}

#[test]
fn test_manifest_version() {
    let manifest = Manifest::new(10000, 0);
    assert_eq!(manifest.version, MANIFEST_VERSION);
}

#[test]
fn test_chunk_error_display() {
    let error = ChunkError::InvalidVersion { expected: 2, found: 3 };
    assert!(error.to_string().contains("expected 2"));
}

#[test]
fn test_vector_chunk_basic_operations() {
    let mut chunk = VectorChunk::new("test".to_string(), 0, 999);
    let id = VectorId::from_string("vec1");
    let vector = bits(&[1.0, 2.0, 3.0]);
    chunk.add_vector(id.clone(), vector.clone());
    assert_eq!(chunk.len(), 1);
    assert!(!chunk.is_empty());
    assert_eq!(chunk.get_vector(&id), Some(&vector));
}

#[test]
fn test_chunk_error_messages() {
    assert_eq!(ChunkError::InvalidVersion { expected: 2, found: 3 }.to_string(), "Invalid version: expected 2, found 3");
    assert_eq!(ChunkError::InvalidRange { start: 10, end: 5 }.to_string(), "Invalid chunk range: start=10, end=5");
    assert_eq!(ChunkError::ChunkOverlap("x".to_string()).to_string(), "Chunk overlap detected: x");
}

#[test]
fn test_add_vector_replaces_same_id() {
    let mut chunk = VectorChunk::new("c".to_string(), 0, 9);
    let id = VectorId::from_string("a");
    chunk.add_vector(id.clone(), bits(&[1.0]));
    chunk.add_vector(id.clone(), bits(&[2.0]));
    assert_eq!(chunk.len(), 1);
    assert_eq!(chunk.get_vector(&id), Some(&bits(&[2.0])));
    assert_eq!(chunk.get_vector(&VectorId::from_string("b")), None);
}

#[test]
fn test_overlaps() {
    let a = VectorChunk::new("a".to_string(), 0, 9);
    let b = VectorChunk::new("b".to_string(), 5, 15);
    let c = VectorChunk::new("c".to_string(), 10, 20);
    assert!(a.overlaps_with(&b));
    assert!(!a.overlaps_with(&c));
    assert!(b.overlaps_with(&c));
}

#[test]
fn test_manifest_validate_duplicates() {
    let mut m = Manifest::new(100, 0);
    let id = VectorId::from_string("x");
    m.add_chunk(ChunkMetadata::new("c1".to_string(), 1, 10, id.clone(), id.clone()));
    m.add_chunk(ChunkMetadata::new("c2".to_string(), 1, 10, id.clone(), id.clone()));
    assert!(m.validate().is_ok());
    m.add_chunk(ChunkMetadata::new("c1".to_string(), 1, 10, id.clone(), id.clone()));
    match m.validate() {
        Err(ChunkError::ChunkOverlap(msg)) => assert_eq!(msg, "Duplicate chunk ID: c1"),
        _ => panic!("expected a duplicate"),
    }
    assert_eq!(m.num_chunks(), 3);
    assert_eq!(m.get_chunk_ids(), vec!["c1".to_string(), "c2".to_string(), "c1".to_string()]);
    assert!(m.get_chunk("c2").is_some());
    assert!(m.get_chunk("c9").is_none());
}

#[test]
fn test_check_version() {
    let mut m = Manifest::new(100, 0);
    m.version = MANIFEST_VERSION + 1;
    assert!(matches!(Manifest::check_version(m), Err(ChunkError::InvalidVersion { expected: 3, found: 4 })));
    let ok = Manifest::new(100, 0);
    assert!(Manifest::check_version(ok).is_ok());
}

#[test]
fn test_hnsw_manifest_mapping() {
    let entry = VectorId::from_string("e");
    let mut h = HNSWManifest::new(entry.clone());
    h.add_layer(0, 10);
    h.add_node_chunk_mapping(entry.clone(), "chunk_0".to_string());
    h.add_node_chunk_mapping(entry.clone(), "chunk_1".to_string());
    assert_eq!(h.get_chunk_for_node(&entry), Some(&"chunk_1".to_string()));
    assert_eq!(h.get_chunk_for_node(&VectorId::from_string("other")), None);
    assert_eq!(h.layers.len(), 1);
}

#[test]
fn test_ivf_manifest_assignments() {
    let mut m = IVFManifest::new(vec![bits(&[0.0, 1.0]), bits(&[1.0, 0.0])]);
    assert_eq!(m.num_centroids(), 2);
    m.add_cluster_assignment(1, vec!["a".to_string()]);
    m.add_cluster_assignment(1, vec!["b".to_string()]);
    assert_eq!(m.get_chunks_for_cluster(1), Some(&vec!["b".to_string()]));
    assert_eq!(m.get_chunks_for_cluster(0), None);
}

#[test]
fn test_chunk_metadata_cid() {
    let id = VectorId::from_string("x");
    let mut c = ChunkMetadata::new("c1".to_string(), 5, 100, id.clone(), id);
    assert_eq!(c.cid, None);
    c.set_cid("bafy".to_string());
    assert_eq!(c.cid, Some("bafy".to_string()));
}
