use vector_db::ivf::{ClusterId, ExportedCentroid, IVFConfig, IVFError, IVFIndex, InvertedList, OperationError};
use vector_db::types::VectorId;

fn config(n: usize) -> IVFConfig {
    IVFConfig { n_clusters: n, n_probe: 1, train_size: 10, max_iterations: 5, seed: Some(1) }
}

fn trained(n: usize, dim: usize) -> IVFIndex {
    let mut index = IVFIndex::new(config(n));
    let centroids: Vec<Vec<u32>> = (0..n).map(|i| vec![(i as f32).to_bits(); dim]).collect();
    index.set_trained(centroids, dim);
    index
}

fn id(s: &str) -> VectorId {
    VectorId::from_string(s)
}

#[test]
fn test_ivf_training_data_checks() {
    let index = IVFIndex::new(config(2));
    match index.check_training_data(&vec![]) {
        Err(IVFError::InsufficientTrainingData { got, need }) => assert_eq!((got, need), (0, 2)),
        _ => panic!("expected insufficient data"),
    }
    match index.check_training_data(&vec![3]) {
        Err(IVFError::InsufficientTrainingData { got, need }) => assert_eq!((got, need), (1, 2)),
        _ => panic!("expected insufficient data"),
    }
    match index.check_training_data(&vec![3, 3, 4]) {
        Err(IVFError::InconsistentDimensions { expected, found }) => assert_eq!((expected, found), (3, 4)),
        _ => panic!("expected inconsistent dimensions"),
    }
    assert_eq!(index.check_training_data(&vec![3, 3, 3]).unwrap(), 3);
}

#[test]
fn test_ivf_insert_before_training() {
    let mut index = IVFIndex::new(config(2));
    assert!(matches!(index.insert(id("a"), vec![0, 0], 0), Err(IVFError::NotTrained)));
    assert!(matches!(index.check_trained(), Err(IVFError::NotTrained)));
    assert_eq!(index.total_vectors(), 0);
}

#[test]
fn test_ivf_insert_and_sizes() {
    let mut index = trained(3, 2);
    assert!(index.is_trained());
    assert_eq!(index.dimension(), Some(2));
    index.insert(id("a"), vec![1, 2], 0).unwrap();
    index.insert(id("b"), vec![1, 2], 2).unwrap();
    index.insert(id("c"), vec![1, 2], 2).unwrap();
    assert_eq!(index.total_vectors(), 3);
    assert_eq!(index.get_cluster_size(ClusterId(0)), 1);
    assert_eq!(index.get_cluster_size(ClusterId(1)), 0);
    assert_eq!(index.get_cluster_size(ClusterId(2)), 2);
    assert_eq!(index.get_cluster_size(ClusterId(9)), 0);
    assert_eq!(
        index.get_cluster_sizes(),
        vec![(ClusterId(0), 1), (ClusterId(1), 0), (ClusterId(2), 2)]
    );
    assert_eq!(index.get_cluster_distribution(), vec![(ClusterId(0), 1), (ClusterId(2), 2)]);
}

#[test]
fn test_ivf_insert_errors() {
    let mut index = trained(2, 2);
    index.insert(id("a"), vec![1, 2], 1).unwrap();
    assert!(matches!(index.insert(id("a"), vec![3, 4], 1), Err(IVFError::DuplicateVector(_))));
    match index.insert(id("b"), vec![1, 2, 3], 1) {
        Err(IVFError::DimensionMismatch { expected, actual }) => assert_eq!((expected, actual), (2, 3)),
        _ => panic!("expected a dimension mismatch"),
    }
    assert_eq!(index.total_vectors(), 1);
    assert!(matches!(index.check_vector(3), Err(IVFError::DimensionMismatch { .. })));
    assert!(index.check_vector(2).is_ok());
}

#[test]
fn test_ivf_insert_with_chunk() {
    let mut index = trained(2, 1);
    index.insert_with_chunk(id("a"), vec![7], 0, Some("chunks/0".to_string())).unwrap();
    let list = index.get_inverted_list(ClusterId(0)).unwrap();
    assert!(list.has_chunk_refs());
    assert_eq!(list.chunk_refs()[0].1, "chunks/0");
    assert!(list.vectors().is_empty());
    // An inline insert checks only the inline vectors of the list.
    assert!(index.insert_with_chunk(id("a"), vec![7], 0, None).is_ok());
    assert_eq!(index.get_inverted_list(ClusterId(0)).unwrap().len(), 2);
    assert!(matches!(
        index.insert_with_chunk(id("a"), vec![7], 0, Some("chunks/1".to_string())),
        Err(IVFError::DuplicateVector(_))
    ));
}

#[test]
fn test_inverted_list_rules() {
    let mut list = InvertedList::new();
    list.insert(id("a"), vec![1]).unwrap();
    assert!(matches!(list.insert(id("a"), vec![2]), Err(IVFError::DuplicateVector(_))));
    assert!(matches!(list.insert_with_chunk(id("a"), "c".to_string()), Err(IVFError::DuplicateVector(_))));
    list.insert_with_chunk(id("b"), "c".to_string()).unwrap();
    assert_eq!(list.len(), 2);
}

#[test]
fn test_ivf_set_inverted_lists_counts() {
    let mut index = trained(2, 1);
    let mut a = InvertedList::new();
    a.insert(id("x"), vec![1]).unwrap();
    a.insert_with_chunk(id("y"), "c".to_string()).unwrap();
    let mut b = InvertedList::new();
    b.insert(id("z"), vec![2]).unwrap();
    index.set_inverted_lists(vec![a, b]);
    assert_eq!(index.total_vectors(), 3);
}

#[test]
fn test_ivf_export_import_centroids() {
    let untrained = IVFIndex::new(config(2));
    assert!(matches!(untrained.export_centroids(), Err(OperationError::IVF(IVFError::NotTrained))));
    let index = trained(2, 3);
    let exported = index.export_centroids().unwrap();
    assert_eq!(exported.len(), 2);
    assert_eq!((exported[1].id, exported[1].dimension), (1, 3));
    assert_eq!(exported[1].vector, vec![1.0f32.to_bits(); 3]);

    let mut other = IVFIndex::new(config(2));
    match other.import_centroids(vec![]) {
        Err(OperationError::InvalidParameter(m)) => assert_eq!(m, "No centroids to import"),
        _ => panic!("an empty import is refused"),
    }
    let mixed = vec![
        ExportedCentroid { id: 0, vector: vec![0, 0], dimension: 2 },
        ExportedCentroid { id: 1, vector: vec![0], dimension: 1 },
    ];
    match other.import_centroids(mixed) {
        Err(OperationError::InvalidParameter(m)) => assert_eq!(m, "Inconsistent centroid dimensions"),
        _ => panic!("mixed dimensions are refused"),
    }
    assert!(!other.is_trained());
    let three = vec![
        ExportedCentroid { id: 0, vector: vec![1, 2], dimension: 2 },
        ExportedCentroid { id: 1, vector: vec![3, 4], dimension: 2 },
        ExportedCentroid { id: 2, vector: vec![5, 6], dimension: 2 },
    ];
    other.import_centroids(three).unwrap();
    assert!(other.is_trained());
    assert_eq!(other.dimension(), Some(2));
    assert_eq!(other.get_centroids(), &vec![vec![1, 2], vec![3, 4], vec![5, 6]]);
    assert_eq!(other.get_all_inverted_lists().len(), 3);
}

#[test]
fn test_ivf_empty_clusters_and_memory() {
    let mut index = trained(3, 2);
    assert_eq!(index.empty_cluster_count(), 3);
    index.insert(id("a"), vec![1, 2], 1).unwrap();
    assert_eq!(index.empty_cluster_count(), 2);
    let m = index.estimate_memory_usage();
    assert_eq!(m.centroids_bytes, 3 * 2 * 4);
    assert_eq!(m.vectors_bytes, 8);
    assert_eq!(m.inverted_lists_bytes, 48 * 3 + 80);
    assert_eq!(m.total_bytes, 24 + 8 + 224 + 256);
    let c = index.compact_clusters().unwrap();
    assert_eq!((c.clusters_compacted, c.bytes_saved), (3, 0));
}

#[test]
fn test_ivf_move_vector() {
    let mut index = trained(3, 2);
    index.insert(id("a"), vec![1, 2], 0).unwrap();
    index.insert(id("b"), vec![3, 4], 0).unwrap();
    assert!(index.move_vector(&id("a"), ClusterId(0), ClusterId(2)));
    assert_eq!(index.get_cluster_size(ClusterId(0)), 1);
    assert_eq!(index.get_cluster_size(ClusterId(2)), 1);
    assert_eq!(index.get_inverted_list(ClusterId(2)).unwrap().vectors(), &vec![(id("a"), vec![1, 2])]);
    assert!(!index.move_vector(&id("zz"), ClusterId(0), ClusterId(1)));
    assert_eq!(index.total_vectors(), 2);
}

#[test]
fn test_inverted_list_size_counts_inline() {
    let mut list = InvertedList::new();
    list.insert(id("a"), vec![1]).unwrap();
    list.insert_with_chunk(id("b"), "c0".to_string()).unwrap();
    assert_eq!(list.size(), 1);
    assert_eq!(list.len(), 2);
}
