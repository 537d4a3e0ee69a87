use vector_db::hnsw::{rank_candidates, HNSWConfig, HNSWError, HNSWIndex, HNSWNode};
use vector_db::types::VectorId;

fn bits(v: &[f32]) -> Vec<u32> {
    v.iter().map(|x| x.to_bits()).collect()
}

fn floats(v: &[u32]) -> Vec<f32> {
    v.iter().map(|x| f32::from_bits(*x)).collect()
}

fn key(a: &[f32], b: &[f32]) -> u64 {
    let d: f32 = a.iter().zip(b.iter()).map(|(x, y)| (x - y) * (x - y)).sum::<f32>().sqrt();
    d.to_bits() as u64
}

fn keys_from(index: &HNSWIndex, q: &[f32]) -> Vec<u64> {
    (0..index.node_count()).map(|p| key(&floats(index.node_at(p).vector()), q)).collect()
}

fn add(index: &mut HNSWIndex, name: &str, v: &[f32], level: usize) -> Result<(), HNSWError> {
    let dist = keys_from(index, v);
    let prune = index.insert(VectorId::from_string(name), bits(v), level, &dist)?;
    let keys = list_keys(index, &prune);
    index.prune_listed(&prune, &keys);
    Ok(())
}

fn list_keys(index: &HNSWIndex, pairs: &[(usize, usize)]) -> Vec<Vec<u64>> {
    pairs
        .iter()
        .map(|&(p, layer)| {
            let base = floats(index.node_at(p).vector());
            index
                .node_at(p)
                .neighbors(layer)
                .iter()
                .map(|id| key(&floats(index.get_node(id).unwrap().vector()), &base))
                .collect()
        })
        .collect()
}

fn line_index(n: usize) -> HNSWIndex {
    let mut index = HNSWIndex::new(HNSWConfig::default());
    for i in 0..n {
        add(&mut index, &format!("v{}", i), &[i as f32, 0.0], 0).unwrap();
    }
    index
}

#[test]
fn test_empty_index_search() {
    let index = HNSWIndex::new(HNSWConfig::default());
    assert_eq!(index.node_count(), 0);
    assert!(index.entry_point().is_none());
    assert!(index.dimension().is_none());
    let r = index.search(5, 10, 2, &Vec::new()).unwrap();
    assert!(r.is_empty());
}

#[test]
fn test_first_insert_sets_entry_and_dimension() {
    let mut index = HNSWIndex::new(HNSWConfig::default());
    add(&mut index, "a", &[1.0, 2.0, 3.0], 2).unwrap();
    assert_eq!(index.node_count(), 1);
    assert_eq!(index.entry_point(), Some(VectorId::from_string("a")));
    assert_eq!(index.dimension(), Some(3));
    assert_eq!(index.get_max_level(), 2);
}

#[test]
fn test_duplicate_and_dimension_errors() {
    let mut index = HNSWIndex::new(HNSWConfig::default());
    add(&mut index, "a", &[1.0, 2.0], 0).unwrap();
    match add(&mut index, "a", &[3.0, 4.0], 0) {
        Err(HNSWError::DuplicateVector(id)) => assert_eq!(id, VectorId::from_string("a")),
        other => panic!("unexpected {:?}", other),
    }
    match add(&mut index, "b", &[3.0, 4.0, 5.0], 0) {
        Err(HNSWError::DimensionMismatch { expected, actual }) => {
            assert_eq!(expected, 2);
            assert_eq!(actual, 3);
        }
        other => panic!("unexpected {:?}", other),
    }
    assert_eq!(index.node_count(), 1);
}

#[test]
fn test_search_finds_nearest() {
    let index = line_index(10);
    let q = [6.2f32, 0.0];
    let r = index.search(3, 50, 2, &keys_from(&index, &q)).unwrap();
    assert_eq!(r.len(), 3);
    let names: Vec<VectorId> = r.iter().map(|c| index.node_at(c.0).id().clone()).collect();
    assert_eq!(names[0], VectorId::from_string("v6"));
    assert_eq!(names[1], VectorId::from_string("v7"));
    assert_eq!(names[2], VectorId::from_string("v5"));
    assert!(r[0].1 <= r[1].1 && r[1].1 <= r[2].1);
}

#[test]
fn test_search_dimension_mismatch() {
    let index = line_index(3);
    match index.search(1, 10, 5, &keys_from(&index, &[0.0, 0.0])) {
        Err(HNSWError::DimensionMismatch { expected, actual }) => {
            assert_eq!(expected, 2);
            assert_eq!(actual, 5);
        }
        other => panic!("unexpected {:?}", other),
    }
}

#[test]
fn test_search_missing_entry_point() {
    let mut index = line_index(2);
    index.set_entry_point(VectorId::from_string("ghost"));
    match index.search(1, 10, 2, &keys_from(&index, &[0.0, 0.0])) {
        Err(HNSWError::ChunkLoadError(m)) => {
            assert!(m.starts_with("Entry point node not found in index. Entry point: VectorId(["));
            assert!(m.contains(", Total nodes in memory: 2. This may indicate"));
        }
        other => panic!("unexpected {:?}", other),
    }
}

#[test]
fn test_links_are_mutual_on_small_graph() {
    let index = line_index(4);
    for p in 0..index.node_count() {
        let node = index.node_at(p);
        for n in node.neighbors(0) {
            let other = index.get_node(n).unwrap();
            assert!(other.neighbors(0).contains(node.id()));
        }
    }
}

#[test]
fn test_prune_keeps_nearest() {
    let config = HNSWConfig { max_connections: 2, max_connections_layer_0: 2, ef_construction: 50, seed: None };
    let mut index = HNSWIndex::new(config);
    for i in 0..6 {
        add(&mut index, &format!("p{}", i), &[i as f32], 0).unwrap();
    }
    for p in 0..index.node_count() {
        assert!(index.node_at(p).neighbors(0).len() <= 2);
    }
    let first = index.get_node(&VectorId::from_string("p0")).unwrap();
    assert!(first.neighbors(0).contains(&VectorId::from_string("p1")));
}

#[test]
fn test_prune_listed_twice_listed_bounds_degree() {
    let config = HNSWConfig { max_connections: 2, max_connections_layer_0: 2, ef_construction: 50, seed: None };
    let mut index = HNSWIndex::new(config);
    for i in 0..3 {
        add(&mut index, &format!("q{}", i), &[i as f32], 0).unwrap();
    }
    let dist = keys_from(&index, &[1.5]);
    let prune = index.insert(VectorId::from_string("q3"), bits(&[1.5]), 0, &dist).unwrap();
    assert!(!prune.is_empty());
    let mut pairs = prune.clone();
    pairs.extend(prune.iter().cloned());
    let keys = list_keys(&index, &pairs);
    index.prune_listed(&pairs, &keys);
    for p in 0..index.node_count() {
        assert!(index.node_at(p).neighbors(0).len() <= 2);
    }
    // the node at 1.0 keeps the new node at 1.5 and the first listed of its
    // two neighbours at distance 1
    let one = index.get_node(&VectorId::from_string("q1")).unwrap();
    assert_eq!(one.neighbors(0).len(), 2);
    assert!(one.neighbors(0).contains(&VectorId::from_string("q3")));
    assert!(one.neighbors(0).contains(&VectorId::from_string("q0")));
}

#[test]
fn test_mark_deleted_and_active_count() {
    let mut index = line_index(4);
    assert_eq!(index.active_count(), 4);
    index.mark_deleted(&VectorId::from_string("v1")).unwrap();
    assert!(index.is_deleted(&VectorId::from_string("v1")));
    assert!(!index.is_deleted(&VectorId::from_string("v2")));
    assert!(!index.is_deleted(&VectorId::from_string("nope")));
    assert_eq!(index.active_count(), 3);
    match index.mark_deleted(&VectorId::from_string("nope")) {
        Err(HNSWError::VectorNotFound(id)) => assert_eq!(id, VectorId::from_string("nope")),
        other => panic!("unexpected {:?}", other),
    }
}

#[test]
fn test_deleted_nodes_not_returned_beyond_entry() {
    let mut index = line_index(6);
    index.mark_deleted(&VectorId::from_string("v3")).unwrap();
    let r = index.search(6, 50, 2, &keys_from(&index, &[3.0, 0.0])).unwrap();
    let entry = index.entry_point().unwrap();
    for c in &r {
        let id = index.node_at(c.0).id();
        assert!(id == &entry || !index.is_deleted(id));
    }
}

#[test]
fn test_search_skips_deleted_entry_point() {
    let mut index = line_index(5);
    let entry = index.entry_point().unwrap();
    index.mark_deleted(&entry).unwrap();
    let r = index.search(5, 50, 2, &keys_from(&index, &[0.0, 0.0])).unwrap();
    assert!(!r.is_empty());
    for c in &r {
        assert!(!index.is_deleted(index.node_at(c.0).id()));
    }
    assert_eq!(r.len(), 4);
}

#[test]
fn test_vacuum_removes_deleted() {
    let mut index = line_index(5);
    index.mark_deleted(&VectorId::from_string("v2")).unwrap();
    index.mark_deleted(&VectorId::from_string("v4")).unwrap();
    let removed = index.vacuum().unwrap();
    assert_eq!(removed, 2);
    assert_eq!(index.node_count(), 3);
    assert!(index.get_node(&VectorId::from_string("v2")).is_none());
    for p in 0..index.node_count() {
        let n = index.node_at(p);
        assert!(!n.neighbors(0).contains(&VectorId::from_string("v2")));
        assert!(!n.neighbors(0).contains(&VectorId::from_string("v4")));
    }
    assert_eq!(index.vacuum().unwrap(), 0);
}

#[test]
fn test_level_distribution() {
    let mut index = HNSWIndex::new(HNSWConfig::default());
    add(&mut index, "a", &[0.0], 0).unwrap();
    add(&mut index, "b", &[1.0], 2).unwrap();
    add(&mut index, "c", &[2.0], 1).unwrap();
    assert_eq!(index.get_max_level(), 2);
    assert_eq!(index.get_level_distribution(), vec![3, 2, 1]);
    assert_eq!(index.entry_point(), Some(VectorId::from_string("b")));
}

#[test]
fn test_restore_node_replaces_or_appends() {
    let mut index = HNSWIndex::new(HNSWConfig::default());
    let n = HNSWNode::new(VectorId::from_string("x"), bits(&[1.0, 2.0]));
    index.restore_node(n).unwrap();
    assert_eq!(index.dimension(), Some(2));
    assert_eq!(index.node_count(), 1);
    let mut m = HNSWNode::new(VectorId::from_string("x"), bits(&[5.0, 6.0, 7.0]));
    m.set_level(1);
    index.restore_node(m).unwrap();
    assert_eq!(index.node_count(), 1);
    assert_eq!(index.dimension(), Some(2));
    assert_eq!(index.get_node(&VectorId::from_string("x")).unwrap().level(), 1);
    index.restore_node(HNSWNode::new(VectorId::from_string("y"), bits(&[0.0, 0.0]))).unwrap();
    assert_eq!(index.node_count(), 2);
}

#[test]
fn test_graph_counts() {
    let empty = HNSWIndex::new(HNSWConfig::default());
    let c = empty.graph_counts();
    assert_eq!((c.total_nodes, c.total_edges, c.max_layer, c.connected_components), (0, 0, 0, 0));
    let mut index = line_index(3);
    let c = index.graph_counts();
    assert_eq!(c.total_nodes, 3);
    assert_eq!(c.total_edges, 3);
    assert_eq!(c.max_layer, 0);
    assert_eq!(c.connected_components, 1);
    index.mark_deleted(&VectorId::from_string("v0")).unwrap();
    let c = index.graph_counts();
    assert_eq!(c.total_nodes, 2);
    assert_eq!(c.total_edges, 2);
}

#[test]
fn test_estimate_memory_usage() {
    let index = line_index(3);
    let m = index.estimate_memory_usage(100);
    let overhead = 33 + std::mem::size_of::<usize>();
    assert_eq!(m.nodes_bytes, 3 * overhead);
    assert_eq!(m.vectors_bytes, 3 * 2 * 4);
    assert_eq!(m.graph_bytes, 6 * 32);
    assert_eq!(m.total_bytes, 100 + m.nodes_bytes + m.vectors_bytes + m.graph_bytes);
}

#[test]
fn test_node_add_neighbor_and_set_level() {
    let mut n = HNSWNode::new(VectorId::from_string("n"), bits(&[1.0]));
    assert_eq!(n.level(), 0);
    n.add_neighbor(0, VectorId::from_string("m"));
    n.add_neighbor(0, VectorId::from_string("m"));
    assert_eq!(n.neighbors(0).len(), 1);
    n.set_level(2);
    assert_eq!(n.level(), 2);
    assert!(n.neighbors(2).is_empty());
    assert_eq!(n.neighbors(0).len(), 1);
    assert!(!n.is_deleted());
    n.mark_deleted();
    assert!(n.is_deleted());
}

#[test]
fn test_compact_and_defragment_leave_index() {
    let mut index = line_index(4);
    let c = index.compact_layers().unwrap();
    assert_eq!((c.layers_removed, c.nodes_relocated), (0, 0));
    let d = index.defragment().unwrap();
    assert_eq!((d.bytes_saved, d.nodes_moved), (0, 0));
    assert_eq!(index.node_count(), 4);
}

#[test]
fn test_batch_delete_counts_unknown() {
    let mut index = line_index(3);
    let ids = vec![
        VectorId::from_string("v0"),
        VectorId::from_string("nope"),
        VectorId::from_string("v2"),
    ];
    let r = index.batch_delete(&ids).unwrap();
    assert_eq!((r.successful, r.failed), (2, 1));
    assert_eq!(r.errors.len(), 1);
    assert_eq!(r.errors[0].0, VectorId::from_string("nope"));
    assert!(matches!(r.errors[0].1, HNSWError::VectorNotFound(_)));
    assert!(index.is_deleted(&VectorId::from_string("v0")));
    assert!(!index.is_deleted(&VectorId::from_string("v1")));
    assert!(index.is_deleted(&VectorId::from_string("v2")));
    assert_eq!(index.active_count(), 1);
}

#[test]
fn test_rebalance_and_optimize_change_nothing() {
    let mut index = line_index(3);
    let r = index.rebalance().unwrap();
    assert_eq!((r.nodes_moved, r.layers_adjusted), (0, 0));
    let o = index.optimize_connections().unwrap();
    assert_eq!((o.edges_added, o.edges_removed), (0, 0));
    assert_eq!(index.node_count(), 3);
}

#[test]
fn test_search_names_each_node_once() {
    let index = line_index(12);
    let r = index.search(12, 64, 2, &keys_from(&index, &[5.0, 0.0])).unwrap();
    assert!(!r.is_empty());
    for i in 0..r.len() {
        for j in i + 1..r.len() {
            assert_ne!(r[i].0, r[j].0);
        }
        if i > 0 {
            assert!(r[i - 1].1 <= r[i].1);
        }
    }
}

#[test]
fn test_insert_links_both_ways() {
    let mut index = HNSWIndex::new(HNSWConfig::default());
    add(&mut index, "a", &[0.0, 0.0], 0).unwrap();
    add(&mut index, "b", &[1.0, 0.0], 0).unwrap();
    let a = VectorId::from_string("a");
    let b = VectorId::from_string("b");
    assert_eq!(index.node_count(), 2);
    assert!(index.get_node(&b).unwrap().neighbors(0).contains(&a));
    assert!(index.get_node(&a).unwrap().neighbors(0).contains(&b));
}

#[test]
fn test_rank_candidates_keeps_k_nearest_in_order() {
    let v = vec![(0, 30), (1, 10), (2, 20), (3, 40)];
    assert_eq!(rank_candidates(v.clone(), 2), vec![(1, 10), (2, 20)]);
    assert_eq!(rank_candidates(v, 9), vec![(1, 10), (2, 20), (0, 30), (3, 40)]);
    assert!(rank_candidates(Vec::new(), 3).is_empty());
}
