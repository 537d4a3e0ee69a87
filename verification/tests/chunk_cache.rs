use vector_db::chunk::VectorChunk;
use vector_db::chunk_cache::{CacheMetrics, ChunkCache};

fn hit_rate(m: &CacheMetrics) -> f64 {
    let total = m.total_requests();
    if total == 0 {
        0.0
    } else {
        m.hits as f64 / total as f64
    }
}

#[test]
fn test_cache_creation() {
    let cache = ChunkCache::new(10);
    assert_eq!(cache.capacity(), 10);
    assert_eq!(cache.len(), 0);
    assert!(cache.is_empty());
}

#[test]
fn test_metrics_initial_state() {
    let metrics = CacheMetrics::new();
    assert_eq!(metrics.hits, 0);
    assert_eq!(metrics.misses, 0);
    assert_eq!(metrics.evictions, 0);
    assert_eq!(metrics.total_requests(), 0);
    assert_eq!(hit_rate(&metrics), 0.0);
}

#[test]
fn test_metrics_hit_rate_calculation() {
    let mut metrics = CacheMetrics::new();
    metrics.hits = 7;
    metrics.misses = 3;
    assert_eq!(metrics.total_requests(), 10);
    assert_eq!(hit_rate(&metrics), 0.7);
}

#[test]
fn test_metrics_reset() {
    let mut metrics = CacheMetrics::new();
    metrics.hits = 10;
    metrics.misses = 5;
    metrics.evictions = 2;
    metrics.reset();
    assert_eq!(metrics.hits, 0);
    assert_eq!(metrics.misses, 0);
    assert_eq!(metrics.evictions, 0);
}

#[test]
fn test_cache_debug() {
    let cache = ChunkCache::new(10);
    let debug_str = format!("{:?}", cache);
    assert!(debug_str.contains("ChunkCache"));
    assert!(debug_str.contains("capacity"));
}

#[test]
fn test_get_after_put_and_metrics() {
    let mut cache = ChunkCache::new(2);
    cache.put("a".to_string(), VectorChunk::new("a".to_string(), 0, 9));
    let got = cache.get("a");
    assert!(got.is_some());
    assert_eq!(got.unwrap().chunk_id, "a");
    assert!(cache.get("zzz").is_none());
    let m = cache.get_metrics();
    assert_eq!(m.hits, 1);
    assert_eq!(m.misses, 1);
    assert_eq!(m.evictions, 0);
}

#[test]
fn test_lru_eviction_order() {
    let mut cache = ChunkCache::new(2);
    cache.put("a".to_string(), VectorChunk::new("a".to_string(), 0, 9));
    cache.put("b".to_string(), VectorChunk::new("b".to_string(), 10, 19));
    // Touch "a" so that "b" is the least recently used.
    assert!(cache.get("a").is_some());
    cache.put("c".to_string(), VectorChunk::new("c".to_string(), 20, 29));
    assert!(cache.contains("a"));
    assert!(!cache.contains("b"));
    assert!(cache.contains("c"));
    assert_eq!(cache.len(), 2);
    assert_eq!(cache.get_metrics().evictions, 1);
    // Replacing a present key evicts nothing.
    cache.put("c".to_string(), VectorChunk::new("c".to_string(), 30, 39));
    assert_eq!(cache.get_metrics().evictions, 1);
    assert_eq!(cache.get("c").unwrap().start_idx, 30);
}

#[test]
fn test_clear_keeps_metrics() {
    let mut cache = ChunkCache::new(3);
    cache.put("a".to_string(), VectorChunk::new("a".to_string(), 0, 9));
    let _ = cache.get("a");
    cache.clear();
    assert!(cache.is_empty());
    assert_eq!(cache.get_metrics().hits, 1);
    cache.reset_metrics();
    assert_eq!(cache.get_metrics().hits, 0);
    assert_eq!(cache.capacity(), 3);
}

#[test]
#[should_panic(expected = "Cache capacity must be greater than 0")]
fn test_cache_zero_capacity_panics() {
    let _ = ChunkCache::new(0);
}

#[test]
fn test_cache_clone() {
    let mut cache1 = ChunkCache::new(10);
    let chunk = VectorChunk::new("test".to_string(), 0, 9999);
    cache1.put("test".to_string(), chunk);

    let cache2 = cache1.clone();

    assert_eq!(cache2.len(), 1);
    assert!(cache2.contains("test"));
}
