use std::time::Duration;
use vector_db::storage::{
    BatchBuffers, BatchConfig, BufferedRead, CircuitBreaker, MockS5Storage, RetryRun, RetryStep, StorageCache,
    StorageError,
};

#[test]
fn test_cache_read_after_write() {
    let mut c = StorageCache::new(10);
    assert!(c.lookup("a", 0).is_none());
    c.record_put("a", vec![1, 2, 3], 0);
    assert_eq!(c.lookup("a", 5), Some(vec![1, 2, 3]));
    let st = c.stats();
    assert_eq!(st.hits, 1);
    assert_eq!(st.misses, 0);
    assert_eq!(st.entries, 1);
    assert_eq!(st.memory_bytes, 3);
}

#[test]
fn test_cache_capacity_evicts_least_recent() {
    let mut c = StorageCache::new(2);
    c.record_put("a", vec![1], 0);
    c.record_put("b", vec![2], 0);
    // "a" becomes the most recently used.
    assert!(c.lookup("a", 0).is_some());
    c.record_put("c", vec![3], 0);
    assert!(c.lookup("b", 0).is_none());
    assert!(c.lookup("a", 0).is_some());
    assert!(c.lookup("c", 0).is_some());
    assert_eq!(c.stats().entries, 2);
}

#[test]
fn test_cache_capacity_check_runs_at_capacity() {
    // The check evicts while there are at least `capacity` entries, so a
    // cache of capacity 2 keeps at most... two after a put.
    let mut c = StorageCache::new(2);
    c.record_put("a", vec![1], 0);
    c.record_put("b", vec![1], 0);
    c.record_put("c", vec![1], 0);
    assert_eq!(c.stats().entries, 2);
    assert!(c.lookup("a", 0).is_none());
}

#[test]
fn test_cache_memory_limit() {
    let mut c = StorageCache::with_memory_limit(10);
    c.record_put("a", vec![0; 6], 0);
    c.record_put("b", vec![0; 6], 0);
    // "a" made room for "b".
    assert!(c.lookup("a", 0).is_none());
    assert_eq!(c.lookup("b", 0), Some(vec![0; 6]));
    assert_eq!(c.stats().memory_bytes, 6);
}

#[test]
fn test_cache_ttl_expiry() {
    let mut c = StorageCache::with_ttl(10, Duration::from_nanos(100));
    c.record_put("a", vec![9], 1000);
    assert!(c.lookup("a", 1100).is_some());
    assert!(c.lookup("a", 1101).is_none());
    // A fetch after the miss stores the bytes again.
    c.record_fetch("a", &Some(vec![8]), 1101);
    assert_eq!(c.lookup("a", 1101), Some(vec![8]));
    assert_eq!(c.stats().misses, 1);
}

#[test]
fn test_cache_fetch_of_missing_counts_miss_only() {
    let mut c = StorageCache::new(4);
    c.record_fetch("x", &None, 0);
    let st = c.stats();
    assert_eq!(st.misses, 1);
    assert_eq!(st.entries, 0);
}

#[test]
fn test_cache_delete() {
    let mut c = StorageCache::new(4);
    c.record_put("a", vec![1, 2], 0);
    c.record_delete("a");
    assert!(c.lookup("a", 0).is_none());
    assert_eq!(c.stats().entries, 0);
    assert_eq!(c.stats().memory_bytes, 0);
}

#[test]
fn test_cache_update_replaces() {
    let mut c = StorageCache::new(1);
    c.record_put("a", vec![1, 2], 0);
    c.record_put("a", vec![3], 0);
    assert_eq!(c.lookup("a", 0), Some(vec![3]));
    assert_eq!(c.stats().entries, 1);
    assert_eq!(c.stats().memory_bytes, 1);
}

#[test]
fn test_circuit_breaker() {
    let mut b = CircuitBreaker::new(2, Duration::from_nanos(1000));
    assert!(!b.is_open(0));
    b.record_failure(10);
    assert!(!b.is_open(10));
    b.record_failure(20);
    assert!(b.is_open(20));
    assert!(b.is_open(1019));
    assert!(!b.is_open(1020));
    b.record_success();
    assert!(!b.is_open(21));
}

#[test]
fn test_retry_steps() {
    let mut breaker = Some(CircuitBreaker::new(2, Duration::from_secs(60)));
    let mut run = RetryRun::start(3, &breaker, 0).ok().unwrap();
    assert!(matches!(run.after_attempt(false, &mut breaker, 1), RetryStep::Retry));
    assert!(matches!(run.after_attempt(false, &mut breaker, 2), RetryStep::Retry));
    assert!(matches!(run.after_attempt(false, &mut breaker, 3), RetryStep::GiveUp));
    assert_eq!(run.attempts, 3);
    // The breaker is now open.
    assert!(matches!(RetryRun::start(3, &breaker, 4), Err(StorageError::CircuitBreakerOpen)));
    let mut none: Option<CircuitBreaker> = None;
    let mut run = RetryRun::start(1, &none, 0).ok().unwrap();
    assert!(matches!(run.after_attempt(true, &mut none, 0), RetryStep::Succeeded));
}

#[test]
fn test_batch_buffers() {
    let mut b = BatchBuffers::new(3);
    assert!(matches!(b.read("a"), BufferedRead::NotBuffered));
    assert!(!b.write("a", vec![1]));
    match b.read("a") {
        BufferedRead::Written(d) => assert_eq!(d, vec![1]),
        _ => panic!("expected the buffered write"),
    }
    assert!(!b.delete("a"));
    assert!(matches!(b.read("a"), BufferedRead::Deleted));
    assert!(!b.write("b", vec![2]));
    // Two buffered operations: the delete of "a" and the write of "b".
    assert!(b.write("c", vec![3]));
    let (writes, deletes) = b.take_pending();
    assert_eq!(writes.len(), 2);
    assert_eq!(deletes, vec!["a".to_string()]);
    assert!(matches!(b.read("b"), BufferedRead::NotBuffered));
}

#[test]
fn test_batch_write_cancels_delete() {
    let mut b = BatchBuffers::new(100);
    b.delete("a");
    b.write("a", vec![5]);
    let (writes, deletes) = b.take_pending();
    assert_eq!(writes, vec![("a".to_string(), vec![5])]);
    assert!(deletes.is_empty());
}

#[test]
fn test_batch_config_default() {
    let c = BatchConfig::default();
    assert_eq!(c.max_batch_size, 100);
    assert_eq!(c.flush_interval, Duration::from_secs(5));
}

#[test]
fn test_mock_storage() {
    let mut m = MockS5Storage::new();
    assert_eq!(m.get("x"), None);
    m.put("dir/a", vec![1]);
    m.put("dir/b", vec![2]);
    m.put("other/c", vec![3]);
    assert_eq!(m.get("dir/a"), Some(vec![1]));
    let mut listed = m.list("dir/");
    listed.sort();
    assert_eq!(listed, vec!["dir/a".to_string(), "dir/b".to_string()]);
    m.delete("dir/a");
    assert_eq!(m.get("dir/a"), None);
    assert_eq!(m.list("").len(), 2);
}
