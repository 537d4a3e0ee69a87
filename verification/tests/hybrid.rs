use std::time::Duration;
use vector_db::hybrid::{age_of, HybridConfig, HybridError, HybridSearchConfig, HybridTracker, Tier};
use vector_db::types::VectorId;

const SEC: i128 = 1_000_000_000;

#[test]
fn test_config_default_and_validity() {
    let c = HybridConfig::default();
    assert_eq!(c.recent_threshold, Duration::from_secs(7 * 24 * 3600));
    assert_eq!(c.ivf_config.n_clusters, 3);
    assert_eq!(c.ivf_config.n_probe, 2);
    assert_eq!(c.ivf_config.train_size, 9);
    assert!(c.is_valid());
    let mut bad = c;
    bad.migration_batch_size = 0;
    assert!(!bad.is_valid());
    let mut bad = c;
    bad.recent_threshold = Duration::from_millis(999);
    assert!(!bad.is_valid());
}

#[test]
fn test_routing() {
    let mut t = HybridTracker::new(Duration::from_secs(3600));
    let id = VectorId::from_string("a");
    assert!(matches!(t.route_new(&id, 0, 0), Err(HybridError::NotInitialized)));
    t.mark_initialized();
    let now = 10_000 * SEC;
    assert!(matches!(t.route_new(&id, now - 10 * SEC, now), Ok(Tier::Recent)));
    assert!(matches!(t.route_new(&id, now - 3600 * SEC, now), Ok(Tier::Historical)));
    // A timestamp in the future has age zero.
    assert!(matches!(t.route_new(&id, now + SEC, now), Ok(Tier::Recent)));
    t.record_insert(id.clone(), now - 10 * SEC, Tier::Recent);
    assert!(matches!(t.route_new(&id, now, now), Err(HybridError::DuplicateVector(_))));
    assert_eq!(t.recent_count(), 1);
    assert_eq!(t.historical_count(), 0);
    assert!(matches!(t.tier_of(&id, now), Some(Tier::Recent)));
    assert!(matches!(t.tier_of(&id, now + 3600 * SEC), Some(Tier::Historical)));
    assert!(t.tier_of(&VectorId::from_string("b"), now).is_none());
}

#[test]
fn test_migration_candidates_and_counts() {
    let mut t = HybridTracker::new(Duration::from_secs(60));
    t.mark_initialized();
    let now = 1000 * SEC;
    t.record_insert(VectorId::from_string("old"), now - 120 * SEC, Tier::Recent);
    t.record_insert(VectorId::from_string("new"), now - 10 * SEC, Tier::Recent);
    let c = t.migration_candidates(Duration::from_secs(60), now);
    assert_eq!(c, vec![VectorId::from_string("old")]);
    t.record_migrated(1);
    assert_eq!(t.recent_count(), 1);
    assert_eq!(t.historical_count(), 1);
    t.record_migrated(5);
    assert_eq!(t.recent_count(), 0);
    assert_eq!(t.total_vectors(), 6);
}

#[test]
fn test_age_distribution() {
    let mut t = HybridTracker::new(Duration::from_secs(60));
    t.mark_initialized();
    let now = 100 * 24 * 3600 * SEC;
    let ages = [10, 7200, 2 * 86400, 30 * 86400, 1800];
    for (i, a) in ages.iter().enumerate() {
        t.record_insert(VectorId::from_string(&format!("v{}", i)), now - a * SEC, Tier::Historical);
    }
    let d = t.age_distribution(now);
    assert_eq!(d.under_1_hour, 2);
    assert_eq!(d.under_1_day, 1);
    assert_eq!(d.under_1_week, 1);
    assert_eq!(d.over_1_week, 1);
    assert_eq!(d.total_vectors, 5);
    assert_eq!(d.buckets[0], ("< 1 hour".to_string(), 2));
    assert_eq!(d.buckets[3], ("> 1 week".to_string(), 1));
    assert_eq!(d.newest_timestamp, now - 10 * SEC);
    assert_eq!(d.oldest_timestamp, now - 30 * 86400 * SEC);
    let empty = HybridTracker::new(Duration::from_secs(60)).age_distribution(now);
    assert_eq!(empty.total_vectors, 0);
    assert_eq!(empty.newest_timestamp, now);
    assert_eq!(empty.oldest_timestamp, now);
}

#[test]
fn test_age_of() {
    assert_eq!(age_of(10, 3), 7);
    assert_eq!(age_of(3, 10), 0);
    assert_eq!(age_of(i128::MAX, i128::MIN), u128::MAX);
}

#[test]
fn test_search_config_ks() {
    let mut c = HybridSearchConfig::default();
    assert_eq!(c.k, 10);
    assert_eq!(c.tier_ks(), (10, 10));
    c.recent_k = 3;
    assert_eq!(c.tier_ks(), (3, 10));
}
