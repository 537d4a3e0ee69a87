use vector_db::s5::{
    count_words, parse_bool, parse_u32, parse_u64, S5Config, S5StorageFactory, StorageConfigError, StorageMetadata, StorageMode,
};
use vector_db::s5_node::{
    cid_part, download_url, fs_url, health_url, is_s5_cid, list_url, metadata_url, upload_retry_delay_ms, upload_url, S5KeyIndex,
};

#[test]
fn test_validate_seed_phrase() {
    let twelve = "a b c d e f g h i j k l";
    assert!(S5StorageFactory::validate_seed_phrase(twelve).is_ok());
    let twenty_four = "w ".repeat(24);
    assert!(S5StorageFactory::validate_seed_phrase(&twenty_four).is_ok());
    match S5StorageFactory::validate_seed_phrase("one two three") {
        Err(e) => assert_eq!(e.message(), "Invalid seed phrase: expected 12 or 24 words, got 3"),
        Ok(()) => panic!("three words are not a seed phrase"),
    }
}

#[test]
fn test_count_words() {
    assert_eq!(count_words(""), 0);
    assert_eq!(count_words("   "), 0);
    assert_eq!(count_words(" a  b\tc\n"), 3);
    assert_eq!(count_words("a\u{3000}b"), 2);
}

#[test]
fn test_parsers() {
    assert_eq!(parse_u64("5000"), Some(5000));
    assert_eq!(parse_u64("+7"), Some(7));
    assert_eq!(parse_u64(""), None);
    assert_eq!(parse_u64("+"), None);
    assert_eq!(parse_u64("-1"), None);
    assert_eq!(parse_u64("18446744073709551615"), Some(u64::MAX));
    assert_eq!(parse_u64("18446744073709551616"), None);
    assert_eq!(parse_u32("4294967296"), None);
    assert_eq!(parse_u32("12a"), None);
    assert_eq!(parse_bool("true"), Some(true));
    assert_eq!(parse_bool("false"), Some(false));
    assert_eq!(parse_bool("True"), None);
    for s in ["0", "42", "+3", "999999", "12x", "", " 1"] {
        assert_eq!(parse_u64(s), s.parse::<u64>().ok());
        assert_eq!(parse_u32(s), s.parse::<u32>().ok());
    }
}

#[test]
fn test_config_from_env_values() {
    let c = S5StorageFactory::config_from_env_values(None, None, None, None, None, Some("250"), Some("x"), Some("false"))
        .ok()
        .unwrap();
    assert_eq!(c.mode, StorageMode::Mock);
    assert_eq!(c.mock_server_url, Some("http://localhost:5522".to_string()));
    assert_eq!(c.connection_timeout, Some(250));
    assert_eq!(c.retry_attempts, None);
    assert_eq!(c.encrypt_at_rest, Some(false));

    let e = S5StorageFactory::config_from_env_values(None, Some("real"), None, None, None, None, None, None);
    assert_eq!(e.err().unwrap().message(), "S5_PORTAL_URL required for real mode");

    let e = S5StorageFactory::config_from_env_values(Some("real"), None, None, Some("ftp://x"), None, None, None, None);
    assert_eq!(e.err().unwrap().message(), "Invalid URL format for S5_PORTAL_URL: must start with http:// or https://");

    // STORAGE_MODE wins over S5_MODE.
    let c = S5StorageFactory::config_from_env_values(Some("mock"), Some("real"), Some("https://m"), None, None, None, None, None)
        .ok()
        .unwrap();
    assert_eq!(c.mode, StorageMode::Mock);

    let e = S5StorageFactory::config_from_env_values(None, None, Some("localhost"), None, None, None, None, None);
    assert!(e.is_err());

    let c = S5StorageFactory::config_from_env_values(
        Some("real"), None, None, Some("http://portal"), Some("a b c d e f g h i j k l"), None, Some("4"), None)
        .ok()
        .unwrap();
    assert_eq!(c.mode, StorageMode::Real);
    assert_eq!(c.portal_url, Some("http://portal".to_string()));
    assert_eq!(c.retry_attempts, Some(4));
    assert!(c.seed_phrase.is_some());

    let e = S5StorageFactory::config_from_env_values(Some("real"), None, None, Some("http://portal"), Some("a b"), None, None, None);
    assert_eq!(e.err().unwrap().message(), "Invalid seed phrase: expected 12 or 24 words, got 2");
}

#[test]
fn test_check_config_and_paths() {
    let c = S5StorageFactory::config_from_env_values(None, None, None, None, None, None, None, None).ok().unwrap();
    assert_eq!(S5StorageFactory::check_config(&c).ok(), Some(30000));
    let mut bad = S5StorageFactory::config_from_env_values(None, None, None, None, None, None, None, None).ok().unwrap();
    bad.mock_server_url = None;
    assert_eq!(S5StorageFactory::check_config(&bad).err().unwrap().message(), "mock_server_url is required for Mock mode");
    assert_eq!(S5StorageFactory::storage_path(StorageMode::Mock, "k"), "/s5/fs/k");
    assert_eq!(S5StorageFactory::storage_path(StorageMode::Real, "k"), "/storage/k");
}

#[test]
fn test_storage_config_error() {
    let e = StorageConfigError::new("bad");
    assert_eq!(e.message(), "bad");
    assert_eq!(e.to_string(), "Storage configuration error: bad");
}

#[test]
fn test_s5_config_default() {
    let c = S5Config::default();
    assert_eq!(c.node_url, "http://localhost:5050");
    assert_eq!(c.cache_size, 100);
    assert!(!c.enable_compression);
}

fn meta(key: &str, cid: &str, compressed: bool) -> StorageMetadata {
    StorageMetadata { key: key.to_string(), cid: cid.to_string(), size: 3, created_at: 1, compressed }
}

#[test]
fn test_node_addresses() {
    assert_eq!(cid_part("s5://abc"), "abc");
    assert_eq!(cid_part("abc"), "abc");
    assert!(is_s5_cid("s5://x"));
    assert!(!is_s5_cid("s5:/x"));
    assert_eq!(health_url("http://n"), "http://n/health");
    assert_eq!(upload_url("http://n"), "http://n/s5/upload");
    assert_eq!(download_url("http://n", "s5://abc"), "http://n/s5/download/abc");
    assert_eq!(metadata_url("http://n", "z"), "http://n/s5/metadata/z");
    assert_eq!(fs_url("http://n", "a/b"), "http://n/s5/fs/a/b");
    assert_eq!(list_url("http://n", ""), "http://n/s5/fs/");
    assert_eq!(list_url("http://n", "dir"), "http://n/s5/fs/dir/");
}

#[test]
fn test_node_upload_retry_schedule() {
    assert_eq!(upload_retry_delay_ms(0), Some(200));
    assert_eq!(upload_retry_delay_ms(1), Some(400));
    assert_eq!(upload_retry_delay_ms(2), None);
}

#[test]
fn test_node_key_index() {
    let mut index = S5KeyIndex::new();
    index.record(meta("a/1", "s5://c1", false));
    index.record(meta("b/1", "s5://c2", true));
    index.record(meta("a/2", "s5://c2", false));
    assert_eq!(index.cid_of("a/1"), Some("s5://c1".to_string()));
    assert!(index.has_key("b/1"));
    assert!(index.is_compressed("b/1"));
    assert!(!index.is_compressed("a/2"));
    assert_eq!(index.keys_with_prefix("a/"), vec!["a/1".to_string(), "a/2".to_string()]);
    assert_eq!(index.key_of_cid("s5://c2"), Some("b/1".to_string()));
    assert_eq!(index.key_of_cid("s5://none"), None);
    index.record(meta("a/1", "s5://c9", true));
    assert_eq!(index.cid_of("a/1"), Some("s5://c9".to_string()));
    index.forget("a/1");
    assert!(!index.has_key("a/1"));
    assert_eq!(index.cid_of("a/1"), None);
    assert_eq!(index.metadata("a/2").map(|m| m.size), Some(3));
}
