use pingora_slice::config::{CacheBackend, SliceConfig};
use pingora_slice::error::SliceError;
use pingora_slice::models::ByteRange;
use pingora_slice::tiered_cache::{
    decode_l2_record, encode_l2_record, generate_cache_key, sanitize_key, L1Cache, L2Record,
};

fn key(url: &str, start: u64, end: u64) -> String {
    generate_cache_key(url, &ByteRange::new(start, end).unwrap())
}

#[test]
fn cache_key_format() {
    assert_eq!(key("http://example.com/file", 0, 999), "http://example.com/file:0:999");
}

#[test]
fn cache_keys_are_unique() {
    // A colon in the URL does not let two slices share a key.
    assert_ne!(key("a:1", 2, 3), key("a", 1, 2));
    assert_ne!(key("http://h/f", 0, 10), key("http://h/f", 0, 1));
    assert_ne!(key("http://h/f", 1, 10), key("http://h/f", 11, 11));
    assert_eq!(key("http://h/f", 5, 9), key("http://h/f", 5, 9));
}

#[test]
fn sanitize_key_replaces_separators() {
    assert_eq!(sanitize_key("http://a/b?c=1&d:2"), "http___a_b_c=1_d_2");
}

#[test]
fn l1_store_then_lookup() {
    let mut cache = L1Cache::new(1024 * 1024);
    let k = key("http://example.com/file", 0, 999);
    cache.store(&k, vec![1u8; 1000], 60, 0);
    assert_eq!(cache.lookup(&k, 1), Some(vec![1u8; 1000]));
    assert_eq!(cache.len(), 1);
    assert_eq!(cache.size_bytes(), 1000);
}

#[test]
fn l1_entry_expires() {
    let mut cache = L1Cache::new(1024 * 1024);
    cache.store("k", vec![1, 2, 3], 60, 0);
    assert_eq!(cache.lookup("k", 60), None);
    assert_eq!(cache.len(), 0);
    assert_eq!(cache.size_bytes(), 0);
}

#[test]
fn l1_store_replaces_and_evicts_lru() {
    let mut cache = L1Cache::new(2500);
    cache.store("a", vec![0u8; 1000], 100, 1);
    cache.store("b", vec![0u8; 1000], 100, 2);
    assert!(cache.lookup("a", 3).is_some());
    cache.store("c", vec![0u8; 1000], 100, 4);
    assert_eq!(cache.len(), 2);
    assert!(cache.lookup("b", 5).is_none());
    assert!(cache.lookup("a", 5).is_some());
    cache.store("a", vec![9u8; 10], 100, 6);
    assert_eq!(cache.size_bytes(), 1010);
    assert_eq!(cache.lookup("a", 7), Some(vec![9u8; 10]));
}

#[test]
fn l1_purge_single_entry() {
    let mut cache = L1Cache::new(1024 * 1024);
    let k = key("http://example.com/file", 0, 999);
    cache.store(&k, vec![1u8; 1000], 60, 0);
    assert!(cache.remove(&k));
    assert!(!cache.remove(&k));
    assert_eq!(cache.lookup(&k, 1), None);
}

#[test]
fn l1_purge_url_prefix() {
    let mut cache = L1Cache::new(1024 * 1024);
    let url = "http://example.com/largefile";
    for (s, e) in [(0, 999), (1000, 1999), (2000, 2999)] {
        cache.store(&key(url, s, e), vec![1u8; 1000], 60, 0);
    }
    let other = key("http://example.com/other", 0, 999);
    cache.store(&other, vec![1u8; 1000], 60, 0);
    let removed = cache.purge_prefix(&format!("{}:", url));
    assert_eq!(removed.len(), 3);
    assert!(cache.lookup(&key(url, 0, 999), 1).is_none());
    assert!(cache.lookup(&other, 1).is_some());
}

#[test]
fn l1_purge_all() {
    let mut cache = L1Cache::new(1024 * 1024);
    for u in ["http://example.com/file1", "http://example.com/file2", "http://example.com/file3"] {
        cache.store(&key(u, 0, 999), vec![1u8; 1000], 60, 0);
    }
    let removed = cache.clear();
    assert_eq!(removed.len(), 3);
    assert_eq!(cache.len(), 0);
    assert_eq!(cache.size_bytes(), 0);
}

#[test]
fn l2_record_roundtrip() {
    let rec = encode_l2_record(1_000, &[5, 6, 7]);
    assert_eq!(rec.len(), 11);
    assert_eq!(&rec[..8], &1_000u64.to_le_bytes());
    match decode_l2_record(&rec, 999 * 1_000_000_000) {
        L2Record::Live(d) => assert_eq!(d, vec![5, 6, 7]),
        other => panic!("unexpected {:?}", other),
    }
    assert!(matches!(decode_l2_record(&rec, 1_000 * 1_000_000_000), L2Record::Expired));
    assert!(matches!(decode_l2_record(&rec[..7], 0), L2Record::TooShort));
}

#[test]
fn default_config_is_valid() {
    let config = SliceConfig::default_config();
    assert!(config.validate().is_ok());
    assert_eq!(config.slice_size, 1048576);
    assert!(matches!(config.cache_backend(), Ok(CacheBackend::File(d)) if d == "/var/cache/pingora-slice"));
}

#[test]
fn invalid_configs_are_refused() {
    let mut config = SliceConfig::default_config();
    config.slice_size = 1024;
    assert!(matches!(config.validate(), Err(SliceError::ConfigError(_))));
    let mut config = SliceConfig::default_config();
    config.max_concurrent_subrequests = 0;
    assert!(config.validate().is_err());
    let mut config = SliceConfig::default_config();
    config.cache_ttl = 0;
    assert!(config.validate().is_err());
    config.enable_cache = false;
    assert!(config.validate().is_ok());
    let mut config = SliceConfig::default_config();
    config.l2_backend = "raw_disk".to_string();
    assert!(matches!(config.cache_backend(), Err(SliceError::ConfigError(_))));
    config.l2_backend = "tape".to_string();
    assert!(config.cache_backend().is_err());
    config.enable_l2_cache = false;
    assert!(matches!(config.cache_backend(), Ok(CacheBackend::MemoryOnly)));
}

#[test]
fn range_header_roundtrip() {
    let r = ByteRange::new(100, 200).unwrap();
    assert_eq!(r.to_header(), "bytes=100-200");
    assert_eq!(ByteRange::from_header(&r.to_header()).unwrap(), r);
    assert!(matches!(ByteRange::from_header("bytes=200-100"), Err(SliceError::InvalidRange(_))));
    assert!(matches!(ByteRange::from_header("bits=1-2"), Err(SliceError::ParseError(_))));
}
