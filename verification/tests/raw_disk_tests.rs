use std::time::Duration;

use pingora_slice::raw_disk::allocator::BlockAllocator;
use pingora_slice::raw_disk::batch_io::{merge_adjacent_reads, merge_adjacent_writes, extract_reads, PendingWrite, WriteBuffer};
use pingora_slice::raw_disk::checksum::{Checksum, ChecksumAlgorithm, VerificationStats};
use pingora_slice::raw_disk::compression::{CompressionAlgorithm, CompressionConfig, CompressionManager, CompressionStats};
use pingora_slice::raw_disk::defrag::{fragmentation_parts, select_entries_to_move};
use pingora_slice::raw_disk::directory::{check_metadata, CacheDirectory, CacheMetadata, METADATA_VERSION};
use pingora_slice::raw_disk::gc::{target_evictions, EvictionStrategy, EvictionTracker, GCMetrics};
use pingora_slice::raw_disk::io_uring::IoUringConfig;
use pingora_slice::raw_disk::metrics::{format_prometheus_metrics, MetricRates, RawDiskMetrics};
use pingora_slice::raw_disk::prefetch::{PatternDetector, PrefetchCache};
use pingora_slice::raw_disk::superblock::Superblock;
use pingora_slice::raw_disk::types::{block_data_intact, BlockHeader, DiskLocation, BLOCK_HEADER_SIZE, MAGIC_NUMBER};
use pingora_slice::raw_disk::zero_copy::{ZeroCopyConfig, ZeroCopyStats};
use pingora_slice::raw_disk::RawDiskError;
use pingora_slice::raw_disk::disk_io::{align_down, align_up, copy_into, direct_window, plan_direct_write};
use pingora_slice::raw_disk::io_uring::{OpQueue, PendingOp};
use pingora_slice::raw_disk::zero_copy::{after_send, TransferStep};
use pingora_slice::raw_disk::state::{frame_metadata, metadata_length, RawDiskState};

fn loc(offset: u64, size: u32) -> DiskLocation {
    DiskLocation { offset, size, checksum: 0, timestamp: 0, compressed: false, original_size: 0 }
}

// ---- types ----

#[test]
fn test_disk_location() {
    let data = b"test data";
    let loc = DiskLocation::new(1024, data);

    assert_eq!(loc.offset, 1024);
    assert_eq!(loc.size, 9);
    assert!(loc.verify_checksum(data));
    assert!(!loc.verify_checksum(b"wrong data"));
}

#[test]
fn test_block_header_serialization() {
    let header = BlockHeader::new(12345, 1024, 0xABCDEF);
    let bytes = header.to_bytes();

    assert_eq!(bytes.len(), BLOCK_HEADER_SIZE);

    let decoded = BlockHeader::from_bytes(&bytes).unwrap();
    assert_eq!(decoded.magic, MAGIC_NUMBER);
    assert_eq!(decoded.key_hash, 12345);
    assert_eq!(decoded.data_size, 1024);
    assert_eq!(decoded.checksum, 0xABCDEF);
}

#[test]
fn block_header_too_short_is_refused() {
    let header = BlockHeader::new(1, 2, 3);
    let bytes = header.to_bytes();
    assert!(BlockHeader::from_bytes(&bytes[..63]).is_none());
}

#[test]
fn expiry_is_strictly_after_ttl() {
    let l = DiskLocation::new_at(0, b"x", 100);
    assert!(!l.is_expired_at(10, 110));
    assert!(l.is_expired_at(10, 111));
    assert!(!l.is_expired_at(10, 50));
}

// ---- checksum ----

#[test]
fn test_crc32_checksum() {
    let data = b"test data";
    let checksum = Checksum::compute(ChecksumAlgorithm::Crc32, data);

    assert_eq!(checksum.algorithm(), ChecksumAlgorithm::Crc32);
    assert!(checksum.verify(data));
    assert!(!checksum.verify(b"wrong data"));
}

#[test]
fn test_xxhash64_checksum() {
    let data = b"test data";
    let checksum = Checksum::compute(ChecksumAlgorithm::XxHash64, data);

    assert_eq!(checksum.algorithm(), ChecksumAlgorithm::XxHash64);
    assert!(checksum.verify(data));
    assert!(!checksum.verify(b"wrong data"));
}

#[test]
fn test_xxhash3_checksum() {
    let data = b"test data";
    let checksum = Checksum::compute(ChecksumAlgorithm::XxHash3, data);

    assert_eq!(checksum.algorithm(), ChecksumAlgorithm::XxHash3);
    assert!(checksum.verify(data));
    assert!(!checksum.verify(b"wrong data"));
}

#[test]
fn test_different_algorithms_produce_different_values() {
    let data = b"test data";

    let crc32 = Checksum::compute(ChecksumAlgorithm::Crc32, data);
    let xxhash64 = Checksum::compute(ChecksumAlgorithm::XxHash64, data);
    let xxhash3 = Checksum::compute(ChecksumAlgorithm::XxHash3, data);

    assert_ne!(crc32.value(), xxhash64.value());
    assert_ne!(crc32.value(), xxhash3.value());
}

#[test]
fn xxhash64_and_xxh3_are_distinct_algorithms() {
    // XXH64 (seed 0) and XXH3 of the empty input, as published by xxHash.
    assert_eq!(Checksum::compute(ChecksumAlgorithm::XxHash64, b"").value(), 0xEF46DB3751D8E999);
    assert_eq!(Checksum::compute(ChecksumAlgorithm::XxHash3, b"").value(), 0x2D06800538D394C2);
}

#[test]
fn crc32_matches_known_value() {
    // CRC32 (IEEE) of "123456789" is 0xCBF43926.
    let c = Checksum::compute(ChecksumAlgorithm::Crc32, b"123456789");
    assert_eq!(c.value(), 0xCBF4_3926);
    assert_eq!(c.to_crc32(), 0xCBF4_3926);
    let x = Checksum::compute(ChecksumAlgorithm::XxHash3, b"123456789");
    assert_eq!(x.to_crc32(), pingora_slice::raw_disk::checksum::NOT_CRC32);
}

#[test]
fn checksum_test_verification_stats() {
    let mut stats = VerificationStats::new();

    assert_eq!(stats.total_verified, 0);
    assert_eq!(stats.repaired + stats.repair_failed, 0);

    stats.record_run(100, 5, 1000, 12345);
    assert_eq!(stats.total_verified, 100);
    assert_eq!(stats.corrupted_found, 5);
    assert_eq!(stats.corrupted_found as f64 / stats.total_verified as f64, 0.05);
    assert_eq!(stats.last_verification, Some(12345));

    stats.record_repair_success();
    stats.record_repair_success();
    stats.record_repair_failure();

    assert_eq!(stats.repaired, 2);
    assert_eq!(stats.repair_failed, 1);
    let rate = stats.repaired as f64 / (stats.repaired + stats.repair_failed) as f64;
    assert!((rate - 0.666).abs() < 0.01);
}

// ---- compression ----

#[test]
fn test_compression_disabled() {
    let config = CompressionConfig { enabled: false, ..Default::default() };
    let manager = CompressionManager::new(config);

    let data = b"test data that should not be compressed";
    let (compressed, was_compressed) = manager.compress(data).unwrap();

    assert!(!was_compressed);
    assert_eq!(compressed.as_slice(), data);
}

#[test]
fn test_compression_too_small() {
    let config = CompressionConfig { enabled: true, min_size: 100, ..Default::default() };
    let manager = CompressionManager::new(config);

    let data = b"small";
    let (compressed, was_compressed) = manager.compress(data).unwrap();

    assert!(!was_compressed);
    assert_eq!(compressed.as_slice(), data);
}

#[test]
fn test_zstd_compression_roundtrip() {
    let config = CompressionConfig { enabled: true, algorithm: CompressionAlgorithm::Zstd, level: 3, min_size: 10 };
    let manager = CompressionManager::new(config);

    let data = b"This is a test string that should compress well. ".repeat(100);

    let (compressed, was_compressed) = manager.compress(&data).unwrap();
    assert!(was_compressed);
    assert!(compressed.len() < data.len());

    let decompressed = manager.decompress(&compressed, true).unwrap();
    assert_eq!(decompressed.as_slice(), data.as_slice());
}

#[test]
fn test_lz4_compression_roundtrip() {
    let config = CompressionConfig { enabled: true, algorithm: CompressionAlgorithm::Lz4, level: 4, min_size: 10 };
    let manager = CompressionManager::new(config);

    let data = b"This is a test string that should compress well. ".repeat(100);

    let (compressed, was_compressed) = manager.compress(&data).unwrap();
    assert!(was_compressed);
    assert!(compressed.len() < data.len());

    let decompressed = manager.decompress(&compressed, true).unwrap();
    assert_eq!(decompressed.as_slice(), data.as_slice());
}

#[test]
fn test_compression_stats() {
    let mut stats = CompressionStats::new();

    stats.record_compression(1000, 500);
    stats.record_compression(2000, 1000);

    assert_eq!(stats.total_compressed_bytes, 3000);
    assert_eq!(stats.total_compressed_size, 1500);
    assert_eq!(stats.compression_count, 2);
    assert_eq!(stats.total_compressed_size as f64 / stats.total_compressed_bytes as f64, 0.5);
    assert_eq!(stats.space_saved(), 1500);
    assert_eq!(stats.space_saved() as f64 / stats.total_compressed_bytes as f64 * 100.0, 50.0);
}

#[test]
fn test_incompressible_data() {
    let config = CompressionConfig { enabled: true, algorithm: CompressionAlgorithm::Zstd, level: 3, min_size: 10 };
    let manager = CompressionManager::new(config);

    let data: Vec<u8> = (0..100).map(|i| (i * 7 + 13) as u8).collect();

    let (compressed, was_compressed) = manager.compress(&data).unwrap();

    if was_compressed {
        let decompressed = manager.decompress(&compressed, true).unwrap();
        assert_eq!(decompressed.as_slice(), data.as_slice());
    } else {
        assert_eq!(compressed.as_slice(), data.as_slice());
    }
}

#[test]
fn decompress_garbage_is_an_error() {
    let config = CompressionConfig { enabled: true, algorithm: CompressionAlgorithm::Zstd, level: 3, min_size: 10 };
    let manager = CompressionManager::new(config);
    assert!(manager.decompress(b"definitely not zstd", true).is_err());
    assert_eq!(manager.decompress(b"raw", false).unwrap(), b"raw".to_vec());
}

// ---- defrag ----

#[test]
fn test_fragmentation_calculation_empty() {
    let directory = CacheDirectory::new();
    let parts = fragmentation_parts(&directory, 1000, 4096, 0);
    assert_eq!(parts.used, 0);
}

#[test]
fn test_fragmentation_calculation_no_gaps() {
    let mut directory = CacheDirectory::new();
    directory.insert("key1".to_string(), loc(0, 4096));
    directory.insert("key2".to_string(), loc(4096, 4096));

    let parts = fragmentation_parts(&directory, 1000, 4096, 0);
    assert_eq!(parts.wasted, 0);
    assert_eq!(parts.used, 8192);
}

#[test]
fn test_fragmentation_calculation_with_gaps() {
    let mut directory = CacheDirectory::new();
    directory.insert("key1".to_string(), loc(0, 4096));
    directory.insert("key2".to_string(), loc(8192, 4096));
    directory.insert("key3".to_string(), loc(16384, 4096));

    let parts = fragmentation_parts(&directory, 1000, 4096, 0);
    assert_eq!(parts.wasted, 8192);
    assert_eq!(parts.used, 12288);
    let frag = parts.wasted as f64 / parts.used as f64;
    assert!(frag > 0.6 && frag < 0.7);
}

#[test]
fn test_select_entries_to_move() {
    let mut directory = CacheDirectory::new();
    directory.insert("key1".to_string(), loc(0, 4096));
    directory.insert("key2".to_string(), loc(16384, 4096));
    directory.insert("key3".to_string(), loc(32768, 4096));

    let selected = select_entries_to_move(&directory, 4096, 0, 10);
    assert!(!selected.is_empty());
    // The entry at the highest offset is placed first.
    assert_eq!(selected[0].0, "key3");
}

#[test]
fn entries_only_move_towards_the_start() {
    let mut directory = CacheDirectory::new();
    directory.insert("key1".to_string(), loc(0, 4096));
    directory.insert("key2".to_string(), loc(16384, 4096));
    directory.insert("key3".to_string(), loc(32768, 4096));

    let selected = select_entries_to_move(&directory, 4096, 0, 10);
    let keys: Vec<&str> = selected.iter().map(|(k, _)| k.as_str()).collect();
    // key3 and key2 fill the gap after key1; key1 has no gap below it.
    assert_eq!(keys, vec!["key3", "key2"]);
}

// ---- directory ----

#[test]
fn directory_insert_get_remove_and_counts() {
    let mut dir = CacheDirectory::new();
    dir.insert("key1".to_string(), DiskLocation::new(1000, b"data1"));
    dir.insert("key2".to_string(), DiskLocation::new(2000, b"data2"));
    dir.touch("key1");
    dir.touch("nonexistent");
    assert_eq!(dir.len(), 2);
    assert_eq!(dir.hits(), 1);
    assert_eq!(dir.misses(), 1);
    assert_eq!(dir.get("key2").unwrap().offset, 2000);
    assert_eq!(dir.lru_keys(), vec!["key2".to_string(), "key1".to_string()]);
    assert_eq!(dir.select_lru_victims_count(1), vec!["key2".to_string()]);
    assert_eq!(dir.remove("key2").unwrap().offset, 2000);
    assert!(dir.get("key2").is_none());
    assert_eq!(dir.len(), 1);
}

#[test]
fn directory_from_parts_refuses_duplicates() {
    let entries = vec![("a".to_string(), loc(0, 1)), ("a".to_string(), loc(1, 1))];
    assert!(CacheDirectory::from_parts(entries, vec![], 0, 0).is_none());
    let ok = CacheDirectory::from_parts(vec![("a".to_string(), loc(0, 1))], vec!["a".to_string()], 3, 4).unwrap();
    assert_eq!((ok.len(), ok.hits(), ok.misses()), (1, 3, 4));
}

#[test]
fn test_metadata_checksum_validation() {
    let encoded = b"some encoded metadata".to_vec();
    let crc = Checksum::compute(ChecksumAlgorithm::Crc32, &encoded).to_crc32();
    assert!(check_metadata(METADATA_VERSION, crc, &encoded).is_ok());
    let mut corrupted = encoded.clone();
    corrupted[10] ^= 0xFF;
    assert!(matches!(check_metadata(METADATA_VERSION, crc, &corrupted), Err(RawDiskError::ChecksumMismatch)));
    assert!(matches!(check_metadata(METADATA_VERSION + 1, crc, &encoded), Err(RawDiskError::InvalidMetadata(_))));
}

// ---- gc ----

fn directory_with(n: u64) -> CacheDirectory {
    let mut directory = CacheDirectory::new();
    for i in 0..n {
        directory.insert(format!("key{}", i), DiskLocation::new(i * 1000, b"data"));
    }
    directory
}

#[test]
fn test_lru_victim_selection() {
    let tracker = EvictionTracker::new(EvictionStrategy::LRU, 0);
    let mut directory = directory_with(10);

    directory.touch("key5");
    directory.touch("key7");
    directory.touch("key2");

    let victims = tracker.select_victims(&directory, 3);
    assert_eq!(victims.len(), 3);

    for (key, _) in &victims {
        assert!(key != "key5" && key != "key7" && key != "key2");
    }
}

#[test]
fn test_lfu_victim_selection() {
    let mut tracker = EvictionTracker::new(EvictionStrategy::LFU, 0);
    let mut directory = CacheDirectory::new();

    for i in 0..5 {
        let key = format!("key{}", i);
        directory.insert(key.clone(), DiskLocation::new(i * 1000, b"data"));
        tracker.record_insertion(key);
    }

    for _ in 0..10 {
        tracker.record_access("key0");
    }
    for _ in 0..5 {
        tracker.record_access("key1");
    }
    for _ in 0..2 {
        tracker.record_access("key2");
    }

    let victims = tracker.select_victims(&directory, 2);
    assert_eq!(victims.len(), 2);

    let victim_keys: Vec<_> = victims.iter().map(|(k, _)| k.as_str()).collect();
    assert!(victim_keys.contains(&"key3") || victim_keys.contains(&"key4"));
}

#[test]
fn test_fifo_victim_selection() {
    let mut tracker = EvictionTracker::new(EvictionStrategy::FIFO, 0);
    let mut directory = CacheDirectory::new();

    for i in 0..5 {
        let key = format!("key{}", i);
        directory.insert(key.clone(), DiskLocation::new(i * 1000, b"data"));
        tracker.record_insertion(key);
    }

    let victims = tracker.select_victims(&directory, 2);
    assert_eq!(victims.len(), 2);

    assert_eq!(victims[0].0, "key0");
    assert_eq!(victims[1].0, "key1");
}

#[test]
fn ttl_victims_come_first() {
    let tracker = EvictionTracker::new(EvictionStrategy::LRU, 10);
    let mut directory = CacheDirectory::new();
    directory.insert("fresh".to_string(), DiskLocation::new_at(0, b"a", 95));
    directory.insert("old".to_string(), DiskLocation::new_at(4096, b"b", 50));
    let victims = tracker.select_victims_at(&directory, 1, 100);
    assert_eq!(victims.len(), 1);
    assert_eq!(victims[0].0, "old");
}

#[test]
fn test_gc_metrics() {
    let mut metrics = GCMetrics::new();

    metrics.record_run(10, 1024, Duration::from_millis(50));
    metrics.record_run(15, 2048, Duration::from_millis(75));

    assert_eq!(metrics.total_runs, 2);
    assert_eq!(metrics.total_evicted, 25);
    assert_eq!(metrics.total_bytes_freed, 3072);
    assert_eq!(metrics.last_evicted, 15);
    assert_eq!(metrics.average_duration(), Duration::from_micros(62500));
}

// ---- metrics ----

#[test]
fn test_record_store() {
    let mut metrics = RawDiskMetrics::new();

    metrics.record_store(true, Duration::from_millis(10), 1024);
    metrics.record_store(true, Duration::from_millis(20), 2048);
    metrics.record_store(false, Duration::from_millis(5), 0);

    let stats = metrics.get_stats();
    assert_eq!(stats.store_operations, 3);
    assert_eq!(stats.store_successes, 2);
    assert_eq!(stats.store_failures, 1);
    assert_eq!(stats.bytes_written, 3072);
    assert_eq!(stats.total_store_duration_us, 35000);
}

#[test]
fn test_record_lookup() {
    let mut metrics = RawDiskMetrics::new();

    metrics.record_lookup(true, Duration::from_millis(5), 1024);
    metrics.record_lookup(true, Duration::from_millis(10), 2048);
    metrics.record_lookup(false, Duration::from_millis(2), 0);

    let stats = metrics.get_stats();
    assert_eq!(stats.lookup_operations, 3);
    assert_eq!(stats.lookup_hits, 2);
    assert_eq!(stats.lookup_misses, 1);
    assert_eq!(stats.bytes_read, 3072);
}

#[test]
fn test_update_cache_state() {
    let mut metrics = RawDiskMetrics::new();

    metrics.update_cache_state(100, 800, 200);

    let stats = metrics.get_stats();
    assert_eq!(stats.current_entries, 100);
    assert_eq!(stats.used_blocks, 800);
    assert_eq!(stats.free_blocks, 200);
    assert_eq!(stats.used_blocks as f64 / stats.total_blocks() as f64 * 100.0, 80.0);
}

#[test]
fn test_record_gc_run() {
    let mut metrics = RawDiskMetrics::new();

    metrics.record_gc_run(50, 102400);
    metrics.record_gc_run(30, 61440);

    let stats = metrics.get_stats();
    assert_eq!(stats.gc_runs, 2);
    assert_eq!(stats.gc_entries_evicted, 80);
    assert_eq!(stats.gc_bytes_freed, 163840);
}

#[test]
fn metrics_reset_zeroes_counters() {
    let mut metrics = RawDiskMetrics::new();
    metrics.record_store(true, Duration::from_millis(1), 5);
    metrics.record_gc_run(1, 1);
    metrics.reset();
    let s = metrics.get_stats();
    assert_eq!((s.store_operations, s.bytes_written, s.gc_runs), (0, 0, 0));
}

fn rates() -> MetricRates {
    MetricRates {
        hit_rate: "100.00".to_string(),
        store_success_rate: "100.00".to_string(),
        avg_store_duration_ms: "10.00".to_string(),
        avg_lookup_duration_ms: "5.00".to_string(),
        avg_remove_duration_ms: "0.00".to_string(),
        space_utilization: "80.00".to_string(),
    }
}

#[test]
fn test_format_prometheus_metrics() {
    let mut metrics = RawDiskMetrics::new();

    metrics.record_store(true, Duration::from_millis(10), 1024);
    metrics.record_lookup(true, Duration::from_millis(5), 512);
    metrics.update_cache_state(10, 80, 20);

    let snapshot = metrics.get_stats();
    let output = format_prometheus_metrics(&snapshot, &rates());

    assert!(output.contains("raw_disk_cache_store_operations_total 1"));
    assert!(output.contains("raw_disk_cache_lookup_operations_total 1"));
    assert!(output.contains("raw_disk_cache_entries 10"));
    assert!(output.contains("raw_disk_cache_used_blocks 80"));
    assert!(output.contains("raw_disk_cache_free_blocks 20"));
}

#[test]
fn prometheus_text_starts_with_help_line() {
    let metrics = RawDiskMetrics::new();
    let output = format_prometheus_metrics(&metrics.get_stats(), &rates());
    assert!(output.starts_with(
        "# HELP raw_disk_cache_store_operations_total Total number of store operations\n# TYPE raw_disk_cache_store_operations_total counter\nraw_disk_cache_store_operations_total 0\n\n"
    ));
    assert!(output.contains("raw_disk_cache_space_utilization 80.00\n"));
    assert!(output.ends_with("raw_disk_cache_gc_bytes_freed_total 0\n\n"));
}

// ---- prefetch ----

#[test]
fn test_prefetch_cache() {
    let mut cache = PrefetchCache::new(3);

    let loc1 = DiskLocation::new(1000, b"data1");
    let loc2 = DiskLocation::new(2000, b"data2");
    let loc3 = DiskLocation::new(3000, b"data3");
    let loc4 = DiskLocation::new(4000, b"data4");

    cache.insert("key1".to_string(), b"data1".to_vec(), loc1);
    cache.insert("key2".to_string(), b"data2".to_vec(), loc2);
    cache.insert("key3".to_string(), b"data3".to_vec(), loc3);

    assert_eq!(cache.len(), 3);

    assert!(cache.get("key1").is_some());
    assert!(cache.get("key2").is_some());

    cache.insert("key4".to_string(), b"data4".to_vec(), loc4);
    assert_eq!(cache.len(), 3);
    assert!(cache.get("key3").is_none());
    assert!(cache.get("key4").is_some());
}

#[test]
fn prefetch_cache_counts_hits_and_misses() {
    let mut cache = PrefetchCache::new(2);
    cache.insert("a".to_string(), b"1".to_vec(), loc(0, 1));
    assert_eq!(cache.get("a"), Some(b"1".to_vec()));
    assert_eq!(cache.get("b"), None);
    assert_eq!((cache.hits(), cache.misses()), (1, 1));
    cache.remove("a");
    assert_eq!(cache.len(), 0);
    cache.insert("c".to_string(), b"3".to_vec(), loc(0, 1));
    cache.clear();
    assert_eq!(cache.len(), 0);
}

#[test]
fn test_sequential_prediction() {
    let mut detector = PatternDetector::new(20, 3);

    for i in 0..10 {
        detector.record_access(format!("key_{}", i), i * 1000);
    }

    let all_keys: Vec<String> = (0..20).map(|i| format!("key_{}", i)).collect();
    let predictions = detector.predict_sequential("key_5", &all_keys);

    assert_eq!(predictions.len(), 3);
    assert_eq!(predictions[0], "key_6");
    assert_eq!(predictions[1], "key_7");
    assert_eq!(predictions[2], "key_8");
}

#[test]
fn pattern_detector_counts() {
    let mut detector = PatternDetector::new(20, 4);
    for i in 0..10 {
        detector.record_access(format!("key_{}", i), i * 1000);
    }
    assert_eq!(detector.sequential_pairs(), (9, 9));
    assert_eq!(detector.repeat_accesses(), (0, 10));

    let mut temporal = PatternDetector::new(20, 2);
    for _ in 0..5 {
        temporal.record_access("key_1".to_string(), 1000);
        temporal.record_access("key_2".to_string(), 5000);
        temporal.record_access("key_1".to_string(), 1000);
        temporal.record_access("key_3".to_string(), 9000);
    }
    assert_eq!(temporal.repeat_accesses(), (17, 20));
    let top = temporal.predict_temporal();
    assert_eq!(top.len(), 2);
    assert_eq!(top[0], "key_1");
}

#[test]
fn pattern_detector_keeps_last_entries() {
    let mut detector = PatternDetector::new(3, 4);
    for i in 0..10 {
        detector.record_access(format!("k{}", i), 10 - i);
    }
    assert_eq!(detector.repeat_accesses(), (0, 3));
    assert_eq!(detector.sequential_pairs(), (0, 2));
}

// ---- batch io ----

#[test]
fn test_write_buffer() {
    let mut buffer = WriteBuffer::new(10, 1024);

    assert!(buffer.is_empty());
    assert_eq!(buffer.len(), 0);

    let should_flush = buffer.add(0, b"test1".to_vec());
    assert!(!should_flush);
    assert_eq!(buffer.len(), 1);

    for i in 1..10 {
        let data = format!("test{}", i).into_bytes();
        buffer.add(i * 100, data);
    }

    assert!(buffer.should_flush());
}

#[test]
fn test_write_buffer_size_limit() {
    let mut buffer = WriteBuffer::new(100, 100);

    let should_flush = buffer.add(0, vec![0u8; 150]);

    assert!(should_flush);
}

#[test]
fn write_buffer_drain_keeps_order() {
    let mut buffer = WriteBuffer::new(10, 1024);
    buffer.add(5, vec![1]);
    buffer.add(1, vec![2, 3]);
    assert_eq!(buffer.buffered_bytes(), 3);
    let drained = buffer.drain();
    assert_eq!(drained.len(), 2);
    assert_eq!((drained[0].offset, drained[1].offset), (5, 1));
    assert!(buffer.is_empty());
    assert_eq!(buffer.stats().buffered_bytes, 0);
}

#[test]
fn merge_writes_joins_adjacent() {
    let writes = vec![
        PendingWrite { offset: 0, data: vec![1, 2] },
        PendingWrite { offset: 2, data: vec![3] },
        PendingWrite { offset: 6, data: vec![4] },
        PendingWrite { offset: 20000, data: vec![5] },
    ];
    let merged = merge_adjacent_writes(writes);
    // Touching writes are joined; a gap is never written.
    assert_eq!(merged.len(), 3);
    assert_eq!((merged[0].offset, merged[0].data.clone()), (0, vec![1, 2, 3]));
    assert_eq!((merged[1].offset, merged[1].data.clone()), (6, vec![4]));
    assert_eq!((merged[2].offset, merged[2].data.clone()), (20000, vec![5]));
}

#[test]
fn merge_writes_lays_later_data_over_earlier() {
    let writes = vec![
        PendingWrite { offset: 0, data: b"AAAA".to_vec() },
        PendingWrite { offset: 2, data: b"BB".to_vec() },
        PendingWrite { offset: 3, data: b"CCC".to_vec() },
    ];
    let merged = merge_adjacent_writes(writes);
    assert_eq!(merged.len(), 1);
    assert_eq!((merged[0].offset, merged[0].data.clone()), (0, b"AABCCC".to_vec()));
}

#[test]
fn merge_reads_and_extract() {
    // Reads less than 64 KiB apart are joined into one.
    let reads = vec![(0u64, 4usize), (4, 2), (200000, 3)];
    let merged = merge_adjacent_reads(&reads);
    assert_eq!(merged, vec![(0, 6), (200000, 3)]);
    assert_eq!(merge_adjacent_reads(&[(0, 4), (100, 2)]), vec![(0, 102)]);
    let data = vec![(0u64, vec![0u8, 1, 2, 3, 4, 5]), (200000u64, vec![7u8, 8, 9])];
    let out = extract_reads(&reads, &data);
    assert_eq!(out, vec![vec![0, 1, 2, 3], vec![4, 5], vec![7, 8, 9]]);
}

// ---- zero copy / io_uring ----

#[test]
fn test_zero_copy_stats() {
    let mut stats = ZeroCopyStats::new();

    stats.record_mmap_read(1024);
    stats.record_mmap_read(2048);
    stats.record_sendfile(4096);
    stats.record_mmap_skipped();

    assert_eq!(stats.mmap_reads, 2);
    assert_eq!(stats.mmap_bytes, 3072);
    assert_eq!(stats.sendfile_transfers, 1);
    assert_eq!(stats.sendfile_bytes, 4096);
    assert_eq!(stats.mmap_skipped, 1);
}

#[test]
fn zero_copy_threshold() {
    let config = ZeroCopyConfig::default();
    assert!(!config.uses_mmap(config.mmap_threshold - 1));
    assert!(config.uses_mmap(config.mmap_threshold));
}

#[test]
fn test_io_uring_config_default() {
    let config = IoUringConfig::default();
    assert_eq!(config.queue_depth, 128);
    assert!(!config.use_sqpoll);
    assert!(!config.use_iopoll);
    assert_eq!(config.block_size, 4096);
}

// ---- allocator / superblock ----

#[test]
fn allocator_first_fit_and_free() {
    let mut a = BlockAllocator::new(4096, 10);
    let l1 = a.allocate(3).unwrap();
    let l2 = a.allocate(2).unwrap();
    assert_eq!((l1.offset, l1.size), (0, 3 * 4096));
    assert_eq!(l2.offset, 3 * 4096);
    assert_eq!((a.used_blocks(), a.free_blocks()), (5, 5));
    a.free(l1.offset, 3).unwrap();
    assert_eq!(a.free_blocks(), 8);
    let l3 = a.allocate(2).unwrap();
    assert_eq!(l3.offset, 0);
    assert!(matches!(a.allocate(9), Err(RawDiskError::NoSpace)));
}

#[test]
fn superblock_roundtrip() {
    let sb = Superblock::new(1 << 30, 4096);
    let bytes = sb.to_bytes();
    let back = Superblock::from_bytes(&bytes).unwrap();
    assert_eq!(back.total_blocks(), sb.total_blocks());
    assert_eq!(back.block_size(), 4096);
    assert_eq!(back.data_offset(), sb.data_offset());
    let mut broken = bytes.clone();
    broken[0] ^= 1;
    assert!(Superblock::from_bytes(&broken).is_err());
}

// ---- direct I/O arithmetic ----


#[test]
fn alignment_rounding() {
    assert_eq!(align_down(5000, 4096), 4096);
    assert_eq!(align_down(4096, 4096), 4096);
    assert_eq!(align_up(5000, 4096), 8192);
    assert_eq!(align_up(8192, 4096), 8192);
    assert_eq!(align_up(0, 512), 0);
}

#[test]
fn direct_window_covers_request() {
    let w = direct_window(5000, 100, 4096);
    assert_eq!((w.aligned_offset, w.adjustment, w.aligned_size), (4096, 904, 4096));
    let w = direct_window(4000, 200, 4096);
    assert_eq!((w.aligned_offset, w.adjustment, w.aligned_size), (0, 4000, 8192));
}

#[test]
fn direct_write_plan_reads_partial_blocks() {
    let p = plan_direct_write(4000, 200, 4096);
    assert_eq!(p.head_read, Some(4096));
    assert_eq!(p.tail_read, Some(4096));
    let aligned = plan_direct_write(8192, 4096, 4096);
    assert_eq!((aligned.head_read, aligned.tail_read), (None, None));
    let one_block = plan_direct_write(100, 10, 4096);
    assert_eq!((one_block.head_read, one_block.tail_read), (Some(4096), None));
}

#[test]
fn copy_into_places_data() {
    let mut buf = vec![0u8; 8];
    copy_into(&mut buf, 3, &[7, 8, 9]);
    assert_eq!(buf, vec![0, 0, 0, 7, 8, 9, 0, 0]);
}

// ---- io_uring queue / sendfile steps ----


#[test]
fn op_queue_flushes_at_batch_size() {
    let mut q = OpQueue::new(2);
    assert!(!q.push(PendingOp::Read { offset: 0, size: 4 }));
    assert!(q.push(PendingOp::Write { offset: 8, data: vec![1] }));
    assert_eq!(q.len(), 2);
    let ops = q.drain();
    assert_eq!(ops.len(), 2);
    assert!(matches!(ops[0], PendingOp::Read { offset: 0, size: 4 }));
    assert_eq!(q.len(), 0);
}

#[test]
fn sendfile_steps() {
    assert_eq!(after_send(100, 0, 40), TransferStep::Continue { remaining: 60, total: 40 });
    assert_eq!(after_send(60, 40, 60), TransferStep::Done { total: 100 });
    assert_eq!(after_send(60, 40, 0), TransferStep::Done { total: 40 });
}

// ---- raw disk state ----


fn small_state() -> RawDiskState {
    let sb = Superblock::new(1 << 20, 4096);
    RawDiskState::new(sb, 4096, 0)
}

#[test]
fn state_store_find_remove() {
    let mut st = small_state();
    let data_offset = st.superblock().data_offset();
    let off = st.allocate_for(5000).unwrap();
    assert_eq!(off, data_offset);
    assert_eq!(st.allocator().used_blocks(), 2);
    let loc = DiskLocation::new_at(off, &vec![1u8; 5000], 10);
    st.commit_store("k".to_string(), loc);
    assert_eq!(st.find("k"), Some(loc));
    let off2 = st.allocate_for(10).unwrap();
    assert_eq!(off2, data_offset + 2 * 4096);
    assert_eq!(st.remove_entry("k"), Some(loc));
    assert!(st.find("k").is_none());
    assert!(st.remove_entry("k").is_none());
}

#[test]
fn state_evict_and_expire() {
    let mut st = small_state();
    for (i, ts) in [(0u64, 100u64), (1, 200), (2, 300)] {
        let off = st.allocate_for(4096).unwrap();
        st.commit_store(format!("k{}", i), DiskLocation::new_at(off, &vec![0u8; 4096], ts));
    }
    assert_eq!(st.allocator().used_blocks(), 3);
    let victims = st.select_victims_at(1, 1000);
    assert_eq!(victims.len(), 1);
    assert_eq!(victims[0].0, "k0");
    let (count, bytes) = st.evict(&victims);
    assert_eq!((count, bytes), (1, 4096));
    assert_eq!(st.allocator().used_blocks(), 2);
    assert_eq!(st.cleanup_expired(150, 400), 1);
    assert!(st.find("k1").is_none());
    assert!(st.find("k2").is_some());
}

#[test]
fn state_rebuild_keeps_intact_entries() {
    let mut st = small_state();
    let a = st.allocate_for(100).unwrap();
    st.commit_store("a".to_string(), DiskLocation::new_at(a, b"x", 0));
    let b = st.allocate_for(100).unwrap();
    st.commit_store("b".to_string(), DiskLocation::new_at(b, b"y", 0));
    let kept = st.rebuild_allocation(&[true, false]);
    assert_eq!(kept, 1);
    assert!(st.find("a").is_some());
    assert!(st.find("b").is_none());
}

#[test]
fn metadata_frame_roundtrip() {
    let encoded = vec![9u8; 20];
    let framed = frame_metadata(&encoded, 100).unwrap();
    assert_eq!(framed.len(), 28);
    assert_eq!(metadata_length(&framed, 100), Some(20));
    assert_eq!(&framed[8..], &encoded[..]);
    assert!(matches!(
        frame_metadata(&encoded, 27),
        Err(RawDiskError::MetadataTooLarge { size: 28, max_size: 27 })
    ));
    assert_eq!(metadata_length(&framed, 10), None);
    assert_eq!(metadata_length(&framed[..7], 100), None);
}

#[test]
fn gc_target_evictions() {
    // 10 blocks to free, 4 KiB blocks, 100 blocks used by 50 entries:
    // entries average 8 KiB, so 5 of them.
    assert_eq!(target_evictions(10, 4096, 100, 50), 5);
    // Nothing to free still evicts one.
    assert_eq!(target_evictions(0, 4096, 100, 50), 1);
    // Without entries the average is one block.
    assert_eq!(target_evictions(3, 4096, 0, 0), 3);
}

#[test]
fn test_pending_ops() {
    // Operations keep their kind.
    let op1 = PendingOp::Read { offset: 0, size: 100 };
    let op2 = PendingOp::Write { offset: 100, data: b"test".to_vec() };

    assert!(matches!(op1, PendingOp::Read { .. }));
    assert!(matches!(op2, PendingOp::Write { .. }));
}

#[test]
fn state_move_plan_and_abort() {
    let mut st = small_state();
    let data_offset = st.superblock().data_offset();
    let off = st.allocate_for(5000).unwrap();
    let loc = DiskLocation::new_at(off, &vec![1u8; 5000], 10);
    st.commit_store("k".to_string(), loc);
    // The entry's own blocks are released first, so they are the first fit.
    let plan = st.begin_move(&loc, 5000).unwrap();
    assert_eq!(plan.new_relative, 0);
    assert_eq!(plan.new_offset, data_offset);
    assert_eq!(plan.new_blocks, 2);
    assert_eq!(plan.old_relative, 0);
    assert_eq!(plan.old_blocks, 2);
    assert_eq!(st.allocator().used_blocks(), 2);
    st.abort_move(&plan);
    assert_eq!(st.allocator().used_blocks(), 2);
    // Data too large for the area: no plan, the old blocks are taken back.
    let total = st.allocator().total_blocks();
    assert!(st.begin_move(&loc, (total + 1) * 4096).is_none());
    assert_eq!(st.allocator().used_blocks(), 2);
    assert_eq!(st.allocate_for(10).unwrap(), data_offset + 2 * 4096);
}

#[test]
fn state_remove_frees_the_entry_blocks() {
    let mut st = small_state();
    let off = st.allocate_for(5000).unwrap();
    let loc = DiskLocation::new_at(off, &vec![1u8; 5000], 10);
    st.commit_store("k".to_string(), loc);
    assert_eq!(st.allocator().used_blocks(), 2);
    assert_eq!(st.remove_entry("k"), Some(loc));
    // The entry's own two blocks are free again.
    assert_eq!(st.allocator().used_blocks(), 0);
    assert_eq!(st.allocate_for(5000).unwrap(), off);
}

#[test]
fn state_cleanup_frees_blocks_of_expired_entries() {
    let mut st = small_state();
    for (i, ts) in [(0u64, 100u64), (1, 200), (2, 300)] {
        let off = st.allocate_for(4096).unwrap();
        st.commit_store(format!("k{}", i), DiskLocation::new_at(off, &vec![0u8; 4096], ts));
    }
    assert_eq!(st.cleanup_expired(150, 400), 2);
    assert_eq!(st.allocator().used_blocks(), 1);
    assert!(st.find("k2").is_some());
}

#[test]
fn state_rebuild_marks_kept_blocks_used() {
    let mut st = small_state();
    let a = st.allocate_for(5000).unwrap();
    st.commit_store("a".to_string(), DiskLocation::new_at(a, &vec![1u8; 5000], 0));
    let b = st.allocate_for(100).unwrap();
    st.commit_store("b".to_string(), DiskLocation::new_at(b, b"y", 0));
    // Start from an empty allocation, as after a restart.
    st.remove_entry("a");
    st.remove_entry("b");
    assert_eq!(st.allocator().used_blocks(), 0);
    st.commit_store("a".to_string(), DiskLocation::new_at(a, &vec![1u8; 5000], 0));
    st.commit_store("b".to_string(), DiskLocation::new_at(b, b"y", 0));
    let kept = st.rebuild_allocation(&[true, false]);
    assert_eq!(kept, 1);
    assert_eq!(st.allocator().used_blocks(), 2);
    assert!(st.find("a").is_some());
    assert!(st.find("b").is_none());
}

#[test]
fn block_data_intact_checks_crc32() {
    let data = b"123456789";
    let header = BlockHeader::new(1, data.len() as u32, 0xCBF43926);
    assert!(block_data_intact(&header, data));
    assert!(!block_data_intact(&header, b"123456780"));
}

#[test]
fn cache_metadata_rebuilds_the_directory() {
    let mut dir = CacheDirectory::new();
    dir.insert("a".to_string(), DiskLocation::new(4096, b"x"));
    dir.insert("b".to_string(), DiskLocation::new(8192, b"y"));
    dir.touch("a");
    let meta = CacheMetadata::of_directory(&dir);
    assert_eq!(meta.checksum, 0);
    assert_eq!(meta.lru_order, vec!["b".to_string(), "a".to_string()]);
    let back = meta.into_directory().unwrap();
    assert_eq!(back.len(), 2);
    assert_eq!(back.get("b"), dir.get("b"));
    assert_eq!(back.hits(), 1);
}

#[test]
fn extract_reads_in_request_order() {
    // Runs merged from the sorted requests serve the requests in any order.
    let sorted = vec![(0u64, 4usize), (4, 2), (200000, 3)];
    let merged = merge_adjacent_reads(&sorted);
    let data = vec![(merged[0].0, vec![0u8, 1, 2, 3, 4, 5]), (merged[1].0, vec![7u8, 8, 9])];
    let asked = vec![(200000u64, 3usize), (4, 2), (0, 4)];
    let out = extract_reads(&asked, &data);
    assert_eq!(out, vec![vec![7, 8, 9], vec![4, 5], vec![0, 1, 2, 3]]);
}

#[test]
fn directory_remove_shrinks_and_keeps_lru_in_step() {
    let mut dir = CacheDirectory::new();
    dir.insert("a".to_string(), DiskLocation::new(0, b"x"));
    dir.insert("b".to_string(), DiskLocation::new(4096, b"y"));
    assert!(dir.remove("a").is_some());
    assert_eq!(dir.len(), 1);
    assert_eq!(dir.select_lru_victims_count(10), vec!["b".to_string()]);
    assert!(dir.remove("a").is_none());
    assert_eq!(dir.len(), 1);
}

#[test]
fn allocator_error_names_the_range() {
    let mut alloc = BlockAllocator::new(4096, 4);
    match alloc.mark_used(8192, 3) {
        Err(RawDiskError::AllocationError(m)) => assert_eq!(m, "Block range out of bounds: 2 + 3 > 4"),
        _ => panic!("expected an allocation error"),
    }
}

#[test]
fn gc_try_record_run_refuses_overflow() {
    let mut metrics = GCMetrics::new();
    assert!(metrics.try_record_run(3, 100, Duration::from_millis(5)));
    assert_eq!(metrics.total_runs, 1);
    metrics.total_evicted = u64::MAX;
    assert!(!metrics.try_record_run(1, 100, Duration::from_millis(5)));
    assert_eq!(metrics.total_runs, 1);
    assert_eq!(metrics.total_bytes_freed, 100);
}

#[test]
fn tracker_access_count() {
    let mut tracker = EvictionTracker::new(EvictionStrategy::LFU, 0);
    assert_eq!(tracker.access_count("k"), None);
    tracker.record_access("k");
    tracker.record_access("k");
    assert_eq!(tracker.access_count("k"), Some(2));
}
