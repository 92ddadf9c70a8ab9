use ipfrs::bloom::{bloom_memory_bytes, fnv1a_hash, fnv1a_hash_with_seed, BloomFilter};
use ipfrs::blockstore::BlockStoreConfig;
use ipfrs::cid::{Block, Cid};
use ipfrs::compression::{
    compress_payload, decompress, encode_compressed, encode_uncompressed, frame_block, BlockCompressionStats,
    CompressionAlgorithm,
};
use ipfrs::error::{Error, ErrorKind};
use ipfrs::gc::{GcConfig, GcPolicy, GcResult, GcStats, Marker, PinType, Sweeper};
use ipfrs::migration::{
    batches, estimate_from_sample, migration_complete, sample_size, MigrationConfig, MigrationTally, StorageMigrator,
};
use std::path::PathBuf;
use std::sync::Arc;
use std::time::Duration;

/// The bloom parameters for an item count and false positive rate.
fn bloom_params(expected_items: usize, false_positive_rate: f64) -> (usize, usize) {
    let ln2_squared = std::f64::consts::LN_2 * std::f64::consts::LN_2;
    let num_bits = (-((expected_items as f64) * false_positive_rate.ln()) / ln2_squared).ceil() as usize;
    let num_hashes = ((num_bits as f64 / expected_items as f64) * std::f64::consts::LN_2).ceil() as usize;
    (num_bits.max(64), num_hashes.clamp(1, 16))
}

fn bloom(expected_items: usize, false_positive_rate: f64) -> BloomFilter {
    let (bits, hashes) = bloom_params(expected_items, false_positive_rate);
    BloomFilter::with_params(bits, hashes)
}

#[test]
fn test_gc_config() {
    let config = GcConfig::default();
    assert!(!config.dry_run);
    assert!(!config.incremental);

    let config = GcConfig::incremental();
    assert!(config.incremental);

    let config = GcConfig::dry_run().with_max_blocks(100);
    assert!(config.dry_run);
    assert_eq!(config.max_blocks_per_run, 100);
}

#[test]
fn test_gc_stats() {
    let mut stats = GcStats::default();
    let result = GcResult { blocks_collected: 10, bytes_freed: 1024, ..Default::default() };

    stats.record_run(&result);

    let snapshot = stats.snapshot();
    assert_eq!(snapshot.total_runs, 1);
    assert_eq!(snapshot.total_blocks_collected, 10);
    assert_eq!(snapshot.total_bytes_freed, 1024);
}

#[test]
fn gc_config_defaults_and_time_limit() {
    let config = GcConfig::default();
    assert_eq!(config.batch_size, 1000);
    assert_eq!(config.batch_delay, Duration::from_millis(10));
    assert_eq!(config.max_blocks_per_run, 0);
    let limited = config.with_time_limit(Duration::from_secs(5));
    assert_eq!(limited.time_limit, Some(Duration::from_secs(5)));
    assert_eq!(GcResult::default().duration, Duration::ZERO);
}

#[test]
fn gc_stats_record_run_at_sets_timestamp_and_wraps() {
    let mut stats = GcStats { total_runs: u64::MAX, total_blocks_collected: 5, total_bytes_freed: 7, last_run_timestamp: 0 };
    let result = GcResult { blocks_collected: 3, bytes_freed: 4, ..Default::default() };
    stats.record_run_at(&result, 1234);
    let s = stats.snapshot();
    assert_eq!(s.total_runs, 0);
    assert_eq!(s.total_blocks_collected, 8);
    assert_eq!(s.total_bytes_freed, 11);
    assert_eq!(s.last_run_timestamp, 1234);
}

fn cid(b: u8) -> Cid {
    Cid::from_bytes(vec![1, 85, b])
}

#[test]
fn gc_mark_follows_links_from_roots() {
    let pins = vec![(cid(1), PinType::Recursive), (cid(9), PinType::Indirect)];
    let mut m = Marker::from_pins(&pins);
    assert_eq!(m.marked_count(), 2);
    // 1 links to 2 and 3; 2 links to 1 (already marked) and 4
    let next = m.next().unwrap();
    assert_eq!(next, cid(1));
    m.add_links(&vec![cid(2), cid(3)]);
    let next = m.next().unwrap();
    assert_eq!(next, cid(3));
    m.add_links(&vec![]);
    let next = m.next().unwrap();
    assert_eq!(next, cid(2));
    m.add_links(&vec![cid(1), cid(4)]);
    assert_eq!(m.next().unwrap(), cid(4));
    assert!(m.next().is_none());
    assert_eq!(m.marked_count(), 5);
    assert!(m.is_marked(&cid(4)));
    assert!(!m.is_marked(&cid(5)));
}

#[test]
fn gc_sweep_collects_unmarked_in_batches() {
    let config = GcConfig::incremental();
    let config = GcConfig { batch_size: 2, ..config };
    let mut s = Sweeper::new(&config);
    let step = s.visit(cid(1), true, false, 0);
    assert!(!step.collect && !step.stop);
    let step = s.visit(cid(2), false, false, 0);
    assert!(step.collect && !step.pause);
    let step = s.visit(cid(3), false, false, 0);
    assert!(step.collect && step.pause);
    assert_eq!(step.flush, vec![cid(2), cid(3)]);
    let step = s.visit(cid(4), false, false, 0);
    assert!(step.collect);
    assert_eq!(s.finish(), vec![cid(4)]);
    let stop = s.visit(cid(5), false, true, 0);
    assert!(stop.stop && !stop.collect);
}

#[test]
fn gc_sweep_stops_at_block_limit() {
    let config = GcConfig::default().with_max_blocks(2);
    let mut s = Sweeper::new(&config);
    assert!(!s.visit(cid(1), false, false, 1).stop);
    assert!(s.visit(cid(2), false, false, 2).stop);
}

#[test]
fn gc_result_accounting() {
    let mut r = GcResult::default();
    r.count_dry(Some(10));
    r.count_dry(None);
    assert_eq!(r.blocks_collected, 2);
    assert_eq!(r.bytes_freed, 10);
    r.record_delete(Some(5), Ok(()));
    r.record_delete(None, Err("boom".to_string()));
    assert_eq!(r.blocks_collected, 3);
    assert_eq!(r.bytes_freed, 15);
    assert_eq!(r.errors, vec!["boom".to_string()]);
}

#[test]
fn gc_policy_due() {
    assert!(!GcPolicy::Manual.is_due(100, 0));
    assert!(GcPolicy::TimeBased { interval_secs: 60 }.is_due(100, 40));
    assert!(!GcPolicy::TimeBased { interval_secs: 60 }.is_due(100, 41));
    assert!(!GcPolicy::SpaceBased { threshold_percent: 0.9f64.to_bits() }.is_due(100, 0));
    assert!(GcPolicy::Combined { interval_secs: 10, threshold_percent: 0 }.is_due(10, 0));
    assert!(!GcPolicy::TimeBased { interval_secs: 1 }.is_due(5, 10));
}

#[test]
fn test_bloom_filter_basic() {
    let mut filter = bloom(1000, 0.01);
    filter.insert(b"hello");
    filter.insert(b"world");
    assert!(filter.contains(b"hello"));
    assert!(filter.contains(b"world"));
    assert!(!filter.contains(b"foo"));
}

#[test]
fn test_bloom_filter_false_positive_rate() {
    let mut filter = bloom(10000, 0.01);
    for i in 0i32..10000 {
        filter.insert(&i.to_le_bytes());
    }
    let mut false_positives = 0;
    for i in 10000i32..20000 {
        if filter.contains(&i.to_le_bytes()) {
            false_positives += 1;
        }
    }
    let fpr = false_positives as f64 / 10000.0;
    assert!(fpr < 0.03, "False positive rate {} too high", fpr);
}

#[test]
fn test_bloom_config_memory() {
    let (bits, _) = bloom_params(1_000_000, 0.01);
    let memory_mb = bloom_memory_bytes(bits) as f64 / (1024.0 * 1024.0);
    assert!(memory_mb < 10.0, "Memory {} MB exceeds 10MB target", memory_mb);
}

#[test]
fn test_bloom_filter_stats() {
    let mut filter = bloom(1000, 0.01);
    for i in 0i32..100 {
        filter.insert(&i.to_le_bytes());
    }
    assert_eq!(filter.count(), 100);
    let fill_ratio = filter.set_bits() as f64 / filter.num_bits() as f64;
    assert!(fill_ratio > 0.0);
    assert!(fill_ratio < 1.0);
}

#[test]
fn bloom_fnv_known_values() {
    assert_eq!(fnv1a_hash(b""), 0xcbf2_9ce4_8422_2325);
    assert_eq!(fnv1a_hash(b"a"), 0xaf63_dc4c_8601_ec8c);
    assert_eq!(fnv1a_hash_with_seed(b"", 7), 7);
}

#[test]
fn bloom_clear_and_parts() {
    let mut filter = BloomFilter::with_params(100, 3);
    filter.insert_cid(&cid(1));
    assert!(filter.contains_cid(&cid(1)));
    let (bits, count) = filter.to_parts();
    assert_eq!(bits.len(), 2);
    assert_eq!(count, 1);
    let restored = BloomFilter::from_parts(bits.clone(), count, 100, 3).unwrap();
    assert!(restored.contains_cid(&cid(1)));
    let bad = BloomFilter::from_parts(bits, count, 200, 3);
    assert!(matches!(bad, Err(Error::InvalidData(_))));
    filter.clear();
    assert_eq!(filter.count(), 0);
    assert!(!filter.contains_cid(&cid(1)));
    assert_eq!(filter.memory_bytes(), 16);
}

#[test]
fn compression_frames_and_roundtrip() {
    let data = b"hello hello hello hello hello hello hello hello".to_vec();
    assert_eq!(encode_uncompressed(&data)[0], 0);
    assert_eq!(encode_compressed(&data, CompressionAlgorithm::Lz4)[0], 2);
    for alg in [CompressionAlgorithm::Zstd, CompressionAlgorithm::Lz4, CompressionAlgorithm::Snappy] {
        let c = compress_payload(alg, 3, 8, &data).unwrap();
        assert!(c.is_some());
        let frame = frame_block(&data, c, true, alg);
        assert_ne!(frame[0], 0);
        assert_eq!(decompress(&frame).unwrap(), data);
    }
    let below = compress_payload(CompressionAlgorithm::Zstd, 3, 1000, &data).unwrap();
    assert!(below.is_none());
    let frame = frame_block(&data, below, true, CompressionAlgorithm::Zstd);
    assert_eq!(frame[0], 0);
    assert_eq!(decompress(&frame).unwrap(), data);
    let rejected = frame_block(&data, Some(vec![1, 2]), false, CompressionAlgorithm::Snappy);
    assert_eq!(rejected, encode_uncompressed(&data));
}

#[test]
fn compression_errors_and_stats() {
    assert_eq!(decompress(&[]).unwrap(), Vec::<u8>::new());
    let e = decompress(&[9, 1, 2]).unwrap_err();
    assert_eq!(e.error_kind(), ErrorKind::Storage);
    assert!(decompress(&[1, 1, 2, 3]).is_err());

    let mut stats = BlockCompressionStats::default();
    stats.record_put(100, &[1, 2, 3]);
    stats.record_put(10, &[0; 11]);
    stats.record_decompressions(2);
    assert_eq!(stats.blocks_compressed, 1);
    assert_eq!(stats.blocks_uncompressed, 1);
    assert_eq!(stats.bytes_original, 110);
    assert_eq!(stats.bytes_compressed, 14);
    assert_eq!(stats.bytes_saved(), 96);
    assert_eq!(stats.decompressions, 2);
    let grown = BlockCompressionStats { bytes_original: 5, bytes_compressed: 9, ..Default::default() };
    assert_eq!(grown.bytes_saved(), 0);
    assert_eq!(CompressionAlgorithm::default(), CompressionAlgorithm::Zstd);
}

#[test]
fn migration_config_and_migrator() {
    let config = MigrationConfig::default();
    assert_eq!(config.batch_size, 100);
    assert!(config.skip_existing);
    assert!(!config.verify);
    assert_eq!(config.concurrency, 4);
    let m: StorageMigrator<u8, u8, fn(u64, u64)> = StorageMigrator::new(Arc::new(1u8), Arc::new(2u8));
    assert!(m.progress_callback().is_none());
    let m = m.with_progress_callback(|_done: u64, _total: u64| {});
    assert!(m.progress_callback().is_some());
    assert_eq!(m.config().batch_size, 100);
    let custom: StorageMigrator<u8, u8, fn(u64, u64)> =
        StorageMigrator::with_config(Arc::new(1u8), Arc::new(2u8), MigrationConfig { batch_size: 7, ..config });
    assert_eq!(custom.config().batch_size, 7);
}

#[test]
fn migration_batches_and_tally() {
    let cids: Vec<Cid> = (0..5).map(cid).collect();
    let b = batches(&cids, 2);
    assert_eq!(b.len(), 3);
    assert_eq!(b[2], vec![cid(4)]);

    let mut t = MigrationTally::new();
    let chosen = t.select_missing(&b[0], &vec![true, false], true);
    assert_eq!(chosen, vec![cid(1)]);
    assert_eq!(t.blocks_skipped, 1);
    let all = t.select_missing(&b[1], &vec![], false);
    assert_eq!(all, b[1]);

    let found = vec![Some(Block::from_parts(cid(1), vec![1, 2, 3])), None];
    let blocks = t.collect_found(found);
    assert_eq!(blocks.len(), 1);
    assert_eq!(t.bytes_migrated, 3);
    assert_eq!(t.errors, 1);
    t.record_put(1, true);
    t.record_put(2, false);
    t.record_verify(&vec![true, false, false]);
    assert_eq!(t.blocks_migrated, 1);
    assert_eq!(t.errors, 5);
}

#[test]
fn migration_estimate_and_validation() {
    assert_eq!(sample_size(250), 100);
    assert_eq!(sample_size(3), 3);
    let sample = vec![Some(Block::from_parts(cid(1), vec![0; 10])), None, Some(Block::from_parts(cid(2), vec![0; 20]))];
    let e = estimate_from_sample(3, &sample);
    assert_eq!(e.total_blocks, 3);
    assert_eq!(e.total_bytes, 30);
    assert_eq!(e.space_required, 30);
    assert_eq!(e.estimated_duration_low, Duration::from_secs(0));
    let big = estimate_from_sample(2500, &sample);
    assert_eq!(big.total_bytes, 0);
    assert_eq!(big.estimated_duration_low, Duration::from_secs(25));
    assert_eq!(big.estimated_duration_high, Duration::from_secs(2));

    assert!(migration_complete(2, 2, &vec![true, true]));
    assert!(!migration_complete(2, 3, &vec![true, true]));
    assert!(!migration_complete(2, 2, &vec![true, false]));
}

#[test]
fn blockstore_config_presets() {
    let d = BlockStoreConfig::default();
    assert_eq!(d.path, PathBuf::from(".ipfrs/blocks"));
    assert_eq!(d.cache_size, 100 * 1024 * 1024);
    let dev = BlockStoreConfig::development();
    assert_eq!(dev.path, PathBuf::from("/tmp/ipfrs-dev"));
    assert_eq!(dev.cache_size, 50 * 1024 * 1024);
    let prod = BlockStoreConfig::production(PathBuf::from("/data"));
    assert_eq!(prod.cache_size, 500 * 1024 * 1024);
    let emb = BlockStoreConfig::embedded(PathBuf::from("/e")).with_cache_mb(3);
    assert_eq!(emb.cache_size, 3 * 1024 * 1024);
    assert_eq!(emb.path, PathBuf::from("/e"));
    let b = emb.with_cache_bytes(77).with_path(PathBuf::from("/x"));
    assert_eq!(b.cache_size, 77);
    assert_eq!(b.path, PathBuf::from("/x"));
}

#[test]
fn test_bloom_encode_decode_roundtrip() {
    let mut filter = BloomFilter::with_params(256, 4);
    filter.insert(b"alpha");
    filter.insert(b"beta");
    let bytes = filter.encode().unwrap();
    let back = BloomFilter::decode(&bytes, 256, 4).unwrap();
    assert_eq!(back.to_parts(), filter.to_parts());
    assert!(back.contains(b"alpha"));
    assert!(back.contains(b"beta"));
    assert_eq!(back.count(), 2);
    // the word count must fit the size
    assert_eq!(BloomFilter::decode(&bytes, 64, 4).unwrap_err().error_kind(), ErrorKind::InvalidData);
    assert_eq!(BloomFilter::decode(&[0xff], 256, 4).unwrap_err().error_kind(), ErrorKind::Deserialization);
}

#[test]
fn compression_threshold_is_exclusive() {
    let data = vec![42u8; 1000];
    let at = compress_payload(CompressionAlgorithm::Zstd, 3, 1000, &data).unwrap();
    assert!(at.is_none());
    let frame = frame_block(&data, at, true, CompressionAlgorithm::Zstd);
    assert_eq!(frame[0], 0);
    assert_eq!(&frame[1..], &data[..]);
    let above = compress_payload(CompressionAlgorithm::Zstd, 3, 999, &data).unwrap();
    assert!(above.is_some());
    let empty = compress_payload(CompressionAlgorithm::Snappy, 3, 0, &[]).unwrap();
    assert!(empty.is_none());
}

#[test]
fn bloom_remembers_every_insert() {
    let mut filter = BloomFilter::with_params(512, 3);
    let items: Vec<Vec<u8>> = (0u32..40).map(|i| format!("item-{i}").into_bytes()).collect();
    for item in &items {
        filter.insert(item);
    }
    for item in &items {
        assert!(filter.contains(item));
    }
    assert_eq!(filter.count(), 40);
}

#[test]
fn bloom_encode_always_succeeds() {
    let empty = BloomFilter::with_params(64, 2);
    assert!(empty.encode().is_ok());
    let mut filter = BloomFilter::with_params(1000, 4);
    filter.insert(b"x");
    let bytes = filter.encode().unwrap();
    let back = BloomFilter::decode(&bytes, 1000, 4).unwrap();
    assert!(back.contains(b"x"));
}

#[test]
fn gc_stats_sum_over_runs() {
    let mut stats = GcStats::default();
    let runs = [(3u64, 100u64), (0, 0), (7, 4096), (1, 1)];
    for (blocks, bytes) in runs {
        stats.record_run(&GcResult { blocks_collected: blocks, bytes_freed: bytes, ..Default::default() });
    }
    let snap = stats.snapshot();
    assert_eq!(snap.total_runs, 4);
    assert_eq!(snap.total_blocks_collected, 11);
    assert_eq!(snap.total_bytes_freed, 4197);
    assert!(snap.last_run_timestamp > 0);
}

#[test]
fn marker_traversal_follows_links_from_roots() {
    let c = |s: &str| Cid::from_bytes(s.as_bytes().to_vec());
    let links = |x: &Cid| -> Vec<Cid> {
        match x.to_bytes().as_slice() {
            b"a" => vec![Cid::from_bytes(b"c".to_vec())],
            b"c" => vec![Cid::from_bytes(b"d".to_vec()), Cid::from_bytes(b"a".to_vec())],
            b"b" => vec![Cid::from_bytes(b"e".to_vec())],
            _ => vec![],
        }
    };
    let pins = vec![(c("a"), PinType::Direct), (c("b"), PinType::Indirect)];
    let mut m = Marker::from_pins(&pins);
    while let Some(x) = m.next() {
        m.add_links(&links(&x));
    }
    for s in ["a", "b", "c", "d"] {
        assert!(m.is_marked(&c(s)), "{s}");
    }
    // An indirect-only pin is marked but its links are not followed.
    assert!(!m.is_marked(&c("e")));
    assert_eq!(m.marked_count(), 4);
}

#[test]
fn bloom_insert_sets_only_probe_bits() {
    let mut filter = BloomFilter::with_params(1024, 3);
    filter.insert(b"hello");
    assert!(filter.set_bits() <= 3);
    assert!(filter.contains(b"hello"));
    assert!(!filter.contains(b"foo"));
}
