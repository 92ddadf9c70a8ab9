use ipfrs::node_stats::StorageStats;
use ipfrs::error::ErrorKind;
use ipfrs::semantic::{pq_layout, quantized_dot, quantized_sq_distance, DistanceMetric, PQCode, QuantizedVector, RouterConfig};

#[test]
fn test_router_config_presets() {
    let d = RouterConfig::default();
    assert_eq!(d.dimension, 768);
    assert_eq!(d.metric, DistanceMetric::Cosine);
    assert_eq!((d.max_connections, d.ef_construction, d.ef_search, d.cache_size), (16, 200, 50, 1000));

    let low = RouterConfig::low_latency(128);
    assert_eq!((low.dimension, low.max_connections, low.ef_construction, low.ef_search, low.cache_size), (128, 12, 150, 32, 2000));
    let high = RouterConfig::high_recall(64);
    assert_eq!((high.max_connections, high.ef_construction, high.ef_search, high.cache_size), (32, 400, 200, 1000));
    let mem = RouterConfig::memory_efficient(64);
    assert_eq!((mem.max_connections, mem.ef_construction, mem.ef_search, mem.cache_size), (8, 100, 50, 500));
    let large = RouterConfig::large_scale(64);
    assert_eq!((large.max_connections, large.ef_construction, large.ef_search, large.cache_size), (24, 300, 100, 5000));
    assert_eq!(RouterConfig::balanced(768), RouterConfig::default());
}

#[test]
fn test_router_config_builders() {
    let c = RouterConfig::with_metric(32, DistanceMetric::L2).with_cache_size(7).with_ef_search(99);
    assert_eq!(c.metric, DistanceMetric::L2);
    assert_eq!(c.dimension, 32);
    assert_eq!(c.cache_size, 7);
    assert_eq!(c.ef_search, 99);
    assert_eq!(c.max_connections, 16);
}

#[test]
fn test_quantized_vector_sizes() {
    let v = QuantizedVector::new(vec![1, 2, 3, 250], true);
    assert_eq!(v.dimension(), 4);
    assert_eq!(v.size_bytes(), 4);
    assert_eq!(v.as_bytes(), &[1, 2, 3, 250]);
    assert!(v.signed);
    let code = PQCode { codes: vec![0; 8] };
    assert_eq!(code.size_bytes(), 8);
}

#[test]
fn test_storage_stats_of_count() {
    assert!(StorageStats::of_count(0).is_empty);
    let s = StorageStats::of_count(3);
    assert!(!s.is_empty);
    assert_eq!(s.num_blocks, 3);
}

#[test]
fn test_quantized_distance_and_dot() {
    let a = QuantizedVector::new(vec![10, 20, 255], false);
    let b = QuantizedVector::new(vec![13, 16, 0], false);
    // 3^2 + 4^2 + 255^2
    assert_eq!(quantized_sq_distance(&a, &b).unwrap(), 9 + 16 + 65025);
    assert_eq!(quantized_dot(&a, &b).unwrap(), 130 + 320);
    // signed bytes are two's complement
    let s1 = QuantizedVector::new(vec![0xff, 2], true);
    let s2 = QuantizedVector::new(vec![0x01, 0x80], true);
    assert_eq!(quantized_sq_distance(&s1, &s2).unwrap(), 4 + 130 * 130);
    assert_eq!(quantized_dot(&s1, &s2).unwrap(), -1 + 2 * -128);
    let short = QuantizedVector::new(vec![1], false);
    assert_eq!(quantized_sq_distance(&a, &short).unwrap_err().error_kind(), ErrorKind::InvalidInput);
    assert_eq!(quantized_dot(&a, &short).unwrap_err().error_kind(), ErrorKind::InvalidInput);
}

#[test]
fn test_pq_layout() {
    assert_eq!(pq_layout(768, 8, 8).unwrap(), (96, 256));
    assert_eq!(pq_layout(16, 4, 4).unwrap(), (4, 16));
    assert_eq!(pq_layout(10, 3, 8).unwrap_err().error_kind(), ErrorKind::InvalidInput);
    assert_eq!(pq_layout(8, 2, 17).unwrap_err().error_kind(), ErrorKind::InvalidInput);
    assert_eq!(pq_layout(8, 0, 8).unwrap_err().error_kind(), ErrorKind::InvalidInput);
}
