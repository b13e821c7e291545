//! Metrics counters and the raw-vector file header.

use vectordb::metrics::MetricsCollector;
use vectordb::mmap::MmapVectorStorage;

#[test]
fn test_metrics_basic() {
    let mut m = MetricsCollector::new();
    m.record_insert();
    m.record_insert();
    m.record_delete();

    assert_eq!(m.total_inserts(), 2);
    assert_eq!(m.total_deletes(), 1);
    assert_eq!(m.total_queries(), 0);
}

#[test]
fn test_metrics_latency() {
    let mut m = MetricsCollector::new();
    m.record_query(100);
    m.record_query(200);
    m.record_query(300);

    assert_eq!(m.total_queries(), 3);
    assert!((m.avg_query_latency_us() as f64 - 200.0).abs() < 1.0);
    assert!((m.percentile_query_latency_us(50) as f64 - 200.0).abs() < 1.0);
}

#[test]
fn test_metrics_empty() {
    let m = MetricsCollector::new();
    assert_eq!(m.avg_query_latency_us(), 0);
    assert_eq!(m.percentile_query_latency_us(99), 0);
}

#[test]
fn test_metrics_percentile_extremes() {
    let mut m = MetricsCollector::new();
    m.record_query(30);
    m.record_query(10);
    m.record_query(20);
    assert_eq!(m.percentile_query_latency_us(0), 10);
    assert_eq!(m.percentile_query_latency_us(100), 30);
}

#[test]
fn test_mmap_create_and_append() {
    let mut storage = MmapVectorStorage::create(3).unwrap();
    assert_eq!(storage.note_append().unwrap(), 0);
    assert_eq!(storage.note_append().unwrap(), 1);
    assert_eq!(storage.count(), 2);

    assert_eq!(storage.record_offset(0).unwrap(), 8);
    assert_eq!(storage.record_offset(1).unwrap(), 8 + 12);
    assert!(storage.record_offset(2).is_err());
}

#[test]
fn test_mmap_reopen() {
    let mut storage = MmapVectorStorage::create(2).unwrap();
    storage.note_append().unwrap();
    storage.note_append().unwrap();
    let header = storage.encode_header();

    let reopened = MmapVectorStorage::decode_header(&header).unwrap();
    assert_eq!(reopened.count(), 2);
    assert_eq!(reopened.dimension(), 2);
    assert_eq!(reopened.record_offset(1).unwrap(), 8 + 8);
}

#[test]
fn test_mmap_header_too_small() {
    let short: Vec<u8> = vec![1, 2, 3];
    assert!(MmapVectorStorage::decode_header(&short).is_err());
}
