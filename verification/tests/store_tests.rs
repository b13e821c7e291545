//! Vector store behaviour over a flat index, with a floating-point
//! distance kernel supplied from the outside.

use vectordb::distance::{DistanceKernel, DistanceMetric};
use vectordb::error::VectorDbError;
use vectordb::flat_index::FlatIndex;
use vectordb::storage::{BatchInsertItem, Metadata, MetadataFilter, VectorStore};
use vectordb::vector::Vector;

fn bits(xs: &[f32]) -> Vec<u32> {
    xs.iter().map(|x| x.to_bits()).collect()
}

fn vecf(xs: &[f32]) -> Vector {
    Vector::new(bits(xs))
}

fn floats(v: &Vector) -> Vec<f32> {
    v.as_slice().iter().map(|b| f32::from_bits(*b)).collect()
}

fn key_of(d: f32) -> u64 {
    let b = d.to_bits();
    let k = if b & 0x8000_0000 != 0 { !b } else { b | 0x8000_0000 };
    k as u64
}

fn dist_of_key(k: u64) -> f32 {
    let k = k as u32;
    let b = if k & 0x8000_0000 != 0 { k & 0x7fff_ffff } else { !k };
    f32::from_bits(b)
}

struct MetricKernel {
    metric: DistanceMetric,
}

impl DistanceKernel for MetricKernel {
    fn dist(&self, a: &Vector, b: &Vector) -> Result<u64, VectorDbError> {
        let av = floats(a);
        let bv = floats(b);
        let d = match self.metric {
            DistanceMetric::Euclidean => {
                av.iter().zip(bv.iter()).map(|(x, y)| (x - y) * (x - y)).sum::<f32>().sqrt()
            }
            DistanceMetric::Cosine => {
                let na = av.iter().map(|x| x * x).sum::<f32>().sqrt();
                let nb = bv.iter().map(|x| x * x).sum::<f32>().sqrt();
                if na == 0.0 || nb == 0.0 {
                    return Err(VectorDbError::InvalidVector {
                        reason: "Cannot compute cosine distance with zero vector".to_string(),
                    });
                }
                let dot: f32 = av.iter().zip(bv.iter()).map(|(x, y)| x * y).sum();
                1.0 - (dot / (na * nb)).clamp(-1.0, 1.0)
            }
            DistanceMetric::DotProduct => {
                -av.iter().zip(bv.iter()).map(|(x, y)| x * y).sum::<f32>()
            }
        };
        Ok(key_of(d))
    }
}

fn euclid_store() -> VectorStore<FlatIndex<MetricKernel>> {
    VectorStore::new(DistanceMetric::Euclidean, MetricKernel { metric: DistanceMetric::Euclidean })
}

#[test]
fn test_insert_and_get() {
    let mut store = euclid_store();
    let v = vecf(&[1.0, 2.0, 3.0]);
    store.insert("v1".to_string(), v.duplicate()).unwrap();

    assert_eq!(store.len(), 1);
}

#[test]
fn test_dimension_consistency() {
    let mut store = euclid_store();
    store.insert("v1".to_string(), vecf(&[1.0, 2.0, 3.0])).unwrap();

    let result = store.insert("v2".to_string(), vecf(&[1.0, 2.0]));
    assert!(matches!(result, Err(VectorDbError::DimensionMismatch { .. })));
    assert_eq!(store.len(), 1);
}

#[test]
fn test_delete() {
    let mut store = euclid_store();
    let v = vecf(&[1.0, 2.0, 3.0]);
    store.insert("v1".to_string(), v).unwrap();

    store.delete("v1").unwrap();
    assert_eq!(store.len(), 0);
}

#[test]
fn test_search() {
    let mut store = euclid_store();
    store.insert("v1".to_string(), vecf(&[1.0, 0.0, 0.0])).unwrap();
    store.insert("v2".to_string(), vecf(&[0.0, 1.0, 0.0])).unwrap();
    store.insert("v3".to_string(), vecf(&[1.0, 1.0, 0.0])).unwrap();

    let query = vecf(&[1.0, 0.0, 0.0]);
    let results = store.search(&query, 2).unwrap();

    assert_eq!(results.len(), 2);
    assert_eq!(results[0].id, "v1");
    assert!((dist_of_key(results[0].distance) - 0.0).abs() < 1e-6);
}

#[test]
fn test_search_empty_store() {
    let store = euclid_store();
    let query = vecf(&[1.0, 2.0, 3.0]);
    let results = store.search(&query, 5).unwrap();
    assert!(results.is_empty());
}

#[test]
fn test_search_k_zero() {
    let mut store = euclid_store();
    store.insert("v1".to_string(), vecf(&[1.0, 0.0])).unwrap();
    let results = store.search(&vecf(&[1.0, 0.0]), 0).unwrap();
    assert!(results.is_empty());
}

#[test]
fn test_search_k_exceeds_len() {
    let mut store = euclid_store();
    store.insert("v1".to_string(), vecf(&[1.0, 0.0])).unwrap();
    store.insert("v2".to_string(), vecf(&[0.0, 1.0])).unwrap();
    let results = store.search(&vecf(&[1.0, 0.0]), 10).unwrap();
    assert_eq!(results.len(), 2);
}

#[test]
fn test_search_query_dimension_mismatch() {
    let mut store = euclid_store();
    store.insert("v1".to_string(), vecf(&[1.0, 0.0, 0.0])).unwrap();
    let r = store.search(&vecf(&[1.0, 0.0]), 1);
    assert!(matches!(r, Err(VectorDbError::DimensionMismatch { expected: 3, actual: 2 })));
}

#[test]
fn test_get_returns_vector() {
    let mut store = euclid_store();
    let v = vecf(&[1.0, 2.0, 3.0]);
    store.insert("v1".to_string(), v.duplicate()).unwrap();

    assert_eq!(store.get("v1"), Some(&v));
    assert_eq!(store.get("nonexistent"), None);
}

#[test]
fn test_delete_returns_vector() {
    let mut store = euclid_store();
    let v = vecf(&[1.0, 2.0, 3.0]);
    store.insert("v1".to_string(), v.duplicate()).unwrap();

    let deleted = store.delete("v1").unwrap();
    assert_eq!(deleted, v);
    assert_eq!(store.len(), 0);
}

#[test]
fn test_delete_missing_id() {
    let mut store = euclid_store();
    let r = store.delete("ghost");
    assert!(matches!(r, Err(VectorDbError::VectorNotFound { .. })));
}

#[test]
fn test_get_metadata() {
    let mut store = euclid_store();
    let mut meta = Metadata::new();
    meta.insert("color".to_string(), "red".to_string());
    store.insert_with_metadata("v1".to_string(), vecf(&[1.0, 2.0, 3.0]), meta).unwrap();

    let m = store.get_metadata("v1").unwrap();
    assert_eq!(m.get("color"), Some(&"red".to_string()));
    assert!(store.get_metadata("nonexistent").is_none());
}

#[test]
fn test_metadata() {
    let mut store = euclid_store();
    let mut metadata = Metadata::new();
    metadata.insert("label".to_string(), "test".to_string());

    store.insert_with_metadata("v1".to_string(), vecf(&[1.0, 2.0, 3.0]), metadata).unwrap();

    assert_eq!(store.len(), 1);
}

#[test]
fn test_reinsert_same_id() {
    let mut store = euclid_store();
    store.insert("v1".to_string(), vecf(&[1.0, 0.0])).unwrap();
    store.insert("v1".to_string(), vecf(&[0.0, 1.0])).unwrap();

    assert_eq!(store.len(), 1);
    let results = store.search(&vecf(&[0.0, 1.0]), 1).unwrap();
    assert_eq!(results[0].id, "v1");
    assert!(dist_of_key(results[0].distance).abs() < 1e-6);
    assert_eq!(store.get("v1"), Some(&vecf(&[0.0, 1.0])));
}

#[test]
fn test_insert_delete_search_as_if_never_inserted() {
    let mut store = euclid_store();
    store.insert("keep".to_string(), vecf(&[1.0, 0.0])).unwrap();
    store.insert("gone".to_string(), vecf(&[0.9, 0.1])).unwrap();
    store.delete("gone").unwrap();

    let results = store.search(&vecf(&[0.9, 0.1]), 10).unwrap();
    assert_eq!(results.len(), 1);
    assert_eq!(results[0].id, "keep");
}

#[test]
fn test_search_with_filter_matching() {
    let mut store = euclid_store();

    let mut m1 = Metadata::new();
    m1.insert("color".to_string(), "red".to_string());
    store.insert_with_metadata("v1".to_string(), vecf(&[1.0, 0.0, 0.0]), m1).unwrap();

    let mut m2 = Metadata::new();
    m2.insert("color".to_string(), "blue".to_string());
    store.insert_with_metadata("v2".to_string(), vecf(&[0.9, 0.1, 0.0]), m2).unwrap();

    let mut m3 = Metadata::new();
    m3.insert("color".to_string(), "red".to_string());
    store.insert_with_metadata("v3".to_string(), vecf(&[0.0, 1.0, 0.0]), m3).unwrap();

    let query = vecf(&[1.0, 0.0, 0.0]);
    let filter = MetadataFilter::Eq { field: "color".to_string(), value: "red".to_string() };
    let results = store.search_with_filter(&query, 10, &filter).unwrap();

    assert_eq!(results.len(), 2);
    for r in &results {
        assert!(r.id == "v1" || r.id == "v3");
    }
}

#[test]
fn test_search_with_filter_none_matching() {
    let mut store = euclid_store();

    let mut m1 = Metadata::new();
    m1.insert("color".to_string(), "red".to_string());
    store.insert_with_metadata("v1".to_string(), vecf(&[1.0, 0.0, 0.0]), m1).unwrap();

    let query = vecf(&[1.0, 0.0, 0.0]);
    let filter = MetadataFilter::Eq { field: "color".to_string(), value: "green".to_string() };
    let results = store.search_with_filter(&query, 10, &filter).unwrap();
    assert!(results.is_empty());
}

#[test]
fn test_search_with_filter_all_matching() {
    let mut store = euclid_store();

    let mut m1 = Metadata::new();
    m1.insert("color".to_string(), "red".to_string());
    store.insert_with_metadata("v1".to_string(), vecf(&[1.0, 0.0, 0.0]), m1).unwrap();

    let mut m2 = Metadata::new();
    m2.insert("color".to_string(), "red".to_string());
    store.insert_with_metadata("v2".to_string(), vecf(&[0.0, 1.0, 0.0]), m2).unwrap();

    let query = vecf(&[1.0, 0.0, 0.0]);
    let filter = MetadataFilter::Eq { field: "color".to_string(), value: "red".to_string() };
    let results = store.search_with_filter(&query, 10, &filter).unwrap();
    assert_eq!(results.len(), 2);
}

#[test]
fn test_filter_scenario_two_colors() {
    let mut store = euclid_store();
    let mut m1 = Metadata::new();
    m1.insert("color".to_string(), "red".to_string());
    store.insert_with_metadata("v1".to_string(), vecf(&[1.0, 0.0, 0.0]), m1).unwrap();
    let mut m2 = Metadata::new();
    m2.insert("color".to_string(), "blue".to_string());
    store.insert_with_metadata("v2".to_string(), vecf(&[0.9, 0.1, 0.0]), m2).unwrap();

    let filter = MetadataFilter::Eq { field: "color".to_string(), value: "red".to_string() };
    let results = store.search_with_filter(&vecf(&[1.0, 0.0, 0.0]), 10, &filter).unwrap();
    assert_eq!(results.len(), 1);
    assert_eq!(results[0].id, "v1");
}

#[test]
fn test_filtered_results_are_filtered_prefix_of_unfiltered() {
    let mut store = euclid_store();
    for (name, pos, color) in [
        ("a", [1.0f32, 0.0, 0.0], "red"),
        ("b", [0.9, 0.1, 0.0], "blue"),
        ("c", [0.8, 0.2, 0.0], "red"),
        ("d", [0.0, 1.0, 0.0], "blue"),
    ] {
        let mut m = Metadata::new();
        m.insert("color".to_string(), color.to_string());
        store.insert_with_metadata(name.to_string(), vecf(&pos), m).unwrap();
    }
    let q = vecf(&[1.0, 0.0, 0.0]);
    let k = 2;
    let filter = MetadataFilter::Eq { field: "color".to_string(), value: "red".to_string() };
    let unfiltered = store.search(&q, 3 * k).unwrap();
    let filtered = store.search_with_filter(&q, k, &filter).unwrap();
    let expected: Vec<&str> = unfiltered
        .iter()
        .filter(|r| r.id == "a" || r.id == "c")
        .take(k)
        .map(|r| r.id.as_str())
        .collect();
    let got: Vec<&str> = filtered.iter().map(|r| r.id.as_str()).collect();
    assert_eq!(got, expected);
}

#[test]
fn test_batch_insert() {
    let mut store = euclid_store();
    let items = vec![
        BatchInsertItem {
            id: "v1".to_string(),
            vector: vecf(&[1.0, 0.0, 0.0]),
            metadata: Metadata::new(),
        },
        BatchInsertItem {
            id: "v2".to_string(),
            vector: vecf(&[0.0, 1.0, 0.0]),
            metadata: Metadata::new(),
        },
    ];
    store.insert_batch(items).unwrap();
    assert_eq!(store.len(), 2);
    assert!(store.get("v1").is_some());
    assert!(store.get("v2").is_some());
}

#[test]
fn test_batch_insert_dim_mismatch() {
    let mut store = euclid_store();
    let items = vec![
        BatchInsertItem {
            id: "v1".to_string(),
            vector: vecf(&[1.0, 0.0, 0.0]),
            metadata: Metadata::new(),
        },
        BatchInsertItem {
            id: "v2".to_string(),
            vector: vecf(&[0.0, 1.0]),
            metadata: Metadata::new(),
        },
    ];
    let result = store.insert_batch(items);
    assert!(matches!(result, Err(VectorDbError::DimensionMismatch { .. })));
    assert_eq!(store.len(), 1);
}

#[test]
fn test_batch_search() {
    let mut store = euclid_store();
    store.insert("v1".to_string(), vecf(&[1.0, 0.0, 0.0])).unwrap();
    store.insert("v2".to_string(), vecf(&[0.0, 1.0, 0.0])).unwrap();

    let queries = vec![(vecf(&[1.0, 0.0, 0.0]), 1), (vecf(&[0.0, 1.0, 0.0]), 1)];
    let results = store.search_batch(&queries).unwrap();
    assert_eq!(results.len(), 2);
    assert_eq!(results[0][0].id, "v1");
    assert_eq!(results[1][0].id, "v2");
}

#[test]
fn test_batch_search_with_filter() {
    let mut store = euclid_store();

    let mut m1 = Metadata::new();
    m1.insert("color".to_string(), "red".to_string());
    store.insert_with_metadata("v1".to_string(), vecf(&[1.0, 0.0, 0.0]), m1).unwrap();

    let mut m2 = Metadata::new();
    m2.insert("color".to_string(), "blue".to_string());
    store.insert_with_metadata("v2".to_string(), vecf(&[0.0, 1.0, 0.0]), m2).unwrap();

    let queries = vec![(vecf(&[1.0, 0.0, 0.0]), 10), (vecf(&[0.0, 1.0, 0.0]), 10)];
    let filter = MetadataFilter::Eq { field: "color".to_string(), value: "red".to_string() };
    let results = store.search_batch_with_filter(&queries, &filter).unwrap();
    assert_eq!(results.len(), 2);
    assert_eq!(results[0].len(), 1);
    assert_eq!(results[0][0].id, "v1");
    assert_eq!(results[1].len(), 1);
    assert_eq!(results[1][0].id, "v1");
}

#[test]
fn test_basic_workflow() {
    let mut store = euclid_store();

    store.insert("v1".to_string(), vecf(&[1.0, 0.0, 0.0])).unwrap();
    store.insert("v2".to_string(), vecf(&[0.0, 1.0, 0.0])).unwrap();
    store.insert("v3".to_string(), vecf(&[0.0, 0.0, 1.0])).unwrap();

    assert_eq!(store.len(), 3);

    let query = vecf(&[1.0, 0.1, 0.0]);
    let results = store.search(&query, 2).unwrap();

    assert_eq!(results.len(), 2);
    assert_eq!(results[0].id, "v1");
    assert!((dist_of_key(results[0].distance) - 0.1).abs() < 1e-5);

    store.delete("v2").unwrap();
    assert_eq!(store.len(), 2);
}

#[test]
fn test_different_metrics() {
    let metrics =
        vec![DistanceMetric::Euclidean, DistanceMetric::Cosine, DistanceMetric::DotProduct];

    for metric in metrics {
        let mut store = VectorStore::new(metric, MetricKernel { metric });
        store.insert("v1".to_string(), vecf(&[1.0, 2.0, 3.0])).unwrap();

        let query = vecf(&[1.0, 2.0, 3.0]);
        let results = store.search(&query, 1).unwrap();

        assert_eq!(results.len(), 1);
        assert_eq!(results[0].id, "v1");
    }
}

#[test]
fn test_cosine_zero_norm_query_fails() {
    let metric = DistanceMetric::Cosine;
    let mut store = VectorStore::new(metric, MetricKernel { metric });
    store.insert("v1".to_string(), vecf(&[1.0, 0.0])).unwrap();
    let r = store.search(&vecf(&[0.0, 0.0]), 1);
    assert!(matches!(r, Err(VectorDbError::InvalidVector { .. })));
}

#[test]
fn test_list_ids() {
    let mut store = euclid_store();
    store.insert("a".to_string(), vecf(&[1.0])).unwrap();
    store.insert("b".to_string(), vecf(&[2.0])).unwrap();
    let mut ids = store.list_ids();
    ids.sort();
    assert_eq!(ids, vec!["a".to_string(), "b".to_string()]);
}
