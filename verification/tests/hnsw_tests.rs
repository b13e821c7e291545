//! HNSW graph and index behaviour.

use std::collections::HashSet;

use vectordb::distance::{DistanceKernel, DistanceMetric};
use vectordb::error::VectorDbError;
use vectordb::hnsw::{HnswGraph, HnswIndex, HnswParams};
use vectordb::index::Index;
use vectordb::storage::VectorStore;
use vectordb::vector::Vector;

fn vecf(xs: &[f32]) -> Vector {
    Vector::new(xs.iter().map(|x| x.to_bits()).collect())
}

fn floats(v: &Vector) -> Vec<f32> {
    v.as_slice().iter().map(|b| f32::from_bits(*b)).collect()
}

fn key_of(d: f32) -> u64 {
    let b = d.to_bits();
    let k = if b & 0x8000_0000 != 0 { !b } else { b | 0x8000_0000 };
    k as u64
}

fn dist_of_key(k: u64) -> f32 {
    let k = k as u32;
    let b = if k & 0x8000_0000 != 0 { k & 0x7fff_ffff } else { !k };
    f32::from_bits(b)
}

struct EuclidKernel;

impl DistanceKernel for EuclidKernel {
    fn dist(&self, a: &Vector, b: &Vector) -> Result<u64, VectorDbError> {
        let av = floats(a);
        let bv = floats(b);
        let d = av.iter().zip(bv.iter()).map(|(x, y)| (x - y) * (x - y)).sum::<f32>().sqrt();
        Ok(key_of(d))
    }
}

fn make_params() -> HnswParams {
    HnswParams::new(4, 32, 16)
}

fn make_graph() -> HnswGraph<EuclidKernel> {
    HnswGraph::new(DistanceMetric::Euclidean, make_params(), EuclidKernel)
}

#[test]
fn test_insert_single() {
    let mut graph = make_graph();
    graph.insert(0, vecf(&[1.0, 0.0, 0.0])).unwrap();
    assert_eq!(graph.len(), 1);
    assert!(graph.entry_point().is_some());
}

#[test]
fn test_insert_multiple() {
    let mut graph = make_graph();
    for i in 0..10 {
        graph.insert(i, vecf(&[i as f32, 0.0, 0.0])).unwrap();
    }
    assert_eq!(graph.len(), 10);
}

#[test]
fn test_self_search() {
    let mut graph = make_graph();
    let vectors: Vec<Vector> = (0..100)
        .map(|i| {
            vecf(&[(i as f32) * 0.1, ((i * 7) as f32) * 0.1, ((i * 13) as f32) * 0.1])
        })
        .collect();

    for (i, v) in vectors.iter().enumerate() {
        graph.insert(i, v.duplicate()).unwrap();
    }

    for (i, v) in vectors.iter().enumerate() {
        let results = graph.search_knn(v, 1, 16).unwrap();
        assert!(!results.is_empty(), "No results for vector {}", i);
        assert!(
            dist_of_key(results[0].distance) < 1e-5,
            "Self-search for {} returned distance {} (id={})",
            i,
            dist_of_key(results[0].distance),
            results[0].id
        );
    }
}

#[test]
fn test_search_knn() {
    let mut graph = make_graph();
    graph.insert(0, vecf(&[0.0, 0.0])).unwrap();
    graph.insert(1, vecf(&[1.0, 0.0])).unwrap();
    graph.insert(2, vecf(&[2.0, 0.0])).unwrap();
    graph.insert(3, vecf(&[3.0, 0.0])).unwrap();
    graph.insert(4, vecf(&[4.0, 0.0])).unwrap();

    let query = vecf(&[0.5, 0.0]);
    let results = graph.search_knn(&query, 2, 16).unwrap();

    assert_eq!(results.len(), 2);
    let ids: HashSet<usize> = results.iter().map(|n| n.id).collect();
    assert!(ids.contains(&0));
    assert!(ids.contains(&1));
}

#[test]
fn test_remove() {
    let mut graph = make_graph();
    graph.insert(0, vecf(&[1.0, 0.0])).unwrap();
    graph.insert(1, vecf(&[0.0, 1.0])).unwrap();
    assert_eq!(graph.len(), 2);

    graph.remove(0).unwrap();
    assert_eq!(graph.len(), 1);

    let results = graph.search_knn(&vecf(&[0.0, 1.0]), 1, 16).unwrap();
    assert_eq!(results[0].id, 1);
}

#[test]
fn test_remove_entry_point() {
    let mut graph = make_graph();
    graph.insert(0, vecf(&[1.0, 0.0])).unwrap();
    graph.insert(1, vecf(&[0.0, 1.0])).unwrap();
    graph.insert(2, vecf(&[1.0, 1.0])).unwrap();

    let ep = graph.entry_point().unwrap();
    graph.remove(ep).unwrap();
    assert_eq!(graph.len(), 2);

    let results = graph.search_knn(&vecf(&[0.0, 1.0]), 1, 16).unwrap();
    assert!(!results.is_empty());
}

#[test]
fn test_hnsw_index_via_trait() {
    let mut index = HnswIndex::new(DistanceMetric::Euclidean, EuclidKernel);
    index.add(0, vecf(&[1.0, 0.0, 0.0])).unwrap();
    index.add(1, vecf(&[0.0, 1.0, 0.0])).unwrap();
    index.add(2, vecf(&[1.0, 1.0, 0.0])).unwrap();

    let results = index.search(&vecf(&[1.0, 0.0, 0.0]), 2).unwrap();
    assert_eq!(results.len(), 2);
    assert_eq!(results[0].0, 0);
    assert!(dist_of_key(results[0].1) < 1e-5);
}

#[test]
fn test_hnsw_get_vector() {
    let mut index = HnswIndex::new(DistanceMetric::Euclidean, EuclidKernel);
    let v = vecf(&[1.0, 2.0, 3.0]);
    index.add(0, v.duplicate()).unwrap();

    assert_eq!(index.get_vector(0), Some(&v));
    assert_eq!(index.get_vector(99), None);
}

#[test]
fn test_hnsw_via_vectorstore() {
    let index = HnswIndex::with_params(DistanceMetric::Euclidean, make_params(), EuclidKernel);
    let mut store = VectorStore::with_index(index);

    store.insert("v1".to_string(), vecf(&[1.0, 0.0, 0.0])).unwrap();
    store.insert("v2".to_string(), vecf(&[0.0, 1.0, 0.0])).unwrap();
    store.insert("v3".to_string(), vecf(&[0.0, 0.0, 1.0])).unwrap();

    let results = store.search(&vecf(&[1.0, 0.1, 0.0]), 2).unwrap();
    assert_eq!(results.len(), 2);
    assert_eq!(results[0].id, "v1");
}

#[test]
fn test_hnsw_delete_via_vectorstore() {
    let index = HnswIndex::with_params(DistanceMetric::Euclidean, make_params(), EuclidKernel);
    let mut store = VectorStore::with_index(index);

    store.insert("v1".to_string(), vecf(&[1.0, 0.0])).unwrap();
    store.insert("v2".to_string(), vecf(&[0.0, 1.0])).unwrap();
    assert_eq!(store.len(), 2);

    store.delete("v1").unwrap();
    assert_eq!(store.len(), 1);
}

#[test]
fn test_hnsw_build_batch() {
    let mut index = HnswIndex::new(DistanceMetric::Euclidean, EuclidKernel);
    index
        .build_batch(vec![(0, vecf(&[0.0, 0.0])), (1, vecf(&[1.0, 0.0])), (2, vecf(&[2.0, 0.0]))])
        .unwrap();
    assert_eq!(index.len(), 3);
}

#[test]
fn test_hnsw_search_with_ef() {
    let mut index = HnswIndex::new(DistanceMetric::Euclidean, EuclidKernel);
    for i in 0..20 {
        index.add(i, vecf(&[i as f32])).unwrap();
    }
    let results = index.search_with_ef(&vecf(&[0.0]), 5, 40).unwrap();
    assert_eq!(results.len(), 5);
    for w in results.windows(2) {
        assert!(w[0].1 <= w[1].1);
    }
}
