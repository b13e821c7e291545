//! Recall of the graph index against exhaustive ground truth on
//! uniform random data.

use rand::rngs::StdRng;
use rand::{Rng, SeedableRng};
use vectordb::distance::{DistanceKernel, DistanceMetric};
use vectordb::error::VectorDbError;
use vectordb::hnsw::{HnswGraph, HnswParams};
use vectordb::vector::Vector;

fn vecf(xs: &[f32]) -> Vector {
    Vector::new(xs.iter().map(|x| x.to_bits()).collect())
}

fn floats(v: &Vector) -> Vec<f32> {
    v.as_slice().iter().map(|b| f32::from_bits(*b)).collect()
}

fn key_of(d: f32) -> u64 {
    let b = d.to_bits();
    let k = if b & 0x8000_0000 != 0 { !b } else { b | 0x8000_0000 };
    k as u64
}

fn euclid(a: &[f32], b: &[f32]) -> f32 {
    a.iter().zip(b.iter()).map(|(x, y)| (x - y) * (x - y)).sum::<f32>().sqrt()
}

struct EuclidKernel;

impl DistanceKernel for EuclidKernel {
    fn dist(&self, a: &Vector, b: &Vector) -> Result<u64, VectorDbError> {
        Ok(key_of(euclid(&floats(a), &floats(b))))
    }
}

fn average_recall(n: usize, dim: usize, queries: usize, k: usize, ef_search: usize) -> f64 {
    let mut rng = StdRng::seed_from_u64(42);
    let data: Vec<Vec<f32>> =
        (0..n).map(|_| (0..dim).map(|_| rng.gen::<f32>()).collect()).collect();

    let params = HnswParams::new(16, 200, ef_search);
    let mut graph = HnswGraph::with_seed(DistanceMetric::Euclidean, params, EuclidKernel, 7);
    for (i, v) in data.iter().enumerate() {
        graph.insert(i, vecf(v)).unwrap();
    }

    let mut total = 0.0;
    for _ in 0..queries {
        let q: Vec<f32> = (0..dim).map(|_| rng.gen::<f32>()).collect();

        let mut truth: Vec<(usize, f32)> =
            data.iter().enumerate().map(|(i, v)| (i, euclid(&q, v))).collect();
        truth.sort_by(|a, b| a.1.partial_cmp(&b.1).unwrap());
        let truth_ids: Vec<usize> = truth.iter().take(k).map(|p| p.0).collect();

        let found = graph.search_knn(&vecf(&q), k, ef_search).unwrap();
        let hit = found.iter().filter(|nb| truth_ids.contains(&nb.id)).count();
        total += hit as f64 / k as f64;
    }
    total / queries as f64
}

#[test]
fn test_recall_100_vectors() {
    let recall = average_recall(100, 32, 50, 10, 100);
    assert!(recall >= 0.90, "recall {} below 0.90", recall);
}

#[test]
fn test_recall_1000_vectors() {
    let recall = average_recall(1000, 64, 50, 10, 100);
    assert!(recall >= 0.90, "recall {} below 0.90", recall);
}
