//! Flat index and vector value behaviour.

use vectordb::distance::{DistanceKernel, DistanceMetric};
use vectordb::error::VectorDbError;
use vectordb::flat_index::FlatIndex;
use vectordb::index::Index;
use vectordb::vector::Vector;

fn bits(xs: &[f32]) -> Vec<u32> {
    xs.iter().map(|x| x.to_bits()).collect()
}

fn vecf(xs: &[f32]) -> Vector {
    Vector::new(bits(xs))
}

fn floats(v: &Vector) -> Vec<f32> {
    v.as_slice().iter().map(|b| f32::from_bits(*b)).collect()
}

fn key_of(d: f32) -> u64 {
    let b = d.to_bits();
    let k = if b & 0x8000_0000 != 0 { !b } else { b | 0x8000_0000 };
    k as u64
}

fn dist_of_key(k: u64) -> f32 {
    let k = k as u32;
    let b = if k & 0x8000_0000 != 0 { k & 0x7fff_ffff } else { !k };
    f32::from_bits(b)
}

struct EuclidKernel;

impl DistanceKernel for EuclidKernel {
    fn dist(&self, a: &Vector, b: &Vector) -> Result<u64, VectorDbError> {
        let av = floats(a);
        let bv = floats(b);
        let d = av.iter().zip(bv.iter()).map(|(x, y)| (x - y) * (x - y)).sum::<f32>().sqrt();
        Ok(key_of(d))
    }
}

#[test]
fn test_flat_index_basic() {
    let mut index = FlatIndex::new(DistanceMetric::Euclidean, EuclidKernel);
    index.add(0, vecf(&[1.0, 0.0, 0.0])).unwrap();
    index.add(1, vecf(&[0.0, 1.0, 0.0])).unwrap();
    index.add(2, vecf(&[1.0, 1.0, 0.0])).unwrap();

    let query = vecf(&[1.0, 0.0, 0.0]);
    let results = index.search(&query, 2).unwrap();

    assert_eq!(results.len(), 2);
    assert_eq!(results[0].0, 0);
    assert!(dist_of_key(results[0].1) < 1e-6);
}

#[test]
fn test_flat_index_get_vector() {
    let mut index = FlatIndex::new(DistanceMetric::Euclidean, EuclidKernel);
    let v = vecf(&[1.0, 2.0, 3.0]);
    index.add(0, v.duplicate()).unwrap();

    assert_eq!(index.get_vector(0), Some(&v));
    assert_eq!(index.get_vector(99), None);
}

#[test]
fn test_flat_index_remove() {
    let mut index = FlatIndex::new(DistanceMetric::Euclidean, EuclidKernel);
    index.add(0, vecf(&[1.0, 0.0])).unwrap();
    index.add(1, vecf(&[0.0, 1.0])).unwrap();
    assert_eq!(index.len(), 2);

    index.remove(0).unwrap();
    assert_eq!(index.len(), 1);
}

#[test]
fn test_flat_index_results_sorted() {
    let mut index = FlatIndex::new(DistanceMetric::Euclidean, EuclidKernel);
    for (i, x) in [4.0f32, 1.0, 3.0, 0.5, 2.0].iter().enumerate() {
        index.add(i, vecf(&[*x])).unwrap();
    }
    let results = index.search(&vecf(&[0.0]), 5).unwrap();
    assert_eq!(results.len(), 5);
    for w in results.windows(2) {
        assert!(w[0].1 <= w[1].1);
    }
    assert_eq!(results[0].0, 3);
}

#[test]
fn test_vector_creation() {
    let v = vecf(&[1.0, 2.0, 3.0]);
    assert_eq!(v.dimension(), 3);
    assert_eq!(v.as_slice(), &bits(&[1.0, 2.0, 3.0])[..]);
}

#[test]
fn test_vector_equality_is_bitwise() {
    let a = vecf(&[1.0, -0.0]);
    let b = vecf(&[1.0, 0.0]);
    assert_ne!(a, b);
    assert_eq!(a, vecf(&[1.0, -0.0]));
    assert!(a.has_same_dimension(&b));
}
