//! Distance metrics and the distance kernel contract.

use vstd::prelude::*;

use crate::error::VectorDbError;
use crate::vector::Vector;

verus! {

/// The distance metrics the library supports.
#[derive(Debug, Clone, Copy, PartialEq, Eq, Structural)]
pub enum DistanceMetric {
    /// Euclidean (L2) distance.
    Euclidean,
    /// Cosine similarity, converted to a distance as `1 - similarity`.
    Cosine,
    /// Dot product, negated so that smaller means more similar.
    DotProduct,
}

/// Computes distances between vectors.
///
/// Floating-point arithmetic cannot appear in this library, so the
/// embedding program supplies it behind this trait: `dist` receives two
/// vectors as component bit patterns and returns the distance as an
/// order-preserving `u64` key (any monotone embedding of the finite
/// floats into the integers will do).  Every contract in the library
/// holds for every possible kernel; nothing is assumed of the keys it
/// returns.
///
/// A kernel may fail, e.g. cosine distance on a zero-norm vector; the
/// error is propagated unchanged.
pub trait DistanceKernel {
    /// The distance between `a` and `b` as an order-preserving key.
    fn dist(&self, a: &Vector, b: &Vector) -> Result<u64, VectorDbError>;
}

} // verus!
