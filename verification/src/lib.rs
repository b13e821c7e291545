//! An embeddable vector similarity search engine.
//!
//! The library stores dense vectors keyed by user-supplied string
//! identifiers and answers k-nearest-neighbour queries under a
//! configurable distance metric.  Vector components are 32-bit IEEE 754
//! bit patterns; the arithmetic on them is supplied by the caller through
//! a distance kernel, so that everything around it can be verified.

pub mod codec;
pub mod distance;
pub mod engine;
pub mod error;
pub mod flat_index;
pub mod hnsw;
pub mod index;
pub mod metrics;
pub mod mmap;
pub mod neighbor_queue;
pub mod rng;
pub mod snapshot;
pub mod storage;
pub mod vector;
pub mod wal;

pub use distance::DistanceMetric;
pub use error::VectorDbError;
pub use flat_index::FlatIndex;
pub use hnsw::{HnswIndex, HnswParams};
pub use index::Index;
pub use storage::VectorStore;
pub use vector::Vector;
