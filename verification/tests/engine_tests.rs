//! Storage-engine behaviour with an in-memory stand-in for the data
//! directory: the test owns the log and snapshot bytes the way the
//! embedding program owns the files.

use vectordb::distance::{DistanceKernel, DistanceMetric};
use vectordb::engine::{EngineConfig, StorageEngine};
use vectordb::error::VectorDbError;
use vectordb::snapshot::{decode_snapshot, encode_snapshot};
use vectordb::storage::Metadata;
use vectordb::vector::Vector;

fn bits(xs: &[f32]) -> Vec<u32> {
    xs.iter().map(|x| x.to_bits()).collect()
}

fn vecf(xs: &[f32]) -> Vector {
    Vector::new(bits(xs))
}

fn floats(v: &Vector) -> Vec<f32> {
    v.as_slice().iter().map(|b| f32::from_bits(*b)).collect()
}

fn key_of(d: f32) -> u64 {
    let b = d.to_bits();
    let k = if b & 0x8000_0000 != 0 { !b } else { b | 0x8000_0000 };
    k as u64
}

struct EuclidKernel;

impl DistanceKernel for EuclidKernel {
    fn dist(&self, a: &Vector, b: &Vector) -> Result<u64, VectorDbError> {
        let av = floats(a);
        let bv = floats(b);
        let d = av.iter().zip(bv.iter()).map(|(x, y)| (x - y) * (x - y)).sum::<f32>().sqrt();
        Ok(key_of(d))
    }
}

/// The embedding program's side of the engine: the bytes that would
/// live on disk.
struct Disk {
    wal: Vec<u8>,
    snapshot: Option<Vec<u8>>,
}

impl Disk {
    fn new() -> Disk {
        Disk { wal: Vec::new(), snapshot: None }
    }

    fn open(&self, interval: usize) -> StorageEngine<EuclidKernel> {
        let config = EngineConfig { checkpoint_interval: interval, metric: DistanceMetric::Euclidean };
        StorageEngine::open_from(self.snapshot.as_ref(), &self.wal, config, EuclidKernel).unwrap()
    }

    fn insert(
        &mut self,
        engine: &mut StorageEngine<EuclidKernel>,
        id: &str,
        v: Vector,
    ) -> Result<(), VectorDbError> {
        let record = engine.insert_record(&id.to_string(), &v)?;
        self.wal.extend_from_slice(&record);
        engine.apply_insert(id.to_string(), v, Metadata::new())?;
        if engine.should_checkpoint() {
            self.checkpoint(engine)?;
        }
        Ok(())
    }

    fn delete(
        &mut self,
        engine: &mut StorageEngine<EuclidKernel>,
        id: &str,
    ) -> Result<Vector, VectorDbError> {
        let record = engine.delete_record(&id.to_string())?;
        self.wal.extend_from_slice(&record);
        let v = engine.apply_delete(id)?;
        if engine.should_checkpoint() {
            self.checkpoint(engine)?;
        }
        Ok(v)
    }

    fn checkpoint(&mut self, engine: &mut StorageEngine<EuclidKernel>) -> Result<(), VectorDbError> {
        let image = engine.checkpoint_image();
        self.snapshot = Some(image);
        let marker = engine.checkpoint_record()?;
        self.wal.extend_from_slice(&marker);
        self.wal.clear();
        engine.checkpoint_done();
        Ok(())
    }
}

#[test]
fn test_engine_insert_and_search() {
    let mut disk = Disk::new();
    let mut engine = disk.open(100);

    disk.insert(&mut engine, "v1", vecf(&[1.0, 0.0, 0.0])).unwrap();
    disk.insert(&mut engine, "v2", vecf(&[0.0, 1.0, 0.0])).unwrap();

    let results = engine.search(&vecf(&[1.0, 0.0, 0.0]), 1).unwrap();
    assert_eq!(results.len(), 1);
    assert_eq!(results[0].id, "v1");
}

#[test]
fn test_engine_wal_recovery() {
    let mut disk = Disk::new();
    {
        let mut engine = disk.open(10000);
        disk.insert(&mut engine, "v1", vecf(&[1.0, 2.0, 3.0])).unwrap();
        disk.insert(&mut engine, "v2", vecf(&[4.0, 5.0, 6.0])).unwrap();
        disk.insert(&mut engine, "v3", vecf(&[7.0, 8.0, 9.0])).unwrap();
        assert_eq!(engine.len(), 3);
    }
    {
        let engine = disk.open(10000);
        assert_eq!(engine.len(), 3);
        for id in ["v1", "v2", "v3"] {
            assert!(engine.list_ids().contains(&id.to_string()));
        }
    }
}

#[test]
fn test_engine_checkpoint_and_recovery() {
    let mut disk = Disk::new();
    {
        let mut engine = disk.open(2);
        disk.insert(&mut engine, "v1", vecf(&[1.0, 0.0])).unwrap();
        disk.insert(&mut engine, "v2", vecf(&[0.0, 1.0])).unwrap();
        // After two inserts the engine checkpointed and the log is
        // empty again.
        assert!(disk.snapshot.is_some());
        assert!(disk.wal.is_empty());
        disk.insert(&mut engine, "v3", vecf(&[1.0, 1.0])).unwrap();
        assert_eq!(engine.len(), 3);
    }
    {
        let engine = disk.open(10000);
        assert_eq!(engine.len(), 3);
    }
}

#[test]
fn test_engine_delete_and_recovery() {
    let mut disk = Disk::new();
    {
        let mut engine = disk.open(10000);
        disk.insert(&mut engine, "v1", vecf(&[1.0, 0.0])).unwrap();
        disk.insert(&mut engine, "v2", vecf(&[0.0, 1.0])).unwrap();
        disk.delete(&mut engine, "v1").unwrap();
        assert_eq!(engine.len(), 1);
    }
    {
        let engine = disk.open(10000);
        assert_eq!(engine.len(), 1);
    }
}

#[test]
fn test_engine_1000_vectors_recovery() {
    let mut disk = Disk::new();
    {
        let mut engine = disk.open(500);
        for i in 0..1000 {
            disk.insert(&mut engine, &format!("v{}", i), vecf(&[i as f32, (i * 2) as f32]))
                .unwrap();
        }
        assert_eq!(engine.len(), 1000);
    }
    {
        let engine = disk.open(10000);
        assert_eq!(engine.len(), 1000);
    }
}

#[test]
fn test_engine_torn_write_tolerated() {
    let mut disk = Disk::new();
    {
        let mut engine = disk.open(10000);
        disk.insert(&mut engine, "v1", vecf(&[1.0, 2.0])).unwrap();
    }
    // Garbage after the only valid record, as a crash mid-append
    // would leave.
    disk.wal.extend_from_slice(&[0xAB, 0xCD, 0xEF]);
    let engine = disk.open(10000);
    assert_eq!(engine.len(), 1);
    assert!(engine.list_ids().contains(&"v1".to_string()));
}

#[test]
fn test_engine_mismatched_insert_leaves_durable_state() {
    let mut disk = Disk::new();
    {
        let mut engine = disk.open(10000);
        disk.insert(&mut engine, "v1", vecf(&[1.0, 2.0])).unwrap();
        // A wrong-dimension insert is rejected before anything is
        // appended to the log, so the durable state is untouched.
        let r = disk.insert(&mut engine, "v2", vecf(&[1.0, 2.0, 3.0]));
        assert!(matches!(r, Err(VectorDbError::DimensionMismatch { .. })));
        assert_eq!(engine.len(), 1);
    }
    let engine = disk.open(10000);
    assert_eq!(engine.len(), 1);
    assert!(engine.list_ids().contains(&"v1".to_string()));
}

#[test]
fn test_engine_metadata_survives_checkpoint() {
    let mut disk = Disk::new();
    {
        let mut engine = disk.open(10000);
        let record = engine.insert_record(&"v1".to_string(), &vecf(&[1.0])).unwrap();
        disk.wal.extend_from_slice(&record);
        let mut meta = Metadata::new();
        meta.insert("color".to_string(), "red".to_string());
        engine.apply_insert("v1".to_string(), vecf(&[1.0]), meta).unwrap();
        disk.checkpoint(&mut engine).unwrap();
    }
    let engine = disk.open(10000);
    assert_eq!(engine.len(), 1);
    let snap = engine.build_snapshot();
    assert_eq!(snap.vectors.len(), 1);
    assert_eq!(snap.vectors[0].metadata.get("color"), Some(&"red".to_string()));
}

#[test]
fn test_snapshot_reload_then_save_is_byte_identical() {
    let mut disk = Disk::new();
    let mut engine = disk.open(10000);
    let mut meta = Metadata::new();
    meta.insert("kind".to_string(), "sample".to_string());
    let record = engine.insert_record(&"v1".to_string(), &vecf(&[1.0, 2.0])).unwrap();
    disk.wal.extend_from_slice(&record);
    engine.apply_insert("v1".to_string(), vecf(&[1.0, 2.0]), meta).unwrap();
    disk.insert(&mut engine, "v2", vecf(&[3.0, 4.0])).unwrap();

    let first = engine.checkpoint_image();
    let decoded = decode_snapshot(&first).unwrap();
    let second = encode_snapshot(&decoded);
    assert_eq!(first, second);
}

#[test]
fn test_save_and_load() {
    let mut disk = Disk::new();
    {
        let mut engine = disk.open(10000);
        disk.insert(&mut engine, "v1", vecf(&[1.0, 2.0, 3.0])).unwrap();
        disk.insert(&mut engine, "v2", vecf(&[4.0, 5.0, 6.0])).unwrap();
        disk.checkpoint(&mut engine).unwrap();
    }
    let loaded = decode_snapshot(disk.snapshot.as_ref().unwrap()).unwrap();
    assert_eq!(loaded.vectors.len(), 2);
    assert_eq!(loaded.next_id, 2);
    assert_eq!(loaded.dimension, Some(3));
    assert_eq!(loaded.vectors[0].string_id, "v1");
    assert_eq!(loaded.vectors[1].data, bits(&[4.0, 5.0, 6.0]));
}

#[test]
fn test_snapshot_roundtrip() {
    let mut disk = Disk::new();
    let mut engine = disk.open(10000);
    disk.insert(&mut engine, "v1", vecf(&[1.0, 2.0])).unwrap();
    disk.checkpoint(&mut engine).unwrap();

    let bytes = disk.snapshot.as_ref().unwrap();
    let decoded = decode_snapshot(bytes).unwrap();
    assert_eq!(decoded.vectors.len(), 1);
    assert_eq!(decoded.next_id, 1);
    assert_eq!(decoded.dimension, Some(2));
}

#[test]
fn test_decode_rejects_trailing_bytes() {
    let mut disk = Disk::new();
    let mut engine = disk.open(10000);
    disk.insert(&mut engine, "v1", vecf(&[1.0])).unwrap();
    let mut image = engine.checkpoint_image();
    image.push(0u8);
    assert!(decode_snapshot(&image).is_none());
}

#[test]
fn test_open_rejects_corrupt_snapshot() {
    let mut disk = Disk::new();
    {
        let mut engine = disk.open(10000);
        disk.insert(&mut engine, "v1", vecf(&[1.0])).unwrap();
        disk.checkpoint(&mut engine).unwrap();
    }
    let snap = disk.snapshot.as_mut().unwrap();
    snap.truncate(snap.len() - 1);
    let config = EngineConfig { checkpoint_interval: 10000, metric: DistanceMetric::Euclidean };
    let r = StorageEngine::open_from(disk.snapshot.as_ref(), &disk.wal, config, EuclidKernel);
    assert!(matches!(r, Err(VectorDbError::SerializationError(_))));
}
