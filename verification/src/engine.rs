//! The crash-safe storage engine: a store recovered from a snapshot
//! and a write-ahead log, with checkpointing.
//!
//! The engine owns no file handles.  For each mutation it hands the
//! embedding program the framed log record to append (and fsync)
//! first; only after the append succeeded does the program apply the
//! mutation in memory.  A checkpoint emits snapshot bytes to write and
//! a marker record, after which the program truncates the log.

use vstd::prelude::*;

use crate::distance::{DistanceKernel, DistanceMetric};
use crate::error::VectorDbError;
use crate::flat_index::FlatIndex;
use crate::index::Index;
use crate::snapshot::{
    decode_snapshot, enc_snapshot, encode_snapshot, snapshot_at, snapshot_ok, DatabaseSnapshot,
    SerializedVector, SnapView, SvView,
};
use crate::storage::{
    model_delete, model_dim_ok, model_insert, pairs_map, Metadata, SearchResult, StoreModel,
    VectorStore,
};
use crate::vector::Vector;
use crate::wal::{encode_record, enc_entry, frame, frame_wf, replay_bytes, scan_from, WalEntry, WalOp};

verus! {

/// Configuration for the storage engine.
#[derive(Debug, Clone)]
pub struct EngineConfig {
    /// Checkpoint after this many log records.
    pub checkpoint_interval: usize,
    /// Distance metric for the underlying flat index.
    pub metric: DistanceMetric,
}

impl Default for EngineConfig {
    /// Checkpoint every 1000 records, with Euclidean distance.
    fn default() -> (r: EngineConfig)
        ensures
            r.checkpoint_interval == 1000,
            r.metric == DistanceMetric::Euclidean,
    {
        EngineConfig { checkpoint_interval: 1000, metric: DistanceMetric::Euclidean }
    }
}

/// The effect of one replayed log entry on a store: an insert with
/// the entry's vector (and no metadata), a delete that ignores absent
/// ids, or a checkpoint marker, which does nothing.  `None` marks a
/// replay the store must reject (a dimension conflict or an exhausted
/// id space), which aborts recovery.
pub open spec fn apply_op(m: StoreModel, op: WalOp) -> Option<StoreModel> {
    match op {
        WalOp::Insert { string_id, internal_id, data } => {
            if model_dim_ok(m, data) && m.next_id < usize::MAX {
                Some(model_insert(m, string_id, data, Map::empty()))
            } else {
                None
            }
        },
        WalOp::Delete { string_id } => Some(model_delete(m, string_id)),
        WalOp::Checkpoint => Some(m),
    }
}

/// The store state after replaying a sequence of log entries.
pub open spec fn replay_ops(m: StoreModel, ops: Seq<WalOp>) -> Option<StoreModel>
    decreases ops.len(),
{
    if ops.len() == 0 {
        Some(m)
    } else {
        match apply_op(m, ops.first()) {
            Some(m2) => replay_ops(m2, ops.drop_first()),
            None => None,
        }
    }
}

/// The effect of one snapshot record: an insert carrying the record's
/// metadata.  Records with empty data are skipped.
pub open spec fn apply_sv(m: StoreModel, sv: SvView) -> Option<StoreModel> {
    if sv.data.len() == 0 {
        Some(m)
    } else if model_dim_ok(m, sv.data) && m.next_id < usize::MAX {
        Some(model_insert(m, sv.string_id, sv.data, pairs_map(sv.fields)))
    } else {
        None
    }
}

/// The store state after loading a snapshot's records in order;
/// internal ids are reassigned from zero upward.
pub open spec fn apply_snapshot(m: StoreModel, svs: Seq<SvView>) -> Option<StoreModel>
    decreases svs.len(),
{
    if svs.len() == 0 {
        Some(m)
    } else {
        match apply_sv(m, svs.first()) {
            Some(m2) => apply_snapshot(m2, svs.drop_first()),
            None => None,
        }
    }
}

/// Persistent storage engine: a flat-indexed store plus write-ahead
/// log bookkeeping.
#[derive(Debug)]
pub struct StorageEngine<D: DistanceKernel> {
    store: VectorStore<FlatIndex<D>>,
    wal_count: usize,
    checkpoint_interval: usize,
}

impl<D: DistanceKernel> StorageEngine<D> {
    /// The observable store state.
    pub open spec fn model(&self) -> StoreModel {
        self.store_ref().model()
    }

    /// The store itself.
    pub closed spec fn store_ref(&self) -> VectorStore<FlatIndex<D>> {
        self.store
    }

    /// The number of records applied since the last checkpoint.
    pub closed spec fn spec_wal_count(&self) -> usize {
        self.wal_count
    }

    /// The configured checkpoint interval.
    pub closed spec fn spec_interval(&self) -> usize {
        self.checkpoint_interval
    }

    /// Engine well-formedness: the store is well-formed over a flat
    /// index, whose adds always succeed.
    pub open spec fn wf(&self) -> bool {
        &&& self.store_ref().wf()
        &&& self.store_ref().idx().add_total()
    }

    /// Create an empty engine.
    pub fn new_empty(config: EngineConfig, kernel: D) -> (r: StorageEngine<D>)
        ensures
            r.wf(),
            r.model().forward == Map::<Seq<char>, usize>::empty(),
            r.model().next_id == 0,
            r.model().dimension is None,
            r.spec_wal_count() == 0,
            r.spec_interval() == config.checkpoint_interval,
    {
        StorageEngine {
            store: VectorStore::with_flat_index(config.metric, kernel),
            wal_count: 0,
            checkpoint_interval: config.checkpoint_interval,
        }
    }

    /// Load decoded snapshot records into the store, in order;
    /// internal ids are reassigned from zero upward.  Succeeds exactly
    /// when every record applies.
    #[verifier::loop_isolation(false)]
    #[verifier::rlimit(100)]
    #[verifier::spinoff_prover]
    fn load_snapshot_records(
        store: &mut VectorStore<FlatIndex<D>>,
        vectors: Vec<SerializedVector>,
    ) -> (r: Result<(), VectorDbError>)
        requires
            old(store).wf(),
            old(store).idx().add_total(),
            forall|j: int| 0 <= j < vectors@.len() ==> (#[trigger] vectors@[j]).metadata.wf(),
        ensures
            final(store).wf(),
            final(store).idx().add_total(),
            r is Ok <==> apply_snapshot(
                old(store).model(),
                vectors@.map_values(|v: SerializedVector| v@),
            ) is Some,
            r is Ok ==> apply_snapshot(
                old(store).model(),
                vectors@.map_values(|v: SerializedVector| v@),
            ) == Some(final(store).model()),
    {
        let ghost m0 = store.model();
        let ghost all_raw = vectors@;
        let ghost all = vectors@.map_values(|v: SerializedVector| v@);
        let mut pending = vectors;
        let total = pending.len();
        let mut i: usize = 0;
        while pending.len() > 0
            invariant
                total == all.len(),
                i <= total,
                all.len() == all_raw.len(),
                all == all_raw.map_values(|v: SerializedVector| v@),
                i + pending@.len() == all.len(),
                pending@ =~= all_raw.skip(i as int),
                store.wf(),
                store.idx().add_total(),
                apply_snapshot(m0, all.take(i as int)) == Some(store.model()),
            decreases pending@.len(),
        {
            let sv = pending.remove(0);
            let ghost svv = sv@;
            let ghost mwf = sv.metadata;
            proof {
                assert(sv == all_raw[i as int]);
                assert(svv == all[i as int]) by {
                    assert(all_raw.map_values(|v: SerializedVector| v@)[i as int] == all_raw[i
                        as int]@);
                }
                assert(mwf.wf());
                assert(pending@ =~= all_raw.skip(i + 1));
            }
            let ghost pre = store.model();
            if sv.data.len() > 0 {
                let res = store.insert_with_metadata(
                    sv.string_id,
                    Vector::new(sv.data),
                    sv.metadata,
                );
                match res {
                    Ok(()) => {
                        proof {
                            crate::storage::lemma_metadata_wf_pairs(&mwf);
                            crate::storage::lemma_kv_pairs_map(mwf.pairs());
                            assert(store.model() =~= model_insert(
                                pre,
                                svv.string_id,
                                svv.data,
                                pairs_map(svv.fields),
                            ));
                        }
                    },
                    Err(e) => {
                        proof {
                            assert(apply_sv(pre, all[i as int]) is None);
                            lemma_apply_snapshot_fail(m0, all, i as int, pre);
                        }
                        return Err(e);
                    },
                }
            }
            proof {
                assert(apply_sv(pre, all[i as int]) == Some(store.model()));
                lemma_apply_snapshot_step(m0, all, i as int, pre, store.model());
            }
            i = i + 1;
        }
        proof {
            assert(all.take(all.len() as int) =~= all);
        }
        Ok(())
    }

    /// Replay decoded log entries onto the store, in order.  Succeeds
    /// exactly when every entry applies; deletes of absent ids are
    /// no-ops.
    #[verifier::loop_isolation(false)]
    #[verifier::rlimit(100)]
    #[verifier::spinoff_prover]
    fn replay_entries(
        store: &mut VectorStore<FlatIndex<D>>,
        entries: Vec<WalEntry>,
    ) -> (r: Result<(), VectorDbError>)
        requires
            old(store).wf(),
            old(store).idx().add_total(),
        ensures
            final(store).wf(),
            final(store).idx().add_total(),
            r is Ok <==> replay_ops(old(store).model(), entries@.map_values(|e: WalEntry| e@))
                is Some,
            r is Ok ==> replay_ops(old(store).model(), entries@.map_values(|e: WalEntry| e@))
                == Some(final(store).model()),
    {
        let ghost m0 = store.model();
        let ghost all_raw = entries@;
        let ghost all = entries@.map_values(|e: WalEntry| e@);
        let mut pending = entries;
        let total = pending.len();
        let mut i: usize = 0;
        while pending.len() > 0
            invariant
                total == all.len(),
                i <= total,
                all.len() == all_raw.len(),
                all == all_raw.map_values(|e: WalEntry| e@),
                i + pending@.len() == all.len(),
                pending@ =~= all_raw.skip(i as int),
                store.wf(),
                store.idx().add_total(),
                replay_ops(m0, all.take(i as int)) == Some(store.model()),
            decreases pending@.len(),
        {
            let e = pending.remove(0);
            let ghost ev = e@;
            proof {
                assert(e == all_raw[i as int]);
                assert(ev == all[i as int]) by {
                    assert(all_raw.map_values(|e: WalEntry| e@)[i as int] == all_raw[i as int]@);
                }
                assert(pending@ =~= all_raw.skip(i + 1));
            }
            let ghost pre = store.model();
            match e {
                WalEntry::Insert { string_id, internal_id, data } => {
                    match store.insert(string_id, Vector::new(data)) {
                        Ok(()) => {},
                        Err(err) => {
                            proof {
                                assert(apply_op(pre, all[i as int]) is None);
                                lemma_replay_fail(m0, all, i as int, pre);
                            }
                            return Err(err);
                        },
                    }
                },
                WalEntry::Delete { string_id } => {
                    let _unused = store.delete(string_id.as_str());
                },
                WalEntry::Checkpoint => {},
            }
            proof {
                assert(apply_op(pre, all[i as int]) == Some(store.model()));
                lemma_replay_step(m0, all, i as int, pre, store.model());
            }
            i = i + 1;
        }
        proof {
            assert(all.take(all.len() as int) =~= all);
        }
        Ok(())
    }

    /// Recover an engine from the stored bytes: decode and load the
    /// snapshot if one exists, then replay every valid log record.
    ///
    /// Recovery succeeds exactly when the snapshot bytes (if any) are
    /// a well-formed snapshot whose records all apply, and every
    /// entry of the log's longest valid prefix applies on top; the
    /// recovered state is then exactly that composition.
    #[verifier::loop_isolation(false)]
    #[verifier::rlimit(100)]
    #[verifier::spinoff_prover]
    pub fn open_from(
        snapshot_bytes: Option<&Vec<u8>>,
        wal_bytes: &Vec<u8>,
        config: EngineConfig,
        kernel: D,
    ) -> (r: Result<StorageEngine<D>, VectorDbError>)
        ensures
            r is Ok <==> (match snapshot_bytes {
                Some(sb) => snapshot_ok(sb@) && (apply_snapshot(
                    empty_model(),
                    snapshot_at(sb@).vectors,
                ) matches Some(m0) && replay_ops(m0, scan_from(wal_bytes@, 0)) is Some),
                None => replay_ops(empty_model(), scan_from(wal_bytes@, 0)) is Some,
            }),
            r matches Ok(engine) ==> {
                &&& engine.wf()
                &&& engine.spec_interval() == config.checkpoint_interval
                &&& match snapshot_bytes {
                    Some(sb) => (apply_snapshot(empty_model(), snapshot_at(sb@).vectors) matches
                        Some(m0) && replay_ops(m0, scan_from(wal_bytes@, 0)) == Some(
                        engine.model(),
                    )),
                    None => replay_ops(empty_model(), scan_from(wal_bytes@, 0)) == Some(
                        engine.model(),
                    ),
                }
            },
    {
        let mut store = VectorStore::<FlatIndex<D>>::with_flat_index(config.metric, kernel);
        proof {
            assert(store.model() =~= empty_model());
        }
        match snapshot_bytes {
            Some(sb) => {
                let snap = match decode_snapshot(sb) {
                    Some(s) => s,
                    None => {
                        proof {
                            assert(!snapshot_ok(sb@));
                        }
                        return Err(
                            VectorDbError::SerializationError(
                                "snapshot bytes did not decode".to_owned(),
                            ),
                        );
                    },
                };
                proof {
                    assert(snap@.vectors == snapshot_at(sb@).vectors);
                }
                match Self::load_snapshot_records(&mut store, snap.vectors) {
                    Ok(()) => {},
                    Err(e) => {
                        return Err(e);
                    },
                }
            },
            None => {},
        }
        let ghost m0 = store.model();
        let entries = replay_bytes(wal_bytes);
        let total = entries.len();
        proof {
            assert(entries@.map_values(|e: WalEntry| e@) == scan_from(wal_bytes@, 0));
        }
        match Self::replay_entries(&mut store, entries) {
            Ok(()) => {},
            Err(e) => {
                return Err(e);
            },
        }
        let engine = StorageEngine {
            store,
            wal_count: total,
            checkpoint_interval: config.checkpoint_interval,
        };
        proof {
            assert(replay_ops(m0, scan_from(wal_bytes@, 0)) == Some(engine.model()));
        }
        Ok(engine)
    }
}

impl<D: DistanceKernel> StorageEngine<D> {
    /// The framed log record for an insert, to append (and fsync)
    /// before applying the insert in memory.
    ///
    /// The insert is validated here, before anything reaches the
    /// log: a record is produced exactly when applying the insert
    /// will succeed (and the entry fits a record), so a rejected
    /// insert leaves the durable state untouched.
    pub fn insert_record(&self, id: &String, vector: &Vector) -> (r: Result<
        Vec<u8>,
        VectorDbError,
    >)
        requires
            self.wf(),
        ensures
            r matches Ok(bytes) ==> {
                &&& bytes@ == frame(
                    enc_entry((WalOp::Insert { string_id: id@, internal_id: 0, data: vector@ })),
                )
                &&& model_dim_ok(self.model(), vector@)
                &&& self.model().next_id < usize::MAX
            },
            !model_dim_ok(self.model(), vector@) ==> r == Err::<Vec<u8>, VectorDbError>(
                VectorDbError::DimensionMismatch {
                    expected: self.model().dimension->0,
                    actual: vector@.len() as usize,
                },
            ),
            model_dim_ok(self.model(), vector@) && self.model().next_id == usize::MAX ==> (r
                matches Err(e) && e is StorageError),
            model_dim_ok(self.model(), vector@) && self.model().next_id < usize::MAX ==> (r is Err
                <==> !frame_wf(
                enc_entry((WalOp::Insert { string_id: id@, internal_id: 0, data: vector@ })),
            )),
    {
        match self.store.dimension() {
            Some(expected) => {
                if vector.dimension() != expected {
                    return Err(
                        VectorDbError::DimensionMismatch {
                            expected,
                            actual: vector.dimension(),
                        },
                    );
                }
            },
            None => {},
        }
        if self.store.next_id_value() == usize::MAX {
            return Err(VectorDbError::StorageError("internal id space exhausted".to_owned()));
        }
        let entry = WalEntry::Insert {
            string_id: id.clone(),
            internal_id: 0,
            data: vector.to_data(),
        };
        encode_record(&entry)
    }

    /// The committed dimension, if any vector was ever inserted.
    pub fn dimension(&self) -> (r: Option<usize>)
        requires
            self.wf(),
        ensures
            r == self.model().dimension,
    {
        self.store.dimension()
    }

    /// The framed log record for a delete.
    pub fn delete_record(&self, id: &String) -> (r: Result<Vec<u8>, VectorDbError>)
        ensures
            r matches Ok(bytes) ==> bytes@ == frame(
                enc_entry((WalOp::Delete { string_id: id@ })),
            ),
            r is Err <==> !frame_wf(enc_entry((WalOp::Delete { string_id: id@ }))),
    {
        let entry = WalEntry::Delete { string_id: id.clone() };
        encode_record(&entry)
    }

    /// The framed checkpoint marker record.
    pub fn checkpoint_record(&self) -> (r: Result<Vec<u8>, VectorDbError>)
        ensures
            r matches Ok(bytes) ==> bytes@ == frame(enc_entry(WalOp::Checkpoint)),
            r is Err <==> !frame_wf(enc_entry(WalOp::Checkpoint)),
    {
        encode_record(&WalEntry::Checkpoint)
    }

    /// Apply an insert after its log record was durably appended.
    pub fn apply_insert(&mut self, id: String, vector: Vector, metadata: Metadata) -> (r: Result<
        (),
        VectorDbError,
    >)
        requires
            old(self).wf(),
            metadata.wf(),
        ensures
            final(self).wf(),
            final(self).spec_interval() == old(self).spec_interval(),
            r is Ok <==> model_dim_ok(old(self).model(), vector@) && old(self).model().next_id
                < usize::MAX,
            r is Ok ==> final(self).model() == model_insert(
                old(self).model(),
                id@,
                vector@,
                metadata@,
            ) && final(self).spec_wal_count() == (if old(self).spec_wal_count() < usize::MAX {
                old(self).spec_wal_count() + 1
            } else {
                old(self).spec_wal_count() as int
            }),
            r is Err ==> final(self).model() == old(self).model() && final(self).spec_wal_count()
                == old(self).spec_wal_count(),
    {
        match self.store.insert_with_metadata(id, vector, metadata) {
            Ok(()) => {},
            Err(e) => {
                return Err(e);
            },
        }
        if self.wal_count < usize::MAX {
            self.wal_count = self.wal_count + 1;
        }
        Ok(())
    }

    /// Apply a delete after its log record was durably appended.
    /// Fails with a not-found error on an absent id, leaving the
    /// state unchanged.
    pub fn apply_delete(&mut self, id: &str) -> (r: Result<Vector, VectorDbError>)
        requires
            old(self).wf(),
        ensures
            final(self).wf(),
            final(self).spec_interval() == old(self).spec_interval(),
            r is Ok <==> old(self).model().forward.contains_key(id@),
            r matches Ok(v) ==> v@ == old(self).model().vectors[old(self).model().forward[id@]]
                && final(self).model() == model_delete(old(self).model(), id@)
                && final(self).spec_wal_count() == (if old(self).spec_wal_count() < usize::MAX {
                    old(self).spec_wal_count() + 1
                } else {
                    old(self).spec_wal_count() as int
                }),
            r is Err ==> final(self).model() == old(self).model() && final(self).spec_wal_count()
                == old(self).spec_wal_count(),
    {
        let v = match self.store.delete(id) {
            Ok(v) => v,
            Err(e) => {
                return Err(e);
            },
        };
        if self.wal_count < usize::MAX {
            self.wal_count = self.wal_count + 1;
        }
        Ok(v)
    }

    /// Whether enough records accumulated to warrant a checkpoint.
    pub fn should_checkpoint(&self) -> (r: bool)
        ensures
            r == (self.spec_wal_count() >= self.spec_interval()),
    {
        self.wal_count >= self.checkpoint_interval
    }

    /// Build a snapshot of the live store: every vector with its
    /// string id and metadata, in internal-id assignment order, plus
    /// the id counter and the dimension.
    #[verifier::loop_isolation(false)]
    pub fn build_snapshot(&self) -> (r: DatabaseSnapshot)
        requires
            self.wf(),
        ensures
            forall|i: int| 0 <= i < r.vectors@.len() ==> (#[trigger] r.vectors@[i]).metadata.wf(),
            r@.next_id == self.model().next_id,
            r@.dimension == (match self.model().dimension {
                Some(d) => Some(d as u64),
                None => None::<u64>,
            }),
            r.vectors@.len() == self.model().reverse.dom().len(),
            forall|i: int|
                0 <= i < r.vectors@.len() ==> {
                    let sv = #[trigger] r.vectors@[i];
                    &&& self.model().reverse.contains_key(sv.internal_id)
                    &&& sv.string_id@ == self.model().reverse[sv.internal_id]
                    &&& sv.data@ == self.model().vectors[sv.internal_id]
                    &&& sv.metadata@ == self.model().meta[sv.internal_id]
                },
            snapshot_matches_model(r@, self.model()),
    {
        let pairs = self.store.internal_to_string_ids();
        let mut vectors: Vec<SerializedVector> = Vec::new();
        let mut i: usize = 0;
        while i < pairs.len()
            invariant
                i <= pairs@.len(),
                vectors@.len() == i,
                forall|j: int|
                    0 <= j < i ==> {
                        let sv = #[trigger] vectors@[j];
                        &&& sv.metadata.wf()
                        &&& sv.internal_id == pairs@[j].0
                        &&& self.model().reverse.contains_key(sv.internal_id)
                        &&& sv.string_id@ == self.model().reverse[sv.internal_id]
                        &&& sv.data@ == self.model().vectors[sv.internal_id]
                        &&& sv.metadata@ == self.model().meta[sv.internal_id]
                    },
            decreases pairs@.len() - i,
        {
            let internal_id = pairs[i].0;
            let string_id = pairs[i].1.clone();
            proof {
                crate::storage::lemma_map_consistency(&self.store);
            }
            let data: Vec<u32> = match self.store.index().get_vector(internal_id) {
                Some(v) => v.to_data(),
                None => {
                    proof {
                        assert(false);
                    }
                    Vec::new()
                },
            };
            let metadata: Metadata = match self.store.get_metadata(string_id.as_str()) {
                Some(m) => m.duplicate(),
                None => {
                    proof {
                        assert(false);
                    }
                    Metadata::new()
                },
            };
            vectors.push(SerializedVector { internal_id, string_id, data, metadata });
            i = i + 1;
        }
        let next_id = self.store.next_id_value();
        let dimension = self.store.dimension();
        let snap = DatabaseSnapshot { vectors, next_id, dimension };
        proof {
            let sview = snap@;
            assert forall|i: int|
                0 <= i < sview.vectors.len() implies {
                let sv = #[trigger] sview.vectors[i];
                &&& self.model().reverse.contains_key(sv.internal_id as usize)
                &&& sv.string_id == self.model().reverse[sv.internal_id as usize]
                &&& sv.data == self.model().vectors[sv.internal_id as usize]
                &&& pairs_map(sv.fields) == self.model().meta[sv.internal_id as usize]
            } by {
                let rec = snap.vectors@[i];
                assert(sview.vectors[i] == rec@);
                crate::storage::lemma_metadata_wf_pairs(&rec.metadata);
                crate::storage::lemma_kv_pairs_map(rec.metadata.pairs());
            }
            assert(snapshot_matches_model(sview, self.model()));
        }
        snap
    }

    /// Encode the current state as snapshot bytes: the image of
    /// exactly the live store, ready to write durably.
    pub fn checkpoint_image(&self) -> (r: Vec<u8>)
        requires
            self.wf(),
        ensures
            exists|snap: SnapView|
                r@ == enc_snapshot(snap) && #[trigger] snapshot_matches_model(snap, self.model()),
    {
        let snap = self.build_snapshot();
        let bytes = encode_snapshot(&snap);
        proof {
            assert(bytes@ == enc_snapshot(snap@) && snapshot_matches_model(snap@, self.model()));
        }
        bytes
    }

    /// Note that a checkpoint completed and the log was truncated.
    pub fn checkpoint_done(&mut self)
        requires
            old(self).wf(),
        ensures
            final(self).wf(),
            final(self).model() == old(self).model(),
            final(self).spec_wal_count() == 0,
            final(self).spec_interval() == old(self).spec_interval(),
    {
        self.wal_count = 0;
    }

    /// Search the store.
    pub fn search(&self, query: &Vector, k: usize) -> (r: Result<Vec<SearchResult>, VectorDbError>)
        requires
            self.wf(),
        ensures
            self.model().vectors.dom().len() == 0 ==> (r matches Ok(rs) && rs@.len() == 0),
            self.model().vectors.dom().len() > 0 && !model_dim_ok(self.model(), query@) ==> r
                == Err::<Vec<SearchResult>, VectorDbError>(
                VectorDbError::DimensionMismatch {
                    expected: self.model().dimension->0,
                    actual: query@.len() as usize,
                },
            ),
            r matches Ok(rs) ==> {
                &&& rs@.len() <= k
                &&& crate::storage::sr_sorted(rs@)
                &&& crate::storage::sr_distinct(rs@)
                &&& forall|i: int|
                    0 <= i < rs@.len() ==> self.model().forward.contains_key(
                        (#[trigger] rs@[i]).id@,
                    )
            },
    {
        self.store.search(query, k)
    }

    /// The number of stored vectors.
    pub fn len(&self) -> (r: usize)
        requires
            self.wf(),
        ensures
            r == self.model().vectors.dom().len(),
    {
        self.store.len()
    }

    /// Whether the store is empty.
    pub fn is_empty(&self) -> (r: bool)
        requires
            self.wf(),
        ensures
            r == (self.model().vectors.dom().len() == 0),
    {
        self.store.is_empty()
    }

    /// All stored string ids.
    pub fn list_ids(&self) -> (r: Vec<String>)
        requires
            self.wf(),
        ensures
            r@.len() == self.model().forward.dom().len(),
            forall|i: int|
                0 <= i < r@.len() ==> self.model().forward.contains_key((#[trigger] r@[i])@),
    {
        self.store.list_ids()
    }
}

/// Write-ahead durability: the log built by framing a sequence of
/// entries replays to exactly those entries, so applying them in
/// order — which is what recovery does — reproduces the store state
/// the engine reached when it appended them: same vectors, same
/// metadata, same dimension.
pub proof fn lemma_wal_replay_reproduces(m0: StoreModel, ops: Seq<WalOp>)
    requires
        forall|i: int|
            0 <= i < ops.len() ==> crate::wal::op_wf(#[trigger] ops[i]) && frame_wf(
                enc_entry(ops[i]),
            ),
    ensures
        scan_from(crate::wal::enc_log(ops), 0) == ops,
        replay_ops(m0, scan_from(crate::wal::enc_log(ops), 0)) == replay_ops(m0, ops),
{
    crate::wal::lemma_log_round_trip(ops);
}

/// Whether a snapshot image describes exactly a store state: one
/// record per live internal id, carrying its string id, vector data
/// and metadata, plus the true id counter and dimension.
pub open spec fn snapshot_matches_model(s: SnapView, m: StoreModel) -> bool {
    &&& s.next_id == m.next_id as u64
    &&& s.dimension == (match m.dimension {
        Some(d) => Some(d as u64),
        None => None::<u64>,
    })
    &&& s.vectors.len() == m.reverse.dom().len()
    &&& forall|i: int|
        0 <= i < s.vectors.len() ==> {
            let sv = #[trigger] s.vectors[i];
            &&& m.reverse.contains_key(sv.internal_id as usize)
            &&& sv.string_id == m.reverse[sv.internal_id as usize]
            &&& sv.data == m.vectors[sv.internal_id as usize]
            &&& pairs_map(sv.fields) == m.meta[sv.internal_id as usize]
        }
}

/// The state of a store that has never held a vector.
pub open spec fn empty_model() -> StoreModel {
    StoreModel {
        forward: Map::empty(),
        reverse: Map::empty(),
        meta: Map::empty(),
        vectors: Map::empty(),
        next_id: 0,
        dimension: None,
    }
}

/// A failing entry dooms the whole replay.
proof fn lemma_replay_fail(m0: StoreModel, ops: Seq<WalOp>, i: int, pre: StoreModel)
    requires
        0 <= i < ops.len(),
        replay_ops(m0, ops.take(i)) == Some(pre),
        apply_op(pre, ops[i]) is None,
    ensures
        replay_ops(m0, ops) is None,
    decreases i,
{
    if i == 0 {
        assert(ops.take(0).len() == 0);
        assert(pre == m0);
        assert(ops.first() == ops[0]);
    } else {
        let t0 = ops.take(i);
        assert(t0.first() == ops[0]);
        match apply_op(m0, ops[0]) {
            Some(m1) => {
                assert(t0.drop_first() =~= ops.drop_first().take(i - 1));
                assert(ops.drop_first()[i - 1] == ops[i]);
                lemma_replay_fail(m1, ops.drop_first(), i - 1, pre);
            },
            None => {
                assert(false);
            },
        }
    }
}

/// A failing record dooms the whole snapshot load.
proof fn lemma_apply_snapshot_fail(m0: StoreModel, svs: Seq<SvView>, i: int, pre: StoreModel)
    requires
        0 <= i < svs.len(),
        apply_snapshot(m0, svs.take(i)) == Some(pre),
        apply_sv(pre, svs[i]) is None,
    ensures
        apply_snapshot(m0, svs) is None,
    decreases i,
{
    if i == 0 {
        assert(svs.take(0).len() == 0);
        assert(pre == m0);
        assert(svs.first() == svs[0]);
    } else {
        let t0 = svs.take(i);
        assert(t0.first() == svs[0]);
        match apply_sv(m0, svs[0]) {
            Some(m1) => {
                assert(t0.drop_first() =~= svs.drop_first().take(i - 1));
                assert(svs.drop_first()[i - 1] == svs[i]);
                lemma_apply_snapshot_fail(m1, svs.drop_first(), i - 1, pre);
            },
            None => {
                assert(false);
            },
        }
    }
}

/// Extending a replayed prefix by one successfully applied entry.
proof fn lemma_replay_step(m0: StoreModel, ops: Seq<WalOp>, i: int, pre: StoreModel, post: StoreModel)
    requires
        0 <= i < ops.len(),
        replay_ops(m0, ops.take(i)) == Some(pre),
        apply_op(pre, ops[i]) == Some(post),
    ensures
        replay_ops(m0, ops.take(i + 1)) == Some(post),
    decreases i,
{
    if i == 0 {
        assert(ops.take(0).len() == 0);
        assert(pre == m0);
        assert(ops.take(1).first() == ops[0]);
        assert(ops.take(1).drop_first() =~= ops.take(0));
        assert(replay_ops(post, ops.take(0)) == Some(post));
    } else {
        let t = ops.take(i + 1);
        let t0 = ops.take(i);
        assert(t.first() == ops[0] && t0.first() == ops[0]);
        match apply_op(m0, ops[0]) {
            Some(m1) => {
                assert(t0.drop_first() =~= ops.drop_first().take(i - 1));
                assert(t.drop_first() =~= ops.drop_first().take(i));
                assert(ops.drop_first()[i - 1] == ops[i]);
                lemma_replay_step(m1, ops.drop_first(), i - 1, pre, post);
            },
            None => {
                assert(false);
            },
        }
    }
}

/// Extending a loaded snapshot prefix by one successfully applied
/// record.
proof fn lemma_apply_snapshot_step(
    m0: StoreModel,
    svs: Seq<SvView>,
    i: int,
    pre: StoreModel,
    post: StoreModel,
)
    requires
        0 <= i < svs.len(),
        apply_snapshot(m0, svs.take(i)) == Some(pre),
        apply_sv(pre, svs[i]) == Some(post),
    ensures
        apply_snapshot(m0, svs.take(i + 1)) == Some(post),
    decreases i,
{
    if i == 0 {
        assert(svs.take(0).len() == 0);
        assert(pre == m0);
        assert(svs.take(1).first() == svs[0]);
        assert(svs.take(1).drop_first() =~= svs.take(0));
        assert(apply_snapshot(post, svs.take(0)) == Some(post));
    } else {
        let t0 = svs.take(i);
        assert(t0.first() == svs[0] && svs.take(i + 1).first() == svs[0]);
        match apply_sv(m0, svs[0]) {
            Some(m1) => {
                assert(t0.drop_first() =~= svs.drop_first().take(i - 1));
                assert(svs.take(i + 1).drop_first() =~= svs.drop_first().take(i));
                assert(svs.drop_first()[i - 1] == svs[i]);
                lemma_apply_snapshot_step(m1, svs.drop_first(), i - 1, pre, post);
            },
            None => {
                assert(false);
            },
        }
    }
}

} // verus!
