//! The brute-force flat index: distance to every stored vector.

use vstd::prelude::*;

use crate::distance::{DistanceKernel, DistanceMetric};
use crate::error::VectorDbError;
use crate::index::{
    lemma_live_count_bound, lemma_live_count_concat, lemma_live_count_pos,
    lemma_live_count_push_false, lemma_live_count_update, lemma_live_set_count, live_count,
    live_set, results_distinct, results_sorted, Index,
};
use crate::neighbor_queue::{lemma_insert_membership, MaxHeap, Neighbor};
use crate::vector::Vector;

verus! {

/// The liveness mask of a slot table.
pub open spec fn slot_mask(s: Seq<Option<Vector>>) -> Seq<bool> {
    s.map_values(|o: Option<Vector>| o is Some)
}

/// The map from live slot positions to the vector data they hold.
pub open spec fn slot_map(s: Seq<Option<Vector>>) -> Map<usize, Seq<u32>> {
    Map::new(
        |i: usize| i < s.len() && s[i as int] is Some,
        |i: usize| (s[i as int]->0)@,
    )
}

/// A flat (exhaustive) index: a slot table of vectors, scanned whole
/// on every search.
#[derive(Debug)]
pub struct FlatIndex<D: DistanceKernel> {
    vectors: Vec<Option<Vector>>,
    count: usize,
    metric: DistanceMetric,
    kernel: D,
}

impl<D: DistanceKernel> FlatIndex<D> {
    /// Create a new empty flat index for the given metric, computing
    /// distances with the given kernel.
    pub fn new(metric: DistanceMetric, kernel: D) -> (r: FlatIndex<D>)
        ensures
            r.inv(),
            r.vmap() == Map::<usize, Seq<u32>>::empty(),
            r.metric_spec() == metric,
            r.add_total(),
            r.search_complete(),
    {
        let r = FlatIndex { vectors: Vec::new(), count: 0, metric, kernel };
        proof {
            assert(r.vmap() =~= Map::<usize, Seq<u32>>::empty());
        }
        r
    }

    /// All live entries, ascending by internal id.
    #[verifier::loop_isolation(false)]
    pub fn live_vectors(&self) -> (r: Vec<(usize, Vector)>)
        requires
            self.inv(),
        ensures
            r@.len() == self.vmap().dom().len(),
            forall|i: int|
                0 <= i < r@.len() ==> {
                    &&& self.vmap().dom().contains((#[trigger] r@[i]).0)
                    &&& r@[i].1@ == self.vmap()[r@[i].0]
                },
            forall|i: int, j: int| 0 <= i < j < r@.len() ==> (#[trigger] r@[i]).0 < (#[trigger] r@[j]).0,
            forall|id: usize|
                self.vmap().dom().contains(id) ==> exists|i: int|
                    0 <= i < r@.len() && (#[trigger] r@[i]).0 == id,
    {
        let mut r: Vec<(usize, Vector)> = Vec::new();
        let mut i: usize = 0;
        while i < self.vectors.len()
            invariant
                i <= self.vectors@.len(),
                r@.len() == live_count(slot_mask(self.vectors@.subrange(0, i as int))),
                forall|a: int|
                    0 <= a < r@.len() ==> {
                        &&& (#[trigger] r@[a]).0 < i
                        &&& self.vmap().dom().contains(r@[a].0)
                        &&& r@[a].1@ == self.vmap()[r@[a].0]
                    },
                forall|a: int, b: int|
                    0 <= a < b < r@.len() ==> (#[trigger] r@[a]).0 < (#[trigger] r@[b]).0,
                forall|id: usize|
                    id < i && self.vmap().dom().contains(id) ==> exists|a: int|
                        0 <= a < r@.len() && (#[trigger] r@[a]).0 == id,
            decreases self.vectors@.len() - i,
        {
            let ghost pre_mask = slot_mask(self.vectors@.subrange(0, i as int));
            let ghost cur_mask = slot_mask(self.vectors@.subrange(0, i + 1));
            proof {
                assert(cur_mask.drop_last() =~= pre_mask);
            }
            let ghost r0 = r@;
            match &self.vectors[i] {
                Some(v) => {
                    r.push((i, v.duplicate()));
                },
                None => {
                },
            }
            proof {
                assert forall|id: usize|
                    id < i + 1 && self.vmap().dom().contains(id) implies exists|a: int|
                    0 <= a < r@.len() && (#[trigger] r@[a]).0 == id by {
                    if id < i {
                        let a = choose|a: int| 0 <= a < r0.len() && (#[trigger] r0[a]).0 == id;
                        assert(r@[a] == r0[a]);
                        assert((r@[a]).0 == id);
                    } else {
                        assert(self.vectors@[i as int] is Some);
                        assert((r@[r@.len() - 1]).0 == i);
                    }
                }
            }
            i = i + 1;
        }
        proof {
            assert(self.vectors@.subrange(0, self.vectors@.len() as int) =~= self.vectors@);
            lemma_live_set_count(slot_mask(self.vectors@));
            assert(self.vmap().dom() =~= live_set(slot_mask(self.vectors@)));
        }
        r
    }
}

impl<D: DistanceKernel> Index for FlatIndex<D> {
    closed spec fn inv(&self) -> bool {
        &&& self.vectors@.len() <= usize::MAX
        &&& self.count == live_count(slot_mask(self.vectors@))
    }

    closed spec fn vmap(&self) -> Map<usize, Seq<u32>> {
        slot_map(self.vectors@)
    }

    closed spec fn metric_spec(&self) -> DistanceMetric {
        self.metric
    }

    closed spec fn add_total(&self) -> bool {
        true
    }

    closed spec fn search_complete(&self) -> bool {
        true
    }

    proof fn lemma_vmap_finite(&self) {
        lemma_live_set_count(slot_mask(self.vectors@));
        assert(self.vmap().dom() =~= live_set(slot_mask(self.vectors@)));
    }

    #[verifier::loop_isolation(false)]
    fn add(&mut self, id: usize, vector: Vector) -> (r: Result<(), VectorDbError>) {
        while self.vectors.len() <= id
            invariant
                old(self).vectors@.len() <= self.vectors@.len(),
                self.vectors@.len() <= id + 1 || self.vectors@ == old(self).vectors@,
                self.vectors@.subrange(0, old(self).vectors@.len() as int) == old(self).vectors@,
                forall|j: int|
                    old(self).vectors@.len() <= j < self.vectors@.len() ==> self.vectors@[j]
                        is None,
                live_count(slot_mask(self.vectors@)) == live_count(slot_mask(old(self).vectors@)),
                self.count == old(self).count,
                self.metric == old(self).metric,
            decreases id + 1 - self.vectors@.len(),
        {
            let ghost pre = self.vectors@;
            self.vectors.push(None);
            proof {
                assert(slot_mask(self.vectors@) =~= slot_mask(pre).push(false));
                lemma_live_count_push_false(slot_mask(pre));
                assert(self.vectors@.subrange(0, old(self).vectors@.len() as int) =~= old(
                    self,
                ).vectors@.subrange(0, old(self).vectors@.len() as int));
            }
        }
        let ghost pre = self.vectors@;
        proof {
            assert(pre[id as int] is None) by {
                if (id as int) < old(self).vectors@.len() {
                    assert(pre[id as int] == old(self).vectors@[id as int]);
                    assert(!old(self).vmap().dom().contains(id));
                }
            }
        }
        self.vectors.set(id, Some(vector));
        proof {
            assert(slot_mask(self.vectors@) =~= slot_mask(pre).update(id as int, true));
            lemma_live_count_update(slot_mask(pre), id as int, true);
            lemma_live_count_bound(slot_mask(self.vectors@));
        }
        self.count = self.count + 1;
        proof {
            assert(self.vmap() =~= old(self).vmap().insert(id, vector@)) by {
                assert forall|i: usize|
                    slot_map(self.vectors@).dom().contains(i)
                        == old(self).vmap().insert(id, vector@).dom().contains(i) by {
                    if i != id && (i as int) < pre.len() {
                        assert(self.vectors@[i as int] == pre[i as int]);
                        if (i as int) < old(self).vectors@.len() {
                            assert(pre[i as int] == old(self).vectors@[i as int]);
                        }
                    }
                }
                assert forall|i: usize|
                    slot_map(self.vectors@).dom().contains(i) implies slot_map(self.vectors@)[i]
                    == old(self).vmap().insert(id, vector@)[i] by {
                    if i != id {
                        assert(self.vectors@[i as int] == pre[i as int]);
                        assert(pre[i as int] == old(self).vectors@[i as int]);
                    }
                }
            }
        }
        Ok(())
    }

    fn remove(&mut self, id: usize) -> (r: Result<(), VectorDbError>) {
        let ghost pre = self.vectors@;
        if id < self.vectors.len() {
            let mut is_live = false;
            match &self.vectors[id] {
                Some(_) => {
                    is_live = true;
                },
                None => {
                },
            }
            if is_live {
                self.vectors.set(id, None);
                proof {
                    assert(slot_mask(self.vectors@) =~= slot_mask(pre).update(id as int, false));
                    lemma_live_count_update(slot_mask(pre), id as int, false);
                }
                self.count = self.count - 1;
                proof {
                    assert(self.vmap() =~= old(self).vmap().remove(id)) by {
                        assert forall|i: usize|
                            slot_map(self.vectors@).dom().contains(i) == old(self).vmap().remove(
                                id,
                            ).dom().contains(i) by {
                            if i != id && (i as int) < pre.len() {
                                assert(self.vectors@[i as int] == pre[i as int]);
                            }
                        }
                        assert forall|i: usize|
                            slot_map(self.vectors@).dom().contains(i) implies slot_map(
                            self.vectors@,
                        )[i] == old(self).vmap().remove(id)[i] by {
                            assert(self.vectors@[i as int] == pre[i as int]);
                        }
                    }
                }
                return Ok(());
            }
        }
        proof {
            assert(self.vmap() =~= old(self).vmap().remove(id));
        }
        Ok(())
    }

    #[verifier::loop_isolation(false)]
    #[verifier::rlimit(100)]
    #[verifier::spinoff_prover]
    fn search(&self, query: &Vector, k: usize) -> (r: Result<Vec<(usize, u64)>, VectorDbError>) {
        if k == 0 {
            let empty: Vec<(usize, u64)> = Vec::new();
            proof {
                lemma_live_set_count(slot_mask(self.vectors@));
                assert(self.vmap().dom() =~= live_set(slot_mask(self.vectors@)));
                if self.vmap().dom().len() == 0 {
                    assert forall|id: usize| !(#[trigger] self.vmap().dom().contains(id)) by {
                        if self.vmap().dom().contains(id) {
                            lemma_live_count_pos(slot_mask(self.vectors@), id as int);
                        }
                    }
                }
            }
            return Ok(empty);
        }
        let ghost full_mask = slot_mask(self.vectors@);
        let ghost total_live = live_count(full_mask);
        proof {
            lemma_live_set_count(full_mask);
            assert(self.vmap().dom() =~= live_set(full_mask));
        }
        let mut heap = MaxHeap::new();
        let mut i: usize = 0;
        while i < self.vectors.len()
            invariant
                i <= self.vectors@.len(),
                heap.wf(),
                heap@.len() == (if (k as int) < live_count(
                    slot_mask(self.vectors@.subrange(0, i as int)),
                ) {
                    k as int
                } else {
                    live_count(slot_mask(self.vectors@.subrange(0, i as int))) as int
                }),
                forall|a: int|
                    0 <= a < heap@.len() ==> (#[trigger] heap@[a]).id < i && self.vmap(
                    ).dom().contains(heap@[a].id),
                forall|a: int, b: int|
                    0 <= a < b < heap@.len() ==> (#[trigger] heap@[a]).id != (#[trigger] heap@[b]).id,
                k as int >= total_live ==> forall|id: usize|
                    id < i && #[trigger] self.vmap().dom().contains(id) ==> exists|a: int|
                        0 <= a < heap@.len() && (#[trigger] heap@[a]).id == id,
            decreases self.vectors@.len() - i,
        {
            let ghost pre_mask = slot_mask(self.vectors@.subrange(0, i as int));
            let ghost cur_mask = slot_mask(self.vectors@.subrange(0, i + 1));
            proof {
                assert(cur_mask.drop_last() =~= pre_mask);
                assert(full_mask =~= cur_mask + slot_mask(
                    self.vectors@.subrange(i + 1, self.vectors@.len() as int),
                ));
                lemma_live_count_concat(
                    cur_mask,
                    slot_mask(self.vectors@.subrange(i + 1, self.vectors@.len() as int)),
                );
            }
            let dist_opt: Option<u64> = match &self.vectors[i] {
                Some(v) => {
                    proof {
                        lemma_live_count_pos(full_mask, i as int);
                    }
                    if !v.has_same_dimension(query) {
                        return Err(
                            VectorDbError::DimensionMismatch {
                                expected: query.dimension(),
                                actual: v.dimension(),
                            },
                        );
                    }
                    match self.kernel.dist(query, v) {
                        Ok(d) => Some(d),
                        Err(e) => {
                            return Err(e);
                        },
                    }
                },
                None => None,
            };
            match dist_opt {
                Some(d) => {
                    let ghost pre = heap@;
                    let nb = Neighbor::new(i, d);
                    heap.push_bounded(nb, k);
                    proof {
                        let pos = choose|pos: int|
                            0 <= pos <= pre.len() && heap@ == if pre.len() + 1 > k {
                                pre.insert(pos, nb).drop_last()
                            } else {
                                pre.insert(pos, nb)
                            };
                        let mid = pre.insert(pos, nb);
                        assert forall|a: int|
                            0 <= a < heap@.len() implies ((#[trigger] heap@[a]).id < i + 1
                            && self.vmap().dom().contains(heap@[a].id)) by {
                            assert(heap@[a] == mid[a]);
                            lemma_insert_membership(pre, pos, nb, a);
                        }
                        assert forall|a: int, b: int|
                            0 <= a < b < heap@.len() implies (#[trigger] heap@[a]).id
                            != (#[trigger] heap@[b]).id by {
                            assert(heap@[a] == mid[a] && heap@[b] == mid[b]);
                            if a < pos {
                            } else {
                            }
                            if b < pos {
                            } else {
                            }
                        }
                        if k as int >= total_live {
                            assert(pre.len() + 1 <= k);
                            assert(heap@ == mid);
                            assert forall|id: usize|
                                id < i + 1 && #[trigger] self.vmap().dom().contains(
                                id,
                            ) implies exists|a: int|
                                0 <= a < heap@.len() && (#[trigger] heap@[a]).id == id by {
                                if id == i {
                                    assert(heap@[pos].id == i);
                                } else {
                                    let a0 = choose|a: int|
                                        0 <= a < pre.len() && (#[trigger] pre[a]).id == id;
                                    if a0 < pos {
                                        assert(heap@[a0].id == id);
                                    } else {
                                        assert(heap@[a0 + 1].id == id);
                                    }
                                }
                            }
                        }
                    }
                },
                None => {
                    proof {
                        assert(!cur_mask.last());
                        assert(live_count(cur_mask) == live_count(pre_mask));
                        assert forall|id: usize|
                            id < i + 1 && #[trigger] self.vmap().dom().contains(id) implies id < i
                            by {}
                    }
                },
            }
            i = i + 1;
        }
        proof {
            assert(self.vectors@.subrange(0, self.vectors@.len() as int) =~= self.vectors@);
        }
        let sorted = heap.into_sorted_vec();
        let mut results: Vec<(usize, u64)> = Vec::new();
        let mut j: usize = 0;
        while j < sorted.len()
            invariant
                j <= sorted@.len(),
                results@.len() == j,
                forall|a: int|
                    0 <= a < j ==> (#[trigger] results@[a]).0 == sorted@[a].id && results@[a].1
                        == sorted@[a].distance,
            decreases sorted@.len() - j,
        {
            results.push((sorted[j].id, sorted[j].distance));
            j = j + 1;
        }
        proof {
            assert(results_sorted(results@));
            assert(results_distinct(results@));
            if k as int >= total_live {
                assert forall|id: usize|
                    #[trigger] self.vmap().dom().contains(id) implies exists|a: int|
                    0 <= a < results@.len() && (#[trigger] results@[a]).0 == id by {
                    let a0 = choose|a: int|
                        0 <= a < sorted@.len() && (#[trigger] sorted@[a]).id == id;
                    assert(results@[a0].0 == id);
                }
            }
        }
        Ok(results)
    }

    fn get_vector(&self, id: usize) -> (r: Option<&Vector>) {
        if id < self.vectors.len() {
            match &self.vectors[id] {
                Some(v) => Some(v),
                None => None,
            }
        } else {
            None
        }
    }

    fn metric(&self) -> (r: DistanceMetric) {
        self.metric
    }

    fn len(&self) -> (r: usize) {
        proof {
            lemma_live_set_count(slot_mask(self.vectors@));
            assert(self.vmap().dom() =~= live_set(slot_mask(self.vectors@)));
        }
        self.count
    }

    fn is_empty(&self) -> (r: bool) {
        proof {
            lemma_live_set_count(slot_mask(self.vectors@));
            assert(self.vmap().dom() =~= live_set(slot_mask(self.vectors@)));
        }
        self.count == 0
    }
}

} // verus!
