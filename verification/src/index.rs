//! The uniform contract for search indexes.

use vstd::prelude::*;

use crate::distance::DistanceMetric;
use crate::error::VectorDbError;
use crate::vector::Vector;

verus! {

/// Whether search results come ascending by distance key, with the id
/// as tiebreak.
pub open spec fn results_sorted(s: Seq<(usize, u64)>) -> bool {
    forall|i: int, j: int|
        0 <= i < j < s.len() ==> ((#[trigger] s[i]).1 < (#[trigger] s[j]).1 || (s[i].1 == s[j].1
            && s[i].0 <= s[j].0))
}

/// Whether no internal id repeats among search results.
pub open spec fn results_distinct(s: Seq<(usize, u64)>) -> bool {
    forall|i: int, j: int| 0 <= i < j < s.len() ==> (#[trigger] s[i]).0 != (#[trigger] s[j]).0
}

/// A search index over vectors keyed by dense internal ids.
///
/// The store drives an index only through this contract, so every
/// store-level guarantee holds for any implementation.  Distances are
/// the kernel's order-preserving keys; nothing here depends on what
/// the kernel computes.
pub trait Index: Sized {
    /// The index's structural invariant.
    spec fn inv(&self) -> bool;

    /// The vectors the index holds, as a map from internal id to
    /// component data.
    spec fn vmap(&self) -> Map<usize, Seq<u32>>;

    /// The metric this index was built for.
    spec fn metric_spec(&self) -> DistanceMetric;

    /// Whether `add` always succeeds on this index.
    spec fn add_total(&self) -> bool;

    /// Whether `search` returns a full complement of results —
    /// `min(k, len)` of them, and every stored id once `k` covers the
    /// whole index — rather than an approximation.
    spec fn search_complete(&self) -> bool;

    /// The id map is finite (so lengths are well-defined).
    proof fn lemma_vmap_finite(&self)
        requires
            self.inv(),
        ensures
            self.vmap().dom().finite(),
    ;

    /// Add a vector under a fresh internal id.
    ///
    /// Replacement of an existing id is realised one level up: the
    /// store pre-deletes any prior holder of a string id and never
    /// reuses internal ids, so an index never sees a live id again.
    fn add(&mut self, id: usize, vector: Vector) -> (r: Result<(), VectorDbError>)
        requires
            old(self).inv(),
            !old(self).vmap().dom().contains(id),
        ensures
            final(self).inv(),
            final(self).metric_spec() == old(self).metric_spec(),
            final(self).add_total() == old(self).add_total(),
            final(self).search_complete() == old(self).search_complete(),
            r is Ok ==> final(self).vmap() == old(self).vmap().insert(id, vector@),
            r is Err ==> final(self).vmap() == old(self).vmap(),
            old(self).add_total() ==> r is Ok,
    ;

    /// Remove the vector with the given id; absent ids are ignored.
    fn remove(&mut self, id: usize) -> (r: Result<(), VectorDbError>)
        requires
            old(self).inv(),
        ensures
            final(self).inv(),
            final(self).metric_spec() == old(self).metric_spec(),
            final(self).add_total() == old(self).add_total(),
            final(self).search_complete() == old(self).search_complete(),
            r is Ok,
            final(self).vmap() == old(self).vmap().remove(id),
    ;

    /// Search for the `k` nearest neighbours of `query`.  On success
    /// the results are ascending by distance key, hold at most `k`
    /// pairwise-distinct ids, and every id is live in the index.
    /// Searches that involve no distance computation — an empty index,
    /// or `k == 0` — always succeed; a complete index additionally
    /// returns `min(k, len)` results, covering every stored id when
    /// `k` reaches the index size.
    fn search(&self, query: &Vector, k: usize) -> (r: Result<
        Vec<(usize, u64)>,
        VectorDbError,
    >)
        requires
            self.inv(),
        ensures
            self.vmap().dom().len() == 0 ==> r is Ok,
            k == 0 ==> r is Ok,
            r matches Ok(rs) ==> {
                &&& rs@.len() <= k
                &&& results_sorted(rs@)
                &&& results_distinct(rs@)
                &&& forall|i: int|
                    0 <= i < rs@.len() ==> self.vmap().dom().contains((#[trigger] rs@[i]).0)
            },
            self.search_complete() ==> (r matches Ok(rs) ==> {
                &&& rs@.len() == (if (k as int) < self.vmap().dom().len() {
                    k as int
                } else {
                    self.vmap().dom().len() as int
                })
                &&& k >= self.vmap().dom().len() ==> forall|id: usize|
                    self.vmap().dom().contains(id) ==> exists|j: int|
                        0 <= j < rs@.len() && (#[trigger] rs@[j]).0 == id
            }),
    ;

    /// Retrieve a vector by internal id.
    fn get_vector(&self, id: usize) -> (r: Option<&Vector>)
        requires
            self.inv(),
        ensures
            match r {
                Some(v) => self.vmap().dom().contains(id) && v@ == self.vmap()[id],
                None => !self.vmap().dom().contains(id),
            },
    ;

    /// The metric this index was built for.
    fn metric(&self) -> (r: DistanceMetric)
        requires
            self.inv(),
        ensures
            r == self.metric_spec(),
    ;

    /// The number of vectors in the index.
    fn len(&self) -> (r: usize)
        requires
            self.inv(),
        ensures
            r == self.vmap().dom().len(),
    ;

    /// Whether the index is empty.
    fn is_empty(&self) -> (r: bool)
        requires
            self.inv(),
        ensures
            r == (self.vmap().dom().len() == 0),
    ;
}

/// The set of positions marked live in a slot mask.
pub open spec fn live_set(m: Seq<bool>) -> Set<usize> {
    Set::new(|i: usize| i < m.len() && m[i as int])
}

/// The number of positions marked live in a slot mask.
pub open spec fn live_count(m: Seq<bool>) -> nat
    decreases m.len(),
{
    if m.len() == 0 {
        0
    } else {
        live_count(m.drop_last()) + if m.last() {
            1nat
        } else {
            0nat
        }
    }
}

/// A slot mask's live set is finite and as large as its live count.
pub proof fn lemma_live_set_count(m: Seq<bool>)
    requires
        m.len() <= usize::MAX,
    ensures
        live_set(m).finite(),
        live_set(m).len() == live_count(m),
    decreases m.len(),
{
    if m.len() == 0 {
        assert(live_set(m) =~= Set::<usize>::empty());
    } else {
        let dl = m.drop_last();
        lemma_live_set_count(dl);
        let last = (m.len() - 1) as usize;
        if m.last() {
            assert(live_set(m) =~= live_set(dl).insert(last));
            assert(!live_set(dl).contains(last));
        } else {
            assert(live_set(m) =~= live_set(dl));
        }
    }
}

/// Updating one slot changes the live count accordingly.
pub proof fn lemma_live_count_update(m: Seq<bool>, i: int, b: bool)
    requires
        0 <= i < m.len(),
    ensures
        live_count(m.update(i, b)) == live_count(m) + (if b {
            1int
        } else {
            0int
        }) - (if m[i] {
            1int
        } else {
            0int
        }),
    decreases m.len(),
{
    let m2 = m.update(i, b);
    if i == m.len() - 1 {
        assert(m2.drop_last() =~= m.drop_last());
        assert(m2.last() == b);
    } else {
        assert(m2.drop_last() =~= m.drop_last().update(i, b));
        lemma_live_count_update(m.drop_last(), i, b);
        assert(m2.last() == m.last());
    }
}

/// A marked position implies a positive live count.
pub proof fn lemma_live_count_pos(m: Seq<bool>, i: int)
    requires
        0 <= i < m.len(),
        m[i],
    ensures
        live_count(m) >= 1,
    decreases m.len(),
{
    if i == m.len() - 1 {
    } else {
        lemma_live_count_pos(m.drop_last(), i);
    }
}

/// A mask with no marked position has live count zero.
pub proof fn lemma_live_count_none(m: Seq<bool>)
    requires
        forall|i: int| 0 <= i < m.len() ==> !(#[trigger] m[i]),
    ensures
        live_count(m) == 0,
    decreases m.len(),
{
    if m.len() > 0 {
        lemma_live_count_none(m.drop_last());
    }
}

/// Live counts add over concatenation.
pub proof fn lemma_live_count_concat(a: Seq<bool>, b: Seq<bool>)
    ensures
        live_count(a + b) == live_count(a) + live_count(b),
    decreases b.len(),
{
    if b.len() == 0 {
        assert(a + b =~= a);
    } else {
        assert((a + b).drop_last() =~= a + b.drop_last());
        assert((a + b).last() == b.last());
        lemma_live_count_concat(a, b.drop_last());
    }
}

/// A mask's live count never exceeds its length.
pub proof fn lemma_live_count_bound(m: Seq<bool>)
    ensures
        live_count(m) <= m.len(),
    decreases m.len(),
{
    if m.len() > 0 {
        lemma_live_count_bound(m.drop_last());
    }
}

/// Extending a mask with a dead slot keeps the live count.
pub proof fn lemma_live_count_push_false(m: Seq<bool>)
    ensures
        live_count(m.push(false)) == live_count(m),
{
    assert(m.push(false).drop_last() =~= m);
}

} // verus!
