//! The hierarchical navigable small-world graph index.
//!
//! Nodes live in a slot table keyed by internal id; each node keeps one
//! unordered neighbour list per layer it occupies.  Deletion is lazy:
//! a slot is cleared and the node's own neighbours are scrubbed, but
//! stale back-references may survive, so every traversal tolerates
//! list entries pointing at empty slots.

use vstd::prelude::*;

use crate::distance::{DistanceKernel, DistanceMetric};
use crate::error::VectorDbError;
use crate::index::{
    live_count, live_set, lemma_live_count_bound, lemma_live_count_none, lemma_live_count_pos,
    lemma_live_count_push_false, lemma_live_count_update, lemma_live_set_count, results_distinct,
    results_sorted, Index,
};
use crate::neighbor_queue::{
    lemma_insert_membership, nb_le, nq_sorted, MaxHeap, MinHeap, Neighbor,
};
use crate::rng::{next_random, rng_from_entropy, rng_from_seed};
use crate::vector::Vector;

verus! {

/// Construction-time parameters of the graph.
#[derive(Debug, Clone)]
pub struct HnswParams {
    /// Target neighbours per node at layers above 0.
    pub m: usize,
    /// Neighbour cap at layer 0, typically `2 * m`.
    pub m_max0: usize,
    /// Candidate-set width during insertion.
    pub ef_construction: usize,
    /// Candidate-set width at layer 0 during a query.
    pub ef_search: usize,
    /// Hard ceiling on the number of layers.
    pub max_layers: usize,
}

impl HnswParams {
    /// The bounds the algorithms need: a branching factor of at least
    /// two (which also fixes the layer decay at `1/m`), a layer-0 cap
    /// no smaller than the upper-layer cap, and at least one layer.
    pub open spec fn wf(&self) -> bool {
        &&& 2 <= self.m
        &&& self.m <= self.m_max0
        &&& 1 <= self.max_layers
        &&& 1 <= self.ef_construction
    }

    /// Custom parameters; the layer-0 cap is twice `m` and the layer
    /// ceiling is 16.
    pub fn new(m: usize, ef_construction: usize, ef_search: usize) -> (r: HnswParams)
        requires
            2 <= m,
            m <= usize::MAX / 2,
            1 <= ef_construction,
        ensures
            r.wf(),
            r.m == m,
            r.m_max0 == 2 * m,
            r.ef_construction == ef_construction,
            r.ef_search == ef_search,
            r.max_layers == 16,
    {
        HnswParams { m, m_max0: 2 * m, ef_construction, ef_search, max_layers: 16 }
    }
}

impl Default for HnswParams {
    /// The defaults: `m = 16`, layer-0 cap 32, construction width 200,
    /// search width 50, 16 layers.
    fn default() -> (r: HnswParams)
        ensures
            r.wf(),
            r.m == 16,
            r.m_max0 == 32,
            r.ef_construction == 200,
            r.ef_search == 50,
            r.max_layers == 16,
    {
        HnswParams { m: 16, m_max0: 32, ef_construction: 200, ef_search: 50, max_layers: 16 }
    }
}

/// A node: its vector, its per-layer neighbour lists, and its top
/// layer.
#[derive(Debug)]
struct HnswNode {
    vector: Vector,
    neighbors: Vec<Vec<usize>>,
    level: usize,
}

/// The neighbour lists of a node, as sequences.
spec fn node_layers(n: HnswNode) -> Seq<Seq<usize>> {
    n.neighbors@.map_values(|l: Vec<usize>| l@)
}

/// Whether an id list holds no duplicates.
pub open spec fn list_distinct(s: Seq<usize>) -> bool {
    forall|a: int, b: int| 0 <= a < b < s.len() ==> (#[trigger] s[a]) != (#[trigger] s[b])
}

/// The liveness mask of the slot table.
spec fn node_mask(s: Seq<Option<HnswNode>>) -> Seq<bool> {
    s.map_values(|o: Option<HnswNode>| o is Some)
}

/// The id-to-vector map the slot table represents.
spec fn node_map(s: Seq<Option<HnswNode>>) -> Map<usize, Seq<u32>> {
    Map::new(
        |i: usize| i < s.len() && s[i as int] is Some,
        |i: usize| (s[i as int]->0).vector@,
    )
}

/// The graph.
#[derive(Debug)]
pub struct HnswGraph<D: DistanceKernel> {
    nodes: Vec<Option<HnswNode>>,
    entry_point: Option<usize>,
    max_level: usize,
    params: HnswParams,
    metric: DistanceMetric,
    kernel: D,
    rng: rand::rngs::StdRng,
    count: usize,
}

impl<D: DistanceKernel> HnswGraph<D> {
    /// One node's structural soundness within a table of length `n`.
    spec fn node_wf(node: HnswNode, n: int, params: HnswParams) -> bool {
        &&& node.level < params.max_layers
        &&& node_layers(node).len() == node.level + 1
        &&& forall|l: int, k: int|
            0 <= l < node_layers(node).len() && 0 <= k < node_layers(node)[l].len()
                ==> (#[trigger] node_layers(node)[l][k]) < n
        &&& forall|l: int|
            0 <= l < node_layers(node).len() ==> (#[trigger] node_layers(node)[l]).len() <= (if l
                == 0 {
                params.m_max0 as int
            } else {
                params.m as int
            })
        &&& forall|l: int|
            0 <= l < node_layers(node).len() ==> list_distinct(#[trigger] node_layers(node)[l])
    }

    /// The graph's structural invariant.
    pub closed spec fn wf(&self) -> bool {
        &&& self.nodes@.len() <= usize::MAX
        &&& self.params.wf()
        &&& self.count == live_count(node_mask(self.nodes@))
        &&& forall|i: int|
            0 <= i < self.nodes@.len() && self.nodes@[i] is Some ==> Self::node_wf(
                (#[trigger] self.nodes@[i])->0,
                self.nodes@.len() as int,
                self.params,
            )
        &&& self.max_level < self.params.max_layers
        &&& forall|i: int|
            0 <= i < self.nodes@.len() && self.nodes@[i] is Some ==> ((#[trigger] self.nodes@[i])->0).level
                <= self.max_level
        &&& match self.entry_point {
            None => self.count == 0,
            Some(ep) => {
                &&& (ep as int) < self.nodes@.len()
                &&& self.nodes@[ep as int] is Some
                &&& (self.nodes@[ep as int]->0).level == self.max_level
            },
        }
    }

    /// The vectors held, by internal id.
    pub closed spec fn id_map(&self) -> Map<usize, Seq<u32>> {
        node_map(self.nodes@)
    }

    /// The metric label.
    pub closed spec fn metric_of(&self) -> DistanceMetric {
        self.metric
    }

    /// The parameters the graph was built with.
    pub closed spec fn params_of(&self) -> HnswParams {
        self.params
    }

    /// Create an empty graph seeded from system entropy.
    pub fn new(metric: DistanceMetric, params: HnswParams, kernel: D) -> (r: HnswGraph<D>)
        requires
            params.wf(),
        ensures
            r.wf(),
            r.id_map() == Map::<usize, Seq<u32>>::empty(),
            r.metric_of() == metric,
            r.params_of() == params,
    {
        let r = HnswGraph {
            nodes: Vec::new(),
            entry_point: None,
            max_level: 0,
            params,
            metric,
            kernel,
            rng: rng_from_entropy(),
            count: 0,
        };
        proof {
            assert(r.id_map() =~= Map::<usize, Seq<u32>>::empty());
        }
        r
    }

    /// Create an empty graph with a deterministic seed, for
    /// reproducible layer assignment.
    pub fn with_seed(metric: DistanceMetric, params: HnswParams, kernel: D, seed: u64) -> (r:
        HnswGraph<D>)
        requires
            params.wf(),
        ensures
            r.wf(),
            r.id_map() == Map::<usize, Seq<u32>>::empty(),
            r.metric_of() == metric,
            r.params_of() == params,
    {
        let r = HnswGraph {
            nodes: Vec::new(),
            entry_point: None,
            max_level: 0,
            params,
            metric,
            kernel,
            rng: rng_from_seed(seed),
            count: 0,
        };
        proof {
            assert(r.id_map() =~= Map::<usize, Seq<u32>>::empty());
        }
        r
    }

    /// The number of live nodes.
    pub fn len(&self) -> (r: usize)
        requires
            self.wf(),
        ensures
            r == self.id_map().dom().len(),
    {
        proof {
            lemma_live_set_count(node_mask(self.nodes@));
            assert(self.id_map().dom() =~= live_set(node_mask(self.nodes@)));
        }
        self.count
    }

    /// Whether the graph is empty.
    pub fn is_empty(&self) -> (r: bool)
        requires
            self.wf(),
        ensures
            r == (self.id_map().dom().len() == 0),
    {
        proof {
            lemma_live_set_count(node_mask(self.nodes@));
            assert(self.id_map().dom() =~= live_set(node_mask(self.nodes@)));
        }
        self.count == 0
    }

    /// The metric label.
    pub fn metric(&self) -> (r: DistanceMetric)
        ensures
            r == self.metric_of(),
    {
        self.metric
    }

    /// The current entry point, as a specification value.
    pub closed spec fn ep_of(&self) -> Option<usize> {
        self.entry_point
    }

    /// Whether an internal id names a live node.
    pub closed spec fn is_live(&self, id: usize) -> bool {
        (id as int) < self.nodes@.len() && self.nodes@[id as int] is Some
    }

    /// The number of layers a live node occupies.
    pub closed spec fn layer_count_of(&self, id: usize) -> int {
        node_layers(self.nodes@[id as int]->0).len() as int
    }

    /// A live node's neighbour list at a layer.
    pub closed spec fn neighbors_of(&self, id: usize, layer: int) -> Seq<usize> {
        node_layers(self.nodes@[id as int]->0)[layer]
    }

    /// The top layer of a live node.
    pub closed spec fn level_of(&self, id: usize) -> int {
        (self.nodes@[id as int]->0).level as int
    }

    /// The current entry point: a live node at the top layer, present
    /// exactly when the graph is non-empty.
    pub fn entry_point(&self) -> (r: Option<usize>)
        requires
            self.wf(),
        ensures
            r == self.ep_of(),
            r is Some <==> self.id_map().dom().len() > 0,
            r matches Some(ep) ==> self.id_map().dom().contains(ep),
    {
        proof {
            lemma_live_set_count(node_mask(self.nodes@));
            assert(self.id_map().dom() =~= live_set(node_mask(self.nodes@)));
        }
        match self.entry_point {
            None => None,
            Some(ep) => {
                proof {
                    lemma_live_count_pos(node_mask(self.nodes@), ep as int);
                }
                Some(ep)
            },
        }
    }

    /// The vector stored under an internal id.
    pub fn get_vector(&self, id: usize) -> (r: Option<&Vector>)
        requires
            self.wf(),
        ensures
            match r {
                Some(v) => self.id_map().dom().contains(id) && v@ == self.id_map()[id],
                None => !self.id_map().dom().contains(id),
            },
    {
        if id < self.nodes.len() {
            match &self.nodes[id] {
                Some(n) => Some(&n.vector),
                None => None,
            }
        } else {
            None
        }
    }
}

/// Draw a layer for a new node: each extra layer comes with
/// probability `1/m`, clamped below the layer ceiling.  This is the
/// geometric distribution the usual `floor(-ln(u) / ln(m))` draw
/// produces.
fn random_level(rng: &mut rand::rngs::StdRng, m: usize, max_layers: usize) -> (level: usize)
    requires
        2 <= m,
        1 <= max_layers,
    ensures
        level < max_layers,
{
    let mut level: usize = 0;
    let modulus = m as u64;
    while level < max_layers - 1 && next_random(rng) % modulus == 0
        invariant
            level < max_layers,
            modulus == m as u64,
            2 <= m,
        decreases max_layers - 1 - level,
    {
        level = level + 1;
    }
    level
}


/// Whether every queued neighbour is a live node marked visited.
spec fn qok(nodes: Seq<Option<HnswNode>>, visited: Seq<bool>, q: Seq<Neighbor>) -> bool {
    forall|a: int|
        0 <= a < q.len() ==> {
            &&& ((#[trigger] q[a]).id as int) < nodes.len()
            &&& nodes[q[a].id as int] is Some
            &&& visited[q[a].id as int]
        }
}

/// Whether no id repeats in a neighbour sequence.
pub open spec fn ids_distinct(q: Seq<Neighbor>) -> bool {
    forall|a: int, b: int| 0 <= a < b < q.len() ==> (#[trigger] q[a]).id != (#[trigger] q[b]).id
}

/// Pushing a fresh, live, visited neighbour into a queue (with or
/// without trimming the furthest) keeps the queue sound and its ids
/// distinct.
proof fn lemma_queue_push(
    nodes: Seq<Option<HnswNode>>,
    visited: Seq<bool>,
    q0: Seq<Neighbor>,
    q1: Seq<Neighbor>,
    pos: int,
    nb: Neighbor,
)
    requires
        0 <= pos <= q0.len(),
        q1 == q0.insert(pos, nb) || q1 == q0.insert(pos, nb).drop_last(),
        qok(nodes, visited, q0),
        ids_distinct(q0),
        (nb.id as int) < nodes.len(),
        nodes[nb.id as int] is Some,
        visited[nb.id as int],
        forall|a: int| 0 <= a < q0.len() ==> (#[trigger] q0[a]).id != nb.id,
    ensures
        qok(nodes, visited, q1),
        ids_distinct(q1),
{
    let mid = q0.insert(pos, nb);
    assert forall|a: int|
        0 <= a < mid.len() implies {
        &&& ((#[trigger] mid[a]).id as int) < nodes.len()
        &&& nodes[mid[a].id as int] is Some
        &&& visited[mid[a].id as int]
    } by {
        lemma_insert_membership(q0, pos, nb, a);
    }
    assert forall|a: int, b: int|
        0 <= a < b < mid.len() implies (#[trigger] mid[a]).id != (#[trigger] mid[b]).id by {
        if a < pos {
            assert(mid[a] == q0[a]);
        } else if a == pos {
            assert(mid[a] == nb);
        } else {
            assert(mid[a] == q0[a - 1]);
        }
        if b < pos {
            assert(mid[b] == q0[b]);
        } else if b == pos {
            assert(mid[b] == nb);
        } else {
            assert(mid[b] == q0[b - 1]);
        }
    }
    if q1 != mid {
        assert(q1 == mid.drop_last());
        assert forall|a: int|
            0 <= a < q1.len() implies {
            &&& ((#[trigger] q1[a]).id as int) < nodes.len()
            &&& nodes[q1[a].id as int] is Some
            &&& visited[q1[a].id as int]
        } by {
            assert(q1[a] == mid[a]);
        }
        assert forall|a: int, b: int|
            0 <= a < b < q1.len() implies (#[trigger] q1[a]).id != (#[trigger] q1[b]).id by {
            assert(q1[a] == mid[a] && q1[b] == mid[b]);
        }
    }
}

impl<D: DistanceKernel> HnswGraph<D> {
    /// The distance key from the query to a live node.
    fn dist_to(&self, query: &Vector, node_id: usize) -> (r: Result<u64, VectorDbError>)
        requires
            self.wf(),
            (node_id as int) < self.nodes@.len(),
            self.nodes@[node_id as int] is Some,
    {
        match &self.nodes[node_id] {
            Some(n) => self.kernel.dist(query, &n.vector),
            None => Err(VectorDbError::IndexError("node not found".to_owned())),
        }
    }

    /// Search one layer for the `ef` neighbours closest to `query`,
    /// starting from the given entry points.
    ///
    /// Keeps a min-queue of candidates and a max-queue of results,
    /// both seeded with the entry points; stops when the closest
    /// candidate is further than the furthest kept result.  The
    /// results come back sorted ascending: at most `ef` distinct live
    /// ids, non-empty whenever an entry point was given.
    #[verifier::loop_isolation(false)]
    #[verifier::rlimit(100)]
    fn search_layer(&self, query: &Vector, ep: &Vec<usize>, ef: usize, layer: usize) -> (r: Result<
        Vec<Neighbor>,
        VectorDbError,
    >)
        requires
            self.wf(),
            1 <= ef,
            forall|i: int|
                0 <= i < ep@.len() ==> ((#[trigger] ep@[i]) as int) < self.nodes@.len()
                    && self.nodes@[ep@[i] as int] is Some,
        ensures
            ep@.len() == 0 ==> r is Ok,
            r matches Ok(rs) ==> {
                &&& rs@.len() <= ef
                &&& nq_sorted(rs@)
                &&& ids_distinct(rs@)
                &&& forall|a: int|
                    0 <= a < rs@.len() ==> ((#[trigger] rs@[a]).id as int) < self.nodes@.len()
                        && self.nodes@[rs@[a].id as int] is Some
                &&& ep@.len() > 0 ==> rs@.len() >= 1
            },
    {
        let n = self.nodes.len();
        let mut visited: Vec<bool> = Vec::new();
        let mut vi: usize = 0;
        while vi < n
            invariant
                vi <= n,
                visited@.len() == vi,
                forall|a: int| 0 <= a < vi ==> !(#[trigger] visited@[a]),
            decreases n - vi,
        {
            visited.push(false);
            vi = vi + 1;
        }
        let mut candidates = MinHeap::new();
        let mut results = MaxHeap::new();
        let mut i: usize = 0;
        while i < ep.len()
            invariant
                i <= ep@.len(),
                visited@.len() == n,
                candidates.wf(),
                results.wf(),
                qok(self.nodes@, visited@, candidates@),
                qok(self.nodes@, visited@, results@),
                ids_distinct(candidates@),
                ids_distinct(results@),
                results@.len() <= ef,
                i == 0 ==> forall|a: int| 0 <= a < n ==> !(#[trigger] visited@[a]),
                i > 0 ==> results@.len() >= 1,
                ep@.len() == 0 ==> candidates@.len() == 0,
            decreases ep@.len() - i,
        {
            let id = ep[i];
            if !visited[id] {
                let d = match self.dist_to(query, id) {
                    Ok(d) => d,
                    Err(e) => {
                        return Err(e);
                    },
                };
                let ghost v0 = visited@;
                visited.set(id, true);
                let nb = Neighbor::new(id, d);
                proof {
                    assert forall|a: int|
                        0 <= a < candidates@.len() implies (#[trigger] candidates@[a]).id != id by {
                        assert(v0[candidates@[a].id as int]);
                    }
                    assert forall|a: int|
                        0 <= a < results@.len() implies (#[trigger] results@[a]).id != id by {
                        assert(v0[results@[a].id as int]);
                    }
                }
                let ghost c0 = candidates@;
                candidates.push(nb);
                proof {
                    let pos = choose|pos: int|
                        0 <= pos <= c0.len() && candidates@ == c0.insert(pos, nb);
                    lemma_queue_push(self.nodes@, visited@, c0, candidates@, pos, nb);
                }
                let ghost r0 = results@;
                results.push_bounded(nb, ef);
                proof {
                    let pos = choose|pos: int|
                        0 <= pos <= r0.len() && results@ == if r0.len() + 1 > ef {
                            r0.insert(pos, nb).drop_last()
                        } else {
                            r0.insert(pos, nb)
                        };
                    lemma_queue_push(self.nodes@, visited@, r0, results@, pos, nb);
                }
            } else {
                proof {
                    if i == 0 {
                        assert(false);
                    }
                }
            }
            i = i + 1;
        }
        proof {
            lemma_live_count_bound(visited@);
        }
        let mut done = false;
        while !done && candidates.len() > 0
            invariant
                visited@.len() == n,
                candidates.wf(),
                results.wf(),
                qok(self.nodes@, visited@, candidates@),
                qok(self.nodes@, visited@, results@),
                ids_distinct(candidates@),
                ids_distinct(results@),
                results@.len() <= ef,
                ep@.len() > 0 ==> results@.len() >= 1,
                ep@.len() == 0 ==> candidates@.len() == 0,
                live_count(visited@) <= visited@.len(),
            decreases 2 * (visited@.len() - live_count(visited@)) + candidates@.len() + (if done {
                0int
            } else {
                1int
            }),
        {
            let ghost m_head = 2 * (visited@.len() - live_count(visited@)) + candidates@.len();
            let c = match candidates.pop() {
                Some(c) => c,
                None => {
                    return Err(VectorDbError::IndexError("empty candidate queue".to_owned()));
                },
            };
            let furthest_dist: u64 = match results.peek() {
                Some(nb) => nb.distance,
                None => u64::MAX,
            };
            if c.distance > furthest_dist {
                done = true;
            } else {
                match &self.nodes[c.id] {
                    Some(node) => {
                        if layer < node.neighbors.len() {
                            let mut j: usize = 0;
                            while j < node.neighbors[layer].len()
                                invariant
                                    visited@.len() == n,
                                    candidates.wf(),
                                    results.wf(),
                                    qok(self.nodes@, visited@, candidates@),
                                    qok(self.nodes@, visited@, results@),
                                    ids_distinct(candidates@),
                                    ids_distinct(results@),
                                    results@.len() <= ef,
                                    ep@.len() > 0 ==> results@.len() >= 1,
                                    live_count(visited@) <= visited@.len(),
                                    2 * (visited@.len() - live_count(visited@)) + candidates@.len()
                                        <= m_head - 1,
                                decreases node.neighbors@[layer as int]@.len() - j,
                            {
                                let nid = node.neighbors[layer][j];
                                proof {
                                    assert(Self::node_wf(
                                        self.nodes@[c.id as int]->0,
                                        self.nodes@.len() as int,
                                        self.params,
                                    ));
                                    assert(node_layers(self.nodes@[c.id as int]->0)[layer as int][j as int]
                                        == nid);
                                }
                                if !visited[nid] {
                                    let ghost v0 = visited@;
                                    visited.set(nid, true);
                                    proof {
                                        lemma_live_count_update(v0, nid as int, true);
                                        lemma_live_count_bound(visited@);
                                        assert forall|a: int|
                                            0 <= a < candidates@.len() implies (
                                        #[trigger] candidates@[a]).id != nid by {
                                            assert(v0[candidates@[a].id as int]);
                                        }
                                        assert forall|a: int|
                                            0 <= a < results@.len() implies (
                                        #[trigger] results@[a]).id != nid by {
                                            assert(v0[results@[a].id as int]);
                                        }
                                    }
                                    let mut nid_live = false;
                                    match &self.nodes[nid] {
                                        Some(_) => {
                                            nid_live = true;
                                        },
                                        None => {},
                                    }
                                    if nid_live {
                                        let d = match self.dist_to(query, nid) {
                                            Ok(d) => d,
                                            Err(e) => {
                                                return Err(e);
                                            },
                                        };
                                        let further: u64 = match results.peek() {
                                            Some(nb) => nb.distance,
                                            None => u64::MAX,
                                        };
                                        if d < further || results.len() < ef {
                                            let nb = Neighbor::new(nid, d);
                                            let ghost c0 = candidates@;
                                            candidates.push(nb);
                                            proof {
                                                let pos = choose|pos: int|
                                                    0 <= pos <= c0.len() && candidates@
                                                        == c0.insert(pos, nb);
                                                lemma_queue_push(
                                                    self.nodes@,
                                                    visited@,
                                                    c0,
                                                    candidates@,
                                                    pos,
                                                    nb,
                                                );
                                            }
                                            let ghost r0 = results@;
                                            results.push_bounded(nb, ef);
                                            proof {
                                                let pos = choose|pos: int|
                                                    0 <= pos <= r0.len() && results@ == if r0.len()
                                                        + 1 > ef {
                                                        r0.insert(pos, nb).drop_last()
                                                    } else {
                                                        r0.insert(pos, nb)
                                                    };
                                                lemma_queue_push(
                                                    self.nodes@,
                                                    visited@,
                                                    r0,
                                                    results@,
                                                    pos,
                                                    nb,
                                                );
                                            }
                                        }
                                    }
                                }
                                j = j + 1;
                            }
                        }
                    },
                    None => {},
                }
            }
        }
        let sorted = results.into_sorted_vec();
        Ok(sorted)
    }
}


/// Copy an id list.
fn copy_usizes(v: &Vec<usize>) -> (r: Vec<usize>)
    ensures
        r@ == v@,
{
    let mut r: Vec<usize> = Vec::new();
    let mut i: usize = 0;
    while i < v.len()
        invariant
            i <= v@.len(),
            r@ == v@.subrange(0, i as int),
        decreases v@.len() - i,
    {
        r.push(v[i]);
        proof {
            assert(r@ =~= v@.subrange(0, i + 1 as int));
        }
        i = i + 1;
    }
    proof {
        assert(r@ =~= v@);
    }
    r
}

impl<D: DistanceKernel> HnswGraph<D> {
    /// Replace one neighbour list of a live node, leaving everything
    /// else — vectors, liveness, levels, the entry point — unchanged.
    #[verifier::loop_isolation(false)]
    fn set_layer_list(&mut self, node_id: usize, layer: usize, list: Vec<usize>)
        requires
            old(self).wf(),
            (node_id as int) < old(self).nodes@.len(),
            old(self).nodes@[node_id as int] is Some,
            (layer as int) < node_layers(old(self).nodes@[node_id as int]->0).len(),
            forall|k: int| 0 <= k < list@.len() ==> (#[trigger] list@[k]) < old(self).nodes@.len(),
            list@.len() <= (if layer == 0 {
                old(self).params.m_max0 as int
            } else {
                old(self).params.m as int
            }),
            list_distinct(list@),
        ensures
            final(self).wf(),
            final(self).id_map() == old(self).id_map(),
            final(self).metric_of() == old(self).metric_of(),
            final(self).params_of() == old(self).params_of(),
            final(self).nodes@.len() == old(self).nodes@.len(),
            final(self).count == old(self).count,
            final(self).entry_point == old(self).entry_point,
            final(self).max_level == old(self).max_level,
            forall|i: int|
                0 <= i < old(self).nodes@.len() ==> ((#[trigger] final(self).nodes@[i]) is Some
                    <==> old(self).nodes@[i] is Some),
            forall|i: int|
                0 <= i < old(self).nodes@.len() && old(self).nodes@[i] is Some ==> ((
                #[trigger] final(self).nodes@[i])->0).level == (old(self).nodes@[i]->0).level,
            final(self).neighbors_of(node_id, layer as int) == list@,
            forall|i: usize, l: int|
                old(self).is_live(i) && 0 <= l < old(self).layer_count_of(i) && !(i == node_id
                    && l == layer as int) ==> #[trigger] final(self).neighbors_of(i, l) == old(
                    self,
                ).neighbors_of(i, l),
    {
        let level: usize;
        let vector: Vector;
        let layer_count: usize;
        match &self.nodes[node_id] {
            Some(node) => {
                level = node.level;
                vector = node.vector.duplicate();
                layer_count = node.neighbors.len();
            },
            None => {
                proof {
                    assert(false);
                }
                return ;
            },
        }
        let mut new_layers: Vec<Vec<usize>> = Vec::new();
        let mut l: usize = 0;
        while l < layer_count
            invariant
                l <= layer_count,
                layer_count == node_layers(old(self).nodes@[node_id as int]->0).len(),
                self == old(self),
                new_layers@.len() == l,
                forall|a: int|
                    0 <= a < l ==> (#[trigger] new_layers@[a])@ == node_layers(
                        old(self).nodes@[node_id as int]->0,
                    )[a],
            decreases layer_count - l,
        {
            match &self.nodes[node_id] {
                Some(node) => {
                    new_layers.push(copy_usizes(&node.neighbors[l]));
                },
                None => {
                    proof {
                        assert(false);
                    }
                },
            }
            l = l + 1;
        }
        new_layers.set(layer, list);
        let new_node = HnswNode { vector, neighbors: new_layers, level };
        let ghost pre = self.nodes@;
        self.nodes.set(node_id, Some(new_node));
        proof {
            let post = self.nodes@;
            assert(node_mask(post) =~= node_mask(pre));
            assert(self.id_map() =~= old(self).id_map());
            let nn = post[node_id as int]->0;
            assert(Self::node_wf(nn, post.len() as int, self.params)) by {
                let onode = pre[node_id as int]->0;
                assert(Self::node_wf(onode, pre.len() as int, self.params));
                assert forall|a: int, k: int|
                    0 <= a < node_layers(nn).len() && 0 <= k < node_layers(nn)[a].len()
                        implies (#[trigger] node_layers(nn)[a][k]) < post.len() by {
                    if a != layer {
                        assert(node_layers(nn)[a] == node_layers(onode)[a]);
                    } else {
                        assert(node_layers(nn)[a] == list@);
                    }
                }
                assert forall|a: int|
                    0 <= a < node_layers(nn).len() implies (#[trigger] node_layers(nn)[a]).len()
                    <= (if a == 0 {
                    self.params.m_max0 as int
                } else {
                    self.params.m as int
                }) by {
                    if a != layer {
                        assert(node_layers(nn)[a] == node_layers(onode)[a]);
                    } else {
                        assert(node_layers(nn)[a] == list@);
                    }
                }
                assert forall|a: int|
                    0 <= a < node_layers(nn).len() implies list_distinct(
                    #[trigger] node_layers(nn)[a],
                ) by {
                    if a != layer {
                        assert(node_layers(nn)[a] == node_layers(onode)[a]);
                    } else {
                        assert(node_layers(nn)[a] == list@);
                    }
                }
            }
        }
    }

    /// The ids of the up-to-`cap` closest among `ids`, judged by
    /// distance to `own`; dead slots and failed kernels sort last.
    #[verifier::loop_isolation(false)]
    fn prune_list(&self, own: &Vector, ids: &Vec<usize>, cap: usize) -> (r: Vec<usize>)
        requires
            self.wf(),
            cap >= 1,
            forall|k: int| 0 <= k < ids@.len() ==> (#[trigger] ids@[k]) < self.nodes@.len(),
            list_distinct(ids@),
        ensures
            r@.len() <= cap,
            forall|k: int| 0 <= k < r@.len() ==> (#[trigger] r@[k]) < self.nodes@.len(),
            list_distinct(r@),
    {
        let mut heap = MaxHeap::new();
        let mut i: usize = 0;
        while i < ids.len()
            invariant
                i <= ids@.len(),
                heap.wf(),
                heap@.len() <= cap,
                forall|a: int| 0 <= a < heap@.len() ==> ((#[trigger] heap@[a]).id as int) < self.nodes@.len(),
                forall|a: int|
                    0 <= a < heap@.len() ==> exists|j: int|
                        0 <= j < i && (#[trigger] heap@[a]).id == ids@[j],
                forall|a: int, b: int|
                    0 <= a < b < heap@.len() ==> (#[trigger] heap@[a]).id != (#[trigger] heap@[b]).id,
            decreases ids@.len() - i,
        {
            let nid = ids[i];
            let mut live = false;
            match &self.nodes[nid] {
                Some(_) => {
                    live = true;
                },
                None => {},
            }
            if live {
                let d = match self.dist_to(own, nid) {
                    Ok(d) => d,
                    Err(_) => u64::MAX,
                };
                let nb = Neighbor::new(nid, d);
                let ghost h0 = heap@;
                heap.push_bounded(nb, cap);
                proof {
                    let pos = choose|pos: int|
                        0 <= pos <= h0.len() && heap@ == if h0.len() + 1 > cap {
                            h0.insert(pos, nb).drop_last()
                        } else {
                            h0.insert(pos, nb)
                        };
                    let mid = h0.insert(pos, nb);
                    assert forall|a: int|
                        0 <= a < mid.len() implies ((#[trigger] mid[a]).id as int)
                        < self.nodes@.len() by {
                        lemma_insert_membership(h0, pos, nb, a);
                    }
                    assert forall|a: int|
                        0 <= a < mid.len() implies exists|j: int|
                        0 <= j < i + 1 && (#[trigger] mid[a]).id == ids@[j] by {
                        if a < pos {
                            assert(mid[a] == h0[a]);
                        } else if a == pos {
                            assert(mid[a].id == ids@[i as int]);
                        } else {
                            assert(mid[a] == h0[a - 1]);
                        }
                    }
                    assert forall|a: int| 0 <= a < h0.len() implies (#[trigger] h0[a]).id != nb.id
                        by {
                        let j = choose|j: int| 0 <= j < i && (#[trigger] h0[a]).id == ids@[j];
                        assert(ids@[j] != ids@[i as int]);
                    }
                    assert forall|a: int, b: int|
                        0 <= a < b < mid.len() implies (#[trigger] mid[a]).id
                        != (#[trigger] mid[b]).id by {
                        if a < pos {
                            assert(mid[a] == h0[a]);
                        } else if a == pos {
                            assert(mid[a] == nb);
                        } else {
                            assert(mid[a] == h0[a - 1]);
                        }
                        if b < pos {
                            assert(mid[b] == h0[b]);
                        } else if b == pos {
                            assert(mid[b] == nb);
                        } else {
                            assert(mid[b] == h0[b - 1]);
                        }
                    }
                    assert forall|a: int|
                        0 <= a < heap@.len() implies ((#[trigger] heap@[a]).id as int)
                        < self.nodes@.len() && (exists|j: int|
                            0 <= j < i + 1 && heap@[a].id == ids@[j]) by {
                        assert(heap@[a] == mid[a]);
                    }
                    assert forall|a: int, b: int|
                        0 <= a < b < heap@.len() implies (#[trigger] heap@[a]).id
                        != (#[trigger] heap@[b]).id by {
                        assert(heap@[a] == mid[a] && heap@[b] == mid[b]);
                    }
                }
            }
            i = i + 1;
        }
        let sorted = heap.into_sorted_vec();
        let mut r: Vec<usize> = Vec::new();
        let mut j: usize = 0;
        while j < sorted.len()
            invariant
                j <= sorted@.len(),
                r@.len() == j,
                forall|a: int| 0 <= a < j ==> (#[trigger] r@[a]) == sorted@[a].id,
            decreases sorted@.len() - j,
        {
            r.push(sorted[j].id);
            j = j + 1;
        }
        proof {
            assert(list_distinct(r@));
        }
        r
    }

    /// Prune a node's neighbour list at a layer to at most `m`
    /// entries, keeping the closest by distance to the node's own
    /// vector.
    fn prune_neighbors(&mut self, node_id: usize, layer: usize, m: usize)
        requires
            old(self).wf(),
            m == (if layer == 0 {
                old(self).params_of().m_max0
            } else {
                old(self).params_of().m
            }),
        ensures
            final(self).wf(),
            final(self).id_map() == old(self).id_map(),
            final(self).metric_of() == old(self).metric_of(),
            final(self).params_of() == old(self).params_of(),
            final(self).nodes@.len() == old(self).nodes@.len(),
            final(self).count == old(self).count,
            final(self).entry_point == old(self).entry_point,
            final(self).max_level == old(self).max_level,
            forall|i: int|
                0 <= i < old(self).nodes@.len() ==> ((#[trigger] final(self).nodes@[i]) is Some
                    <==> old(self).nodes@[i] is Some),
            forall|i: int|
                0 <= i < old(self).nodes@.len() && old(self).nodes@[i] is Some ==> ((
                #[trigger] final(self).nodes@[i])->0).level == (old(self).nodes@[i]->0).level,
    {
        if node_id >= self.nodes.len() {
            return ;
        }
        let own: Vector;
        let ids: Vec<usize>;
        match &self.nodes[node_id] {
            Some(node) => {
                if layer >= node.neighbors.len() {
                    return ;
                }
                own = node.vector.duplicate();
                ids = copy_usizes(&node.neighbors[layer]);
            },
            None => {
                return ;
            },
        }
        proof {
            assert(Self::node_wf(
                self.nodes@[node_id as int]->0,
                self.nodes@.len() as int,
                self.params,
            ));
            assert forall|k: int|
                0 <= k < ids@.len() implies (#[trigger] ids@[k]) < self.nodes@.len() by {
                assert(node_layers(self.nodes@[node_id as int]->0)[layer as int][k] == ids@[k]);
            }
            assert(list_distinct(ids@)) by {
                assert(node_layers(self.nodes@[node_id as int]->0)[layer as int] == ids@);
            }
        }
        let pruned = self.prune_list(&own, &ids, m);
        self.set_layer_list(node_id, layer, pruned);
    }
}


impl<D: DistanceKernel> HnswGraph<D> {
    /// Append `new_id` to a node's neighbour list at a layer, pruning
    /// to the layer's cap if the list overflows.  Dead targets and
    /// layers the target does not occupy are skipped.
    fn relink(&mut self, nid: usize, layer: usize, new_id: usize)
        requires
            old(self).wf(),
            (nid as int) < old(self).nodes@.len(),
            (new_id as int) < old(self).nodes@.len(),
        ensures
            final(self).wf(),
            final(self).id_map() == old(self).id_map(),
            final(self).metric_of() == old(self).metric_of(),
            final(self).params_of() == old(self).params_of(),
            final(self).nodes@.len() == old(self).nodes@.len(),
            final(self).count == old(self).count,
            final(self).entry_point == old(self).entry_point,
            final(self).max_level == old(self).max_level,
            forall|i: int|
                0 <= i < old(self).nodes@.len() ==> ((#[trigger] final(self).nodes@[i]) is Some
                    <==> old(self).nodes@[i] is Some),
            forall|i: int|
                0 <= i < old(self).nodes@.len() && old(self).nodes@[i] is Some ==> ((
                #[trigger] final(self).nodes@[i])->0).level == (old(self).nodes@[i]->0).level,
    {
        let own: Vector;
        let mut list: Vec<usize>;
        match &self.nodes[nid] {
            Some(node) => {
                if layer >= node.neighbors.len() {
                    return ;
                }
                own = node.vector.duplicate();
                list = copy_usizes(&node.neighbors[layer]);
            },
            None => {
                return ;
            },
        }
        proof {
            assert(Self::node_wf(
                self.nodes@[nid as int]->0,
                self.nodes@.len() as int,
                self.params,
            ));
            assert forall|k: int|
                0 <= k < list@.len() implies (#[trigger] list@[k]) < self.nodes@.len() by {
                assert(node_layers(self.nodes@[nid as int]->0)[layer as int][k] == list@[k]);
            }
            assert(list_distinct(list@)) by {
                assert(node_layers(self.nodes@[nid as int]->0)[layer as int] == list@);
            }
        }
        // A stale back-reference may already name the id (internal
        // ids can be reused when the graph is driven directly); the
        // list holds each neighbour once.
        let mut present = false;
        let mut ci: usize = 0;
        while ci < list.len()
            invariant
                ci <= list@.len(),
                !present ==> forall|j: int| 0 <= j < ci ==> (#[trigger] list@[j]) != new_id,
            decreases list@.len() - ci,
        {
            if list[ci] == new_id {
                present = true;
            }
            ci = ci + 1;
        }
        if present {
            return ;
        }
        let cap = if layer == 0 {
            self.params.m_max0
        } else {
            self.params.m
        };
        let ghost list0 = list@;
        list.push(new_id);
        proof {
            assert forall|a: int, b: int|
                0 <= a < b < list@.len() implies (#[trigger] list@[a]) != (#[trigger] list@[b])
                by {
                if b < list0.len() {
                    assert(list@[a] == list0[a] && list@[b] == list0[b]);
                } else {
                    assert(list@[b] == new_id);
                    assert(list@[a] == list0[a]);
                }
            }
        }
        if list.len() <= cap {
            self.set_layer_list(nid, layer, list);
        } else {
            let pruned = self.prune_list(&own, &list, cap);
            self.set_layer_list(nid, layer, pruned);
        }
    }

    /// Insert a vector under a fresh internal id.
    ///
    /// The slot table grows as needed; the layer is drawn first; the
    /// per-layer searches all run before the graph is linked, so a
    /// failed insert leaves the graph's contents unchanged (only the
    /// random draw is spent).
    #[verifier::loop_isolation(false)]
    #[verifier::rlimit(100)]
    pub fn insert(&mut self, id: usize, vector: Vector) -> (r: Result<(), VectorDbError>)
        requires
            old(self).wf(),
            !old(self).id_map().dom().contains(id),
        ensures
            final(self).wf(),
            final(self).metric_of() == old(self).metric_of(),
            final(self).params_of() == old(self).params_of(),
            r is Ok ==> final(self).id_map() == old(self).id_map().insert(id, vector@),
            r is Err ==> final(self).id_map() == old(self).id_map(),
            id == usize::MAX ==> (r matches Err(e) && e is IndexError),
            old(self).id_map().dom().len() == 0 && id != usize::MAX ==> r is Ok,
    {
        if id == usize::MAX {
            return Err(VectorDbError::IndexError("internal id out of range".to_owned()));
        }
        let level = random_level(&mut self.rng, self.params.m, self.params.max_layers);
        // Grow the slot table to cover the new id.
        while self.nodes.len() <= id
            invariant
                old(self).nodes@.len() <= self.nodes@.len(),
                self.nodes@.len() <= id + 1 || self.nodes@ == old(self).nodes@,
                self.nodes@.subrange(0, old(self).nodes@.len() as int) == old(self).nodes@,
                forall|j: int|
                    old(self).nodes@.len() <= j < self.nodes@.len() ==> (#[trigger] self.nodes@[j])
                        is None,
                self.id_map() == old(self).id_map(),
                live_count(node_mask(self.nodes@)) == live_count(node_mask(old(self).nodes@)),
                self.count == old(self).count,
                self.entry_point == old(self).entry_point,
                self.max_level == old(self).max_level,
                self.params == old(self).params,
                self.metric == old(self).metric,
                self.wf(),
            decreases id + 1 - self.nodes@.len(),
        {
            let ghost pre = self.nodes@;
            self.nodes.push(None);
            proof {
                assert(node_mask(self.nodes@) =~= node_mask(pre).push(false));
                lemma_live_count_push_false(node_mask(pre));
                assert(self.nodes@.subrange(0, old(self).nodes@.len() as int) =~= old(
                    self,
                ).nodes@.subrange(0, old(self).nodes@.len() as int));
                assert(self.id_map() =~= old(self).id_map());
                assert forall|i: int|
                    0 <= i < self.nodes@.len() && self.nodes@[i] is Some implies Self::node_wf(
                    (#[trigger] self.nodes@[i])->0,
                    self.nodes@.len() as int,
                    self.params,
                ) by {
                    assert(self.nodes@[i] == pre[i]);
                    assert(Self::node_wf(pre[i]->0, pre.len() as int, self.params));
                }
            }
        }
        proof {
            assert(self.nodes@[id as int] is None) by {
                if (id as int) < old(self).nodes@.len() {
                    assert(self.nodes@[id as int] == old(self).nodes@[id as int]);
                    assert(!old(self).id_map().dom().contains(id));
                }
            }
        }
        let mut is_first = false;
        match self.entry_point {
            None => {
                is_first = true;
            },
            Some(ep_seen) => {
                proof {
                    lemma_live_set_count(node_mask(self.nodes@));
                    assert(self.id_map().dom() =~= live_set(node_mask(self.nodes@)));
                    lemma_live_count_pos(node_mask(self.nodes@), ep_seen as int);
                    assert(old(self).id_map().dom().len() >= 1);
                }
            },
        }
        if is_first {
            let mut layers: Vec<Vec<usize>> = Vec::new();
            let mut li: usize = 0;
            while li < level + 1
                invariant
                    li <= level + 1,
                    layers@.len() == li,
                    forall|a: int| 0 <= a < li ==> (#[trigger] layers@[a])@.len() == 0,
                decreases level + 1 - li,
            {
                layers.push(Vec::new());
                li = li + 1;
            }
            let ghost pre = self.nodes@;
            self.nodes.set(id, Some(HnswNode { vector, neighbors: layers, level }));
            proof {
                assert(node_mask(self.nodes@) =~= node_mask(pre).update(id as int, true));
                lemma_live_count_update(node_mask(pre), id as int, true);
                lemma_live_count_bound(node_mask(self.nodes@));
            }
            self.count = self.count + 1;
            self.entry_point = Some(id);
            self.max_level = level;
            proof {
                assert forall|i: int|
                    0 <= i < self.nodes@.len() && self.nodes@[i] is Some && i != id implies false
                    by {
                    assert(node_mask(pre)[i]);
                    lemma_live_count_pos(node_mask(pre), i);
                }
                let nn = self.nodes@[id as int]->0;
                assert(node_layers(nn).len() == level + 1);
                assert(Self::node_wf(nn, self.nodes@.len() as int, self.params));
                assert(self.id_map() =~= old(self).id_map().insert(id, nn.vector@));
            }
            return Ok(());
        }
        let ep_start = match self.entry_point {
            Some(e) => e,
            None => {
                proof {
                    assert(false);
                }
                return Err(VectorDbError::IndexError("missing entry point".to_owned()));
            },
        };
        let current_max = self.max_level;
        let mut ep_id = ep_start;
        let mut l = current_max;
        while l > level
            invariant
                (ep_id as int) < self.nodes@.len(),
                self.nodes@[ep_id as int] is Some,
                l <= current_max,
            decreases l,
        {
            let mut eps: Vec<usize> = Vec::new();
            eps.push(ep_id);
            let nearest = match self.search_layer(&vector, &eps, 1, l) {
                Ok(x) => x,
                Err(e) => {
                    return Err(e);
                },
            };
            if nearest.len() > 0 {
                ep_id = nearest[0].id;
            }
            l = l - 1;
        }
        let insert_from = if level < current_max {
            level
        } else {
            current_max
        };
        let mut layers: Vec<Vec<usize>> = Vec::new();
        let mut li: usize = 0;
        while li < level + 1
            invariant
                li <= level + 1,
                layers@.len() == li,
                forall|a: int| 0 <= a < li ==> (#[trigger] layers@[a])@.len() == 0,
            decreases level + 1 - li,
        {
            layers.push(Vec::new());
            li = li + 1;
        }
        let mut l2 = insert_from + 1;
        while l2 > 0
            invariant
                l2 <= insert_from + 1,
                insert_from <= level,
                (ep_id as int) < self.nodes@.len(),
                self.nodes@[ep_id as int] is Some,
                layers@.len() == level + 1,
                forall|a: int, k: int|
                    0 <= a < layers@.len() && 0 <= k < (#[trigger] layers@[a])@.len() ==> {
                        &&& ((#[trigger] layers@[a]@[k]) as int) < self.nodes@.len()
                        &&& self.nodes@[layers@[a]@[k] as int] is Some
                    },
                forall|a: int|
                    0 <= a < layers@.len() ==> (#[trigger] layers@[a])@.len() <= (if a == 0 {
                        self.params.m_max0 as int
                    } else {
                        self.params.m as int
                    }),
                forall|a: int| 0 <= a < layers@.len() ==> list_distinct((#[trigger] layers@[a])@),
            decreases l2,
        {
            let lc = l2 - 1;
            let mut eps: Vec<usize> = Vec::new();
            eps.push(ep_id);
            let nearest = match self.search_layer(&vector, &eps, self.params.ef_construction, lc) {
                Ok(x) => x,
                Err(e) => {
                    return Err(e);
                },
            };
            let cap = if lc == 0 {
                self.params.m_max0
            } else {
                self.params.m
            };
            let mut sel: Vec<usize> = Vec::new();
            let mut si: usize = 0;
            while si < nearest.len() && sel.len() < cap
                invariant
                    si <= nearest@.len(),
                    sel@.len() <= cap,
                    sel@.len() == si,
                    forall|k: int| 0 <= k < sel@.len() ==> (#[trigger] sel@[k]) == nearest@[k].id,
                    forall|k: int|
                        0 <= k < sel@.len() ==> {
                            &&& ((#[trigger] sel@[k]) as int) < self.nodes@.len()
                            &&& self.nodes@[sel@[k] as int] is Some
                        },
                decreases nearest@.len() - si,
            {
                sel.push(nearest[si].id);
                si = si + 1;
            }
            proof {
                assert forall|a: int, b: int|
                    0 <= a < b < sel@.len() implies (#[trigger] sel@[a]) != (#[trigger] sel@[b])
                    by {
                    assert(sel@[a] == nearest@[a].id && sel@[b] == nearest@[b].id);
                }
            }
            layers.set(lc, sel);
            if nearest.len() > 0 {
                ep_id = nearest[0].id;
            }
            l2 = lc;
        }
        // Link the node in.
        let ghost pre = self.nodes@;
        self.nodes.set(id, Some(HnswNode { vector, neighbors: layers, level }));
        proof {
            assert(node_mask(self.nodes@) =~= node_mask(pre).update(id as int, true));
            lemma_live_count_update(node_mask(pre), id as int, true);
            lemma_live_count_bound(node_mask(self.nodes@));
        }
        self.count = self.count + 1;
        if level > self.max_level {
            self.entry_point = Some(id);
            self.max_level = level;
        }
        proof {
            let nn = self.nodes@[id as int]->0;
            assert(node_layers(nn).len() == level + 1);
            assert(Self::node_wf(nn, self.nodes@.len() as int, self.params));
            assert forall|i: int|
                0 <= i < self.nodes@.len() && self.nodes@[i] is Some && i != id implies Self::node_wf(
                (#[trigger] self.nodes@[i])->0,
                self.nodes@.len() as int,
                self.params,
            ) && (self.nodes@[i]->0).level <= self.max_level by {
                assert(self.nodes@[i] == pre[i]);
            }
            assert(self.wf());
            assert(self.id_map() =~= old(self).id_map().insert(id, nn.vector@));
        }
        // Bidirectional links, pruning any neighbour over its cap.
        let ghost target_map = self.id_map();
        let mut lb: usize = 0;
        while lb < insert_from + 1
            invariant
                lb <= insert_from + 1,
                insert_from <= level,
                self.wf(),
                self.id_map() == target_map,
                self.metric_of() == old(self).metric_of(),
                self.params_of() == old(self).params_of(),
                (id as int) < self.nodes@.len(),
                self.nodes@[id as int] is Some,
                (self.nodes@[id as int]->0).level == level,
            decreases insert_from + 1 - lb,
        {
            let ids: Vec<usize>;
            match &self.nodes[id] {
                Some(node) => {
                    proof {
                        assert(Self::node_wf(
                            self.nodes@[id as int]->0,
                            self.nodes@.len() as int,
                            self.params,
                        ));
                    }
                    ids = copy_usizes(&node.neighbors[lb]);
                },
                None => {
                    proof {
                        assert(false);
                    }
                    return Ok(());
                },
            }
            proof {
                assert forall|k: int|
                    0 <= k < ids@.len() implies (#[trigger] ids@[k]) < self.nodes@.len() by {
                    assert(node_layers(self.nodes@[id as int]->0)[lb as int][k] == ids@[k]);
                }
            }
            let ghost n0 = self.nodes@.len();
            let mut bi: usize = 0;
            while bi < ids.len()
                invariant
                    bi <= ids@.len(),
                    self.wf(),
                    self.id_map() == target_map,
                    self.metric_of() == old(self).metric_of(),
                    self.params_of() == old(self).params_of(),
                    self.nodes@.len() == n0,
                    (id as int) < self.nodes@.len(),
                    self.nodes@[id as int] is Some,
                    (self.nodes@[id as int]->0).level == level,
                    forall|k: int| 0 <= k < ids@.len() ==> (#[trigger] ids@[k]) < n0,
                decreases ids@.len() - bi,
            {
                let nid = ids[bi];
                self.relink(nid, lb, id);
                bi = bi + 1;
            }
            lb = lb + 1;
        }
        Ok(())
    }

    /// Remove a node: clear its slot, re-seat the entry point if it
    /// was removed, and scrub the node's id from the lists of the
    /// neighbours it referenced.  Absent ids are ignored.
    #[verifier::loop_isolation(false)]
    #[verifier::rlimit(100)]
    pub fn remove(&mut self, id: usize) -> (r: Result<(), VectorDbError>)
        requires
            old(self).wf(),
        ensures
            final(self).wf(),
            final(self).metric_of() == old(self).metric_of(),
            final(self).params_of() == old(self).params_of(),
            r is Ok,
            final(self).id_map() == old(self).id_map().remove(id),
            old(self).is_live(id) ==> forall|l: int, j: int|
                0 <= l < old(self).layer_count_of(id) && 0 <= j < old(self).neighbors_of(
                    id,
                    l,
                ).len() ==> ({
                    let nid = #[trigger] old(self).neighbors_of(id, l)[j];
                    final(self).is_live(nid) && l < final(self).layer_count_of(nid)
                        ==> !(final(self).neighbors_of(nid, l).contains(id))
                }),
    {
        if id >= self.nodes.len() {
            proof {
                assert(self.id_map() =~= old(self).id_map().remove(id));
            }
            return Ok(());
        }
        let node_level: usize;
        let mut nb_layers: Vec<Vec<usize>> = Vec::new();
        match &self.nodes[id] {
            Some(node) => {
                node_level = node.level;
                let mut l: usize = 0;
                while l < node.neighbors.len()
                    invariant
                        l <= node.neighbors@.len(),
                        nb_layers@.len() == l,
                        forall|a: int|
                            0 <= a < l ==> (#[trigger] nb_layers@[a])@ == node.neighbors@[a]@,
                    decreases node.neighbors@.len() - l,
                {
                    nb_layers.push(copy_usizes(&node.neighbors[l]));
                    l = l + 1;
                }
            },
            None => {
                proof {
                    assert(self.id_map() =~= old(self).id_map().remove(id));
                }
                return Ok(());
            },
        }
        proof {
            assert(Self::node_wf(
                self.nodes@[id as int]->0,
                self.nodes@.len() as int,
                self.params,
            ));
            assert forall|a: int, k: int|
                0 <= a < nb_layers@.len() && 0 <= k < (#[trigger] nb_layers@[a])@.len()
                    implies ((#[trigger] nb_layers@[a]@[k]) as int) < self.nodes@.len() by {
                assert(node_layers(self.nodes@[id as int]->0)[a][k] == nb_layers@[a]@[k]);
            }
            assert(nb_layers@.len() == old(self).layer_count_of(id));
            assert forall|a: int|
                0 <= a < nb_layers@.len() implies (#[trigger] nb_layers@[a])@ == old(
                self,
            ).neighbors_of(id, a) by {}
        }
        // Clear the slot.
        let ghost pre = self.nodes@;
        self.nodes.set(id, None);
        proof {
            assert(node_mask(self.nodes@) =~= node_mask(pre).update(id as int, false));
            lemma_live_count_update(node_mask(pre), id as int, false);
            lemma_live_count_pos(node_mask(pre), id as int);
        }
        self.count = self.count - 1;
        proof {
            assert(self.id_map() =~= old(self).id_map().remove(id));
        }
        // Re-seat the entry point if it was the removed node.
        let mut ep_was_removed = false;
        match self.entry_point {
            Some(ep) => {
                if ep == id {
                    ep_was_removed = true;
                }
            },
            None => {
                proof {
                    assert(false);
                }
            },
        }
        if ep_was_removed {
            let mut best_id: usize = 0;
            let mut best_level: usize = 0;
            let mut found = false;
            let mut i: usize = 0;
            while i < self.nodes.len()
                invariant
                    i <= self.nodes@.len(),
                    found ==> (best_id as int) < self.nodes@.len() && self.nodes@[best_id as int]
                        is Some && (self.nodes@[best_id as int]->0).level == best_level,
                    forall|j: int|
                        0 <= j < i && (#[trigger] self.nodes@[j]) is Some ==> found && (
                        self.nodes@[j]->0).level <= best_level,
                decreases self.nodes@.len() - i,
            {
                let mut this_level: usize = 0;
                let mut live = false;
                match &self.nodes[i] {
                    Some(n) => {
                        live = true;
                        this_level = n.level;
                    },
                    None => {},
                }
                if live && (!found || this_level > best_level) {
                    found = true;
                    best_id = i;
                    best_level = this_level;
                }
                i = i + 1;
            }
            if found {
                self.entry_point = Some(best_id);
                self.max_level = best_level;
                proof {
                    assert(Self::node_wf(
                        self.nodes@[best_id as int]->0,
                        self.nodes@.len() as int,
                        self.params,
                    ));
                }
            } else {
                self.entry_point = None;
                self.max_level = 0;
                proof {
                    assert forall|j: int|
                        0 <= j < node_mask(self.nodes@).len() implies !(#[trigger] node_mask(
                        self.nodes@,
                    )[j]) by {}
                    lemma_live_count_none(node_mask(self.nodes@));
                }
            }
        }
        proof {
            assert(self.wf());
        }
        // Scrub the removed id from the lists of its former
        // neighbours.
        let ghost target_map = self.id_map();
        let ghost n0 = self.nodes@.len();
        let mut l: usize = 0;
        while l < nb_layers.len()
            invariant
                l <= nb_layers@.len(),
                self.wf(),
                self.id_map() == target_map,
                self.metric_of() == old(self).metric_of(),
                self.params_of() == old(self).params_of(),
                self.nodes@.len() == n0,
                forall|a: int, k: int|
                    0 <= a < nb_layers@.len() && 0 <= k < (#[trigger] nb_layers@[a])@.len() ==> ((
                    #[trigger] nb_layers@[a]@[k]) as int) < n0,
                forall|a: int, b: int|
                    0 <= a < l && 0 <= b < (#[trigger] nb_layers@[a])@.len() ==> ({
                        let nid = #[trigger] nb_layers@[a]@[b];
                        self.is_live(nid) && a < self.layer_count_of(nid) ==> !(self.neighbors_of(
                            nid,
                            a,
                        ).contains(id))
                    }),
            decreases nb_layers@.len() - l,
        {
            let mut k: usize = 0;
            while k < nb_layers[l].len()
                invariant
                    l < nb_layers@.len(),
                    k <= nb_layers@[l as int]@.len(),
                    self.wf(),
                    self.id_map() == target_map,
                    self.metric_of() == old(self).metric_of(),
                    self.params_of() == old(self).params_of(),
                    self.nodes@.len() == n0,
                    forall|a: int, k2: int|
                        0 <= a < nb_layers@.len() && 0 <= k2 < (#[trigger] nb_layers@[a])@.len()
                            ==> ((#[trigger] nb_layers@[a]@[k2]) as int) < n0,
                    forall|a: int, b: int|
                        0 <= a < nb_layers@.len() && 0 <= b < (#[trigger] nb_layers@[a])@.len()
                            && (a < l as int || (a == l as int && b < k as int)) ==> ({
                            let nid = #[trigger] nb_layers@[a]@[b];
                            self.is_live(nid) && a < self.layer_count_of(nid) ==> !(
                            self.neighbors_of(nid, a).contains(id))
                        }),
                decreases nb_layers@[l as int]@.len() - k,
            {
                let nid = nb_layers[l][k];
                let ghost pre_g = *self;
                proof {
                    assert(pre_g.wf());
                }
                self.scrub(nid, l, id);
                proof {
                    assert forall|i: usize|
                        pre_g.is_live(i) implies self.is_live(i) && #[trigger] self.layer_count_of(
                        i,
                    ) == pre_g.layer_count_of(i) by {
                        assert(Self::node_wf(
                            pre_g.nodes@[i as int]->0,
                            pre_g.nodes@.len() as int,
                            pre_g.params,
                        ));
                        assert(Self::node_wf(
                            self.nodes@[i as int]->0,
                            self.nodes@.len() as int,
                            self.params,
                        ));
                    }
                    assert forall|i: usize|
                        self.is_live(i) implies pre_g.is_live(i) by {}
                    assert forall|a: int, b: int|
                        0 <= a < nb_layers@.len() && 0 <= b < (#[trigger] nb_layers@[a])@.len()
                            && (a < l as int || (a == l as int && b < k + 1)) implies ({
                            let nid2 = #[trigger] nb_layers@[a]@[b];
                            self.is_live(nid2) && a < self.layer_count_of(nid2) ==> !(
                            self.neighbors_of(nid2, a).contains(id))
                        }) by {
                        let nid2 = nb_layers@[a]@[b];
                        if self.is_live(nid2) && a < self.layer_count_of(nid2) {
                            if a == l as int && b == k as int {
                                assert(pre_g.is_live(nid) && (l as int) < pre_g.layer_count_of(
                                    nid,
                                ));
                            } else {
                                assert(pre_g.is_live(nid2) && a < pre_g.layer_count_of(nid2));
                                assert(!(pre_g.neighbors_of(nid2, a).contains(id)));
                                assert(self.neighbors_of(nid2, a) == pre_g.neighbors_of(nid2, a)
                                    || !(self.neighbors_of(nid2, a).contains(id)));
                            }
                        }
                    }
                }
                k = k + 1;
            }
            l = l + 1;
        }
        proof {
            assert forall|l2: int, j: int|
                0 <= l2 < old(self).layer_count_of(id) && 0 <= j < old(self).neighbors_of(
                    id,
                    l2,
                ).len() implies ({
                let nid = #[trigger] old(self).neighbors_of(id, l2)[j];
                self.is_live(nid) && l2 < self.layer_count_of(nid) ==> !(self.neighbors_of(
                    nid,
                    l2,
                ).contains(id))
            }) by {
                assert(nb_layers@[l2]@ == old(self).neighbors_of(id, l2));
                assert(nb_layers@[l2]@[j] == old(self).neighbors_of(id, l2)[j]);
            }
        }
        Ok(())
    }

    /// Remove `gone` from a node's neighbour list at a layer.  Dead
    /// targets and layers the target does not occupy are skipped.
    #[verifier::loop_isolation(false)]
    fn scrub(&mut self, nid: usize, layer: usize, gone: usize)
        requires
            old(self).wf(),
            (nid as int) < old(self).nodes@.len(),
        ensures
            final(self).wf(),
            final(self).id_map() == old(self).id_map(),
            final(self).metric_of() == old(self).metric_of(),
            final(self).params_of() == old(self).params_of(),
            final(self).nodes@.len() == old(self).nodes@.len(),
            final(self).count == old(self).count,
            final(self).entry_point == old(self).entry_point,
            final(self).max_level == old(self).max_level,
            forall|i: int|
                0 <= i < old(self).nodes@.len() ==> ((#[trigger] final(self).nodes@[i]) is Some
                    <==> old(self).nodes@[i] is Some),
            forall|i: int|
                0 <= i < old(self).nodes@.len() && old(self).nodes@[i] is Some ==> ((
                #[trigger] final(self).nodes@[i])->0).level == (old(self).nodes@[i]->0).level,
            old(self).is_live(nid) && (layer as int) < old(self).layer_count_of(nid)
                ==> !(final(self).neighbors_of(nid, layer as int).contains(gone)),
            forall|i: usize, l: int|
                old(self).is_live(i) && 0 <= l < old(self).layer_count_of(i) ==> (
                #[trigger] final(self).neighbors_of(i, l) == old(self).neighbors_of(i, l)
                    || !final(self).neighbors_of(i, l).contains(gone)),
    {
        let list: Vec<usize>;
        match &self.nodes[nid] {
            Some(node) => {
                if layer >= node.neighbors.len() {
                    return ;
                }
                list = copy_usizes(&node.neighbors[layer]);
            },
            None => {
                return ;
            },
        }
        proof {
            assert(Self::node_wf(
                self.nodes@[nid as int]->0,
                self.nodes@.len() as int,
                self.params,
            ));
            assert forall|k: int|
                0 <= k < list@.len() implies (#[trigger] list@[k]) < self.nodes@.len() by {
                assert(node_layers(self.nodes@[nid as int]->0)[layer as int][k] == list@[k]);
            }
            assert(list_distinct(list@)) by {
                assert(node_layers(self.nodes@[nid as int]->0)[layer as int] == list@);
            }
        }
        let mut filtered: Vec<usize> = Vec::new();
        let mut k: usize = 0;
        while k < list.len()
            invariant
                k <= list@.len(),
                filtered@.len() <= k,
                forall|a: int|
                    0 <= a < filtered@.len() ==> exists|b: int|
                        0 <= b < k && (#[trigger] filtered@[a]) == list@[b],
                forall|a: int| 0 <= a < filtered@.len() ==> (#[trigger] filtered@[a]) != gone,
                list_distinct(filtered@),
            decreases list@.len() - k,
        {
            if list[k] != gone {
                let ghost f0 = filtered@;
                filtered.push(list[k]);
                proof {
                    assert forall|a: int, b: int|
                        0 <= a < b < filtered@.len() implies (#[trigger] filtered@[a])
                        != (#[trigger] filtered@[b]) by {
                        if b < f0.len() {
                            assert(filtered@[a] == f0[a] && filtered@[b] == f0[b]);
                        } else {
                            assert(filtered@[b] == list@[k as int]);
                            assert(filtered@[a] == f0[a]);
                            let c = choose|c: int|
                                0 <= c < k && (#[trigger] f0[a]) == list@[c];
                            assert(list@[c] != list@[k as int]);
                        }
                    }
                }
            }
            k = k + 1;
        }
        proof {
            assert forall|a: int|
                0 <= a < filtered@.len() implies (#[trigger] filtered@[a]) < self.nodes@.len() by {
                let b = choose|b: int| 0 <= b < list@.len() && filtered@[a] == list@[b];
            }
            let cap = if layer == 0 {
                self.params.m_max0 as int
            } else {
                self.params.m as int
            };
            assert(node_layers(self.nodes@[nid as int]->0)[layer as int].len() <= cap);
        }
        self.set_layer_list(nid, layer, filtered);
        proof {
            assert(!self.neighbors_of(nid, layer as int).contains(gone)) by {
                if self.neighbors_of(nid, layer as int).contains(gone) {
                    let a = choose|a: int|
                        0 <= a < self.neighbors_of(nid, layer as int).len()
                            && self.neighbors_of(nid, layer as int)[a] == gone;
                }
            }
        }
    }

    /// Search for the `k` nearest neighbours with the given layer-0
    /// candidate width: greedy descent from the top layer, then a
    /// layer-0 search with width `max(ef, k)`, truncated to `k`.
    #[verifier::loop_isolation(false)]
    pub fn search_knn(&self, query: &Vector, k: usize, ef: usize) -> (r: Result<
        Vec<Neighbor>,
        VectorDbError,
    >)
        requires
            self.wf(),
        ensures
            self.id_map().dom().len() == 0 ==> r is Ok,
            k == 0 ==> r is Ok,
            r matches Ok(rs) ==> {
                &&& rs@.len() <= k
                &&& nq_sorted(rs@)
                &&& ids_distinct(rs@)
                &&& forall|a: int|
                    0 <= a < rs@.len() ==> self.id_map().dom().contains((#[trigger] rs@[a]).id)
                &&& self.id_map().dom().len() == 0 ==> rs@.len() == 0
                &&& self.id_map().dom().len() > 0 && k >= 1 ==> rs@.len() >= 1
            },
    {
        let ep0 = match self.entry_point {
            Some(ep) => ep,
            None => {
                let rs: Vec<Neighbor> = Vec::new();
                proof {
                    lemma_live_set_count(node_mask(self.nodes@));
                    assert(self.id_map().dom() =~= live_set(node_mask(self.nodes@)));
                }
                return Ok(rs);
            },
        };
        proof {
            lemma_live_count_pos(node_mask(self.nodes@), ep0 as int);
            lemma_live_set_count(node_mask(self.nodes@));
            assert(self.id_map().dom() =~= live_set(node_mask(self.nodes@)));
        }
        if k == 0 {
            let rs: Vec<Neighbor> = Vec::new();
            return Ok(rs);
        }
        let mut ep_id = ep0;
        let mut l = self.max_level;
        while l > 0
            invariant
                (ep_id as int) < self.nodes@.len(),
                self.nodes@[ep_id as int] is Some,
            decreases l,
        {
            let mut eps: Vec<usize> = Vec::new();
            eps.push(ep_id);
            let nearest = match self.search_layer(query, &eps, 1, l) {
                Ok(x) => x,
                Err(e) => {
                    return Err(e);
                },
            };
            if nearest.len() > 0 {
                ep_id = nearest[0].id;
            }
            l = l - 1;
        }
        let ef_actual = if ef > k {
            ef
        } else {
            k
        };
        let mut eps: Vec<usize> = Vec::new();
        eps.push(ep_id);
        let mut results = match self.search_layer(query, &eps, ef_actual, 0) {
            Ok(x) => x,
            Err(e) => {
                return Err(e);
            },
        };
        let ghost full = results@;
        results.truncate(k);
        proof {
            if k <= full.len() {
                assert(results@ == full.subrange(0, k as int));
                assert forall|a: int, b: int|
                    0 <= a < b < results@.len() implies nb_le(
                    #[trigger] results@[a],
                    #[trigger] results@[b],
                ) && results@[a].id != results@[b].id by {
                    assert(results@[a] == full[a] && results@[b] == full[b]);
                }
                assert forall|a: int|
                    0 <= a < results@.len() implies self.id_map().dom().contains(
                    (#[trigger] results@[a]).id,
                ) by {
                    assert(results@[a] == full[a]);
                }
            } else {
                assert forall|a: int|
                    0 <= a < results@.len() implies self.id_map().dom().contains(
                    (#[trigger] results@[a]).id,
                ) by {}
            }
        }
        Ok(results)
    }

    /// Search with a caller-chosen `ef`, for runtime tuning without a
    /// rebuild.
    pub fn search_with_ef(&self, query: &Vector, k: usize, ef: usize) -> (r: Result<
        Vec<Neighbor>,
        VectorDbError,
    >)
        requires
            self.wf(),
        ensures
            self.id_map().dom().len() == 0 ==> r is Ok,
            k == 0 ==> r is Ok,
            r matches Ok(rs) ==> {
                &&& rs@.len() <= k
                &&& nq_sorted(rs@)
                &&& ids_distinct(rs@)
                &&& forall|a: int|
                    0 <= a < rs@.len() ==> self.id_map().dom().contains((#[trigger] rs@[a]).id)
            },
    {
        self.search_knn(query, k, ef)
    }
}


/// An HNSW-backed approximate nearest-neighbour index satisfying the
/// uniform index contract.
#[derive(Debug)]
pub struct HnswIndex<D: DistanceKernel> {
    graph: HnswGraph<D>,
}

impl<D: DistanceKernel> HnswIndex<D> {
    /// Create an index with default parameters.
    pub fn new(metric: DistanceMetric, kernel: D) -> (r: HnswIndex<D>)
        ensures
            r.inv(),
            r.vmap() == Map::<usize, Seq<u32>>::empty(),
            r.metric_spec() == metric,
    {
        HnswIndex { graph: HnswGraph::new(metric, HnswParams::default(), kernel) }
    }

    /// Create an index with custom parameters.
    pub fn with_params(metric: DistanceMetric, params: HnswParams, kernel: D) -> (r: HnswIndex<D>)
        requires
            params.wf(),
        ensures
            r.inv(),
            r.vmap() == Map::<usize, Seq<u32>>::empty(),
            r.metric_spec() == metric,
    {
        HnswIndex { graph: HnswGraph::new(metric, params, kernel) }
    }

    /// Create an index with custom parameters and a deterministic
    /// layer-assignment seed.
    pub fn with_seeded_rng(
        metric: DistanceMetric,
        params: HnswParams,
        kernel: D,
        seed: u64,
    ) -> (r: HnswIndex<D>)
        requires
            params.wf(),
        ensures
            r.inv(),
            r.vmap() == Map::<usize, Seq<u32>>::empty(),
            r.metric_spec() == metric,
    {
        HnswIndex { graph: HnswGraph::with_seed(metric, params, kernel, seed) }
    }

    /// Build the index from a batch of fresh, distinct ids.
    #[verifier::loop_isolation(false)]
    pub fn build_batch(&mut self, vectors: Vec<(usize, Vector)>) -> (r: Result<
        (),
        VectorDbError,
    >)
        requires
            old(self).inv(),
            forall|i: int|
                0 <= i < vectors@.len() ==> !old(self).vmap().dom().contains(
                    (#[trigger] vectors@[i]).0,
                ),
            forall|i: int, j: int|
                0 <= i < j < vectors@.len() ==> (#[trigger] vectors@[i]).0
                    != (#[trigger] vectors@[j]).0,
        ensures
            final(self).inv(),
            final(self).metric_spec() == old(self).metric_spec(),
            r is Ok ==> forall|i: int|
                0 <= i < vectors@.len() ==> final(self).vmap().dom().contains(
                    (#[trigger] vectors@[i]).0,
                ) && final(self).vmap()[vectors@[i].0] == vectors@[i].1@,
            r is Err ==> exists|n: int|
                #![trigger vectors@.skip(n)]
                {
                    &&& 0 <= n < vectors@.len()
                    &&& forall|i: int|
                        0 <= i < n ==> final(self).vmap().dom().contains(
                            (#[trigger] vectors@[i]).0,
                        ) && final(self).vmap()[vectors@[i].0] == vectors@[i].1@
                },
    {
        let ghost all = vectors@;
        let mut pending = vectors;
        let total = pending.len();
        let mut i: usize = 0;
        while pending.len() > 0
            invariant
                total == all.len(),
                i <= total,
                self.inv(),
                self.metric_spec() == old(self).metric_spec(),
                i + pending@.len() == all.len(),
                pending@ =~= all.skip(i as int),
                forall|a: int|
                    i <= a < all.len() ==> !self.vmap().dom().contains((#[trigger] all[a]).0),
                forall|a: int|
                    0 <= a < i ==> self.vmap().dom().contains((#[trigger] all[a]).0)
                        && self.vmap()[all[a].0] == all[a].1@,
            decreases pending@.len(),
        {
            let item = pending.remove(0);
            proof {
                assert(item == all[i as int]);
                assert(pending@ =~= all.skip(i + 1));
            }
            let (id, vector) = item;
            let ghost pre = self.vmap();
            match self.graph.insert(id, vector) {
                Ok(()) => {},
                Err(e) => {
                    proof {
                        assert(vectors@.skip(i as int) =~= vectors@.skip(i as int));
                        assert(0 <= (i as int) && (i as int) < vectors@.len() && forall|a: int|
                            0 <= a < i ==> self.vmap().dom().contains((#[trigger] vectors@[a]).0)
                                && self.vmap()[vectors@[a].0] == vectors@[a].1@);
                    }
                    return Err(e);
                },
            }
            i = i + 1;
        }
        Ok(())
    }

    /// Search with a caller-chosen candidate width.
    pub fn search_with_ef(&self, query: &Vector, k: usize, ef: usize) -> (r: Result<
        Vec<(usize, u64)>,
        VectorDbError,
    >)
        requires
            self.inv(),
        ensures
            self.vmap().dom().len() == 0 ==> r is Ok,
            k == 0 ==> r is Ok,
            r matches Ok(rs) ==> {
                &&& rs@.len() <= k
                &&& results_sorted(rs@)
                &&& results_distinct(rs@)
                &&& forall|i: int|
                    0 <= i < rs@.len() ==> self.vmap().dom().contains((#[trigger] rs@[i]).0)
            },
    {
        let nbs = match self.graph.search_with_ef(query, k, ef) {
            Ok(x) => x,
            Err(e) => {
                return Err(e);
            },
        };
        Ok(neighbors_to_pairs(nbs))
    }
}

/// Convert neighbour entries to `(id, distance key)` pairs.
#[verifier::loop_isolation(false)]
fn neighbors_to_pairs(nbs: Vec<Neighbor>) -> (r: Vec<(usize, u64)>)
    ensures
        r@.len() == nbs@.len(),
        forall|i: int|
            0 <= i < r@.len() ==> (#[trigger] r@[i]).0 == nbs@[i].id && r@[i].1 == nbs@[i].distance,
{
    let mut r: Vec<(usize, u64)> = Vec::new();
    let mut i: usize = 0;
    while i < nbs.len()
        invariant
            i <= nbs@.len(),
            r@.len() == i,
            forall|j: int|
                0 <= j < i ==> (#[trigger] r@[j]).0 == nbs@[j].id && r@[j].1 == nbs@[j].distance,
        decreases nbs@.len() - i,
    {
        r.push((nbs[i].id, nbs[i].distance));
        i = i + 1;
    }
    r
}

impl<D: DistanceKernel> Index for HnswIndex<D> {
    closed spec fn inv(&self) -> bool {
        self.graph.wf()
    }

    closed spec fn vmap(&self) -> Map<usize, Seq<u32>> {
        self.graph.id_map()
    }

    closed spec fn metric_spec(&self) -> DistanceMetric {
        self.graph.metric_of()
    }

    closed spec fn add_total(&self) -> bool {
        false
    }

    closed spec fn search_complete(&self) -> bool {
        false
    }

    proof fn lemma_vmap_finite(&self) {
        lemma_live_set_count(node_mask(self.graph.nodes@));
        assert(self.vmap().dom() =~= live_set(node_mask(self.graph.nodes@)));
    }

    fn add(&mut self, id: usize, vector: Vector) -> (r: Result<(), VectorDbError>) {
        self.graph.insert(id, vector)
    }

    fn remove(&mut self, id: usize) -> (r: Result<(), VectorDbError>) {
        self.graph.remove(id)
    }

    fn search(&self, query: &Vector, k: usize) -> (r: Result<Vec<(usize, u64)>, VectorDbError>) {
        let ef = self.graph.params.ef_search;
        let nbs = match self.graph.search_knn(query, k, ef) {
            Ok(x) => x,
            Err(e) => {
                return Err(e);
            },
        };
        Ok(neighbors_to_pairs(nbs))
    }

    fn get_vector(&self, id: usize) -> (r: Option<&Vector>) {
        self.graph.get_vector(id)
    }

    fn metric(&self) -> (r: DistanceMetric) {
        self.graph.metric()
    }

    fn len(&self) -> (r: usize) {
        self.graph.len()
    }

    fn is_empty(&self) -> (r: bool) {
        self.graph.is_empty()
    }
}


/// The entry-point invariant: a well-formed graph — as every insert
/// and remove leaves it — has an entry point exactly when it is
/// non-empty, and that entry point is a live node no other live node
/// exceeds in layer.  In particular, removing the entry point
/// re-seats it on a maximal-layer survivor.
pub proof fn lemma_entry_point_invariant<D: DistanceKernel>(g: &HnswGraph<D>)
    requires
        g.wf(),
    ensures
        g.ep_of() is None <==> g.id_map().dom().len() == 0,
        g.ep_of() matches Some(ep) ==> {
            &&& g.id_map().dom().contains(ep)
            &&& forall|id: usize|
                #[trigger] g.id_map().dom().contains(id) ==> g.level_of(id) <= g.level_of(ep)
        },
{
    lemma_live_set_count(node_mask(g.nodes@));
    assert(g.id_map().dom() =~= live_set(node_mask(g.nodes@)));
    match g.ep_of() {
        None => {
            assert forall|i: int|
                0 <= i < node_mask(g.nodes@).len() implies !(#[trigger] node_mask(g.nodes@)[i])
                by {
                if node_mask(g.nodes@)[i] {
                    lemma_live_count_pos(node_mask(g.nodes@), i);
                }
            }
            lemma_live_count_none(node_mask(g.nodes@));
        },
        Some(ep) => {
            lemma_live_count_pos(node_mask(g.nodes@), ep as int);
        },
    }
}

} // verus!
