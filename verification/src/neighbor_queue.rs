//! Priority queues for the graph search, ordered by distance key.
//!
//! Distance keys are totally ordered integers, with the id as a
//! tiebreak, so the queues can be plain sorted vectors with exact
//! contracts: the standard library's binary heap offers no
//! specification to verify against.

use vstd::prelude::*;

verus! {

/// A neighbour candidate: an internal id and its distance key.
#[derive(Debug, Clone, Copy, PartialEq, Eq, Structural)]
pub struct Neighbor {
    pub distance: u64,
    pub id: usize,
}

impl Neighbor {
    /// Create a neighbour entry.
    pub fn new(id: usize, distance: u64) -> (n: Neighbor)
        ensures
            n.id == id && n.distance == distance,
    {
        Neighbor { distance, id }
    }
}

/// The queue order: by distance, then by id.
pub open spec fn nb_le(a: Neighbor, b: Neighbor) -> bool {
    a.distance < b.distance || (a.distance == b.distance && a.id <= b.id)
}

/// Whether a sequence is sorted ascending in the queue order.
pub open spec fn nq_sorted(s: Seq<Neighbor>) -> bool {
    forall|i: int, j: int| 0 <= i < j < s.len() ==> nb_le(#[trigger] s[i], #[trigger] s[j])
}

/// Inserting keeps exactly the old elements plus the new one.
pub proof fn lemma_insert_membership(s: Seq<Neighbor>, pos: int, n: Neighbor, k: int)
    requires
        0 <= pos <= s.len(),
        0 <= k < s.len() + 1,
    ensures
        s.insert(pos, n)[k] == n || exists|j: int| 0 <= j < s.len() && s.insert(pos, n)[k] == s[j],
{
    if k < pos {
        assert(s.insert(pos, n)[k] == s[k]);
    } else if k == pos {
        assert(s.insert(pos, n)[k] == n);
    } else {
        assert(s.insert(pos, n)[k] == s[k - 1]);
    }
}

/// Insert into a sorted vector, keeping it sorted.
#[verifier::loop_isolation(false)]
fn insert_sorted(v: &mut Vec<Neighbor>, n: Neighbor)
    requires
        nq_sorted(old(v)@),
    ensures
        nq_sorted(final(v)@),
        final(v)@.len() == old(v)@.len() + 1,
        exists|pos: int| 0 <= pos <= old(v)@.len() && final(v)@ == old(v)@.insert(pos, n),
{
    let mut i: usize = 0;
    while i < v.len() && (v[i].distance < n.distance || (v[i].distance == n.distance && v[i].id
        < n.id))
        invariant
            i <= v@.len(),
            forall|j: int| 0 <= j < i ==> nb_le(#[trigger] v@[j], n) && v@[j] != n,
        decreases v@.len() - i,
    {
        i = i + 1;
    }
    let ghost s0 = v@;
    let ghost pos = i as int;
    v.insert(i, n);
    proof {
        assert(v@ == s0.insert(pos, n));
        assert forall|a: int, b: int| 0 <= a < b < v@.len() implies nb_le(
            #[trigger] v@[a],
            #[trigger] v@[b],
        ) by {
            if a < pos {
                assert(v@[a] == s0[a]);
            } else if a == pos {
                assert(v@[a] == n);
            } else {
                assert(v@[a] == s0[a - 1]);
            }
            if b < pos {
                assert(v@[b] == s0[b]);
            } else if b == pos {
                assert(v@[b] == n);
            } else {
                assert(v@[b] == s0[b - 1]);
            }
            if a < pos && b == pos {
                assert(nb_le(s0[a], n));
            } else if a == pos && b > pos {
                assert(pos < s0.len());
                assert(nb_le(n, s0[pos]));
                if pos < b - 1 {
                    assert(nb_le(s0[pos], s0[b - 1]));
                }
            } else if a < pos && b > pos {
                assert(nb_le(s0[a], s0[b - 1])) by {
                    if a < b - 1 {
                    }
                }
            }
        }
    }
}

/// A min-queue of neighbours: the closest comes out first.  Used as
/// the candidate set of a layer search.
#[derive(Debug)]
pub struct MinHeap {
    items: Vec<Neighbor>,
}

impl View for MinHeap {
    type V = Seq<Neighbor>;

    closed spec fn view(&self) -> Seq<Neighbor> {
        self.items@
    }
}

impl MinHeap {
    /// The items stay sorted ascending.
    pub closed spec fn wf(&self) -> bool {
        nq_sorted(self.items@)
    }

    /// Create an empty queue.
    pub fn new() -> (q: MinHeap)
        ensures
            q@ == Seq::<Neighbor>::empty(),
            q.wf(),
    {
        MinHeap { items: Vec::new() }
    }

    /// Add a neighbour.
    pub fn push(&mut self, n: Neighbor)
        requires
            old(self).wf(),
        ensures
            final(self).wf(),
            final(self)@.len() == old(self)@.len() + 1,
            exists|pos: int|
                0 <= pos <= old(self)@.len() && final(self)@ == old(self)@.insert(pos, n),
    {
        insert_sorted(&mut self.items, n);
        proof {
            let pos = choose|pos: int|
                0 <= pos <= old(self).items@.len() && self.items@ == old(self).items@.insert(
                    pos,
                    n,
                );
            assert(0 <= pos <= old(self)@.len() && self@ == old(self)@.insert(pos, n));
        }
    }

    /// The closest neighbour, if any.
    pub fn peek(&self) -> (r: Option<&Neighbor>)
        requires
            self.wf(),
        ensures
            match r {
                Some(n) => self@.len() > 0 && *n == self@[0],
                None => self@.len() == 0,
            },
    {
        if self.items.len() == 0 {
            None
        } else {
            Some(&self.items[0])
        }
    }

    /// Remove and return the closest neighbour.
    pub fn pop(&mut self) -> (r: Option<Neighbor>)
        requires
            old(self).wf(),
        ensures
            final(self).wf(),
            match r {
                Some(n) => old(self)@.len() > 0 && n == old(self)@[0] && final(self)@ == old(
                    self,
                )@.subrange(1, old(self)@.len() as int),
                None => old(self)@.len() == 0 && final(self)@ == old(self)@,
            },
    {
        if self.items.len() == 0 {
            None
        } else {
            let n = self.items.remove(0);
            Some(n)
        }
    }

    /// The number of queued neighbours.
    pub fn len(&self) -> (r: usize)
        ensures
            r == self@.len(),
    {
        self.items.len()
    }

    /// Whether the queue is empty.
    pub fn is_empty(&self) -> (r: bool)
        ensures
            r == (self@.len() == 0),
    {
        self.items.len() == 0
    }
}

/// A max-queue of neighbours: the furthest comes out first.  Used as
/// the bounded result set of a layer search.
#[derive(Debug)]
pub struct MaxHeap {
    items: Vec<Neighbor>,
}

impl View for MaxHeap {
    type V = Seq<Neighbor>;

    closed spec fn view(&self) -> Seq<Neighbor> {
        self.items@
    }
}

impl MaxHeap {
    /// The items stay sorted ascending; the furthest is last.
    pub closed spec fn wf(&self) -> bool {
        nq_sorted(self.items@)
    }

    /// Create an empty queue.
    pub fn new() -> (q: MaxHeap)
        ensures
            q@ == Seq::<Neighbor>::empty(),
            q.wf(),
    {
        MaxHeap { items: Vec::new() }
    }

    /// Add a neighbour.
    pub fn push(&mut self, n: Neighbor)
        requires
            old(self).wf(),
        ensures
            final(self).wf(),
            final(self)@.len() == old(self)@.len() + 1,
            exists|pos: int|
                0 <= pos <= old(self)@.len() && final(self)@ == old(self)@.insert(pos, n),
    {
        insert_sorted(&mut self.items, n);
        proof {
            let pos = choose|pos: int|
                0 <= pos <= old(self).items@.len() && self.items@ == old(self).items@.insert(
                    pos,
                    n,
                );
            assert(0 <= pos <= old(self)@.len() && self@ == old(self)@.insert(pos, n));
        }
    }

    /// Add a neighbour, then drop the furthest if the size exceeds
    /// `limit`: the queue keeps only the `limit` closest.
    pub fn push_bounded(&mut self, n: Neighbor, limit: usize)
        requires
            old(self).wf(),
            old(self)@.len() <= limit,
        ensures
            final(self).wf(),
            final(self)@.len() == if old(self)@.len() + 1 > limit {
                limit as int
            } else {
                old(self)@.len() + 1 as int
            },
            exists|pos: int|
                {
                    &&& 0 <= pos <= old(self)@.len()
                    &&& final(self)@ == if old(self)@.len() + 1 > limit {
                        old(self)@.insert(pos, n).drop_last()
                    } else {
                        old(self)@.insert(pos, n)
                    }
                },
    {
        insert_sorted(&mut self.items, n);
        let ghost mid = self.items@;
        let ghost pos = choose|pos: int|
            0 <= pos <= old(self).items@.len() && mid == old(self).items@.insert(pos, n);
        if self.items.len() > limit {
            self.items.pop();
            proof {
                assert(self.items@ == mid.drop_last());
                assert(nq_sorted(self.items@)) by {
                    assert forall|a: int, b: int|
                        0 <= a < b < self.items@.len() implies nb_le(
                        #[trigger] self.items@[a],
                        #[trigger] self.items@[b],
                    ) by {
                        assert(self.items@[a] == mid[a] && self.items@[b] == mid[b]);
                    }
                }
                assert(0 <= pos <= old(self)@.len() && self@ == old(self)@.insert(
                    pos,
                    n,
                ).drop_last());
            }
        } else {
            proof {
                assert(0 <= pos <= old(self)@.len() && self@ == old(self)@.insert(pos, n));
            }
        }
    }

    /// The furthest neighbour, if any.
    pub fn peek(&self) -> (r: Option<&Neighbor>)
        requires
            self.wf(),
        ensures
            match r {
                Some(n) => self@.len() > 0 && *n == self@[self@.len() - 1],
                None => self@.len() == 0,
            },
    {
        if self.items.len() == 0 {
            None
        } else {
            Some(&self.items[self.items.len() - 1])
        }
    }

    /// Remove and return the furthest neighbour.
    pub fn pop(&mut self) -> (r: Option<Neighbor>)
        requires
            old(self).wf(),
        ensures
            final(self).wf(),
            match r {
                Some(n) => old(self)@.len() > 0 && n == old(self)@.last() && final(self)@ == old(
                    self,
                )@.drop_last(),
                None => old(self)@.len() == 0 && final(self)@ == old(self)@,
            },
    {
        let r = self.items.pop();
        r
    }

    /// The number of queued neighbours.
    pub fn len(&self) -> (r: usize)
        ensures
            r == self@.len(),
    {
        self.items.len()
    }

    /// Whether the queue is empty.
    pub fn is_empty(&self) -> (r: bool)
        ensures
            r == (self@.len() == 0),
    {
        self.items.len() == 0
    }

    /// The contents, ascending by distance.
    pub fn into_sorted_vec(self) -> (r: Vec<Neighbor>)
        requires
            self.wf(),
        ensures
            r@ == self@,
            nq_sorted(r@),
    {
        self.items
    }
}

} // verus!
