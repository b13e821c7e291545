//! Observability counters: query latency, insert and delete counts.
//!
//! Latencies are recorded in whole microseconds; the embedding
//! program converts from its clock's durations.

use vstd::prelude::*;

verus! {

/// Whether latencies are in ascending order.
pub open spec fn lat_sorted(s: Seq<u64>) -> bool {
    forall|i: int, j: int| 0 <= i < j < s.len() ==> (#[trigger] s[i]) <= (#[trigger] s[j])
}

/// The sum of a sequence of latencies.
pub open spec fn lat_sum(s: Seq<u64>) -> int
    decreases s.len(),
{
    if s.len() == 0 {
        0
    } else {
        lat_sum(s.drop_last()) + s.last()
    }
}

/// Collects runtime metrics for the vector database.
#[derive(Debug)]
pub struct MetricsCollector {
    query_latencies_us: Vec<u64>,
    total_queries: u64,
    total_inserts: u64,
    total_deletes: u64,
}

impl MetricsCollector {
    /// The recorded latencies.
    pub closed spec fn latencies(&self) -> Seq<u64> {
        self.query_latencies_us@
    }

    /// The counters stay in step with the latency list.
    pub closed spec fn wf(&self) -> bool {
        self.total_queries == self.latencies().len()
    }

    /// Create an empty collector.
    pub fn new() -> (m: MetricsCollector)
        ensures
            m.wf(),
            m.latencies() == Seq::<u64>::empty(),
            m.spec_inserts() == 0,
            m.spec_deletes() == 0,
    {
        MetricsCollector {
            query_latencies_us: Vec::new(),
            total_queries: 0,
            total_inserts: 0,
            total_deletes: 0,
        }
    }

    /// The recorded insert count.
    pub closed spec fn spec_inserts(&self) -> u64 {
        self.total_inserts
    }

    /// The recorded delete count.
    pub closed spec fn spec_deletes(&self) -> u64 {
        self.total_deletes
    }

    /// Record one query and its duration in microseconds.
    pub fn record_query(&mut self, duration_us: u64)
        requires
            old(self).wf(),
            old(self).latencies().len() < u64::MAX,
        ensures
            final(self).wf(),
            final(self).latencies() == old(self).latencies().push(duration_us),
            final(self).spec_inserts() == old(self).spec_inserts(),
            final(self).spec_deletes() == old(self).spec_deletes(),
    {
        self.total_queries = self.total_queries + 1;
        self.query_latencies_us.push(duration_us);
    }

    /// Record an insert.
    pub fn record_insert(&mut self)
        requires
            old(self).wf(),
            old(self).spec_inserts() < u64::MAX,
        ensures
            final(self).wf(),
            final(self).latencies() == old(self).latencies(),
            final(self).spec_inserts() == old(self).spec_inserts() + 1,
            final(self).spec_deletes() == old(self).spec_deletes(),
    {
        self.total_inserts = self.total_inserts + 1;
    }

    /// Record a delete.
    pub fn record_delete(&mut self)
        requires
            old(self).wf(),
            old(self).spec_deletes() < u64::MAX,
        ensures
            final(self).wf(),
            final(self).latencies() == old(self).latencies(),
            final(self).spec_inserts() == old(self).spec_inserts(),
            final(self).spec_deletes() == old(self).spec_deletes() + 1,
    {
        self.total_deletes = self.total_deletes + 1;
    }

    /// The number of recorded queries.
    pub fn total_queries(&self) -> (r: u64)
        requires
            self.wf(),
        ensures
            r == self.latencies().len(),
    {
        self.total_queries
    }

    /// The number of recorded inserts.
    pub fn total_inserts(&self) -> (r: u64)
        ensures
            r == self.spec_inserts(),
    {
        self.total_inserts
    }

    /// The number of recorded deletes.
    pub fn total_deletes(&self) -> (r: u64)
        ensures
            r == self.spec_deletes(),
    {
        self.total_deletes
    }

    /// The mean query latency in whole microseconds; zero when no
    /// query was recorded.
    #[verifier::loop_isolation(false)]
    pub fn avg_query_latency_us(&self) -> (r: u64)
        ensures
            self.latencies().len() == 0 ==> r == 0,
            self.latencies().len() > 0 ==> r == lat_sum(self.latencies()) / (self.latencies().len()
                as int),
    {
        if self.query_latencies_us.len() == 0 {
            return 0;
        }
        let mut sum: u128 = 0;
        let mut i: usize = 0;
        while i < self.query_latencies_us.len()
            invariant
                i <= self.latencies().len(),
                sum == lat_sum(self.latencies().subrange(0, i as int)),
                sum <= i * (u64::MAX as int),
            decreases self.latencies().len() - i,
        {
            proof {
                let pre = self.latencies().subrange(0, i as int);
                let post = self.latencies().subrange(0, i + 1 as int);
                assert(post.drop_last() =~= pre);
                assert(post.last() == self.latencies()[i as int]);
                assert((i + 1) * (u64::MAX as int) == i * (u64::MAX as int) + u64::MAX)
                    by (nonlinear_arith);
                assert(i * (u64::MAX as int) <= (usize::MAX as int) * (u64::MAX as int))
                    by (nonlinear_arith)
                    requires
                        0 <= i <= usize::MAX,
                ;
            }
            sum = sum + self.query_latencies_us[i] as u128;
            i = i + 1;
        }
        proof {
            assert(self.latencies().subrange(0, self.latencies().len() as int) =~= self.latencies());
            lemma_lat_sum_bound(self.latencies());
            let len = self.latencies().len() as int;
            assert(lat_sum(self.latencies()) / len <= u64::MAX) by (nonlinear_arith)
                requires
                    len > 0,
                    0 <= lat_sum(self.latencies()),
                    lat_sum(self.latencies()) <= len * (u64::MAX as int),
            ;
        }
        let n = self.query_latencies_us.len() as u128;
        (sum / n) as u64
    }

    /// The given percentile of query latency, by nearest-rank on the
    /// sorted latencies; zero when no query was recorded.
    #[verifier::loop_isolation(false)]
    #[verifier::rlimit(100)]
    pub fn percentile_query_latency_us(&self, percentile: u64) -> (r: u64)
        requires
            percentile <= 100,
        ensures
            self.latencies().len() == 0 ==> r == 0,
            self.latencies().len() > 0 ==> exists|i: int|
                0 <= i < self.latencies().len() && self.latencies()[i] == r,
            self.latencies().len() > 0 ==> exists|srt: Seq<u64>|
                {
                    &&& lat_sorted(srt)
                    &&& #[trigger] srt.to_multiset() == self.latencies().to_multiset()
                    &&& srt.len() == self.latencies().len()
                    &&& r == srt[((percentile as int) * (self.latencies().len() - 1) + 50) / 100]
                },
    {
        let n = self.query_latencies_us.len();
        if n == 0 {
            return 0;
        }
        let mut sorted: Vec<u64> = Vec::new();
        let mut i: usize = 0;
        proof {
            broadcast use vstd::seq_lib::group_to_multiset_ensures;

            assert(self.latencies().subrange(0, 0) =~= Seq::<u64>::empty());
            assert(sorted@.to_multiset() =~= self.latencies().subrange(0, 0).to_multiset());
        }
        while i < n
            invariant
                i <= n,
                n == self.latencies().len(),
                sorted@.len() == i,
                forall|a: int, b: int| 0 <= a < b < sorted@.len() ==> (#[trigger] sorted@[a])
                    <= (#[trigger] sorted@[b]),
                forall|a: int|
                    0 <= a < sorted@.len() ==> exists|b: int|
                        0 <= b < n && (#[trigger] sorted@[a]) == self.latencies()[b],
                sorted@.to_multiset() == self.latencies().subrange(0, i as int).to_multiset(),
            decreases n - i,
        {
            let x = self.query_latencies_us[i];
            let mut pos: usize = 0;
            while pos < sorted.len() && sorted[pos] <= x
                invariant
                    pos <= sorted@.len(),
                    forall|a: int| 0 <= a < pos ==> (#[trigger] sorted@[a]) <= x,
                decreases sorted@.len() - pos,
            {
                pos = pos + 1;
            }
            let ghost s0 = sorted@;
            sorted.insert(pos, x);
            proof {
                broadcast use vstd::seq_lib::group_to_multiset_ensures;

                let m = sorted@;
                assert(m.remove(pos as int) =~= s0);
                assert(m[pos as int] == x);
                assert(s0.to_multiset() =~= m.to_multiset().remove(x));
                assert(m.contains(x)) by {
                    assert(m[pos as int] == x);
                }
                assert(m.to_multiset().count(x) > 0);
                assert(m.to_multiset() =~= s0.to_multiset().insert(x));
                let t0 = self.latencies().subrange(0, i as int);
                let t1 = self.latencies().subrange(0, i + 1);
                assert(t1 =~= t0.push(self.latencies()[i as int]));
                assert(t1.to_multiset() =~= t0.to_multiset().insert(x));
                assert forall|a: int, b: int|
                    0 <= a < b < sorted@.len() implies (#[trigger] sorted@[a])
                    <= (#[trigger] sorted@[b]) by {
                    if a < pos {
                        assert(sorted@[a] == s0[a]);
                    } else if a == pos {
                        assert(sorted@[a] == x);
                    } else {
                        assert(sorted@[a] == s0[a - 1]);
                    }
                    if b < pos {
                        assert(sorted@[b] == s0[b]);
                    } else if b == pos {
                        assert(sorted@[b] == x);
                    } else {
                        assert(sorted@[b] == s0[b - 1]);
                    }
                }
                assert forall|a: int|
                    0 <= a < sorted@.len() implies exists|b: int|
                    0 <= b < n && (#[trigger] sorted@[a]) == self.latencies()[b] by {
                    if a < pos {
                        assert(sorted@[a] == s0[a]);
                    } else if a == pos {
                        assert(sorted@[a] == self.latencies()[i as int]);
                    } else {
                        assert(sorted@[a] == s0[a - 1]);
                    }
                }
            }
            i = i + 1;
        }
        proof {
            broadcast use vstd::seq_lib::group_to_multiset_ensures;

            assert(self.latencies().subrange(0, n as int) =~= self.latencies());
        }
        // Nearest-rank index: round(percentile/100 * (n - 1)).
        proof {
            assert((percentile as int) * ((n - 1) as int) + 50 < u128::MAX) by (nonlinear_arith)
                requires
                    0 <= percentile <= 100,
                    0 <= n - 1 <= u64::MAX,
            ;
        }
        let idx128 = ((percentile as u128) * ((n - 1) as u128) + 50) / 100;
        proof {
            let p = percentile as int;
            let m = (n - 1) as int;
            assert(p * m + 50 <= 100 * m + 50) by (nonlinear_arith)
                requires
                    0 <= p <= 100,
                    m >= 0,
            ;
            assert((p * m + 50) / 100 <= (100 * m + 50) / 100) by (nonlinear_arith)
                requires
                    p * m + 50 <= 100 * m + 50,
                    0 <= p * m,
            ;
            assert((100 * m + 50) / 100 == m) by (nonlinear_arith)
                requires
                    m >= 0,
            ;
        }
        let idx = idx128 as usize;
        let r = sorted[idx];
        proof {
            assert(idx as int == ((percentile as int) * (self.latencies().len() - 1) + 50) / 100);
            assert(lat_sorted(sorted@) && sorted@.to_multiset() == self.latencies().to_multiset()
                && sorted@.len() == self.latencies().len() && r == sorted@[((percentile as int) * (
            self.latencies().len() - 1) + 50) / 100]);
        }
        r
    }
}

impl Default for MetricsCollector {
    /// An empty collector.
    fn default() -> (m: MetricsCollector)
        ensures
            m.wf(),
            m.latencies() == Seq::<u64>::empty(),
            m.spec_inserts() == 0,
            m.spec_deletes() == 0,
    {
        MetricsCollector::new()
    }
}

/// A latency sum is bounded by the count times the maximum value.
proof fn lemma_lat_sum_bound(s: Seq<u64>)
    ensures
        0 <= lat_sum(s),
        lat_sum(s) <= s.len() * (u64::MAX as int),
    decreases s.len(),
{
    if s.len() > 0 {
        lemma_lat_sum_bound(s.drop_last());
        assert(s.len() * (u64::MAX as int) == (s.len() - 1) * (u64::MAX as int) + u64::MAX)
            by (nonlinear_arith);
    }
}

} // verus!
