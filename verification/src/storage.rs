//! In-memory vector storage: metadata, filters, and the store itself.

use vstd::prelude::*;

use crate::distance::{DistanceKernel, DistanceMetric};
use crate::error::VectorDbError;
use crate::flat_index::FlatIndex;
use crate::index::{results_distinct, results_sorted, Index};
use crate::vector::Vector;

verus! {

/// The mathematical content of an association list: the finite map from
/// each key's view to the view of the value at the key's position.
/// Later entries shadow earlier ones, but the store and metadata types
/// keep their keys distinct, so no shadowing arises.
pub open spec fn kv_map(s: Seq<(String, String)>) -> Map<Seq<char>, Seq<char>> {
    Map::new(
        |k: Seq<char>| exists|i: int| 0 <= i < s.len() && #[trigger] s[i].0@ == k,
        |k: Seq<char>|
            {
                let i = choose|i: int| 0 <= i < s.len() && #[trigger] s[i].0@ == k;
                s[i].1@
            },
    )
}

/// Whether the keys of an association list are pairwise distinct.
pub open spec fn kv_keys_distinct(s: Seq<(String, String)>) -> bool {
    forall|i: int, j: int|
        0 <= i < j < s.len() ==> (#[trigger] s[i].0@) != (#[trigger] s[j].0@)
}

proof fn lemma_kv_map_entry(s: Seq<(String, String)>, i: int)
    requires
        kv_keys_distinct(s),
        0 <= i < s.len(),
    ensures
        kv_map(s).contains_key(s[i].0@),
        kv_map(s)[s[i].0@] == s[i].1@,
{
    let k = s[i].0@;
    assert(0 <= i < s.len() && s[i].0@ == k);
    assert(kv_map(s).contains_key(k));
    let j = choose|j: int| 0 <= j < s.len() && #[trigger] s[j].0@ == k;
    assert(j == i);
}

/// Metadata attached to a vector: a mapping from string field names to
/// string values.
#[derive(Debug, Clone)]
pub struct Metadata {
    fields: Vec<(String, String)>,
}

impl View for Metadata {
    type V = Map<Seq<char>, Seq<char>>;

    closed spec fn view(&self) -> Map<Seq<char>, Seq<char>> {
        kv_map(self.fields@)
    }
}

impl Metadata {
    /// The representation keeps one entry per field name.
    pub closed spec fn wf(&self) -> bool {
        kv_keys_distinct(self.fields@)
    }

    /// Create an empty metadata mapping.
    pub fn new() -> (m: Metadata)
        ensures
            m@ == Map::<Seq<char>, Seq<char>>::empty(),
            m.wf(),
    {
        let m = Metadata { fields: Vec::new() };
        proof {
            assert(m@ =~= Map::<Seq<char>, Seq<char>>::empty());
        }
        m
    }

    /// Set a field, replacing any previous value under the same name.
    #[verifier::loop_isolation(false)]
    pub fn insert(&mut self, key: String, value: String)
        requires
            old(self).wf(),
        ensures
            final(self).wf(),
            final(self)@ == old(self)@.insert(key@, value@),
    {
        let ghost s0 = self.fields@;
        let mut i: usize = 0;
        while i < self.fields.len()
            invariant
                self.fields@ == s0,
                i <= s0.len(),
                forall|j: int| 0 <= j < i ==> (#[trigger] s0[j].0@) != key@,
            decreases s0.len() - i,
        {
            if self.fields[i].0 == key {
                self.fields.set(i, (key, value));
                proof {
                    let s1 = self.fields@;
                    assert forall|a: int, b: int| 0 <= a < b < s1.len() implies (#[trigger] s1[a].0@)
                        != (#[trigger] s1[b].0@) by {
                        assert(s1[a].0@ == s0[a].0@);
                        assert(s1[b].0@ == s0[b].0@);
                        assert(s0[a].0@ != s0[b].0@);
                    }
                    assert(kv_keys_distinct(s1));
                    assert forall|k: Seq<char>|
                        kv_map(s1).contains_key(k) == #[trigger] kv_map(s0).insert(
                            key@,
                            value@,
                        ).contains_key(k) by {
                        if k == key@ {
                            assert(s1[i as int].0@ == k);
                        } else {
                            if kv_map(s1).contains_key(k) {
                                let j = choose|j: int|
                                    0 <= j < s1.len() && #[trigger] s1[j].0@ == k;
                                assert(s0[j].0@ == k);
                            }
                            if kv_map(s0).contains_key(k) {
                                let j = choose|j: int|
                                    0 <= j < s0.len() && #[trigger] s0[j].0@ == k;
                                assert(s1[j].0@ == k);
                            }
                        }
                    }
                    assert forall|k: Seq<char>| kv_map(s1).contains_key(k) implies kv_map(s1)[k]
                        == kv_map(s0).insert(key@, value@)[k] by {
                        let j = choose|j: int| 0 <= j < s1.len() && #[trigger] s1[j].0@ == k;
                        lemma_kv_map_entry(s1, j);
                        if k == key@ {
                            assert(s1[i as int].0@ == key@);
                            assert(j == i);
                        } else {
                            assert(s0[j].0@ == k);
                            lemma_kv_map_entry(s0, j);
                        }
                    }
                    assert(self@ =~= old(self)@.insert(key@, value@));
                }
                return ;
            }
            i = i + 1;
        }
        self.fields.push((key, value));
        proof {
            let s1 = self.fields@;
            assert forall|a: int, b: int| 0 <= a < b < s1.len() implies (#[trigger] s1[a].0@)
                != (#[trigger] s1[b].0@) by {
                if b < s0.len() {
                } else {
                    assert(s1[b].0@ == key@);
                }
            }
            assert(kv_keys_distinct(s1));
            assert forall|k: Seq<char>|
                kv_map(s1).contains_key(k) == #[trigger] kv_map(s0).insert(
                    key@,
                    value@,
                ).contains_key(k) by {
                if k == key@ {
                    assert(s1[s0.len() as int].0@ == k);
                } else {
                    if kv_map(s1).contains_key(k) {
                        let j = choose|j: int| 0 <= j < s1.len() && #[trigger] s1[j].0@ == k;
                        assert(s0[j].0@ == k);
                    }
                    if kv_map(s0).contains_key(k) {
                        let j = choose|j: int| 0 <= j < s0.len() && #[trigger] s0[j].0@ == k;
                        assert(s1[j].0@ == k);
                    }
                }
            }
            assert forall|k: Seq<char>| kv_map(s1).contains_key(k) implies kv_map(s1)[k] == kv_map(
                s0,
            ).insert(key@, value@)[k] by {
                let j = choose|j: int| 0 <= j < s1.len() && #[trigger] s1[j].0@ == k;
                lemma_kv_map_entry(s1, j);
                if k == key@ {
                    assert(j == s0.len());
                } else {
                    assert(s0[j].0@ == k);
                    lemma_kv_map_entry(s0, j);
                }
            }
            assert(self@ =~= old(self)@.insert(key@, value@));
        }
    }

    /// Look up a field by name.
    #[verifier::loop_isolation(false)]
    pub fn get(&self, key: &str) -> (r: Option<&String>)
        requires
            self.wf(),
        ensures
            match r {
                Some(v) => self@.contains_key(key@) && v@ == self@[key@],
                None => !self@.contains_key(key@),
            },
    {
        let owned: String = key.to_owned();
        let mut i: usize = 0;
        while i < self.fields.len()
            invariant
                i <= self.fields@.len(),
                self.wf(),
                owned@ == key@,
                forall|j: int| 0 <= j < i ==> (#[trigger] self.fields@[j].0@) != key@,
            decreases self.fields@.len() - i,
        {
            if self.fields[i].0 == owned {
                proof {
                    lemma_kv_map_entry(self.fields@, i as int);
                }
                return Some(&self.fields[i].1);
            }
            i = i + 1;
        }
        proof {
            if self@.contains_key(key@) {
                let j = choose|j: int|
                    0 <= j < self.fields@.len() && #[trigger] self.fields@[j].0@ == key@;
            }
        }
        None
    }

    /// The field list itself, one entry per field name.
    pub fn fields(&self) -> (r: &Vec<(String, String)>)
        ensures
            kv_map(r@) == self@,
            r@ == self.pairs(),
            self.wf() ==> kv_keys_distinct(r@),
    {
        &self.fields
    }

    /// The field list as a sequence.
    pub closed spec fn pairs(&self) -> Seq<(String, String)> {
        self.fields@
    }

    /// A deep copy.
    #[verifier::loop_isolation(false)]
    pub fn duplicate(&self) -> (m: Metadata)
        requires
            self.wf(),
        ensures
            m.wf(),
            m@ == self@,
            m.pairs() == self.pairs(),
    {
        let mut fields: Vec<(String, String)> = Vec::new();
        let mut i: usize = 0;
        while i < self.fields.len()
            invariant
                i <= self.fields@.len(),
                fields@.len() == i,
                forall|j: int| 0 <= j < i ==> #[trigger] fields@[j] == self.fields@[j],
            decreases self.fields@.len() - i,
        {
            fields.push((self.fields[i].0.clone(), self.fields[i].1.clone()));
            i = i + 1;
        }
        proof {
            assert(fields@ =~= self.fields@);
        }
        Metadata { fields }
    }

    /// Build metadata from a list of fields with distinct names.
    pub fn from_pairs(fields: Vec<(String, String)>) -> (m: Metadata)
        requires
            kv_keys_distinct(fields@),
        ensures
            m.wf(),
            m.pairs() == fields@,
            m@ == kv_map(fields@),
    {
        Metadata { fields }
    }
}

/// A well-formed metadata value has distinct field names and is the
/// map of its own field list.
pub proof fn lemma_metadata_wf_pairs(m: &Metadata)
    requires
        m.wf(),
    ensures
        kv_keys_distinct(m.pairs()),
        m@ == kv_map(m.pairs()),
{
}

/// The map a list of field-name/value view pairs represents.
pub open spec fn pairs_map(l: Seq<(Seq<char>, Seq<char>)>) -> Map<Seq<char>, Seq<char>> {
    Map::new(
        |k: Seq<char>| exists|i: int| 0 <= i < l.len() && (#[trigger] l[i]).0 == k,
        |k: Seq<char>|
            {
                let i = choose|i: int| 0 <= i < l.len() && (#[trigger] l[i]).0 == k;
                l[i].1
            },
    )
}

/// A field list's map equals the map of its views.
pub proof fn lemma_kv_pairs_map(f: Seq<(String, String)>)
    requires
        kv_keys_distinct(f),
    ensures
        kv_map(f) == pairs_map(f.map_values(|p: (String, String)| (p.0@, p.1@))),
{
    let l = f.map_values(|p: (String, String)| (p.0@, p.1@));
    assert forall|k: Seq<char>|
        kv_map(f).contains_key(k) == pairs_map(l).contains_key(k) by {
        if kv_map(f).contains_key(k) {
            let i = choose|i: int| 0 <= i < f.len() && (#[trigger] f[i]).0@ == k;
            assert(l[i].0 == k);
        }
        if pairs_map(l).contains_key(k) {
            let i = choose|i: int| 0 <= i < l.len() && (#[trigger] l[i]).0 == k;
            assert(f[i].0@ == k);
        }
    }
    assert forall|k: Seq<char>| kv_map(f).contains_key(k) implies kv_map(f)[k] == pairs_map(l)[k]
        by {
        let i = choose|i: int| 0 <= i < f.len() && (#[trigger] f[i]).0@ == k;
        let j = choose|j: int| 0 <= j < l.len() && (#[trigger] l[j]).0 == k;
        assert(f[j].0@ == k);
        assert(i == j);
    }
    assert(kv_map(f) =~= pairs_map(l));
}

/// A filter over metadata, evaluated against one metadata mapping.
#[derive(Debug)]
pub enum MetadataFilter {
    /// The field is present and equals the value.
    Eq { field: String, value: String },
    /// The field is absent or differs from the value.
    Ne { field: String, value: String },
    /// The field is present, with any value.
    Exists { field: String },
    /// Every sub-filter matches; `And([])` is true.
    And { filters: Vec<MetadataFilter> },
    /// At least one sub-filter matches; `Or([])` is false.
    Or { filters: Vec<MetadataFilter> },
}

/// What it means for metadata to satisfy a filter.
pub open spec fn filter_matches(f: MetadataFilter, m: Map<Seq<char>, Seq<char>>) -> bool
    decreases f,
{
    match f {
        MetadataFilter::Eq { field, value } => m.contains_key(field@) && m[field@] == value@,
        MetadataFilter::Ne { field, value } => !(m.contains_key(field@) && m[field@] == value@),
        MetadataFilter::Exists { field } => m.contains_key(field@),
        MetadataFilter::And { filters } => forall|i: int|
            0 <= i < filters@.len() ==> filter_matches(#[trigger] filters@[i], m),
        MetadataFilter::Or { filters } => exists|i: int|
            0 <= i < filters@.len() && filter_matches(#[trigger] filters@[i], m),
    }
}

impl MetadataFilter {
    /// Returns whether the given metadata satisfies this filter.
    #[verifier::loop_isolation(false)]
    pub fn matches(&self, metadata: &Metadata) -> (r: bool)
        requires
            metadata.wf(),
        ensures
            r == filter_matches(*self, metadata@),
        decreases *self,
    {
        match self {
            MetadataFilter::Eq { field, value } => {
                match metadata.get(field.as_str()) {
                    Some(v) => *v == *value,
                    None => false,
                }
            },
            MetadataFilter::Ne { field, value } => {
                match metadata.get(field.as_str()) {
                    Some(v) => !(*v == *value),
                    None => true,
                }
            },
            MetadataFilter::Exists { field } => metadata.get(field.as_str()).is_some(),
            MetadataFilter::And { filters } => {
                let mut i: usize = 0;
                while i < filters.len()
                    invariant
                        i <= filters@.len(),
                        metadata.wf(),
                        forall|j: int|
                            0 <= j < i ==> filter_matches(#[trigger] filters@[j], metadata@),
                    decreases filters@.len() - i,
                {
                    proof {
                        assert(decreases_to!(*self => self->And_filters));
                        assert(self->And_filters == *filters);
                        assert(decreases_to!(*filters => filters@[i as int]));
                    }
                    if !filters[i].matches(metadata) {
                        return false;
                    }
                    i = i + 1;
                }
                true
            },
            MetadataFilter::Or { filters } => {
                let mut i: usize = 0;
                while i < filters.len()
                    invariant
                        i <= filters@.len(),
                        metadata.wf(),
                        forall|j: int|
                            0 <= j < i ==> !filter_matches(#[trigger] filters@[j], metadata@),
                    decreases filters@.len() - i,
                {
                    proof {
                        assert(decreases_to!(*self => self->Or_filters));
                        assert(self->Or_filters == *filters);
                        assert(decreases_to!(*filters => filters@[i as int]));
                    }
                    if filters[i].matches(metadata) {
                        return true;
                    }
                    i = i + 1;
                }
                false
            },
        }
    }
}

/// A search result: the vector's string id and its distance from the
/// query, as the order-preserving key the distance kernel produced.
#[derive(Debug, Clone)]
pub struct SearchResult {
    pub id: String,
    pub distance: u64,
}

/// One item of a batch insertion.
#[derive(Debug, Clone)]
pub struct BatchInsertItem {
    pub id: String,
    pub vector: crate::vector::Vector,
    pub metadata: Metadata,
}

/// One stored association: a string id, its internal id, and the
/// metadata attached to the vector.
#[derive(Debug)]
pub struct StoreEntry {
    pub string_id: String,
    pub internal_id: usize,
    pub metadata: Metadata,
}

/// The string-to-internal-id map an entry table represents.
pub open spec fn fwd_map(es: Seq<StoreEntry>) -> Map<Seq<char>, usize> {
    Map::new(
        |k: Seq<char>| exists|i: int| 0 <= i < es.len() && (#[trigger] es[i]).string_id@ == k,
        |k: Seq<char>|
            {
                let i = choose|i: int| 0 <= i < es.len() && (#[trigger] es[i]).string_id@ == k;
                es[i].internal_id
            },
    )
}

/// The internal-to-string-id map an entry table represents.
pub open spec fn rev_map(es: Seq<StoreEntry>) -> Map<usize, Seq<char>> {
    Map::new(
        |id: usize| exists|i: int| 0 <= i < es.len() && (#[trigger] es[i]).internal_id == id,
        |id: usize|
            {
                let i = choose|i: int| 0 <= i < es.len() && (#[trigger] es[i]).internal_id == id;
                es[i].string_id@
            },
    )
}

/// The metadata table an entry table represents, by internal id.
pub open spec fn meta_map(es: Seq<StoreEntry>) -> Map<usize, Map<Seq<char>, Seq<char>>> {
    Map::new(
        |id: usize| exists|i: int| 0 <= i < es.len() && (#[trigger] es[i]).internal_id == id,
        |id: usize|
            {
                let i = choose|i: int| 0 <= i < es.len() && (#[trigger] es[i]).internal_id == id;
                es[i].metadata@
            },
    )
}

/// No string id repeats in the table.
pub open spec fn sids_distinct(es: Seq<StoreEntry>) -> bool {
    forall|i: int, j: int|
        0 <= i < j < es.len() ==> (#[trigger] es[i]).string_id@ != (#[trigger] es[j]).string_id@
}

/// No internal id repeats in the table.
pub open spec fn iids_distinct(es: Seq<StoreEntry>) -> bool {
    forall|i: int, j: int|
        0 <= i < j < es.len() ==> (#[trigger] es[i]).internal_id != (#[trigger] es[j]).internal_id
}

proof fn lemma_entry_maps(es: Seq<StoreEntry>, i: int)
    requires
        sids_distinct(es),
        iids_distinct(es),
        0 <= i < es.len(),
    ensures
        fwd_map(es).contains_key(es[i].string_id@),
        fwd_map(es)[es[i].string_id@] == es[i].internal_id,
        rev_map(es).contains_key(es[i].internal_id),
        rev_map(es)[es[i].internal_id] == es[i].string_id@,
        meta_map(es).contains_key(es[i].internal_id),
        meta_map(es)[es[i].internal_id] == es[i].metadata@,
{
    let k = es[i].string_id@;
    assert(0 <= i < es.len() && es[i].string_id@ == k);
    let j = choose|j: int| 0 <= j < es.len() && (#[trigger] es[j]).string_id@ == k;
    assert(j == i);
    let id = es[i].internal_id;
    assert(0 <= i < es.len() && es[i].internal_id == id);
    let j2 = choose|j: int| 0 <= j < es.len() && (#[trigger] es[j]).internal_id == id;
    assert(j2 == i);
}

proof fn lemma_fwd_card(es: Seq<StoreEntry>)
    requires
        sids_distinct(es),
    ensures
        fwd_map(es).dom().finite(),
        fwd_map(es).dom().len() == es.len(),
    decreases es.len(),
{
    if es.len() == 0 {
        assert(fwd_map(es).dom() =~= Set::<Seq<char>>::empty());
    } else {
        let dl = es.drop_last();
        lemma_fwd_card(dl);
        assert(fwd_map(es).dom() =~= fwd_map(dl).dom().insert(es.last().string_id@)) by {
            assert forall|k: Seq<char>|
                fwd_map(es).dom().contains(k) == fwd_map(dl).dom().insert(
                    es.last().string_id@,
                ).contains(k) by {
                if fwd_map(es).dom().contains(k) {
                    let i = choose|i: int|
                        0 <= i < es.len() && (#[trigger] es[i]).string_id@ == k;
                    if i < es.len() - 1 {
                        assert(dl[i].string_id@ == k);
                    }
                }
                if fwd_map(dl).dom().contains(k) {
                    let i = choose|i: int|
                        0 <= i < dl.len() && (#[trigger] dl[i]).string_id@ == k;
                    assert(es[i].string_id@ == k);
                }
                if k == es.last().string_id@ {
                    assert(es[es.len() - 1].string_id@ == k);
                }
            }
        }
        assert(!fwd_map(dl).dom().contains(es.last().string_id@)) by {
            if fwd_map(dl).dom().contains(es.last().string_id@) {
                let i = choose|i: int|
                    0 <= i < dl.len() && (#[trigger] dl[i]).string_id@ == es.last().string_id@;
                assert(es[i].string_id@ == es[es.len() - 1].string_id@);
            }
        }
    }
}

proof fn lemma_rev_card(es: Seq<StoreEntry>)
    requires
        iids_distinct(es),
    ensures
        rev_map(es).dom().finite(),
        rev_map(es).dom().len() == es.len(),
    decreases es.len(),
{
    if es.len() == 0 {
        assert(rev_map(es).dom() =~= Set::<usize>::empty());
    } else {
        let dl = es.drop_last();
        lemma_rev_card(dl);
        assert(rev_map(es).dom() =~= rev_map(dl).dom().insert(es.last().internal_id)) by {
            assert forall|id: usize|
                rev_map(es).dom().contains(id) == rev_map(dl).dom().insert(
                    es.last().internal_id,
                ).contains(id) by {
                if rev_map(es).dom().contains(id) {
                    let i = choose|i: int|
                        0 <= i < es.len() && (#[trigger] es[i]).internal_id == id;
                    if i < es.len() - 1 {
                        assert(dl[i].internal_id == id);
                    }
                }
                if rev_map(dl).dom().contains(id) {
                    let i = choose|i: int|
                        0 <= i < dl.len() && (#[trigger] dl[i]).internal_id == id;
                    assert(es[i].internal_id == id);
                }
                if id == es.last().internal_id {
                    assert(es[es.len() - 1].internal_id == id);
                }
            }
        }
        assert(!rev_map(dl).dom().contains(es.last().internal_id)) by {
            if rev_map(dl).dom().contains(es.last().internal_id) {
                let i = choose|i: int|
                    0 <= i < dl.len() && (#[trigger] dl[i]).internal_id == es.last().internal_id;
                assert(es[i].internal_id == es[es.len() - 1].internal_id);
            }
        }
    }
}

/// The observable state of a store: its maps, the id counter, and the
/// committed dimension.
#[verifier::ext_equal]
pub ghost struct StoreModel {
    pub forward: Map<Seq<char>, usize>,
    pub reverse: Map<usize, Seq<char>>,
    pub meta: Map<usize, Map<Seq<char>, Seq<char>>>,
    pub vectors: Map<usize, Seq<u32>>,
    pub next_id: usize,
    pub dimension: Option<usize>,
}

/// Whether a vector's length agrees with the committed dimension.
pub open spec fn model_dim_ok(m: StoreModel, data: Seq<u32>) -> bool {
    match m.dimension {
        Some(d) => data.len() == d,
        None => true,
    }
}

/// The state after removing one string id (a no-op if absent).
pub open spec fn model_delete(m: StoreModel, sid: Seq<char>) -> StoreModel {
    if m.forward.contains_key(sid) {
        let iid = m.forward[sid];
        StoreModel {
            forward: m.forward.remove(sid),
            reverse: m.reverse.remove(iid),
            meta: m.meta.remove(iid),
            vectors: m.vectors.remove(iid),
            next_id: m.next_id,
            dimension: m.dimension,
        }
    } else {
        m
    }
}

/// The state after the preparatory phase of an insert: the old entry
/// under the same string id removed, the dimension committed, and the
/// new internal id consumed.
pub open spec fn model_staged(m: StoreModel, sid: Seq<char>, data: Seq<u32>) -> StoreModel {
    let m1 = model_delete(m, sid);
    StoreModel {
        forward: m1.forward,
        reverse: m1.reverse,
        meta: m1.meta,
        vectors: m1.vectors,
        next_id: (m.next_id + 1) as usize,
        dimension: if m.dimension is Some {
            m.dimension
        } else {
            Some(data.len() as usize)
        },
    }
}

/// The state after a successful insert.
pub open spec fn model_insert(
    m: StoreModel,
    sid: Seq<char>,
    data: Seq<u32>,
    meta: Map<Seq<char>, Seq<char>>,
) -> StoreModel {
    let m1 = model_staged(m, sid, data);
    StoreModel {
        forward: m1.forward.insert(sid, m.next_id),
        reverse: m1.reverse.insert(m.next_id, sid),
        meta: m1.meta.insert(m.next_id, meta),
        vectors: m1.vectors.insert(m.next_id, data),
        next_id: m1.next_id,
        dimension: m1.dimension,
    }
}

/// Whether search results are ascending by distance key.
pub open spec fn sr_sorted(s: Seq<SearchResult>) -> bool {
    forall|i: int, j: int|
        0 <= i < j < s.len() ==> (#[trigger] s[i]).distance <= (#[trigger] s[j]).distance
}

/// Whether no string id repeats among search results.
pub open spec fn sr_distinct(s: Seq<SearchResult>) -> bool {
    forall|i: int, j: int|
        0 <= i < j < s.len() ==> (#[trigger] s[i]).id@ != (#[trigger] s[j]).id@
}

/// In-memory vector storage with a pluggable search index.
///
/// One entry table carries both id maps and the metadata; the index
/// holds the vectors.  The well-formedness invariant ties the four
/// views together.
#[derive(Debug)]
pub struct VectorStore<I: Index> {
    index: I,
    entries: Vec<StoreEntry>,
    next_id: usize,
    dimension: Option<usize>,
}

impl<I: Index> VectorStore<I> {
    /// The index, for reasoning about implementation-specific facts.
    pub closed spec fn idx(&self) -> I {
        self.index
    }

    /// The entry table.
    pub closed spec fn table(&self) -> Seq<StoreEntry> {
        self.entries@
    }

    /// The observable state.
    pub open spec fn model(&self) -> StoreModel {
        StoreModel {
            forward: fwd_map(self.table()),
            reverse: rev_map(self.table()),
            meta: meta_map(self.table()),
            vectors: self.idx().vmap(),
            next_id: self.spec_next_id(),
            dimension: self.spec_dimension(),
        }
    }

    /// The next internal id to assign.
    pub closed spec fn spec_next_id(&self) -> usize {
        self.next_id
    }

    /// The committed dimension.
    pub closed spec fn spec_dimension(&self) -> Option<usize> {
        self.dimension
    }

    /// The store's well-formedness invariant: distinct ids in the
    /// table, ids below the counter, metadata well-formed, the index
    /// holding exactly the mapped ids, and every vector matching the
    /// committed dimension.
    pub open spec fn wf(&self) -> bool {
        &&& self.idx().inv()
        &&& sids_distinct(self.table())
        &&& iids_distinct(self.table())
        &&& forall|i: int|
            0 <= i < self.table().len() ==> (#[trigger] self.table()[i]).internal_id
                < self.spec_next_id()
        &&& forall|i: int| 0 <= i < self.table().len() ==> (#[trigger] self.table()[i]).metadata.wf()
        &&& self.idx().vmap().dom() == rev_map(self.table()).dom()
        &&& match self.spec_dimension() {
            Some(d) => forall|id: usize|
                self.idx().vmap().dom().contains(id) ==> (#[trigger] self.idx().vmap()[id]).len()
                    == d,
            None => self.table().len() == 0,
        }
    }

    /// Create a store around the given index, which must be fresh.
    pub fn with_index(index: I) -> (r: VectorStore<I>)
        requires
            index.inv(),
            index.vmap() == Map::<usize, Seq<u32>>::empty(),
        ensures
            r.wf(),
            r.idx() == index,
            r.model().forward == Map::<Seq<char>, usize>::empty(),
            r.model().reverse == Map::<usize, Seq<char>>::empty(),
            r.model().meta == Map::<usize, Map<Seq<char>, Seq<char>>>::empty(),
            r.model().vectors == index.vmap(),
            r.model().next_id == 0,
            r.model().dimension is None,
    {
        let r = VectorStore { index, entries: Vec::new(), next_id: 0, dimension: None };
        proof {
            assert(r.model().forward =~= Map::<Seq<char>, usize>::empty());
            assert(r.model().reverse =~= Map::<usize, Seq<char>>::empty());
            assert(r.model().meta =~= Map::<usize, Map<Seq<char>, Seq<char>>>::empty());
            assert(r.idx().vmap().dom() =~= rev_map(r.table()).dom());
        }
        r
    }

    /// The position of a string id in the table, if present.
    #[verifier::loop_isolation(false)]
    fn find_entry(&self, id: &String) -> (r: Option<usize>)
        requires
            self.wf(),
        ensures
            match r {
                Some(pos) => pos < self.table().len() && self.table()[pos as int].string_id@ == id@
                    && self.model().forward.contains_key(id@),
                None => !self.model().forward.contains_key(id@),
            },
    {
        let mut i: usize = 0;
        while i < self.entries.len()
            invariant
                i <= self.table().len(),
                forall|j: int| 0 <= j < i ==> (#[trigger] self.table()[j]).string_id@ != id@,
            decreases self.table().len() - i,
        {
            if self.entries[i].string_id == *id {
                proof {
                    lemma_entry_maps(self.table(), i as int);
                }
                return Some(i);
            }
            i = i + 1;
        }
        proof {
            if self.model().forward.contains_key(id@) {
                let j = choose|j: int|
                    0 <= j < self.table().len() && (#[trigger] self.table()[j]).string_id@ == id@;
            }
        }
        None
    }

    /// Insert a vector under the given id, with empty metadata.
    pub fn insert(&mut self, id: String, vector: Vector) -> (r: Result<(), VectorDbError>)
        requires
            old(self).wf(),
        ensures
            final(self).wf(),
            final(self).idx().metric_spec() == old(self).idx().metric_spec(),
            final(self).idx().add_total() == old(self).idx().add_total(),
            !model_dim_ok(old(self).model(), vector@) ==> r == Err::<(), VectorDbError>(
                VectorDbError::DimensionMismatch {
                    expected: old(self).model().dimension->0,
                    actual: vector@.len() as usize,
                },
            ) && final(self).model() == old(self).model(),
            model_dim_ok(old(self).model(), vector@) && old(self).model().next_id == usize::MAX
                ==> (r matches Err(e) && e is StorageError) && final(self).model() == old(
                self,
            ).model(),
            model_dim_ok(old(self).model(), vector@) && old(self).model().next_id < usize::MAX
                ==> {
                &&& r is Ok ==> final(self).model() == model_insert(
                    old(self).model(),
                    id@,
                    vector@,
                    Map::<Seq<char>, Seq<char>>::empty(),
                )
                &&& r is Err ==> final(self).model() == old(self).model()
                &&& old(self).idx().add_total() ==> r is Ok
            },
    {
        self.insert_with_metadata(id, vector, Metadata::new())
    }

    /// Insert a vector with metadata.
    ///
    /// The dimension is validated first; then the vector is added to
    /// the index under a fresh internal id, any existing entry under
    /// the same string id is fully deleted, and the maps and the
    /// dimension are committed.  A failed insert — wrong dimension,
    /// exhausted id space, or a failing index add — changes nothing.
    pub fn insert_with_metadata(&mut self, id: String, vector: Vector, metadata: Metadata) -> (r:
        Result<(), VectorDbError>)
        requires
            old(self).wf(),
            metadata.wf(),
        ensures
            final(self).wf(),
            final(self).idx().metric_spec() == old(self).idx().metric_spec(),
            final(self).idx().add_total() == old(self).idx().add_total(),
            !model_dim_ok(old(self).model(), vector@) ==> r == Err::<(), VectorDbError>(
                VectorDbError::DimensionMismatch {
                    expected: old(self).model().dimension->0,
                    actual: vector@.len() as usize,
                },
            ) && final(self).model() == old(self).model(),
            model_dim_ok(old(self).model(), vector@) && old(self).model().next_id == usize::MAX
                ==> (r matches Err(e) && e is StorageError) && final(self).model() == old(
                self,
            ).model(),
            model_dim_ok(old(self).model(), vector@) && old(self).model().next_id < usize::MAX
                ==> {
                &&& r is Ok ==> final(self).model() == model_insert(
                    old(self).model(),
                    id@,
                    vector@,
                    metadata@,
                )
                &&& r is Err ==> final(self).model() == old(self).model()
                &&& old(self).idx().add_total() ==> r is Ok
            },
    {
        let dim = vector.dimension();
        match self.dimension {
            Some(expected) => {
                if dim != expected {
                    return Err(VectorDbError::DimensionMismatch { expected, actual: dim });
                }
            },
            None => {},
        }
        if self.next_id == usize::MAX {
            return Err(VectorDbError::StorageError("internal id space exhausted".to_owned()));
        }
        let ghost m0 = self.model();
        let ghost staged = model_staged(m0, id@, vector@);
        let pos_opt = self.find_entry(&id);
        let internal = self.next_id;
        proof {
            assert(!self.idx().vmap().dom().contains(internal)) by {
                if self.idx().vmap().dom().contains(internal) {
                    let i = choose|i: int|
                        0 <= i < self.table().len() && (#[trigger] self.table()[i]).internal_id
                            == internal;
                }
            }
        }
        // Add the vector first: if the index refuses, nothing has
        // changed yet.
        match self.index.add(internal, vector) {
            Ok(()) => {},
            Err(e) => {
                proof {
                    assert(self.model() =~~= m0);
                }
                return Err(e);
            },
        }
        proof {
            assert(self.idx().vmap() == m0.vectors.insert(internal, vector@));
        }
        // Remove any existing entry under this string id.
        match pos_opt {
            Some(pos) => {
                let ghost es0 = self.table();
                let old_internal = self.entries[pos].internal_id;
                proof {
                    lemma_entry_maps(es0, pos as int);
                    assert(old_internal < internal);
                }
                self.entries.remove(pos);
                proof {
                    assert(self.table() =~= es0.remove(pos as int));
                    lemma_table_remove(es0, pos as int);
                }
                match self.index.remove(old_internal) {
                    Ok(()) => {},
                    Err(e) => {
                        proof {
                            assert(false);
                        }
                        return Err(e);
                    },
                }
                proof {
                    assert(self.idx().vmap() =~= staged.vectors.insert(internal, vector@)) by {
                        assert(self.idx().vmap() == m0.vectors.insert(internal, vector@).remove(
                            old_internal,
                        ));
                    }
                    assert(fwd_map(self.table()) =~= staged.forward);
                    assert(rev_map(self.table()) =~= staged.reverse);
                    assert(meta_map(self.table()) =~= staged.meta);
                }
            },
            None => {
                proof {
                    assert(self.idx().vmap() =~= staged.vectors.insert(internal, vector@));
                    assert(fwd_map(self.table()) =~= staged.forward);
                    assert(rev_map(self.table()) =~= staged.reverse);
                    assert(meta_map(self.table()) =~= staged.meta);
                }
            },
        }
        if self.dimension.is_none() {
            self.dimension = Some(dim);
        }
        self.next_id = self.next_id + 1;
        let ghost es_before = self.table();
        self.entries.push(StoreEntry { string_id: id, internal_id: internal, metadata });
        proof {
            let es1 = self.table();
            let e = es1.last();
            assert(es1.drop_last() =~= es_before);
            assert(!fwd_map(es_before).contains_key(e.string_id@)) by {
                if fwd_map(es_before).contains_key(e.string_id@) {
                    let i = choose|i: int|
                        0 <= i < es_before.len() && (#[trigger] es_before[i]).string_id@
                            == e.string_id@;
                }
            }
            assert(!rev_map(es_before).contains_key(internal)) by {
                if rev_map(es_before).contains_key(internal) {
                    let i = choose|i: int|
                        0 <= i < es_before.len() && (#[trigger] es_before[i]).internal_id
                            == internal;
                }
            }
            lemma_table_push(es_before, e);
            assert(sids_distinct(es1));
            assert(iids_distinct(es1));
            assert(self.idx().vmap().dom() =~= rev_map(es1).dom());
            assert(self.model() == model_insert(m0, id@, vector@, metadata@)) by {
                assert(self.model().forward =~= model_insert(m0, id@, vector@, metadata@).forward);
                assert(self.model().reverse =~= model_insert(m0, id@, vector@, metadata@).reverse);
                assert(self.model().meta =~= model_insert(m0, id@, vector@, metadata@).meta);
                assert(self.model().vectors =~= model_insert(m0, id@, vector@, metadata@).vectors);
            }
        }
        Ok(())
    }
}

impl<I: Index> VectorStore<I> {
    /// The position of an internal id in the table, if present.
    #[verifier::loop_isolation(false)]
    fn find_by_internal(&self, internal: usize) -> (r: Option<usize>)
        requires
            self.wf(),
        ensures
            match r {
                Some(pos) => pos < self.table().len() && self.table()[pos as int].internal_id
                    == internal,
                None => !self.model().reverse.contains_key(internal),
            },
    {
        let mut i: usize = 0;
        while i < self.entries.len()
            invariant
                i <= self.table().len(),
                forall|j: int| 0 <= j < i ==> (#[trigger] self.table()[j]).internal_id != internal,
            decreases self.table().len() - i,
        {
            if self.entries[i].internal_id == internal {
                return Some(i);
            }
            i = i + 1;
        }
        proof {
            if self.model().reverse.contains_key(internal) {
                let j = choose|j: int|
                    0 <= j < self.table().len() && (#[trigger] self.table()[j]).internal_id
                        == internal;
            }
        }
        None
    }

    /// Delete a vector by string id, returning its data.
    pub fn delete(&mut self, id: &str) -> (r: Result<Vector, VectorDbError>)
        requires
            old(self).wf(),
        ensures
            final(self).wf(),
            final(self).idx().metric_spec() == old(self).idx().metric_spec(),
            final(self).idx().add_total() == old(self).idx().add_total(),
            !old(self).model().forward.contains_key(id@) ==> (r matches Err(e) && e matches
                VectorDbError::VectorNotFound { id: eid } && eid@ == id@) && final(self).model()
                == old(self).model(),
            old(self).model().forward.contains_key(id@) ==> (r matches Ok(v) && v@ == old(
                self,
            ).model().vectors[old(self).model().forward[id@]]) && final(self).model()
                == model_delete(old(self).model(), id@),
    {
        let owned: String = id.to_owned();
        match self.find_entry(&owned) {
            None => Err(VectorDbError::VectorNotFound { id: owned }),
            Some(pos) => {
                let ghost es0 = self.table();
                let ghost m0 = self.model();
                let internal = self.entries[pos].internal_id;
                proof {
                    lemma_entry_maps(es0, pos as int);
                }
                let v = match self.index.get_vector(internal) {
                    Some(v) => v.duplicate(),
                    None => {
                        proof {
                            assert(false);
                        }
                        Vector::new(Vec::new())
                    },
                };
                self.entries.remove(pos);
                proof {
                    assert(self.table() =~= es0.remove(pos as int));
                    lemma_table_remove(es0, pos as int);
                }
                match self.index.remove(internal) {
                    Ok(()) => {},
                    Err(e) => {
                        proof {
                            assert(false);
                        }
                        return Err(e);
                    },
                }
                proof {
                    assert(self.idx().vmap().dom() =~= rev_map(self.table()).dom());
                    assert(self.model() == model_delete(m0, id@)) by {
                        assert(self.model().forward =~= model_delete(m0, id@).forward);
                        assert(self.model().reverse =~= model_delete(m0, id@).reverse);
                        assert(self.model().meta =~= model_delete(m0, id@).meta);
                        assert(self.model().vectors =~= model_delete(m0, id@).vectors);
                    }
                }
                Ok(v)
            },
        }
    }

    /// Get a vector by string id.
    pub fn get(&self, id: &str) -> (r: Option<&Vector>)
        requires
            self.wf(),
        ensures
            match r {
                Some(v) => self.model().forward.contains_key(id@) && v@ == self.model().vectors[
                    self.model().forward[id@]],
                None => !self.model().forward.contains_key(id@),
            },
    {
        let owned: String = id.to_owned();
        match self.find_entry(&owned) {
            None => None,
            Some(pos) => {
                proof {
                    lemma_entry_maps(self.table(), pos as int);
                }
                let internal = self.entries[pos].internal_id;
                match self.index.get_vector(internal) {
                    Some(v) => Some(v),
                    None => {
                        proof {
                            assert(false);
                        }
                        None
                    },
                }
            },
        }
    }

    /// Get the metadata attached to a string id.
    pub fn get_metadata(&self, id: &str) -> (r: Option<&Metadata>)
        requires
            self.wf(),
        ensures
            match r {
                Some(m) => self.model().forward.contains_key(id@) && m@ == self.model().meta[
                    self.model().forward[id@]] && m.wf(),
                None => !self.model().forward.contains_key(id@),
            },
    {
        let owned: String = id.to_owned();
        match self.find_entry(&owned) {
            None => None,
            Some(pos) => {
                proof {
                    lemma_entry_maps(self.table(), pos as int);
                }
                Some(&self.entries[pos].metadata)
            },
        }
    }

    /// The number of stored vectors.
    pub fn len(&self) -> (r: usize)
        requires
            self.wf(),
        ensures
            r == self.model().vectors.dom().len(),
    {
        self.index.len()
    }

    /// Whether the store is empty.
    pub fn is_empty(&self) -> (r: bool)
        requires
            self.wf(),
        ensures
            r == (self.model().vectors.dom().len() == 0),
    {
        self.index.is_empty()
    }

    /// Translate index results to string ids.
    #[verifier::loop_isolation(false)]
    fn translate(&self, internal: &Vec<(usize, u64)>) -> (r: Vec<SearchResult>)
        requires
            self.wf(),
            forall|i: int|
                0 <= i < internal@.len() ==> self.model().vectors.dom().contains(
                    (#[trigger] internal@[i]).0,
                ),
        ensures
            r@.len() == internal@.len(),
            forall|i: int|
                0 <= i < r@.len() ==> {
                    &&& (#[trigger] r@[i]).distance == internal@[i].1
                    &&& self.model().reverse.contains_key(internal@[i].0)
                    &&& r@[i].id@ == self.model().reverse[internal@[i].0]
                    &&& self.model().forward.contains_key(r@[i].id@)
                    &&& self.model().forward[r@[i].id@] == internal@[i].0
                },
    {
        let mut out: Vec<SearchResult> = Vec::new();
        let mut i: usize = 0;
        while i < internal.len()
            invariant
                i <= internal@.len(),
                out@.len() == i,
                forall|j: int|
                    0 <= j < i ==> {
                        &&& (#[trigger] out@[j]).distance == internal@[j].1
                        &&& self.model().reverse.contains_key(internal@[j].0)
                        &&& out@[j].id@ == self.model().reverse[internal@[j].0]
                        &&& self.model().forward.contains_key(out@[j].id@)
                        &&& self.model().forward[out@[j].id@] == internal@[j].0
                    },
            decreases internal@.len() - i,
        {
            let (iid, d) = (internal[i].0, internal[i].1);
            match self.find_by_internal(iid) {
                Some(pos) => {
                    proof {
                        lemma_entry_maps(self.table(), pos as int);
                    }
                    let sid = self.entries[pos].string_id.clone();
                    out.push(SearchResult { id: sid, distance: d });
                },
                None => {
                    proof {
                        assert(false);
                    }
                },
            }
            i = i + 1;
        }
        out
    }

    /// Search for the k nearest neighbours of a query.
    pub fn search(&self, query: &Vector, k: usize) -> (r: Result<Vec<SearchResult>, VectorDbError>)
        requires
            self.wf(),
        ensures
            self.model().vectors.dom().len() == 0 ==> (r matches Ok(rs) && rs@.len() == 0),
            self.model().vectors.dom().len() > 0 && !model_dim_ok(self.model(), query@) ==> r
                == Err::<Vec<SearchResult>, VectorDbError>(
                VectorDbError::DimensionMismatch {
                    expected: self.model().dimension->0,
                    actual: query@.len() as usize,
                },
            ),
            k == 0 && model_dim_ok(self.model(), query@) ==> (r matches Ok(rs) && rs@.len() == 0),
            r matches Ok(rs) ==> {
                &&& rs@.len() <= k
                &&& sr_sorted(rs@)
                &&& sr_distinct(rs@)
                &&& forall|i: int|
                    0 <= i < rs@.len() ==> self.model().forward.contains_key(
                        (#[trigger] rs@[i]).id@,
                    )
            },
            self.idx().search_complete() ==> (r matches Ok(rs) ==> rs@.len() == (if (k as int)
                < self.model().vectors.dom().len() {
                k as int
            } else {
                self.model().vectors.dom().len() as int
            })),
    {
        if self.index.is_empty() {
            return Ok(Vec::new());
        }
        match self.dimension {
            Some(expected) => {
                if query.dimension() != expected {
                    return Err(
                        VectorDbError::DimensionMismatch {
                            expected,
                            actual: query.dimension(),
                        },
                    );
                }
            },
            None => {
                proof {
                    assert(rev_map(self.table()).dom() =~= Set::<usize>::empty());
                    assert(false);
                }
            },
        }
        let internal_results = match self.index.search(query, k) {
            Ok(rs) => rs,
            Err(e) => {
                return Err(e);
            },
        };
        let out = self.translate(&internal_results);
        proof {
            assert(sr_sorted(out@));
            assert forall|i: int, j: int| 0 <= i < j < out@.len() implies (#[trigger] out@[i]).id@
                != (#[trigger] out@[j]).id@ by {
                assert(internal_results@[i].0 != internal_results@[j].0);
            }
        }
        Ok(out)
    }

    /// Keep, in order, the first `k` candidates whose metadata
    /// satisfies the filter.
    #[verifier::loop_isolation(false)]
    fn select_matching(&self, cands: &Vec<(usize, u64)>, k: usize, filter: &MetadataFilter) -> (r:
        Vec<SearchResult>)
        requires
            self.wf(),
            results_sorted(cands@),
            results_distinct(cands@),
            forall|i: int|
                0 <= i < cands@.len() ==> self.model().vectors.dom().contains(
                    (#[trigger] cands@[i]).0,
                ),
        ensures
            r@.map_values(|x: SearchResult| (x.id@, x.distance)) == sel_matching(
                self.model(),
                *filter,
                cands@,
                k as int,
            ),
            r@.len() <= k,
            sr_sorted(r@),
            sr_distinct(r@),
            forall|i: int|
                0 <= i < r@.len() ==> {
                    &&& self.model().forward.contains_key((#[trigger] r@[i]).id@)
                    &&& filter_matches(
                        *filter,
                        self.model().meta[self.model().forward[r@[i].id@]],
                    )
                },
    {
        let ghost m = self.model();
        let mut out: Vec<SearchResult> = Vec::new();
        let mut i: usize = 0;
        proof {
            assert(cands@.skip(0) =~= cands@);
            assert(out@.map_values(|x: SearchResult| (x.id@, x.distance)) =~= Seq::<(
                Seq<char>,
                u64,
            )>::empty());
            assert(Seq::<(Seq<char>, u64)>::empty() + sel_matching(m, *filter, cands@, k as int)
                =~= sel_matching(m, *filter, cands@, k as int));
        }
        while i < cands.len() && out.len() < k
            invariant
                i <= cands@.len(),
                out@.len() <= k,
                sel_matching(m, *filter, cands@, k as int) == out@.map_values(
                    |x: SearchResult| (x.id@, x.distance),
                ) + sel_matching(m, *filter, cands@.skip(i as int), k - out@.len()),
                forall|j: int|
                    0 <= j < out@.len() ==> {
                        &&& self.model().forward.contains_key((#[trigger] out@[j]).id@)
                        &&& filter_matches(
                            *filter,
                            self.model().meta[self.model().forward[out@[j].id@]],
                        )
                    },
                forall|j: int|
                    0 <= j < out@.len() ==> exists|c: int|
                        0 <= c < i && self.model().forward[(#[trigger] out@[j]).id@] == cands@[c].0
                            && out@[j].distance == cands@[c].1,
                sr_sorted(out@),
                sr_distinct(out@),
            decreases cands@.len() - i,
        {
            let (iid, d) = (cands[i].0, cands[i].1);
            let ghost rest = cands@.skip(i as int);
            proof {
                assert(rest[0] == cands@[i as int]);
                assert(rest.drop_first() =~= cands@.skip(i + 1));
            }
            match self.find_by_internal(iid) {
                Some(pos) => {
                    proof {
                        lemma_entry_maps(self.table(), pos as int);
                    }
                    let ghost out0 = out@;
                    let matched = filter.matches(&self.entries[pos].metadata);
                    if matched {
                        let sid = self.entries[pos].string_id.clone();
                        out.push(SearchResult { id: sid, distance: d });
                        proof {
                            let last = out@.len() - 1;
                            assert forall|j: int|
                                0 <= j < out@.len() implies exists|c: int|
                                0 <= c < i + 1 && self.model().forward[(#[trigger] out@[j]).id@]
                                    == cands@[c].0 && out@[j].distance == cands@[c].1 by {
                                if j < last {
                                    assert(out@[j] == out0[j]);
                                    let c = choose|c: int|
                                        0 <= c < i && self.model().forward[out0[j].id@]
                                            == cands@[c].0 && out0[j].distance == cands@[c].1;
                                    assert(0 <= c < i + 1 && self.model().forward[out@[j].id@]
                                        == cands@[c].0 && out@[j].distance == cands@[c].1);
                                } else {
                                    assert(out@[j].id@ == self.model().reverse[iid]);
                                    assert(self.model().forward[out@[j].id@] == cands@[i as int].0
                                        && out@[j].distance == cands@[i as int].1);
                                }
                            }
                            assert forall|j1: int, j2: int|
                                0 <= j1 < j2 < out@.len() implies (#[trigger] out@[j1]).id@
                                != (#[trigger] out@[j2]).id@ by {
                                if j2 == last {
                                    assert(out@[j1] == out0[j1]);
                                    let c = choose|c: int|
                                        0 <= c < i && self.model().forward[out0[j1].id@]
                                            == cands@[c].0 && out0[j1].distance == cands@[c].1;
                                    if out@[j1].id@ == out@[j2].id@ {
                                        assert(cands@[c].0 == cands@[i as int].0);
                                    }
                                } else {
                                    assert(out@[j1] == out0[j1] && out@[j2] == out0[j2]);
                                }
                            }
                            assert forall|j1: int, j2: int|
                                0 <= j1 < j2 < out@.len() implies (#[trigger] out@[j1]).distance
                                <= (#[trigger] out@[j2]).distance by {
                                if j2 == last {
                                    assert(out@[j1] == out0[j1]);
                                    let c = choose|c: int|
                                        0 <= c < i && self.model().forward[out0[j1].id@]
                                            == cands@[c].0 && out0[j1].distance == cands@[c].1;
                                    assert(cands@[c].1 <= cands@[i as int].1);
                                } else {
                                    assert(out@[j1] == out0[j1] && out@[j2] == out0[j2]);
                                }
                            }
                            assert(out@.map_values(|x: SearchResult| (x.id@, x.distance)) =~= out0
                                .map_values(|x: SearchResult| (x.id@, x.distance)).push(
                                (m.reverse[iid], d),
                            ));
                            assert(sel_matching(m, *filter, rest, k - out0.len()) == seq![
                                (m.reverse[iid], d),
                            ] + sel_matching(m, *filter, rest.drop_first(), k - out0.len() - 1));
                            assert(out0.map_values(|x: SearchResult| (x.id@, x.distance)).push(
                                (m.reverse[iid], d),
                            ) =~= out0.map_values(|x: SearchResult| (x.id@, x.distance)) + seq![
                                (m.reverse[iid], d),
                            ]);
                        }
                    } else {
                        proof {
                            assert(sel_matching(m, *filter, rest, k - out@.len()) == sel_matching(
                                m,
                                *filter,
                                rest.drop_first(),
                                k - out@.len(),
                            ));
                        }
                    }
                },
                None => {
                    proof {
                        assert(false);
                    }
                },
            }
            i = i + 1;
        }
        proof {
            if out@.len() == k {
                assert(sel_matching(m, *filter, cands@.skip(i as int), 0) == Seq::<(
                    Seq<char>,
                    u64,
                )>::empty());
            } else {
                assert(i == cands@.len());
                assert(cands@.skip(i as int) =~= Seq::<(usize, u64)>::empty());
            }
            assert(out@.map_values(|x: SearchResult| (x.id@, x.distance)) + Seq::<(
                Seq<char>,
                u64,
            )>::empty() =~= out@.map_values(|x: SearchResult| (x.id@, x.distance)));
        }
        out
    }

    /// Search with a metadata filter: over-fetch three times `k`
    /// candidates (bounded by the store size), then keep in order the
    /// first `k` that satisfy the filter.
    pub fn search_with_filter(&self, query: &Vector, k: usize, filter: &MetadataFilter) -> (r:
        Result<Vec<SearchResult>, VectorDbError>)
        requires
            self.wf(),
        ensures
            self.model().vectors.dom().len() == 0 ==> (r matches Ok(rs) && rs@.len() == 0),
            self.model().vectors.dom().len() > 0 && !model_dim_ok(self.model(), query@) ==> r
                == Err::<Vec<SearchResult>, VectorDbError>(
                VectorDbError::DimensionMismatch {
                    expected: self.model().dimension->0,
                    actual: query@.len() as usize,
                },
            ),
            r matches Ok(rs) ==> {
                &&& rs@.len() <= k
                &&& sr_sorted(rs@)
                &&& sr_distinct(rs@)
                &&& forall|i: int|
                    0 <= i < rs@.len() ==> {
                        &&& self.model().forward.contains_key((#[trigger] rs@[i]).id@)
                        &&& filter_matches(
                            *filter,
                            self.model().meta[self.model().forward[rs@[i].id@]],
                        )
                    }
                &&& exists|cands: Seq<(usize, u64)>|
                    {
                        &&& results_sorted(cands)
                        &&& results_distinct(cands)
                        &&& cands.len() <= 3 * (k as int)
                        &&& cands.len() <= self.model().vectors.dom().len()
                        &&& forall|i: int|
                            0 <= i < cands.len() ==> self.model().vectors.dom().contains(
                                (#[trigger] cands[i]).0,
                            )
                        &&& rs@.map_values(|x: SearchResult| (x.id@, x.distance)) == sel_matching(
                            self.model(),
                            *filter,
                            cands,
                            k as int,
                        )
                    }
            },
    {
        if self.index.is_empty() {
            let rs: Vec<SearchResult> = Vec::new();
            proof {
                let c0 = Seq::<(usize, u64)>::empty();
                assert(sel_matching(self.model(), *filter, c0, k as int) == Seq::<(
                    Seq<char>,
                    u64,
                )>::empty());
                assert(rs@.map_values(|x: SearchResult| (x.id@, x.distance)) =~= Seq::<(
                    Seq<char>,
                    u64,
                )>::empty());
                assert(results_sorted(c0) && results_distinct(c0) && (forall|i: int|
                    0 <= i < c0.len() ==> self.model().vectors.dom().contains(
                        (#[trigger] c0[i]).0,
                    )) && rs@.map_values(|x: SearchResult| (x.id@, x.distance)) == sel_matching(
                    self.model(),
                    *filter,
                    c0,
                    k as int,
                ));
            }
            return Ok(rs);
        }
        match self.dimension {
            Some(expected) => {
                if query.dimension() != expected {
                    return Err(
                        VectorDbError::DimensionMismatch {
                            expected,
                            actual: query.dimension(),
                        },
                    );
                }
            },
            None => {
                proof {
                    assert(rev_map(self.table()).dom() =~= Set::<usize>::empty());
                    assert(false);
                }
            },
        }
        let n = self.index.len();
        let fetch_k = if k >= n {
            n
        } else if k <= usize::MAX / 3 {
            if 3 * k < n {
                3 * k
            } else {
                n
            }
        } else {
            n
        };
        let cands = match self.index.search(query, fetch_k) {
            Ok(rs) => rs,
            Err(e) => {
                return Err(e);
            },
        };
        let out = self.select_matching(&cands, k, filter);
        Ok(out)
    }

    /// Insert a batch of items, stopping at the first error; earlier
    /// successes stay committed.
    #[verifier::loop_isolation(false)]
    #[verifier::rlimit(100)]
    #[verifier::spinoff_prover]
    pub fn insert_batch(&mut self, items: Vec<BatchInsertItem>) -> (r: Result<(), VectorDbError>)
        requires
            old(self).wf(),
            forall|i: int| 0 <= i < items@.len() ==> (#[trigger] items@[i]).metadata.wf(),
        ensures
            final(self).wf(),
            final(self).idx().metric_spec() == old(self).idx().metric_spec(),
            final(self).idx().add_total() == old(self).idx().add_total(),
            old(self).idx().add_total() ==> {
                &&& (r is Ok <==> batch_ok_upto(old(self).model(), items@, items@.len() as int))
                &&& (r is Ok ==> final(self).model() == batch_fold(old(self).model(), items@))
                &&& (r matches Err(e) ==> exists|n: int|
                    {
                        &&& 0 <= n < items@.len()
                        &&& batch_ok_upto(old(self).model(), items@, n)
                        &&& !batch_step_ok(
                            batch_fold(old(self).model(), items@.take(n)),
                            items@[n],
                        )
                        &&& final(self).model() == batch_fold(old(self).model(), items@.take(n))
                        &&& (!model_dim_ok(
                            batch_fold(old(self).model(), items@.take(n)),
                            items@[n].vector@,
                        ) ==> e == (VectorDbError::DimensionMismatch {
                            expected: batch_fold(
                                old(self).model(),
                                items@.take(n),
                            ).dimension->0,
                            actual: items@[n].vector@.len() as usize,
                        }))
                        &&& (model_dim_ok(
                            batch_fold(old(self).model(), items@.take(n)),
                            items@[n].vector@,
                        ) ==> e is StorageError)
                    })
            },
    {
        let ghost m0 = self.model();
        let ghost all = items@;
        let mut pending = items;
        let total = pending.len();
        let mut i: usize = 0;
        while pending.len() > 0
            invariant
                self.wf(),
                total == all.len(),
                i + pending@.len() == all.len(),
                pending@ =~= all.skip(i as int),
                self.idx().metric_spec() == old(self).idx().metric_spec(),
                self.idx().add_total() == old(self).idx().add_total(),
                forall|j: int| 0 <= j < all.len() ==> (#[trigger] all[j]).metadata.wf(),
                old(self).idx().add_total() ==> self.model() == batch_fold(m0, all.take(i as int)),
                old(self).idx().add_total() ==> batch_ok_upto(m0, all, i as int),
            decreases pending@.len(),
        {
            let item = pending.remove(0);
            proof {
                assert(item == all[i as int]);
                assert(pending@ =~= all.skip(i + 1));
            }
            let ghost pre = self.model();
            let res = self.insert_with_metadata(item.id, item.vector, item.metadata);
            proof {
                if old(self).idx().add_total() {
                    assert(all.take(i + 1).drop_last() =~= all.take(i as int));
                    assert(all.take(i + 1).last() == all[i as int]);
                }
            }
            match res {
                Ok(()) => {
                    proof {
                        if old(self).idx().add_total() {
                            assert(batch_step_ok(pre, all[i as int]));
                            assert forall|j: int|
                                0 <= j < i + 1 implies batch_step_ok(
                                batch_fold(m0, all.take(j)),
                                #[trigger] all[j],
                            ) by {}
                        }
                    }
                },
                Err(e) => {
                    proof {
                        if old(self).idx().add_total() {
                            assert(!batch_step_ok(pre, all[i as int]));
                            assert(0 <= (i as int) && (i as int) < items@.len() && batch_ok_upto(
                                old(self).model(),
                                items@,
                                i as int,
                            ) && !batch_step_ok(
                                batch_fold(old(self).model(), items@.take(i as int)),
                                items@[i as int],
                            ) && self.model() == batch_fold(
                                old(self).model(),
                                items@.take(i as int),
                            ));
                            assert(!batch_ok_upto(old(self).model(), items@, items@.len() as int));
                        }
                    }
                    return Err(e);
                },
            }
            i = i + 1;
        }
        proof {
            assert(all.take(all.len() as int) =~= all);
            if old(self).idx().add_total() {
                assert(0 <= all.len() as int <= items@.len() && self.model() == batch_fold(
                    old(self).model(),
                    items@.take(all.len() as int),
                ));
            }
        }
        Ok(())
    }

    /// Run one search per query.
    #[verifier::loop_isolation(false)]
    pub fn search_batch(&self, queries: &Vec<(Vector, usize)>) -> (r: Result<
        Vec<Vec<SearchResult>>,
        VectorDbError,
    >)
        requires
            self.wf(),
        ensures
            queries@.len() == 0 ==> r is Ok,
            self.model().vectors.dom().len() == 0 ==> r is Ok,
            r matches Ok(rss) ==> {
                &&& rss@.len() == queries@.len()
                &&& forall|i: int|
                    0 <= i < rss@.len() ==> {
                        &&& (#[trigger] rss@[i])@.len() <= queries@[i].1
                        &&& sr_sorted(rss@[i]@)
                        &&& sr_distinct(rss@[i]@)
                    }
            },
    {
        let mut out: Vec<Vec<SearchResult>> = Vec::new();
        let mut i: usize = 0;
        while i < queries.len()
            invariant
                i <= queries@.len(),
                out@.len() == i,
                forall|j: int|
                    0 <= j < i ==> {
                        &&& (#[trigger] out@[j])@.len() <= queries@[j].1
                        &&& sr_sorted(out@[j]@)
                        &&& sr_distinct(out@[j]@)
                    },
            decreases queries@.len() - i,
        {
            match self.search(&queries[i].0, queries[i].1) {
                Ok(rs) => {
                    out.push(rs);
                },
                Err(e) => {
                    return Err(e);
                },
            }
            i = i + 1;
        }
        Ok(out)
    }

    /// Run one filtered search per query.
    #[verifier::loop_isolation(false)]
    pub fn search_batch_with_filter(
        &self,
        queries: &Vec<(Vector, usize)>,
        filter: &MetadataFilter,
    ) -> (r: Result<Vec<Vec<SearchResult>>, VectorDbError>)
        requires
            self.wf(),
        ensures
            r matches Ok(rss) ==> {
                &&& rss@.len() == queries@.len()
                &&& forall|i: int|
                    0 <= i < rss@.len() ==> {
                        &&& (#[trigger] rss@[i])@.len() <= queries@[i].1
                        &&& sr_sorted(rss@[i]@)
                        &&& sr_distinct(rss@[i]@)
                        &&& forall|j: int|
                            0 <= j < rss@[i]@.len() ==> filter_matches(
                                *filter,
                                self.model().meta[self.model().forward[(#[trigger] rss@[i]@[j]).id@]],
                            )
                    }
            },
    {
        let mut out: Vec<Vec<SearchResult>> = Vec::new();
        let mut i: usize = 0;
        while i < queries.len()
            invariant
                i <= queries@.len(),
                out@.len() == i,
                forall|j: int|
                    0 <= j < i ==> {
                        &&& (#[trigger] out@[j])@.len() <= queries@[j].1
                        &&& sr_sorted(out@[j]@)
                        &&& sr_distinct(out@[j]@)
                        &&& forall|l: int|
                            0 <= l < out@[j]@.len() ==> filter_matches(
                                *filter,
                                self.model().meta[self.model().forward[(#[trigger] out@[j]@[l]).id@]],
                            )
                    },
            decreases queries@.len() - i,
        {
            match self.search_with_filter(&queries[i].0, queries[i].1, filter) {
                Ok(rs) => {
                    out.push(rs);
                },
                Err(e) => {
                    return Err(e);
                },
            }
            i = i + 1;
        }
        Ok(out)
    }

    /// All stored string ids, in insertion order.
    #[verifier::loop_isolation(false)]
    pub fn list_ids(&self) -> (r: Vec<String>)
        requires
            self.wf(),
        ensures
            r@.len() == self.model().forward.dom().len(),
            forall|i: int|
                0 <= i < r@.len() ==> self.model().forward.contains_key((#[trigger] r@[i])@),
            forall|sid: Seq<char>|
                self.model().forward.contains_key(sid) ==> exists|i: int|
                    0 <= i < r@.len() && (#[trigger] r@[i])@ == sid,
    {
        proof {
            lemma_fwd_card(self.table());
        }
        let mut out: Vec<String> = Vec::new();
        let mut i: usize = 0;
        while i < self.entries.len()
            invariant
                i <= self.table().len(),
                out@.len() == i,
                forall|j: int| 0 <= j < i ==> (#[trigger] out@[j])@ == self.table()[j].string_id@,
            decreases self.table().len() - i,
        {
            out.push(self.entries[i].string_id.clone());
            i = i + 1;
        }
        proof {
            assert forall|i2: int|
                0 <= i2 < out@.len() implies self.model().forward.contains_key(
                (#[trigger] out@[i2])@,
            ) by {
                lemma_entry_maps(self.table(), i2);
            }
            assert forall|sid: Seq<char>|
                self.model().forward.contains_key(sid) implies exists|i2: int|
                0 <= i2 < out@.len() && (#[trigger] out@[i2])@ == sid by {
                let j = choose|j: int|
                    0 <= j < self.table().len() && (#[trigger] self.table()[j]).string_id@ == sid;
                assert(out@[j]@ == sid);
            }
        }
        out
    }

    /// The metric the underlying index uses.
    pub fn metric(&self) -> (r: DistanceMetric)
        requires
            self.wf(),
        ensures
            r == self.idx().metric_spec(),
    {
        self.index.metric()
    }

    /// The next internal id the store will assign.
    pub fn next_id_value(&self) -> (r: usize)
        ensures
            r == self.model().next_id,
    {
        self.next_id
    }

    /// The committed dimension, if any vector was ever inserted.
    pub fn dimension(&self) -> (r: Option<usize>)
        requires
            self.wf(),
        ensures
            r == self.model().dimension,
    {
        self.dimension
    }

    /// A reference to the underlying index.
    pub fn index(&self) -> (r: &I)
        ensures
            *r == self.idx(),
    {
        &self.index
    }

    /// The internal-to-string id pairs, in insertion order.
    #[verifier::loop_isolation(false)]
    pub fn internal_to_string_ids(&self) -> (r: Vec<(usize, String)>)
        requires
            self.wf(),
        ensures
            r@.len() == self.model().reverse.dom().len(),
            forall|i: int|
                0 <= i < r@.len() ==> {
                    &&& self.model().reverse.contains_key((#[trigger] r@[i]).0)
                    &&& self.model().reverse[r@[i].0] == r@[i].1@
                },
    {
        proof {
            lemma_rev_card(self.table());
        }
        let mut out: Vec<(usize, String)> = Vec::new();
        let mut i: usize = 0;
        while i < self.entries.len()
            invariant
                i <= self.table().len(),
                out@.len() == i,
                forall|j: int|
                    0 <= j < i ==> (#[trigger] out@[j]).0 == self.table()[j].internal_id
                        && out@[j].1@ == self.table()[j].string_id@,
            decreases self.table().len() - i,
        {
            out.push((self.entries[i].internal_id, self.entries[i].string_id.clone()));
            i = i + 1;
        }
        proof {
            assert forall|i2: int|
                0 <= i2 < out@.len() implies (self.model().reverse.contains_key(
                (#[trigger] out@[i2]).0,
            ) && self.model().reverse[out@[i2].0] == out@[i2].1@) by {
                lemma_entry_maps(self.table(), i2);
            }
        }
        out
    }
}

/// The first `k` of the candidates whose metadata satisfies the
/// filter, as string-id results, in candidate order.
pub open spec fn sel_matching(
    m: StoreModel,
    f: MetadataFilter,
    cands: Seq<(usize, u64)>,
    k: int,
) -> Seq<(Seq<char>, u64)>
    decreases cands.len(),
{
    if k <= 0 || cands.len() == 0 {
        Seq::empty()
    } else {
        let iid = cands[0].0;
        let rest = cands.drop_first();
        if m.meta.contains_key(iid) && filter_matches(f, m.meta[iid]) {
            seq![(m.reverse[iid], cands[0].1)] + sel_matching(m, f, rest, k - 1)
        } else {
            sel_matching(m, f, rest, k)
        }
    }
}

/// Whether one batch item will apply to the given state: its
/// dimension agrees and an internal id is still available.
pub open spec fn batch_step_ok(m: StoreModel, it: BatchInsertItem) -> bool {
    model_dim_ok(m, it.vector@) && m.next_id < usize::MAX
}

/// Whether the first `n` batch items all apply in sequence.
pub open spec fn batch_ok_upto(m0: StoreModel, items: Seq<BatchInsertItem>, n: int) -> bool {
    forall|j: int|
        0 <= j < n ==> batch_step_ok(batch_fold(m0, items.take(j)), #[trigger] items[j])
}

/// The state after inserting a batch of items in order.
pub open spec fn batch_fold(m: StoreModel, items: Seq<BatchInsertItem>) -> StoreModel
    decreases items.len(),
{
    if items.len() == 0 {
        m
    } else {
        let prev = batch_fold(m, items.drop_last());
        model_insert(prev, items.last().id@, items.last().vector@, items.last().metadata@)
    }
}

/// Map consistency: in a well-formed store the forward and reverse
/// maps are mutually inverse bijections, and the metadata table and
/// the index hold exactly the live internal ids — all four views have
/// one cardinality.  Every operation preserves well-formedness, so
/// this holds after any sequence of inserts and deletes.
pub proof fn lemma_map_consistency<I: Index>(s: &VectorStore<I>)
    requires
        s.wf(),
    ensures
        s.model().forward.dom().finite(),
        s.model().reverse.dom().finite(),
        s.model().forward.dom().len() == s.model().reverse.dom().len(),
        s.model().reverse.dom() == s.model().vectors.dom(),
        s.model().meta.dom() == s.model().reverse.dom(),
        s.model().forward.dom().len() == s.model().vectors.dom().len(),
        forall|sid: Seq<char>|
            #[trigger] s.model().forward.contains_key(sid) ==> s.model().reverse.contains_key(
                s.model().forward[sid],
            ) && s.model().reverse[s.model().forward[sid]] == sid,
        forall|iid: usize|
            #[trigger] s.model().reverse.contains_key(iid) ==> s.model().forward.contains_key(
                s.model().reverse[iid],
            ) && s.model().forward[s.model().reverse[iid]] == iid,
{
    let es = s.table();
    lemma_fwd_card(es);
    lemma_rev_card(es);
    assert(meta_map(es).dom() =~= rev_map(es).dom());
    assert forall|sid: Seq<char>| #[trigger]
        s.model().forward.contains_key(sid) implies s.model().reverse.contains_key(
        s.model().forward[sid],
    ) && s.model().reverse[s.model().forward[sid]] == sid by {
        let i = choose|i: int| 0 <= i < es.len() && (#[trigger] es[i]).string_id@ == sid;
        lemma_entry_maps(es, i);
    }
    assert forall|iid: usize| #[trigger]
        s.model().reverse.contains_key(iid) implies s.model().forward.contains_key(
        s.model().reverse[iid],
    ) && s.model().forward[s.model().reverse[iid]] == iid by {
        let i = choose|i: int| 0 <= i < es.len() && (#[trigger] es[i]).internal_id == iid;
        lemma_entry_maps(es, i);
    }
}

/// Re-insert semantics: inserting twice under one string id leaves
/// only the second vector visible, bound to a fresh internal id; the
/// first internal id is spent and never reused.
pub proof fn lemma_reinsert(
    m: StoreModel,
    sid: Seq<char>,
    d1: Seq<u32>,
    me1: Map<Seq<char>, Seq<char>>,
    d2: Seq<u32>,
    me2: Map<Seq<char>, Seq<char>>,
)
    requires
        m.next_id + 2 <= usize::MAX,
    ensures
        ({
            let m1 = model_insert(m, sid, d1, me1);
            let m2 = model_insert(m1, sid, d2, me2);
            &&& m1.forward[sid] == m.next_id
            &&& m2.forward[sid] == m.next_id + 1
            &&& m2.forward[sid] != m1.forward[sid]
            &&& !m2.vectors.contains_key(m1.forward[sid])
            &&& m2.vectors[m2.forward[sid]] == d2
            &&& m2.next_id == m.next_id + 2
        }),
{
    let m1 = model_insert(m, sid, d1, me1);
    let m2 = model_insert(m1, sid, d2, me2);
    assert(m1.forward.contains_key(sid));
    assert(m1.forward[sid] == m.next_id);
}

/// Create stores around a fresh flat index.
impl<D: DistanceKernel> VectorStore<FlatIndex<D>> {
    /// Create a new vector store with a brute-force flat index.
    pub fn new(metric: DistanceMetric, kernel: D) -> (r: VectorStore<FlatIndex<D>>)
        ensures
            r.wf(),
            r.model().forward == Map::<Seq<char>, usize>::empty(),
            r.model().reverse == Map::<usize, Seq<char>>::empty(),
            r.model().meta == Map::<usize, Map<Seq<char>, Seq<char>>>::empty(),
            r.model().vectors == Map::<usize, Seq<u32>>::empty(),
            r.model().next_id == 0,
            r.model().dimension is None,
            r.idx().metric_spec() == metric,
            r.idx().add_total(),
            r.idx().search_complete(),
    {
        Self::with_flat_index(metric, kernel)
    }

    /// Create a new vector store with a brute-force flat index
    /// (explicit name).
    pub fn with_flat_index(metric: DistanceMetric, kernel: D) -> (r: VectorStore<FlatIndex<D>>)
        ensures
            r.wf(),
            r.model().forward == Map::<Seq<char>, usize>::empty(),
            r.model().reverse == Map::<usize, Seq<char>>::empty(),
            r.model().meta == Map::<usize, Map<Seq<char>, Seq<char>>>::empty(),
            r.model().vectors == Map::<usize, Seq<u32>>::empty(),
            r.model().next_id == 0,
            r.model().dimension is None,
            r.idx().metric_spec() == metric,
            r.idx().add_total(),
            r.idx().search_complete(),
    {
        VectorStore::with_index(FlatIndex::new(metric, kernel))
    }
}

/// Removing a table row removes exactly its two ids from the maps.
proof fn lemma_table_remove(es: Seq<StoreEntry>, pos: int)
    requires
        sids_distinct(es),
        iids_distinct(es),
        0 <= pos < es.len(),
    ensures
        sids_distinct(es.remove(pos)),
        iids_distinct(es.remove(pos)),
        fwd_map(es.remove(pos)) == fwd_map(es).remove(es[pos].string_id@),
        rev_map(es.remove(pos)) == rev_map(es).remove(es[pos].internal_id),
        meta_map(es.remove(pos)) == meta_map(es).remove(es[pos].internal_id),
{
    let es1 = es.remove(pos);
    assert forall|i: int, j: int|
        0 <= i < j < es1.len() implies (#[trigger] es1[i]).string_id@
        != (#[trigger] es1[j]).string_id@ && (#[trigger] es1[i]).internal_id
        != (#[trigger] es1[j]).internal_id by {
        let i0 = if i < pos {
            i
        } else {
            i + 1
        };
        let j0 = if j < pos {
            j
        } else {
            j + 1
        };
        assert(es1[i] == es[i0] && es1[j] == es[j0]);
    }
    assert forall|k: Seq<char>|
        fwd_map(es1).contains_key(k) == fwd_map(es).remove(es[pos].string_id@).contains_key(
            k,
        ) by {
        if fwd_map(es1).contains_key(k) {
            let i = choose|i: int| 0 <= i < es1.len() && (#[trigger] es1[i]).string_id@ == k;
            let i0 = if i < pos {
                i
            } else {
                i + 1
            };
            assert(es[i0].string_id@ == k);
            assert(i0 != pos);
        }
        if fwd_map(es).remove(es[pos].string_id@).contains_key(k) {
            let i = choose|i: int| 0 <= i < es.len() && (#[trigger] es[i]).string_id@ == k;
            assert(i != pos);
            let i1 = if i < pos {
                i
            } else {
                i - 1
            };
            assert(es1[i1].string_id@ == k);
        }
    }
    assert forall|k: Seq<char>| fwd_map(es1).contains_key(k) implies fwd_map(es1)[k] == fwd_map(
        es,
    ).remove(es[pos].string_id@)[k] by {
        let i = choose|i: int| 0 <= i < es1.len() && (#[trigger] es1[i]).string_id@ == k;
        lemma_entry_maps(es1, i);
        let i0 = if i < pos {
            i
        } else {
            i + 1
        };
        assert(es[i0].string_id@ == k);
        lemma_entry_maps(es, i0);
    }
    assert(fwd_map(es1) =~= fwd_map(es).remove(es[pos].string_id@));
    assert forall|id: usize|
        rev_map(es1).contains_key(id) == rev_map(es).remove(es[pos].internal_id).contains_key(
            id,
        ) by {
        if rev_map(es1).contains_key(id) {
            let i = choose|i: int| 0 <= i < es1.len() && (#[trigger] es1[i]).internal_id == id;
            let i0 = if i < pos {
                i
            } else {
                i + 1
            };
            assert(es[i0].internal_id == id);
            assert(i0 != pos);
        }
        if rev_map(es).remove(es[pos].internal_id).contains_key(id) {
            let i = choose|i: int| 0 <= i < es.len() && (#[trigger] es[i]).internal_id == id;
            assert(i != pos);
            let i1 = if i < pos {
                i
            } else {
                i - 1
            };
            assert(es1[i1].internal_id == id);
        }
    }
    assert forall|id: usize| rev_map(es1).contains_key(id) implies rev_map(es1)[id] == rev_map(
        es,
    ).remove(es[pos].internal_id)[id] && meta_map(es1)[id] == meta_map(es).remove(
        es[pos].internal_id,
    )[id] by {
        let i = choose|i: int| 0 <= i < es1.len() && (#[trigger] es1[i]).internal_id == id;
        lemma_entry_maps(es1, i);
        let i0 = if i < pos {
            i
        } else {
            i + 1
        };
        assert(es[i0].internal_id == id);
        lemma_entry_maps(es, i0);
    }
    assert(rev_map(es1) =~= rev_map(es).remove(es[pos].internal_id));
    assert(meta_map(es1).dom() =~= rev_map(es1).dom());
    assert(meta_map(es).remove(es[pos].internal_id).dom() =~= rev_map(es).remove(
        es[pos].internal_id,
    ).dom());
    assert(meta_map(es1) =~= meta_map(es).remove(es[pos].internal_id));
}

/// Appending a fresh row adds exactly its two ids to the maps.
proof fn lemma_table_push(es: Seq<StoreEntry>, e: StoreEntry)
    requires
        sids_distinct(es),
        iids_distinct(es),
        !fwd_map(es).contains_key(e.string_id@),
        !rev_map(es).contains_key(e.internal_id),
    ensures
        sids_distinct(es.push(e)),
        iids_distinct(es.push(e)),
        fwd_map(es.push(e)) == fwd_map(es).insert(e.string_id@, e.internal_id),
        rev_map(es.push(e)) == rev_map(es).insert(e.internal_id, e.string_id@),
        meta_map(es.push(e)) == meta_map(es).insert(e.internal_id, e.metadata@),
{
    let es1 = es.push(e);
    assert forall|i: int, j: int|
        0 <= i < j < es1.len() implies (#[trigger] es1[i]).string_id@
        != (#[trigger] es1[j]).string_id@ && (#[trigger] es1[i]).internal_id
        != (#[trigger] es1[j]).internal_id by {
        if j < es.len() {
            assert(es1[i] == es[i] && es1[j] == es[j]);
        } else {
            assert(es1[j] == e);
            assert(es1[i] == es[i]);
            assert(0 <= i < es.len() && es[i].string_id@ == es[i].string_id@);
            assert(0 <= i < es.len() && es[i].internal_id == es[i].internal_id);
        }
    }
    assert forall|k: Seq<char>|
        fwd_map(es1).contains_key(k) == fwd_map(es).insert(
            e.string_id@,
            e.internal_id,
        ).contains_key(k) by {
        if fwd_map(es1).contains_key(k) {
            let i = choose|i: int| 0 <= i < es1.len() && (#[trigger] es1[i]).string_id@ == k;
            if i < es.len() {
                assert(es[i].string_id@ == k);
            }
        }
        if fwd_map(es).contains_key(k) {
            let i = choose|i: int| 0 <= i < es.len() && (#[trigger] es[i]).string_id@ == k;
            assert(es1[i].string_id@ == k);
        }
        if k == e.string_id@ {
            assert(es1[es.len() as int].string_id@ == k);
        }
    }
    assert forall|k: Seq<char>| fwd_map(es1).contains_key(k) implies fwd_map(es1)[k] == fwd_map(
        es,
    ).insert(e.string_id@, e.internal_id)[k] by {
        let i = choose|i: int| 0 <= i < es1.len() && (#[trigger] es1[i]).string_id@ == k;
        lemma_entry_maps(es1, i);
        if k != e.string_id@ {
            assert(i < es.len());
            assert(es[i].string_id@ == k);
            lemma_entry_maps(es, i);
        } else {
            assert(i == es.len());
        }
    }
    assert(fwd_map(es1) =~= fwd_map(es).insert(e.string_id@, e.internal_id));
    assert forall|id: usize|
        rev_map(es1).contains_key(id) == rev_map(es).insert(
            e.internal_id,
            e.string_id@,
        ).contains_key(id) by {
        if rev_map(es1).contains_key(id) {
            let i = choose|i: int| 0 <= i < es1.len() && (#[trigger] es1[i]).internal_id == id;
            if i < es.len() {
                assert(es[i].internal_id == id);
            }
        }
        if rev_map(es).contains_key(id) {
            let i = choose|i: int| 0 <= i < es.len() && (#[trigger] es[i]).internal_id == id;
            assert(es1[i].internal_id == id);
        }
        if id == e.internal_id {
            assert(es1[es.len() as int].internal_id == id);
        }
    }
    assert forall|id: usize| rev_map(es1).contains_key(id) implies rev_map(es1)[id] == rev_map(
        es,
    ).insert(e.internal_id, e.string_id@)[id] && meta_map(es1)[id] == meta_map(es).insert(
        e.internal_id,
        e.metadata@,
    )[id] by {
        let i = choose|i: int| 0 <= i < es1.len() && (#[trigger] es1[i]).internal_id == id;
        lemma_entry_maps(es1, i);
        if id != e.internal_id {
            assert(i < es.len());
            assert(es[i].internal_id == id);
            lemma_entry_maps(es, i);
        } else {
            assert(i == es.len());
        }
    }
    assert(rev_map(es1) =~= rev_map(es).insert(e.internal_id, e.string_id@));
    assert(meta_map(es1).dom() =~= rev_map(es1).dom());
    assert(meta_map(es).insert(e.internal_id, e.metadata@).dom() =~= rev_map(es).insert(
        e.internal_id,
        e.string_id@,
    ).dom());
    assert(meta_map(es1) =~= meta_map(es).insert(e.internal_id, e.metadata@));
}

} // verus!
