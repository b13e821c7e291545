//! The snapshot format: a durable image of the whole store.
//!
//! A snapshot is a length-prefixed list of per-vector records — each
//! holding the internal id current at save time, the string id, the
//! component data and the metadata fields — followed by the next-id
//! counter and the committed dimension.  The embedding program writes
//! and reads the bytes; this module produces and consumes them.
//!
//! Decoding promises byte identity: whatever snapshot value the bytes
//! decode to re-encodes to exactly the same bytes, so saving a loaded
//! snapshot reproduces the file verbatim.

use vstd::prelude::*;

use crate::codec::{
    data_at, data_end, data_ok, enc_data, enc_string, lemma_data_reencode, lemma_read_data_at,
    lemma_read_string_at, lemma_string_reencode, lemma_u64_at_of_le, lemma_u64_reencode,
    push_data, push_string, push_u64_le, read_data, read_string, read_u64_le, str_at, str_bytes,
    str_end, str_ok, u64_at, u64_le,
};
use crate::error::VectorDbError;
use crate::storage::{kv_keys_distinct, Metadata};
use crate::vector::Vector;

verus! {

/// One stored vector as it appears in a snapshot.
#[derive(Debug)]
pub struct SerializedVector {
    /// The internal id at snapshot time; replay reassigns ids.
    pub internal_id: usize,
    pub string_id: String,
    pub data: Vec<u32>,
    pub metadata: Metadata,
}

/// The mathematical content of a snapshot record.
pub ghost struct SvView {
    pub internal_id: u64,
    pub string_id: Seq<char>,
    pub data: Seq<u32>,
    pub fields: Seq<(Seq<char>, Seq<char>)>,
}

impl View for SerializedVector {
    type V = SvView;

    open spec fn view(&self) -> SvView {
        SvView {
            internal_id: self.internal_id as u64,
            string_id: self.string_id@,
            data: self.data@,
            fields: self.metadata.pairs().map_values(
                |p: (String, String)| (p.0@, p.1@),
            ),
        }
    }
}

/// The full database image.
#[derive(Debug)]
pub struct DatabaseSnapshot {
    pub vectors: Vec<SerializedVector>,
    pub next_id: usize,
    pub dimension: Option<usize>,
}

/// The mathematical content of a snapshot.
#[verifier::ext_equal]
pub ghost struct SnapView {
    pub vectors: Seq<SvView>,
    pub next_id: u64,
    pub dimension: Option<u64>,
}

impl View for DatabaseSnapshot {
    type V = SnapView;

    open spec fn view(&self) -> SnapView {
        SnapView {
            vectors: self.vectors@.map_values(|v: SerializedVector| v@),
            next_id: self.next_id as u64,
            dimension: match self.dimension {
                Some(d) => Some(d as u64),
                None => None,
            },
        }
    }
}

/// The encoding of one metadata field pair.
pub open spec fn enc_pair(p: (Seq<char>, Seq<char>)) -> Seq<u8> {
    enc_string(p.0) + enc_string(p.1)
}

/// The encoding of a field list.
pub open spec fn enc_pairs(l: Seq<(Seq<char>, Seq<char>)>) -> Seq<u8>
    decreases l.len(),
{
    if l.len() == 0 {
        Seq::empty()
    } else {
        enc_pairs(l.drop_last()) + enc_pair(l.last())
    }
}

/// The encoding of one snapshot record.
pub open spec fn enc_sv(v: SvView) -> Seq<u8> {
    u64_le(v.internal_id) + enc_string(v.string_id) + enc_data(v.data) + u64_le(
        v.fields.len() as u64,
    ) + enc_pairs(v.fields)
}

/// The encoding of a record list.
pub open spec fn enc_svs(l: Seq<SvView>) -> Seq<u8>
    decreases l.len(),
{
    if l.len() == 0 {
        Seq::empty()
    } else {
        enc_svs(l.drop_last()) + enc_sv(l.last())
    }
}

/// The encoding of a whole snapshot.
pub open spec fn enc_snapshot(s: SnapView) -> Seq<u8> {
    u64_le(s.vectors.len() as u64) + enc_svs(s.vectors) + u64_le(s.next_id) + (match s.dimension {
        Some(d) => seq![1u8] + u64_le(d),
        None => seq![0u8],
    })
}

/// Whether a field pair can be read at `pos`.
pub open spec fn pair_ok(b: Seq<u8>, pos: int) -> bool {
    str_ok(b, pos) && str_ok(b, str_end(b, pos))
}

/// The position just after the field pair at `pos`.
pub open spec fn pair_end(b: Seq<u8>, pos: int) -> int {
    str_end(b, str_end(b, pos))
}

/// Whether `n` field pairs can be read in sequence from `pos`.
pub open spec fn pairs_ok(b: Seq<u8>, pos: int, n: int) -> bool
    decreases n,
{
    n <= 0 || (pair_ok(b, pos) && pairs_ok(b, pair_end(b, pos), n - 1))
}

/// The position just after `n` field pairs read from `pos`.
pub open spec fn pairs_end(b: Seq<u8>, pos: int, n: int) -> int
    decreases n,
{
    if n <= 0 {
        pos
    } else {
        pairs_end(b, pair_end(b, pos), n - 1)
    }
}

/// The `n` field pairs read from `pos`.
pub open spec fn pairs_at(b: Seq<u8>, pos: int, n: int) -> Seq<(Seq<char>, Seq<char>)>
    decreases n,
{
    if n <= 0 {
        Seq::empty()
    } else {
        seq![(str_at(b, pos), str_at(b, str_end(b, pos)))] + pairs_at(b, pair_end(b, pos), n - 1)
    }
}

/// Whether no field name repeats.
pub open spec fn pairs_distinct(l: Seq<(Seq<char>, Seq<char>)>) -> bool {
    forall|i: int, j: int| 0 <= i < j < l.len() ==> (#[trigger] l[i]).0 != (#[trigger] l[j]).0
}

/// Whether one record can be read at `pos`: an id that fits `usize`,
/// a string, the data, and a distinct field list, in sequence.
pub open spec fn sv_ok(b: Seq<u8>, pos: int) -> bool {
    &&& pos + 8 <= b.len()
    &&& u64_at(b, pos) <= usize::MAX as u64
    &&& str_ok(b, pos + 8)
    &&& data_ok(b, str_end(b, pos + 8))
    &&& ({
        let p3 = data_end(b, str_end(b, pos + 8));
        &&& p3 + 8 <= b.len()
        &&& u64_at(b, p3) <= usize::MAX as u64
        &&& pairs_ok(b, p3 + 8, u64_at(b, p3) as int)
        &&& pairs_distinct(pairs_at(b, p3 + 8, u64_at(b, p3) as int))
    })
}

/// The position just after the record at `pos`.
pub open spec fn sv_end(b: Seq<u8>, pos: int) -> int {
    let p3 = data_end(b, str_end(b, pos + 8));
    pairs_end(b, p3 + 8, u64_at(b, p3) as int)
}

/// The record read at `pos`.
pub open spec fn sv_at(b: Seq<u8>, pos: int) -> SvView {
    let p3 = data_end(b, str_end(b, pos + 8));
    SvView {
        internal_id: u64_at(b, pos),
        string_id: str_at(b, pos + 8),
        data: data_at(b, str_end(b, pos + 8)),
        fields: pairs_at(b, p3 + 8, u64_at(b, p3) as int),
    }
}

/// Whether `n` records can be read in sequence from `pos`.
pub open spec fn svs_ok(b: Seq<u8>, pos: int, n: int) -> bool
    decreases n,
{
    n <= 0 || (sv_ok(b, pos) && svs_ok(b, sv_end(b, pos), n - 1))
}

/// The position just after `n` records read from `pos`.
pub open spec fn svs_end(b: Seq<u8>, pos: int, n: int) -> int
    decreases n,
{
    if n <= 0 {
        pos
    } else {
        svs_end(b, sv_end(b, pos), n - 1)
    }
}

/// The `n` records read from `pos`.
pub open spec fn svs_at(b: Seq<u8>, pos: int, n: int) -> Seq<SvView>
    decreases n,
{
    if n <= 0 {
        Seq::empty()
    } else {
        seq![sv_at(b, pos)] + svs_at(b, sv_end(b, pos), n - 1)
    }
}

/// Whether a byte sequence is a whole well-formed snapshot: the
/// record list, the id counter, and the dimension, with nothing left
/// over.  Decoding succeeds on exactly these byte sequences.
pub open spec fn snapshot_ok(b: Seq<u8>) -> bool {
    &&& 8 <= b.len()
    &&& u64_at(b, 0) <= usize::MAX as u64
    &&& svs_ok(b, 8, u64_at(b, 0) as int)
    &&& ({
        let p = svs_end(b, 8, u64_at(b, 0) as int);
        &&& 8 <= p
        &&& p + 9 <= b.len()
        &&& u64_at(b, p) <= usize::MAX as u64
        &&& ((b[p + 8] == 0u8 && b.len() == p + 9) || (b[p + 8] == 1u8 && b.len() == p + 17
            && u64_at(b, p + 9) <= usize::MAX as u64))
    })
}

/// The snapshot a well-formed byte sequence holds.
pub open spec fn snapshot_at(b: Seq<u8>) -> SnapView {
    let p = svs_end(b, 8, u64_at(b, 0) as int);
    SnapView {
        vectors: svs_at(b, 8, u64_at(b, 0) as int),
        next_id: u64_at(b, p),
        dimension: if b[p + 8] == 0u8 {
            None
        } else {
            Some(u64_at(b, p + 9))
        },
    }
}

/// Append the encoding of one record.
fn push_sv(out: &mut Vec<u8>, v: &SerializedVector)
    requires
        v.metadata.wf(),
    ensures
        final(out)@ == old(out)@ + enc_sv(v@),
{
    push_u64_le(out, v.internal_id as u64);
    push_string(out, &v.string_id);
    push_data(out, &v.data);
    let fields = v.metadata.fields();
    push_u64_le(out, fields.len() as u64);
    let ghost fl = v@.fields;
    let mut i: usize = 0;
    while i < fields.len()
        invariant
            i <= fields@.len(),
            fl == fields@.map_values(|p: (String, String)| (p.0@, p.1@)),
            fl.len() == fields@.len(),
            out@ == old(out)@ + u64_le(v@.internal_id) + enc_string(v@.string_id) + enc_data(
                v@.data,
            ) + u64_le(fl.len() as u64) + enc_pairs(fl.subrange(0, i as int)),
            v@.fields == fl,
        decreases fields@.len() - i,
    {
        push_string(out, &fields[i].0);
        push_string(out, &fields[i].1);
        proof {
            let pre = fl.subrange(0, i as int);
            let post = fl.subrange(0, i + 1 as int);
            assert(post.drop_last() =~= pre);
            assert(post.last() == fl[i as int]);
            assert(fl[i as int] == (fields@[i as int].0@, fields@[i as int].1@));
            assert(out@ =~= old(out)@ + u64_le(v@.internal_id) + enc_string(v@.string_id)
                + enc_data(v@.data) + u64_le(fl.len() as u64) + enc_pairs(post));
        }
        i = i + 1;
    }
    proof {
        assert(fl.subrange(0, fl.len() as int) =~= fl);
        assert(final(out)@ =~= old(out)@ + enc_sv(v@));
    }
}

/// Package one stored vector as a snapshot record.
pub fn serialize_vector(
    internal_id: usize,
    string_id: &str,
    vector: &Vector,
    metadata: Metadata,
) -> (r: SerializedVector)
    requires
        metadata.wf(),
    ensures
        r.metadata.wf(),
        r@.internal_id == internal_id as u64,
        r@.string_id == string_id@,
        r@.data == vector@,
        r.metadata@ == metadata@,
{
    SerializedVector {
        internal_id,
        string_id: string_id.to_owned(),
        data: vector.to_data(),
        metadata,
    }
}

/// Encode a snapshot.
#[verifier::loop_isolation(false)]
pub fn encode_snapshot(s: &DatabaseSnapshot) -> (r: Vec<u8>)
    requires
        forall|i: int| 0 <= i < s.vectors@.len() ==> (#[trigger] s.vectors@[i]).metadata.wf(),
    ensures
        r@ == enc_snapshot(s@),
{
    let mut out: Vec<u8> = Vec::new();
    push_u64_le(&mut out, s.vectors.len() as u64);
    let ghost vl = s@.vectors;
    let mut i: usize = 0;
    while i < s.vectors.len()
        invariant
            i <= s.vectors@.len(),
            out@ == u64_le(vl.len() as u64) + enc_svs(vl.subrange(0, i as int)),
        decreases s.vectors@.len() - i,
    {
        push_sv(&mut out, &s.vectors[i]);
        proof {
            let pre = vl.subrange(0, i as int);
            let post = vl.subrange(0, i + 1 as int);
            assert(post.drop_last() =~= pre);
            assert(post.last() == vl[i as int]);
            assert(out@ =~= u64_le(vl.len() as u64) + enc_svs(post));
        }
        i = i + 1;
    }
    proof {
        assert(vl.subrange(0, vl.len() as int) =~= vl);
    }
    push_u64_le(&mut out, s.next_id as u64);
    match s.dimension {
        Some(d) => {
            out.push(1u8);
            push_u64_le(&mut out, d as u64);
        },
        None => {
            out.push(0u8);
        },
    }
    proof {
        assert(out@ =~= enc_snapshot(s@));
    }
    out
}

/// Decode one snapshot record at `pos`.  Succeeds exactly when a
/// well-formed record sits there.
#[verifier::loop_isolation(false)]
#[verifier::rlimit(100)]
#[verifier::spinoff_prover]
fn decode_sv(b: &Vec<u8>, pos: usize) -> (r: Option<(SerializedVector, usize)>)
    requires
        pos <= b@.len(),
    ensures
        r is Some <==> sv_ok(b@, pos as int),
        r matches Some((sv, np)) ==> {
            &&& sv.metadata.wf()
            &&& pos <= np <= b@.len()
            &&& np == sv_end(b@, pos as int)
            &&& sv@ == sv_at(b@, pos as int)
            &&& enc_sv(sv@) == b@.subrange(pos as int, np as int)
        },
{
    let blen = b.len();
    let id64 = match read_u64_le(b, pos) {
        Some(x) => x,
        None => {
            return None;
        },
    };
    if id64 > usize::MAX as u64 {
        return None;
    }
    proof {
        lemma_u64_reencode(b@, pos as int);
    }
    let p1 = pos + 8;
    let (string_id, p2) = match read_string(b, p1) {
        Some(x) => x,
        None => {
            return None;
        },
    };
    proof {
        lemma_string_reencode(b@, p1 as int);
    }
    let (data, p3) = match read_data(b, p2) {
        Some(x) => x,
        None => {
            return None;
        },
    };
    proof {
        lemma_data_reencode(b@, p2 as int);
    }
    let nf64 = match read_u64_le(b, p3) {
        Some(x) => x,
        None => {
            return None;
        },
    };
    if nf64 > usize::MAX as u64 {
        return None;
    }
    proof {
        lemma_u64_reencode(b@, p3 as int);
    }
    let nf = nf64 as usize;
    let p4 = p3 + 8;
    let mut fields: Vec<(String, String)> = Vec::new();
    let mut fpos = p4;
    proof {
        assert(enc_pairs(fields@.map_values(|p: (String, String)| (p.0@, p.1@))) =~= Seq::<
            u8,
        >::empty());
        assert(b@.subrange(p4 as int, fpos as int) =~= Seq::<u8>::empty());
        assert(fields@.map_values(|p: (String, String)| (p.0@, p.1@)) + pairs_at(
            b@,
            fpos as int,
            nf as int,
        ) =~= pairs_at(b@, p4 as int, nf as int));
    }
    let mut fi: usize = 0;
    while fi < nf
        invariant
            fi <= nf,
            p4 <= fpos <= b@.len(),
            fields@.len() == fi,
            enc_pairs(fields@.map_values(|p: (String, String)| (p.0@, p.1@))) == b@.subrange(
                p4 as int,
                fpos as int,
            ),
            pairs_ok(b@, p4 as int, nf as int) <==> pairs_ok(b@, fpos as int, nf - fi),
            fields@.map_values(|p: (String, String)| (p.0@, p.1@)) + pairs_at(
                b@,
                fpos as int,
                nf - fi,
            ) == pairs_at(b@, p4 as int, nf as int),
            pairs_end(b@, p4 as int, nf as int) == pairs_end(b@, fpos as int, nf - fi),
        decreases nf - fi,
    {
        let ghost fl0 = fields@.map_values(|p: (String, String)| (p.0@, p.1@));
        let ghost pair_start = fpos as int;
        let ghost m = nf - fi;
        let (k, q1) = match read_string(b, fpos) {
            Some(x) => x,
            None => {
                proof {
                    assert(!pair_ok(b@, pair_start));
                    assert(!pairs_ok(b@, pair_start, m));
                    assert(!sv_ok(b@, pos as int));
                }
                return None;
            },
        };
        proof {
            lemma_string_reencode(b@, fpos as int);
        }
        let (v, q2) = match read_string(b, q1) {
            Some(x) => x,
            None => {
                proof {
                    assert(!pair_ok(b@, pair_start));
                    assert(!pairs_ok(b@, pair_start, m));
                    assert(!sv_ok(b@, pos as int));
                }
                return None;
            },
        };
        proof {
            lemma_string_reencode(b@, q1 as int);
        }
        fields.push((k, v));
        proof {
            let fl1 = fields@.map_values(|p: (String, String)| (p.0@, p.1@));
            assert(fl1.drop_last() =~= fl0);
            assert(fl1.last() == (fields@.last().0@, fields@.last().1@));
            assert(enc_pair(fl1.last()) =~= b@.subrange(pair_start, q2 as int));
            assert(enc_pairs(fl1) =~= b@.subrange(p4 as int, q2 as int)) by {
                assert(b@.subrange(p4 as int, q2 as int) =~= b@.subrange(p4 as int, pair_start)
                    + b@.subrange(pair_start, q2 as int));
            }
            assert(pair_ok(b@, pair_start));
            assert(pair_end(b@, pair_start) == q2 as int);
            assert(pairs_ok(b@, pair_start, m) <==> pairs_ok(b@, q2 as int, m - 1));
            assert(pairs_at(b@, pair_start, m) == seq![(str_at(b@, pair_start), str_at(b@, q1 as int))]
                + pairs_at(b@, q2 as int, m - 1));
            assert(fl1 + pairs_at(b@, q2 as int, m - 1) =~= pairs_at(b@, p4 as int, nf as int));
            assert(pairs_end(b@, pair_start, m) == pairs_end(b@, q2 as int, m - 1));
        }
        fpos = q2;
        fi = fi + 1;
    }
    proof {
        assert(pairs_ok(b@, fpos as int, 0));
        assert(pairs_ok(b@, p4 as int, nf as int));
        assert(pairs_at(b@, fpos as int, 0) =~= Seq::<(Seq<char>, Seq<char>)>::empty());
        assert(fields@.map_values(|p: (String, String)| (p.0@, p.1@)) =~= pairs_at(
            b@,
            p4 as int,
            nf as int,
        ));
        assert(pairs_end(b@, fpos as int, 0) == fpos as int);
    }
    // Reject duplicate field names so the metadata is sound.
    let mut a: usize = 0;
    while a < fields.len()
        invariant
            a <= fields@.len(),
            forall|x: int, y: int|
                0 <= x < y < fields@.len() && x < a ==> (#[trigger] fields@[x].0@)
                    != (#[trigger] fields@[y].0@),
        decreases fields@.len() - a,
    {
        let mut c: usize = a + 1;
        while c < fields.len()
            invariant
                a < fields@.len(),
                a < c,
                forall|y: int| a < y < c ==> (#[trigger] fields@[y].0@) != fields@[a as int].0@,
            decreases fields@.len() - c,
        {
            if fields[a].0 == fields[c].0 {
                proof {
                    let fl = fields@.map_values(|p: (String, String)| (p.0@, p.1@));
                    assert(fl[a as int].0 == fl[c as int].0);
                    assert(!pairs_distinct(pairs_at(b@, p4 as int, nf as int)));
                    assert(!sv_ok(b@, pos as int));
                }
                return None;
            }
            c = c + 1;
        }
        a = a + 1;
    }
    let metadata = Metadata::from_pairs(fields);
    let sv = SerializedVector { internal_id: id64 as usize, string_id, data, metadata };
    proof {
        assert(enc_sv(sv@) =~= b@.subrange(pos as int, fpos as int));
        assert(sv_ok(b@, pos as int));
        assert(fpos == sv_end(b@, pos as int));
        assert(sv@ == sv_at(b@, pos as int));
    }
    Some((sv, fpos))
}

/// Decode `count` records from position 8.  Succeeds exactly when
/// the records are all well-formed in sequence.
#[verifier::loop_isolation(false)]
#[verifier::rlimit(100)]
#[verifier::spinoff_prover]
fn decode_sv_list(b: &Vec<u8>, count: usize) -> (r: Option<(Vec<SerializedVector>, usize)>)
    requires
        8 <= b@.len(),
        count as u64 == u64_at(b@, 0),
    ensures
        r is Some <==> svs_ok(b@, 8, count as int),
        r matches Some((vectors, np)) ==> {
            &&& forall|i: int|
                0 <= i < vectors@.len() ==> (#[trigger] vectors@[i]).metadata.wf()
            &&& vectors@.len() == count
            &&& 8 <= np <= b@.len()
            &&& np == svs_end(b@, 8, count as int)
            &&& vectors@.map_values(|v: SerializedVector| v@) == svs_at(b@, 8, count as int)
            &&& u64_le(count as u64) + enc_svs(vectors@.map_values(|v: SerializedVector| v@))
                == b@.subrange(0, np as int)
        },
{
    let mut pos: usize = 8;
    let mut vectors: Vec<SerializedVector> = Vec::new();
    proof {
        lemma_u64_reencode(b@, 0);
        assert(enc_svs(vectors@.map_values(|v: SerializedVector| v@)) =~= Seq::<u8>::empty());
        assert(u64_le(u64_at(b@, 0)) + enc_svs(vectors@.map_values(|v: SerializedVector| v@))
            =~= b@.subrange(0, pos as int));
        assert(vectors@.map_values(|v: SerializedVector| v@) + svs_at(b@, pos as int, count as int)
            =~= svs_at(b@, 8, count as int));
    }
    let mut vi: usize = 0;
    while vi < count
        invariant
            vi <= count,
            8 <= pos <= b@.len(),
            vectors@.len() == vi,
            forall|i: int| 0 <= i < vectors@.len() ==> (#[trigger] vectors@[i]).metadata.wf(),
            u64_le(u64_at(b@, 0)) + enc_svs(vectors@.map_values(|v: SerializedVector| v@))
                == b@.subrange(0, pos as int),
            svs_ok(b@, 8, count as int) <==> svs_ok(b@, pos as int, count - vi),
            vectors@.map_values(|v: SerializedVector| v@) + svs_at(b@, pos as int, count - vi)
                == svs_at(b@, 8, count as int),
            svs_end(b@, 8, count as int) == svs_end(b@, pos as int, count - vi),
        decreases count - vi,
    {
        let ghost svs0 = vectors@.map_values(|v: SerializedVector| v@);
        let ghost rec_start = pos as int;
        let ghost m = count - vi;
        let (sv, np) = match decode_sv(b, pos) {
            Some(x) => x,
            None => {
                proof {
                    assert(!sv_ok(b@, rec_start));
                    assert(!svs_ok(b@, rec_start, m));
                }
                return None;
            },
        };
        let ghost svv = sv@;
        vectors.push(sv);
        proof {
            let svs1 = vectors@.map_values(|v: SerializedVector| v@);
            assert(svs1.drop_last() =~= svs0);
            assert(svs1.last() == svv);
            assert(enc_svs(svs1) =~= b@.subrange(8, np as int)) by {
                assert(u64_le(u64_at(b@, 0)).len() == 8);
                assert(enc_svs(svs0) =~= b@.subrange(8, rec_start)) by {
                    assert forall|x: int| 0 <= x < enc_svs(svs0).len() implies enc_svs(svs0)[x]
                        == b@.subrange(8, rec_start)[x] by {
                        assert((u64_le(u64_at(b@, 0)) + enc_svs(svs0))[8 + x] == enc_svs(
                            svs0,
                        )[x]);
                        assert(b@.subrange(0, rec_start)[8 + x] == b@[8 + x]);
                    }
                }
                assert(b@.subrange(8, np as int) =~= b@.subrange(8, rec_start) + b@.subrange(
                    rec_start,
                    np as int,
                ));
            }
            assert(u64_le(u64_at(b@, 0)) + enc_svs(svs1) =~= b@.subrange(0, np as int));
            assert(sv_ok(b@, rec_start) && sv_end(b@, rec_start) == np as int);
            assert(svs_ok(b@, rec_start, m) <==> svs_ok(b@, np as int, m - 1));
            assert(svs_at(b@, rec_start, m) == seq![sv_at(b@, rec_start)] + svs_at(
                b@,
                np as int,
                m - 1,
            ));
            assert(svs1 + svs_at(b@, np as int, m - 1) =~= svs_at(b@, 8, count as int));
            assert(svs_end(b@, rec_start, m) == svs_end(b@, np as int, m - 1));
        }
        pos = np;
        vi = vi + 1;
    }
    proof {
        assert(svs_ok(b@, pos as int, 0));
        assert(svs_ok(b@, 8, count as int));
        assert(svs_at(b@, pos as int, 0) =~= Seq::<SvView>::empty());
        assert(vectors@.map_values(|v: SerializedVector| v@) =~= svs_at(b@, 8, count as int));
        assert(svs_end(b@, pos as int, 0) == pos as int);
        assert(svs_end(b@, 8, count as int) == pos as int);
    }
    Some((vectors, pos))
}

/// Decode a snapshot.
///
/// Succeeds exactly on well-formed snapshot bytes (`snapshot_ok`),
/// yielding the snapshot they hold; duplicate field names are
/// rejected, so every decoded metadata value is sound.  Re-encoding
/// the decoded value yields exactly the input bytes: snapshot content
/// is stable across a load.
#[verifier::loop_isolation(false)]
#[verifier::rlimit(100)]
#[verifier::spinoff_prover]
pub fn decode_snapshot(b: &Vec<u8>) -> (r: Option<DatabaseSnapshot>)
    ensures
        r is Some <==> snapshot_ok(b@),
        r matches Some(s) ==> {
            &&& forall|i: int|
                0 <= i < s.vectors@.len() ==> (#[trigger] s.vectors@[i]).metadata.wf()
            &&& s@ == snapshot_at(b@)
            &&& enc_snapshot(s@) == b@
        },
{
    let blen = b.len();
    let count64 = match read_u64_le(b, 0) {
        Some(x) => x,
        None => {
            proof {
                assert(!snapshot_ok(b@));
            }
            return None;
        },
    };
    if count64 > usize::MAX as u64 {
        proof {
            assert(!snapshot_ok(b@));
        }
        return None;
    }
    let count = count64 as usize;
    let (vectors, pos) = match decode_sv_list(b, count) {
        Some(x) => x,
        None => {
            proof {
                assert(!snapshot_ok(b@));
            }
            return None;
        },
    };
    let ghost p = svs_end(b@, 8, count as int);
    proof {
        assert(p == pos as int);
    }
    let next64 = match read_u64_le(b, pos) {
        Some(x) => x,
        None => {
            proof {
                assert(p + 9 > b@.len());
                assert(!snapshot_ok(b@));
            }
            return None;
        },
    };
    if next64 > usize::MAX as u64 {
        proof {
            assert(u64_at(b@, p) > usize::MAX as u64);
            assert(!snapshot_ok(b@));
        }
        return None;
    }
    proof {
        lemma_u64_reencode(b@, pos as int);
    }
    let p5 = pos + 8;
    if p5 >= b.len() {
        proof {
            assert(p + 9 > b@.len());
            assert(!snapshot_ok(b@));
        }
        return None;
    }
    let tag = b[p5];
    let snapshot: DatabaseSnapshot;
    let end: usize;
    if tag == 1u8 {
        let d64 = match read_u64_le(b, p5 + 1) {
            Some(x) => x,
            None => {
                proof {
                    assert(b@[p + 8] == 1u8 && p + 17 > b@.len());
                    assert(!snapshot_ok(b@));
                }
                return None;
            },
        };
        if d64 > usize::MAX as u64 {
            proof {
                assert(b@[p + 8] == 1u8 && u64_at(b@, p + 9) > usize::MAX as u64);
                assert(!snapshot_ok(b@));
            }
            return None;
        }
        proof {
            lemma_u64_reencode(b@, p5 + 1 as int);
        }
        snapshot = DatabaseSnapshot {
            vectors,
            next_id: next64 as usize,
            dimension: Some(d64 as usize),
        };
        end = p5 + 9;
    } else if tag == 0u8 {
        snapshot = DatabaseSnapshot { vectors, next_id: next64 as usize, dimension: None };
        end = p5 + 1;
    } else {
        proof {
            assert(b@[p + 8] != 0u8 && b@[p + 8] != 1u8);
            assert(!snapshot_ok(b@));
        }
        return None;
    }
    if end != b.len() {
        proof {
            assert(!snapshot_ok(b@));
        }
        return None;
    }
    proof {
        assert(enc_snapshot(snapshot@) =~= b@) by {
            assert(b@.subrange(0, b@.len() as int) =~= b@);
        }
        assert(snapshot_ok(b@));
        assert(snapshot@ == snapshot_at(b@));
    }
    Some(snapshot)
}


/// The machine bounds under which a record round-trips through the
/// codec: sizes fit their length fields, the id fits `usize`, and
/// field names are distinct.
pub open spec fn sv_wf(v: SvView) -> bool {
    &&& v.internal_id <= usize::MAX as u64
    &&& str_bytes(v.string_id).len() <= u64::MAX
    &&& v.data.len() <= u64::MAX
    &&& v.fields.len() <= usize::MAX
    &&& pairs_distinct(v.fields)
    &&& forall|i: int|
        0 <= i < v.fields.len() ==> str_bytes((#[trigger] v.fields[i]).0).len() <= u64::MAX
            && str_bytes(v.fields[i].1).len() <= u64::MAX
}

/// The machine bounds under which a whole snapshot round-trips.
pub open spec fn snap_wf(s: SnapView) -> bool {
    &&& s.vectors.len() <= usize::MAX
    &&& s.next_id <= usize::MAX as u64
    &&& (s.dimension matches Some(d) ==> d <= usize::MAX as u64)
    &&& forall|i: int| 0 <= i < s.vectors.len() ==> sv_wf(#[trigger] s.vectors[i])
}

/// A slice of an embedded byte range is itself embedded.
proof fn lemma_sub_embed(b: Seq<u8>, pos: int, whole: Seq<u8>, off: int, part: Seq<u8>)
    requires
        0 <= pos,
        pos + whole.len() <= b.len(),
        b.subrange(pos, pos + whole.len()) == whole,
        0 <= off,
        off + part.len() <= whole.len(),
        forall|k: int| 0 <= k < part.len() ==> (#[trigger] part[k]) == whole[off + k],
    ensures
        b.subrange(pos + off, pos + off + part.len()) == part,
{
    assert forall|k: int|
        0 <= k < part.len() implies #[trigger] b.subrange(
        pos + off,
        pos + off + part.len(),
    )[k] == part[k] by {
        assert(b.subrange(pos + off, pos + off + part.len())[k] == b[pos + off + k]);
        assert(b.subrange(pos, pos + whole.len())[off + k] == b[pos + (off + k)]);
    }
    assert(b.subrange(pos + off, pos + off + part.len()) =~= part);
}

/// A pair list's encoding decomposes at the front.
proof fn lemma_enc_pairs_first(l: Seq<(Seq<char>, Seq<char>)>)
    requires
        l.len() > 0,
    ensures
        enc_pairs(l) == enc_pair(l.first()) + enc_pairs(l.drop_first()),
    decreases l.len(),
{
    if l.len() == 1 {
        assert(l.drop_last() =~= Seq::<(Seq<char>, Seq<char>)>::empty());
        assert(l.drop_first() =~= Seq::<(Seq<char>, Seq<char>)>::empty());
        assert(l.first() == l.last());
        assert(enc_pairs(l) =~= enc_pair(l.first()) + enc_pairs(l.drop_first()));
    } else {
        lemma_enc_pairs_first(l.drop_last());
        assert(l.drop_first().drop_last() =~= l.drop_last().drop_first());
        assert(l.drop_first().last() == l.last());
        assert(l.drop_last().first() == l.first());
        assert(enc_pairs(l.drop_first()) == enc_pairs(l.drop_first().drop_last()) + enc_pair(
            l.drop_first().last(),
        ));
        assert(enc_pairs(l) =~= enc_pair(l.first()) + enc_pairs(l.drop_first()));
    }
}

/// A record list's encoding decomposes at the front.
proof fn lemma_enc_svs_first(l: Seq<SvView>)
    requires
        l.len() > 0,
    ensures
        enc_svs(l) == enc_sv(l.first()) + enc_svs(l.drop_first()),
    decreases l.len(),
{
    if l.len() == 1 {
        assert(l.drop_last() =~= Seq::<SvView>::empty());
        assert(l.drop_first() =~= Seq::<SvView>::empty());
        assert(l.first() == l.last());
        assert(enc_svs(l) =~= enc_sv(l.first()) + enc_svs(l.drop_first()));
    } else {
        lemma_enc_svs_first(l.drop_last());
        assert(l.drop_first().drop_last() =~= l.drop_last().drop_first());
        assert(l.drop_first().last() == l.last());
        assert(l.drop_last().first() == l.first());
        assert(enc_svs(l.drop_first()) == enc_svs(l.drop_first().drop_last()) + enc_sv(
            l.drop_first().last(),
        ));
        assert(enc_svs(l) =~= enc_sv(l.first()) + enc_svs(l.drop_first()));
    }
}

/// An embedded encoded pair parses back to itself.
proof fn lemma_pair_parse(b: Seq<u8>, pos: int, p: (Seq<char>, Seq<char>))
    requires
        0 <= pos,
        str_bytes(p.0).len() <= u64::MAX,
        str_bytes(p.1).len() <= u64::MAX,
        pos + enc_pair(p).len() <= b.len(),
        b.subrange(pos, pos + enc_pair(p).len()) == enc_pair(p),
    ensures
        pair_ok(b, pos),
        pair_end(b, pos) == pos + enc_pair(p).len(),
        str_at(b, pos) == p.0,
        str_at(b, str_end(b, pos)) == p.1,
{
    let e0 = enc_string(p.0);
    let e1 = enc_string(p.1);
    lemma_sub_embed(b, pos, enc_pair(p), 0, e0);
    lemma_read_string_at(b, pos, p.0);
    lemma_sub_embed(b, pos, enc_pair(p), e0.len() as int, e1);
    lemma_read_string_at(b, pos + e0.len(), p.1);
}

/// An embedded encoded pair list parses back to itself.
proof fn lemma_pairs_parse(b: Seq<u8>, pos: int, l: Seq<(Seq<char>, Seq<char>)>)
    requires
        0 <= pos,
        forall|i: int|
            0 <= i < l.len() ==> str_bytes((#[trigger] l[i]).0).len() <= u64::MAX && str_bytes(
                l[i].1,
            ).len() <= u64::MAX,
        pos + enc_pairs(l).len() <= b.len(),
        b.subrange(pos, pos + enc_pairs(l).len()) == enc_pairs(l),
    ensures
        pairs_ok(b, pos, l.len() as int),
        pairs_end(b, pos, l.len() as int) == pos + enc_pairs(l).len(),
        pairs_at(b, pos, l.len() as int) == l,
    decreases l.len(),
{
    if l.len() == 0 {
        assert(pairs_at(b, pos, 0) =~= l);
    } else {
        lemma_enc_pairs_first(l);
        let head = enc_pair(l.first());
        lemma_sub_embed(b, pos, enc_pairs(l), 0, head);
        lemma_pair_parse(b, pos, l.first());
        let rest = enc_pairs(l.drop_first());
        lemma_sub_embed(b, pos, enc_pairs(l), head.len() as int, rest);
        lemma_pairs_parse(b, pos + head.len(), l.drop_first());
        assert(pair_end(b, pos) == pos + head.len());
        assert(pairs_at(b, pos, l.len() as int) =~= l) by {
            assert(pairs_at(b, pos, l.len() as int) == seq![
                (str_at(b, pos), str_at(b, str_end(b, pos))),
            ] + pairs_at(b, pair_end(b, pos), l.len() - 1));
        }
    }
}

/// An embedded encoded record parses back to itself.
proof fn lemma_sv_parse(b: Seq<u8>, pos: int, v: SvView)
    requires
        0 <= pos,
        sv_wf(v),
        pos + enc_sv(v).len() <= b.len(),
        b.subrange(pos, pos + enc_sv(v).len()) == enc_sv(v),
    ensures
        sv_ok(b, pos),
        sv_end(b, pos) == pos + enc_sv(v).len(),
        sv_at(b, pos) == v,
{
    let e = enc_sv(v);
    let eid = u64_le(v.internal_id);
    let es = enc_string(v.string_id);
    let ed = enc_data(v.data);
    let ef = u64_le(v.fields.len() as u64);
    let ep = enc_pairs(v.fields);
    lemma_sub_embed(b, pos, e, 0, eid);
    lemma_u64_at_of_le(b, pos, v.internal_id);
    lemma_sub_embed(b, pos, e, 8, es);
    lemma_read_string_at(b, pos + 8, v.string_id);
    let p2 = pos + 8 + es.len() as int;
    lemma_sub_embed(b, pos, e, 8 + es.len() as int, ed);
    lemma_read_data_at(b, p2, v.data);
    let p3 = p2 + ed.len() as int;
    lemma_sub_embed(b, pos, e, 8 + es.len() + ed.len() as int, ef);
    lemma_u64_at_of_le(b, p3, v.fields.len() as u64);
    lemma_sub_embed(b, pos, e, 8 + es.len() + ed.len() + 8 as int, ep);
    lemma_pairs_parse(b, p3 + 8, v.fields);
}

/// An embedded encoded record list parses back to itself.
proof fn lemma_svs_parse(b: Seq<u8>, pos: int, l: Seq<SvView>)
    requires
        0 <= pos,
        forall|i: int| 0 <= i < l.len() ==> sv_wf(#[trigger] l[i]),
        pos + enc_svs(l).len() <= b.len(),
        b.subrange(pos, pos + enc_svs(l).len()) == enc_svs(l),
    ensures
        svs_ok(b, pos, l.len() as int),
        svs_end(b, pos, l.len() as int) == pos + enc_svs(l).len(),
        svs_at(b, pos, l.len() as int) == l,
    decreases l.len(),
{
    if l.len() == 0 {
        assert(svs_at(b, pos, 0) =~= l);
    } else {
        lemma_enc_svs_first(l);
        let head = enc_sv(l.first());
        lemma_sub_embed(b, pos, enc_svs(l), 0, head);
        lemma_sv_parse(b, pos, l.first());
        let rest = enc_svs(l.drop_first());
        lemma_sub_embed(b, pos, enc_svs(l), head.len() as int, rest);
        lemma_svs_parse(b, pos + head.len(), l.drop_first());
        assert(svs_at(b, pos, l.len() as int) =~= l) by {
            assert(svs_at(b, pos, l.len() as int) == seq![sv_at(b, pos)] + svs_at(
                b,
                sv_end(b, pos),
                l.len() - 1,
            ));
        }
    }
}

/// Saving then loading succeeds: the encoding of any snapshot within
/// the machine bounds is a well-formed byte sequence that decodes
/// back to the same snapshot.  Together with the byte identity of
/// `decode_snapshot`, a snapshot survives a save, a load and a second
/// save without a byte changing.
/// The record section of an encoded snapshot parses back to its
/// records.
#[verifier::rlimit(100)]
#[verifier::spinoff_prover]
proof fn lemma_snapshot_parse_records(s: SnapView)
    requires
        snap_wf(s),
    ensures
        ({
            let b = enc_snapshot(s);
            &&& 8 + enc_svs(s.vectors).len() <= b.len()
            &&& u64_at(b, 0) == s.vectors.len() as u64
            &&& svs_ok(b, 8, s.vectors.len() as int)
            &&& svs_end(b, 8, s.vectors.len() as int) == 8 + enc_svs(s.vectors).len()
            &&& svs_at(b, 8, s.vectors.len() as int) == s.vectors
        }),
{
    let b = enc_snapshot(s);
    let ec = u64_le(s.vectors.len() as u64);
    let ev = enc_svs(s.vectors);
    assert(b.subrange(0, b.len() as int) =~= b);
    lemma_sub_embed(b, 0, b, 0, ec);
    lemma_u64_at_of_le(b, 0, s.vectors.len() as u64);
    lemma_sub_embed(b, 0, b, 8, ev);
    lemma_svs_parse(b, 8, s.vectors);
}

/// The counter and dimension at the end of an encoded snapshot parse
/// back to their values.
#[verifier::rlimit(100)]
#[verifier::spinoff_prover]
proof fn lemma_snapshot_parse_tail(s: SnapView)
    requires
        snap_wf(s),
    ensures
        ({
            let b = enc_snapshot(s);
            let p = 8 + enc_svs(s.vectors).len() as int;
            &&& p + 9 <= b.len()
            &&& u64_at(b, p) == s.next_id
            &&& (s.dimension matches Some(d) ==> b[p + 8] == 1u8 && b.len() == p + 17 && u64_at(
                b,
                p + 9,
            ) == d)
            &&& (s.dimension is None ==> b[p + 8] == 0u8 && b.len() == p + 9)
        }),
{
    let b = enc_snapshot(s);
    let ev = enc_svs(s.vectors);
    let en = u64_le(s.next_id);
    let p = 8 + ev.len() as int;
    assert(b.subrange(0, b.len() as int) =~= b);
    lemma_sub_embed(b, 0, b, 8 + ev.len() as int, en);
    lemma_u64_at_of_le(b, p, s.next_id);
    match s.dimension {
        Some(d) => {
            assert(b[p + 8] == 1u8) by {
                assert(b[p + 8] == (seq![1u8] + u64_le(d))[0]);
            }
            lemma_sub_embed(b, 0, b, 8 + ev.len() + 9 as int, u64_le(d));
            lemma_u64_at_of_le(b, p + 9, d);
        },
        None => {
            assert(b[p + 8] == 0u8) by {
                assert(b[p + 8] == (seq![0u8])[0]);
            }
        },
    }
}

/// Saving then loading succeeds: the encoding of any snapshot within
/// the machine bounds is a well-formed byte sequence that decodes
/// back to the same snapshot.  Together with the byte identity of
/// `decode_snapshot`, a snapshot survives a save, a load and a second
/// save without a byte changing.
#[verifier::rlimit(100)]
#[verifier::spinoff_prover]
pub proof fn lemma_snapshot_round_trip(s: SnapView)
    requires
        snap_wf(s),
    ensures
        snapshot_ok(enc_snapshot(s)),
        snapshot_at(enc_snapshot(s)) == s,
{
    let b = enc_snapshot(s);
    lemma_snapshot_parse_records(s);
    lemma_snapshot_parse_tail(s);
    let p = svs_end(b, 8, u64_at(b, 0) as int);
    assert(p == 8 + enc_svs(s.vectors).len() as int);
    assert(snapshot_ok(b));
    assert(snapshot_at(b) =~= s) by {
        assert(snapshot_at(b).vectors == s.vectors);
        assert(snapshot_at(b).next_id == s.next_id);
        assert(snapshot_at(b).dimension == s.dimension);
    }
}

} // verus!
