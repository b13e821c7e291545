//! The write-ahead log format.
//!
//! Each record is framed as `[payload length: u32 LE][CRC-32 of the
//! payload: u32 LE][payload]`.  The payload is an encoded [`WalEntry`].
//! Replay scans records from the front and stops at the first record
//! whose length cannot be read, whose CRC does not match, or whose
//! payload does not decode: a partial write is as if it never happened.
//!
//! The embedding program owns the log file; this module produces record
//! bytes for it to append (and fsync), and turns the file's bytes back
//! into entries.

use vstd::prelude::*;

use crate::codec::{
    data_at, data_end, data_ok, enc_data, enc_string, lemma_read_data_at, lemma_read_string_at,
    lemma_u64_at_of_le, lemma_u32_at_of_le, push_data, push_string, push_u32_le, push_u64_le,
    read_data, read_string, read_u32_le, read_u64_le, str_at, str_bytes, str_end, str_ok, u32_at,
    u32_le, u64_at, u64_le,
};
use crate::error::VectorDbError;

verus! {

/// A single log entry.
///
/// Internal ids are deliberately not authoritative in the log: replay
/// re-derives them.  The insert entry still records the id current at
/// append time, as a diagnostic.
#[derive(Debug)]
pub enum WalEntry {
    Insert { string_id: String, internal_id: usize, data: Vec<u32> },
    Delete { string_id: String },
    Checkpoint,
}

/// The mathematical content of a log entry.
pub enum WalOp {
    Insert { string_id: Seq<char>, internal_id: u64, data: Seq<u32> },
    Delete { string_id: Seq<char> },
    Checkpoint,
}

impl View for WalEntry {
    type V = WalOp;

    open spec fn view(&self) -> WalOp {
        match self {
            WalEntry::Insert { string_id, internal_id, data } => WalOp::Insert {
                string_id: string_id@,
                internal_id: *internal_id as u64,
                data: data@,
            },
            WalEntry::Delete { string_id } => WalOp::Delete { string_id: string_id@ },
            WalEntry::Checkpoint => WalOp::Checkpoint,
        }
    }
}

/// The machine bounds an entry must satisfy to be encodable.
pub open spec fn op_wf(e: WalOp) -> bool {
    match e {
        WalOp::Insert { string_id, internal_id, data } => {
            &&& str_bytes(string_id).len() <= u64::MAX
            &&& data.len() <= u64::MAX
            &&& internal_id <= usize::MAX as u64
        },
        WalOp::Delete { string_id } => str_bytes(string_id).len() <= u64::MAX,
        WalOp::Checkpoint => true,
    }
}

/// The payload encoding of an entry: a one-byte tag, then its fields.
pub open spec fn enc_entry(e: WalOp) -> Seq<u8> {
    match e {
        WalOp::Insert { string_id, internal_id, data } => seq![0u8] + enc_string(string_id)
            + u64_le(internal_id) + enc_data(data),
        WalOp::Delete { string_id } => seq![1u8] + enc_string(string_id),
        WalOp::Checkpoint => seq![2u8],
    }
}

/// Whether a payload decodes as an entry, consuming every byte.
pub open spec fn entry_ok(s: Seq<u8>) -> bool {
    &&& s.len() >= 1
    &&& if s[0] == 0u8 {
        &&& str_ok(s, 1)
        &&& str_end(s, 1) + 8 <= s.len()
        &&& u64_at(s, str_end(s, 1)) <= usize::MAX as u64
        &&& data_ok(s, str_end(s, 1) + 8)
        &&& data_end(s, str_end(s, 1) + 8) == s.len()
    } else if s[0] == 1u8 {
        str_ok(s, 1) && str_end(s, 1) == s.len()
    } else if s[0] == 2u8 {
        s.len() == 1
    } else {
        false
    }
}

/// The entry a payload decodes to.
pub open spec fn entry_at(s: Seq<u8>) -> WalOp {
    if s[0] == 0u8 {
        WalOp::Insert {
            string_id: str_at(s, 1),
            internal_id: u64_at(s, str_end(s, 1)),
            data: data_at(s, str_end(s, 1) + 8),
        }
    } else if s[0] == 1u8 {
        WalOp::Delete { string_id: str_at(s, 1) }
    } else {
        WalOp::Checkpoint
    }
}

/// Encode an entry's payload.
pub fn encode_entry(e: &WalEntry) -> (r: Vec<u8>)
    ensures
        r@ == enc_entry(e@),
{
    let mut out: Vec<u8> = Vec::new();
    match e {
        WalEntry::Insert { string_id, internal_id, data } => {
            out.push(0u8);
            push_string(&mut out, string_id);
            push_u64_le(&mut out, *internal_id as u64);
            push_data(&mut out, data);
            proof {
                assert(out@ =~= enc_entry(e@));
            }
        },
        WalEntry::Delete { string_id } => {
            out.push(1u8);
            push_string(&mut out, string_id);
            proof {
                assert(out@ =~= enc_entry(e@));
            }
        },
        WalEntry::Checkpoint => {
            out.push(2u8);
            proof {
                assert(out@ =~= enc_entry(e@));
            }
        },
    }
    out
}

/// Decode an entry from a payload; the payload must be consumed whole.
pub fn decode_entry(b: &Vec<u8>) -> (r: Option<WalEntry>)
    ensures
        r is Some <==> entry_ok(b@),
        r matches Some(e) ==> e@ == entry_at(b@),
{
    if b.len() < 1 {
        return None;
    }
    let tag = b[0];
    if tag == 0u8 {
        let (string_id, p1) = match read_string(b, 1) {
            Some(x) => x,
            None => {
                return None;
            },
        };
        let id64 = match read_u64_le(b, p1) {
            Some(x) => x,
            None => {
                return None;
            },
        };
        if id64 > usize::MAX as u64 {
            return None;
        }
        let (data, p2) = match read_data(b, p1 + 8) {
            Some(x) => x,
            None => {
                return None;
            },
        };
        if p2 != b.len() {
            return None;
        }
        Some(WalEntry::Insert { string_id, internal_id: id64 as usize, data })
    } else if tag == 1u8 {
        let (string_id, p1) = match read_string(b, 1) {
            Some(x) => x,
            None => {
                return None;
            },
        };
        if p1 != b.len() {
            return None;
        }
        Some(WalEntry::Delete { string_id })
    } else if tag == 2u8 {
        if b.len() != 1 {
            return None;
        }
        Some(WalEntry::Checkpoint)
    } else {
        None
    }
}

/// Decoding an encoded entry gives the entry back.
pub proof fn lemma_entry_round_trip(e: WalOp)
    requires
        op_wf(e),
    ensures
        entry_ok(enc_entry(e)),
        entry_at(enc_entry(e)) == e,
{
    let s = enc_entry(e);
    match e {
        WalOp::Insert { string_id, internal_id, data } => {
            let es = enc_string(string_id);
            let p1 = 1 + es.len() as int;
            assert(s.subrange(1, p1) =~= es);
            lemma_read_string_at(s, 1, string_id);
            assert(s.subrange(p1, p1 + 8) =~= u64_le(internal_id));
            lemma_u64_at_of_le(s, p1, internal_id);
            let ed = enc_data(data);
            assert(s.subrange(p1 + 8, p1 + 8 + ed.len() as int) =~= ed);
            lemma_read_data_at(s, p1 + 8, data);
        },
        WalOp::Delete { string_id } => {
            let es = enc_string(string_id);
            assert(s.subrange(1, 1 + es.len() as int) =~= es);
            lemma_read_string_at(s, 1, string_id);
        },
        WalOp::Checkpoint => {},
    }
}

/// The CRC-32 checksum of a byte sequence, as the log's framing uses
/// it: a pure function of the bytes.
pub uninterp spec fn crc32_of(bytes: Seq<u8>) -> u32;

/// Relies on `crc32fast::hash`: the CRC-32 (IEEE polynomial) of the
/// bytes, a function of the bytes alone.
#[verifier::external_body]
fn crc32(data: &Vec<u8>) -> (r: u32)
    ensures
        r == crc32_of(data@),
{
    crc32fast::hash(data.as_slice())
}

/// The framing of one record around its payload.
pub open spec fn frame(payload: Seq<u8>) -> Seq<u8> {
    u32_le(payload.len() as u32) + u32_le(crc32_of(payload)) + payload
}

/// A payload must fit the 32-bit length field.
pub open spec fn frame_wf(payload: Seq<u8>) -> bool {
    payload.len() <= u32::MAX
}

/// Encode an entry as a framed record, ready to be appended to the log.
pub fn encode_record(e: &WalEntry) -> (r: Result<Vec<u8>, VectorDbError>)
    ensures
        r matches Ok(bytes) ==> bytes@ == frame(enc_entry(e@)) && frame_wf(enc_entry(e@)),
        r is Err <==> !frame_wf(enc_entry(e@)),
{
    let mut payload = encode_entry(e);
    if payload.len() > u32::MAX as usize {
        return Err(VectorDbError::SerializationError("log record payload too long".to_owned()));
    }
    let c = crc32(&payload);
    let mut out: Vec<u8> = Vec::new();
    push_u32_le(&mut out, payload.len() as u32);
    push_u32_le(&mut out, c);
    out.append(&mut payload);
    proof {
        assert(out@ =~= frame(enc_entry(e@)));
    }
    Ok(out)
}

/// The entries of every complete, checksummed, decodable record from
/// `pos` on, stopping at the first record that is not.
pub open spec fn scan_from(s: Seq<u8>, pos: int) -> Seq<WalOp>
    decreases s.len() - pos,
    when 0 <= pos <= s.len()
{
    if pos + 8 > s.len() {
        Seq::empty()
    } else {
        let len = u32_at(s, pos) as int;
        if pos + 8 + len > s.len() {
            Seq::empty()
        } else {
            let payload = s.subrange(pos + 8, pos + 8 + len);
            if u32_at(s, pos + 4) == crc32_of(payload) && entry_ok(payload) {
                seq![entry_at(payload)] + scan_from(s, pos + 8 + len)
            } else {
                Seq::empty()
            }
        }
    }
}

/// Whether scanning from `pos` consumes the bytes exactly: every record
/// complete and sound, with no trailing bytes.
pub open spec fn valid_from(s: Seq<u8>, pos: int) -> bool
    decreases s.len() - pos,
    when 0 <= pos <= s.len()
{
    if pos + 8 > s.len() {
        pos == s.len()
    } else {
        let len = u32_at(s, pos) as int;
        if pos + 8 + len > s.len() {
            false
        } else {
            let payload = s.subrange(pos + 8, pos + 8 + len);
            &&& u32_at(s, pos + 4) == crc32_of(payload)
            &&& entry_ok(payload)
            &&& valid_from(s, pos + 8 + len)
        }
    }
}

/// Replay a log: return the entries of the longest valid prefix.
pub fn replay_bytes(b: &Vec<u8>) -> (r: Vec<WalEntry>)
    ensures
        r@.map_values(|e: WalEntry| e@) == scan_from(b@, 0),
{
    let mut entries: Vec<WalEntry> = Vec::new();
    let mut pos: usize = 0;
    loop
        invariant
            pos <= b@.len(),
            scan_from(b@, 0) == entries@.map_values(|e: WalEntry| e@) + scan_from(b@, pos as int),
        ensures
            scan_from(b@, 0) == entries@.map_values(|e: WalEntry| e@),
        decreases b@.len() - pos,
    {
        let blen = b.len();
        let len32 = match read_u32_le(b, pos) {
            Some(x) => x,
            None => {
                break ;
            },
        };
        let crc_stored = match read_u32_le(b, pos + 4) {
            Some(x) => x,
            None => {
                break ;
            },
        };
        let len = len32 as usize;
        if len > b.len() - (pos + 8) {
            break ;
        }
        let payload = crate::codec::copy_range(b, pos + 8, pos + 8 + len);
        let crc_actual = crc32(&payload);
        if crc_actual != crc_stored {
            break ;
        }
        let entry = match decode_entry(&payload) {
            Some(e) => e,
            None => {
                break ;
            },
        };
        let ghost pre = entries@;
        entries.push(entry);
        proof {
            assert(entries@.map_values(|e: WalEntry| e@) =~= pre.map_values(|e: WalEntry| e@)
                + seq![entry@]);
            assert(scan_from(b@, pos as int) == seq![entry@] + scan_from(
                b@,
                pos + 8 + len as int,
            ));
        }
        pos = pos + 8 + len;
    }
    entries
}


/// The encoding of a whole log: each entry framed, in order.
pub open spec fn enc_log(ops: Seq<WalOp>) -> Seq<u8>
    decreases ops.len(),
{
    if ops.len() == 0 {
        Seq::empty()
    } else {
        enc_log(ops.drop_last()) + frame(enc_entry(ops.last()))
    }
}

/// Truncating a log's tail never invents entries: replaying a
/// truncated log yields a prefix of replaying the whole log, whatever
/// the cut point.
pub proof fn lemma_truncated_scan_is_prefix(s: Seq<u8>, j: int, pos: int)
    requires
        0 <= pos <= j <= s.len(),
    ensures
        scan_from(s.subrange(0, j), pos).is_prefix_of(scan_from(s, pos)),
    decreases j - pos,
{
    let t = s.subrange(0, j);
    if pos + 8 > t.len() {
        assert(scan_from(t, pos) == Seq::<WalOp>::empty());
        assert(Seq::<WalOp>::empty().is_prefix_of(scan_from(s, pos)));
    } else {
        assert(u32_at(t, pos) == u32_at(s, pos)) by {
            assert(t[pos] == s[pos] && t[pos + 1] == s[pos + 1] && t[pos + 2] == s[pos + 2]
                && t[pos + 3] == s[pos + 3]);
        }
        assert(u32_at(t, pos + 4) == u32_at(s, pos + 4)) by {
            assert(t[pos + 4] == s[pos + 4] && t[pos + 5] == s[pos + 5] && t[pos + 6] == s[pos
                + 6] && t[pos + 7] == s[pos + 7]);
        }
        let len = u32_at(t, pos) as int;
        if pos + 8 + len > t.len() {
            assert(scan_from(t, pos) == Seq::<WalOp>::empty());
            assert(Seq::<WalOp>::empty().is_prefix_of(scan_from(s, pos)));
        } else {
            let pt = t.subrange(pos + 8, pos + 8 + len);
            let ps = s.subrange(pos + 8, pos + 8 + len);
            assert(pt =~= ps);
            if u32_at(t, pos + 4) == crc32_of(pt) && entry_ok(pt) {
                lemma_truncated_scan_is_prefix(s, j, pos + 8 + len);
                let a = scan_from(t, pos + 8 + len);
                let b = scan_from(s, pos + 8 + len);
                assert(scan_from(t, pos) == seq![entry_at(pt)] + a);
                assert(scan_from(s, pos) == seq![entry_at(ps)] + b);
                assert((seq![entry_at(pt)] + a).is_prefix_of(seq![entry_at(ps)] + b)) by {
                    assert(a =~= b.subrange(0, a.len() as int));
                    assert((seq![entry_at(pt)] + a) =~= (seq![entry_at(ps)] + b).subrange(
                        0,
                        a.len() as int + 1,
                    ));
                }
            } else {
                assert(scan_from(t, pos) == Seq::<WalOp>::empty());
                assert(Seq::<WalOp>::empty().is_prefix_of(scan_from(s, pos)));
            }
        }
    }
}

/// Appending one whole record to a cleanly consumed log extends its
/// replay by exactly that entry.
pub proof fn lemma_scan_append(s: Seq<u8>, e: WalOp, pos: int)
    requires
        0 <= pos <= s.len(),
        valid_from(s, pos),
        op_wf(e),
        frame_wf(enc_entry(e)),
    ensures
        valid_from(s + frame(enc_entry(e)), pos),
        scan_from(s + frame(enc_entry(e)), pos) == scan_from(s, pos) + seq![e],
    decreases s.len() - pos,
{
    let p = enc_entry(e);
    let f = frame(p);
    let s2 = s + f;
    if pos + 8 > s.len() {
        assert(pos == s.len());
        assert(scan_from(s, pos) == Seq::<WalOp>::empty());
        assert(s2.subrange(pos, pos + 4) =~= u32_le(p.len() as u32));
        lemma_u32_at_of_le(s2, pos, p.len() as u32);
        assert(s2.subrange(pos + 4, pos + 8) =~= u32_le(crc32_of(p)));
        lemma_u32_at_of_le(s2, pos + 4, crc32_of(p));
        assert(u32_at(s2, pos) as int == p.len());
        assert(s2.subrange(pos + 8, pos + 8 + p.len() as int) =~= p);
        lemma_entry_round_trip(e);
        assert(scan_from(s2, pos) == seq![entry_at(p)] + scan_from(s2, pos + 8 + p.len() as int));
        assert(pos + 8 + p.len() as int == s2.len());
        assert(scan_from(s2, s2.len() as int) == Seq::<WalOp>::empty());
        assert(scan_from(s2, pos) =~= scan_from(s, pos) + seq![e]);
        assert(p.len() >= 1) by {
            if e is Insert {
            } else if e is Delete {
            } else {
            }
        }
        assert(valid_from(s2, s2.len() as int));
        assert(valid_from(s2, pos));
    } else {
        let len = u32_at(s, pos) as int;
        assert(pos + 8 + len <= s.len());
        assert(u32_at(s2, pos) == u32_at(s, pos)) by {
            assert(s2[pos] == s[pos] && s2[pos + 1] == s[pos + 1] && s2[pos + 2] == s[pos + 2]
                && s2[pos + 3] == s[pos + 3]);
        }
        assert(u32_at(s2, pos + 4) == u32_at(s, pos + 4)) by {
            assert(s2[pos + 4] == s[pos + 4] && s2[pos + 5] == s[pos + 5] && s2[pos + 6] == s[pos
                + 6] && s2[pos + 7] == s[pos + 7]);
        }
        let pl = s.subrange(pos + 8, pos + 8 + len);
        let pl2 = s2.subrange(pos + 8, pos + 8 + len);
        assert(pl2 =~= pl);
        lemma_scan_append(s, e, pos + 8 + len);
        assert(scan_from(s2, pos) =~= scan_from(s, pos) + seq![e]);
        assert(valid_from(s2, pos));
    }
}

/// Replaying an encoded log yields exactly its entries.
pub proof fn lemma_log_round_trip(ops: Seq<WalOp>)
    requires
        forall|i: int|
            0 <= i < ops.len() ==> op_wf(#[trigger] ops[i]) && frame_wf(enc_entry(ops[i])),
    ensures
        valid_from(enc_log(ops), 0),
        scan_from(enc_log(ops), 0) == ops,
    decreases ops.len(),
{
    if ops.len() == 0 {
        assert(scan_from(enc_log(ops), 0) =~= ops);
    } else {
        let dl = ops.drop_last();
        lemma_log_round_trip(dl);
        assert(op_wf(ops.last()) && frame_wf(enc_entry(ops.last()))) by {
            assert(ops[ops.len() - 1] == ops.last());
        }
        lemma_scan_append(enc_log(dl), ops.last(), 0);
        assert(scan_from(enc_log(ops), 0) =~= ops) by {
            assert(dl + seq![ops.last()] =~= ops);
        }
    }
}

} // verus!
