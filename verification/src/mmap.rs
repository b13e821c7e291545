//! The raw-vector file layout used for offline bulk storage.
//!
//! The file starts with an 8-byte header — the dimension and the
//! record count, each a 32-bit little-endian integer — followed by
//! `count` records of `dimension` 32-bit components.  This module owns
//! the layout arithmetic and the header codec; the embedding program
//! owns the file and the mapping.

use vstd::prelude::*;

use crate::codec::{lemma_u32_le_round_trip, push_u32_le, read_u32_le, u32_le};
use crate::error::VectorDbError;

verus! {

/// The header bytes for a dimension and count.
pub open spec fn header_bytes(dimension: u32, count: u32) -> Seq<u8> {
    u32_le(dimension) + u32_le(count)
}

/// The logical state of a raw-vector file: its fixed dimension and
/// how many records it holds.
#[derive(Debug, Clone)]
pub struct MmapVectorStorage {
    dimension: usize,
    count: usize,
}

impl MmapVectorStorage {
    /// The bounds the 32-bit header imposes.
    pub open spec fn wf(&self) -> bool {
        &&& self.spec_dimension() <= u32::MAX
        &&& self.spec_count() <= u32::MAX
    }

    /// The state of a freshly created file.
    pub fn create(dimension: usize) -> (r: Result<MmapVectorStorage, VectorDbError>)
        ensures
            r matches Ok(s) ==> s.wf() && s.spec_dimension() == dimension && s.spec_count() == 0,
            r is Err <==> dimension > u32::MAX,
    {
        if dimension > u32::MAX as usize {
            return Err(VectorDbError::StorageError("dimension exceeds the header field".to_owned()));
        }
        Ok(MmapVectorStorage { dimension, count: 0 })
    }

    /// The state recorded in a decoded header.
    pub fn from_header(dimension: u32, count: u32) -> (r: MmapVectorStorage)
        ensures
            r.wf(),
            r.spec_dimension() == dimension,
            r.spec_count() == count,
    {
        MmapVectorStorage { dimension: dimension as usize, count: count as usize }
    }

    /// The number of stored records.
    pub fn count(&self) -> (r: usize)
        ensures
            r == self.spec_count(),
    {
        self.count
    }

    /// The record dimension.
    pub fn dimension(&self) -> (r: usize)
        ensures
            r == self.spec_dimension(),
    {
        self.dimension
    }

    /// The number of stored records.
    pub closed spec fn spec_count(&self) -> usize {
        self.count
    }

    /// The record dimension.
    pub closed spec fn spec_dimension(&self) -> usize {
        self.dimension
    }

    /// The header for the current state.
    pub fn encode_header(&self) -> (r: Vec<u8>)
        requires
            self.wf(),
        ensures
            r@ == header_bytes(self.spec_dimension() as u32, self.spec_count() as u32),
            r@.len() == 8,
    {
        let mut out: Vec<u8> = Vec::new();
        push_u32_le(&mut out, self.dimension as u32);
        push_u32_le(&mut out, self.count as u32);
        proof {
            assert(out@ =~= header_bytes(self.spec_dimension() as u32, self.spec_count() as u32));
        }
        out
    }

    /// Decode a header; the bytes must hold at least the 8-byte
    /// header.  Reading back an encoded header gives the dimension
    /// and count that were written.
    pub fn decode_header(data: &Vec<u8>) -> (r: Result<MmapVectorStorage, VectorDbError>)
        ensures
            r is Ok <==> data@.len() >= 8,
            r matches Ok(s) ==> {
                &&& s.wf()
                &&& forall|d: u32, c: u32|
                    data@.subrange(0, 8) == header_bytes(d, c) ==> s.spec_dimension() == d
                        && s.spec_count() == c
            },
    {
        let dim = match read_u32_le(data, 0) {
            Some(x) => x,
            None => {
                return Err(VectorDbError::StorageError("file too small for header".to_owned()));
            },
        };
        let cnt = match read_u32_le(data, 4) {
            Some(x) => x,
            None => {
                return Err(VectorDbError::StorageError("file too small for header".to_owned()));
            },
        };
        let s = MmapVectorStorage { dimension: dim as usize, count: cnt as usize };
        proof {
            assert forall|d: u32, c: u32|
                data@.subrange(0, 8) == header_bytes(d, c) implies s.spec_dimension() == d
                && s.spec_count() == c by {
                lemma_u32_le_round_trip(d);
                lemma_u32_le_round_trip(c);
                assert(data@[0] == u32_le(d)[0] && data@[1] == u32_le(d)[1] && data@[2] == u32_le(
                    d,
                )[2] && data@[3] == u32_le(d)[3]) by {
                    assert(data@.subrange(0, 8)[0] == data@[0]);
                    assert(data@.subrange(0, 8)[1] == data@[1]);
                    assert(data@.subrange(0, 8)[2] == data@[2]);
                    assert(data@.subrange(0, 8)[3] == data@[3]);
                }
                assert(data@[4] == u32_le(c)[0] && data@[5] == u32_le(c)[1] && data@[6] == u32_le(
                    c,
                )[2] && data@[7] == u32_le(c)[3]) by {
                    assert(data@.subrange(0, 8)[4] == data@[4]);
                    assert(data@.subrange(0, 8)[5] == data@[5]);
                    assert(data@.subrange(0, 8)[6] == data@[6]);
                    assert(data@.subrange(0, 8)[7] == data@[7]);
                }
            }
        }
        Ok(s)
    }

    /// The byte offset of record `index`: past the header and the
    /// records before it.
    pub fn record_offset(&self, index: usize) -> (r: Result<usize, VectorDbError>)
        requires
            self.wf(),
        ensures
            r matches Ok(o) ==> index < self.spec_count() && o == 8 + index * self.spec_dimension()
                * 4,
            r is Err ==> index >= self.spec_count() || 8 + index * self.spec_dimension() * 4
                > usize::MAX,
    {
        if index >= self.count {
            return Err(VectorDbError::IndexError("record index out of range".to_owned()));
        }
        if index == 0 {
            proof {
                assert(0 * self.spec_dimension() * 4 == 0) by (nonlinear_arith);
            }
            return Ok(8);
        }
        if self.dimension > (usize::MAX - 8) / 4 {
            proof {
                let d = self.spec_dimension() as int;
                let q = (usize::MAX - 8) as int / 4;
                assert(d * 4 > usize::MAX - 8) by (nonlinear_arith)
                    requires
                        d > q,
                        q == (usize::MAX - 8) as int / 4,
                ;
                assert(index * d * 4 >= d * 4) by (nonlinear_arith)
                    requires
                        index >= 1,
                        d >= 0,
                ;
            }
            return Err(VectorDbError::StorageError("record offset out of range".to_owned()));
        }
        let rec_bytes = self.dimension * 4;
        if rec_bytes == 0 {
            proof {
                assert(index * self.spec_dimension() * 4 == 0) by (nonlinear_arith)
                    requires
                        self.spec_dimension() == 0,
                ;
            }
            return Ok(8);
        }
        if index > (usize::MAX - 8) / rec_bytes {
            proof {
                let rb = rec_bytes as int;
                let q = (usize::MAX - 8) as int / rb;
                assert(index * rb > usize::MAX - 8) by (nonlinear_arith)
                    requires
                        rb > 0,
                        index > q,
                        q == (usize::MAX - 8) as int / rb,
                ;
                assert(index * self.spec_dimension() * 4 == index * rb) by (nonlinear_arith)
                    requires
                        rb == self.spec_dimension() * 4,
                ;
            }
            return Err(VectorDbError::StorageError("record offset out of range".to_owned()));
        }
        proof {
            let rb = rec_bytes as int;
            let q = (usize::MAX - 8) as int / rb;
            assert(index * rb <= usize::MAX - 8) by (nonlinear_arith)
                requires
                    rb > 0,
                    0 <= index <= q,
                    q == (usize::MAX - 8) as int / rb,
            ;
            assert(index * self.spec_dimension() * 4 == index * rb) by (nonlinear_arith)
                requires
                    rb == self.spec_dimension() * 4,
            ;
        }
        Ok(8 + index * rec_bytes)
    }

    /// Record one appended vector, growing the count.
    pub fn note_append(&mut self) -> (r: Result<usize, VectorDbError>)
        requires
            old(self).wf(),
        ensures
            final(self).wf(),
            final(self).spec_dimension() == old(self).spec_dimension(),
            r matches Ok(i) ==> old(self).spec_count() < u32::MAX && i == old(self).spec_count()
                && final(self).spec_count() == old(self).spec_count() + 1,
            r is Err <==> old(self).spec_count() == u32::MAX,
            r is Err ==> final(self).spec_count() == old(self).spec_count(),
    {
        if self.count == u32::MAX as usize {
            return Err(VectorDbError::StorageError("record count exceeds the header field".to_owned()));
        }
        self.count = self.count + 1;
        Ok(self.count - 1)
    }
}

} // verus!
