//! Byte-level encoding primitives shared by the log and snapshot formats.
//!
//! All multi-byte integers are little-endian.  Strings are encoded as a
//! 64-bit byte count followed by the UTF-8 bytes; vector data as a
//! 64-bit component count followed by the 32-bit component patterns.

use vstd::prelude::*;

verus! {

/// The little-endian bytes of a 32-bit integer.
pub open spec fn u32_le(x: u32) -> Seq<u8> {
    seq![
        (x & 0xff) as u8,
        ((x >> 8) & 0xff) as u8,
        ((x >> 16) & 0xff) as u8,
        ((x >> 24) & 0xff) as u8,
    ]
}

/// The 32-bit integer with the given little-endian bytes.
pub open spec fn u32_of_le(b0: u8, b1: u8, b2: u8, b3: u8) -> u32 {
    (b0 as u32) | ((b1 as u32) << 8) | ((b2 as u32) << 16) | ((b3 as u32) << 24)
}

/// The little-endian bytes of a 64-bit integer.
pub open spec fn u64_le(x: u64) -> Seq<u8> {
    seq![
        (x & 0xff) as u8,
        ((x >> 8) & 0xff) as u8,
        ((x >> 16) & 0xff) as u8,
        ((x >> 24) & 0xff) as u8,
        ((x >> 32) & 0xff) as u8,
        ((x >> 40) & 0xff) as u8,
        ((x >> 48) & 0xff) as u8,
        ((x >> 56) & 0xff) as u8,
    ]
}

/// The 64-bit integer with the given little-endian bytes.
pub open spec fn u64_of_le(
    b0: u8,
    b1: u8,
    b2: u8,
    b3: u8,
    b4: u8,
    b5: u8,
    b6: u8,
    b7: u8,
) -> u64 {
    (b0 as u64) | ((b1 as u64) << 8) | ((b2 as u64) << 16) | ((b3 as u64) << 24) | ((b4
        as u64) << 32) | ((b5 as u64) << 40) | ((b6 as u64) << 48) | ((b7 as u64) << 56)
}

/// Reading back the four bytes of a 32-bit value gives the value.
pub proof fn lemma_u32_le_round_trip(x: u32)
    ensures
        u32_of_le(
            (x & 0xff) as u8,
            ((x >> 8) & 0xff) as u8,
            ((x >> 16) & 0xff) as u8,
            ((x >> 24) & 0xff) as u8,
        ) == x,
{
    assert(((x & 0xff) as u8 as u32) | (((x >> 8) & 0xff) as u8 as u32) << 8 | (((x >> 16)
        & 0xff) as u8 as u32) << 16 | (((x >> 24) & 0xff) as u8 as u32) << 24 == x)
        by (bit_vector);
}

/// Encoding the value read from four bytes gives the bytes back.
pub proof fn lemma_u32_of_le_round_trip(b0: u8, b1: u8, b2: u8, b3: u8)
    ensures
        u32_le(u32_of_le(b0, b1, b2, b3)) =~= seq![b0, b1, b2, b3],
{
    let x = u32_of_le(b0, b1, b2, b3);
    let y = (b0 as u32) | ((b1 as u32) << 8) | ((b2 as u32) << 16) | ((b3 as u32) << 24);
    assert(y & 0xff == b0 as u32 && (y >> 8) & 0xff == b1 as u32 && (y >> 16) & 0xff == b2
        as u32 && (y >> 24) & 0xff == b3 as u32) by (bit_vector)
        requires
            y == (b0 as u32) | ((b1 as u32) << 8) | ((b2 as u32) << 16) | ((b3 as u32) << 24),
    ;
    assert(x == y);
}

/// Reading back the eight bytes of a 64-bit value gives the value.
pub proof fn lemma_u64_le_round_trip(x: u64)
    ensures
        u64_of_le(
            (x & 0xff) as u8,
            ((x >> 8) & 0xff) as u8,
            ((x >> 16) & 0xff) as u8,
            ((x >> 24) & 0xff) as u8,
            ((x >> 32) & 0xff) as u8,
            ((x >> 40) & 0xff) as u8,
            ((x >> 48) & 0xff) as u8,
            ((x >> 56) & 0xff) as u8,
        ) == x,
{
    assert(((x & 0xff) as u8 as u64) | (((x >> 8) & 0xff) as u8 as u64) << 8 | (((x >> 16)
        & 0xff) as u8 as u64) << 16 | (((x >> 24) & 0xff) as u8 as u64) << 24 | (((x
        >> 32) & 0xff) as u8 as u64) << 32 | (((x >> 40) & 0xff) as u8 as u64) << 40 | (((
    x >> 48) & 0xff) as u8 as u64) << 48 | (((x >> 56) & 0xff) as u8 as u64) << 56 == x)
        by (bit_vector);
}

/// Encoding the value read from eight bytes gives the bytes back.
pub proof fn lemma_u64_of_le_round_trip(
    b0: u8,
    b1: u8,
    b2: u8,
    b3: u8,
    b4: u8,
    b5: u8,
    b6: u8,
    b7: u8,
)
    ensures
        u64_le(u64_of_le(b0, b1, b2, b3, b4, b5, b6, b7)) =~= seq![b0, b1, b2, b3, b4, b5, b6, b7],
{
    let x = u64_of_le(b0, b1, b2, b3, b4, b5, b6, b7);
    let y = (b0 as u64) | ((b1 as u64) << 8) | ((b2 as u64) << 16) | ((b3 as u64) << 24)
        | ((b4 as u64) << 32) | ((b5 as u64) << 40) | ((b6 as u64) << 48) | ((b7 as u64)
        << 56);
    assert(y & 0xff == b0 as u64 && (y >> 8) & 0xff == b1 as u64 && (y >> 16) & 0xff == b2
        as u64 && (y >> 24) & 0xff == b3 as u64 && (y >> 32) & 0xff == b4 as u64 && (y
        >> 40) & 0xff == b5 as u64 && (y >> 48) & 0xff == b6 as u64 && (y >> 56) & 0xff
        == b7 as u64) by (bit_vector)
        requires
            y == (b0 as u64) | ((b1 as u64) << 8) | ((b2 as u64) << 16) | ((b3 as u64) << 24)
                | ((b4 as u64) << 32) | ((b5 as u64) << 40) | ((b6 as u64) << 48) | ((b7
                as u64) << 56),
    ;
    assert(x == y);
}

/// Append the little-endian bytes of a 32-bit integer.
pub fn push_u32_le(out: &mut Vec<u8>, x: u32)
    ensures
        final(out)@ == old(out)@ + u32_le(x),
{
    proof {
        assert(x & 0xff < 256 && (x >> 8) & 0xff < 256 && (x >> 16) & 0xff < 256 && (x
            >> 24) & 0xff < 256) by (bit_vector);
    }
    out.push((x & 0xff) as u8);
    out.push(((x >> 8) & 0xff) as u8);
    out.push(((x >> 16) & 0xff) as u8);
    out.push(((x >> 24) & 0xff) as u8);
    proof {
        assert(final(out)@ =~= old(out)@ + u32_le(x));
    }
}

/// Append the little-endian bytes of a 64-bit integer.
pub fn push_u64_le(out: &mut Vec<u8>, x: u64)
    ensures
        final(out)@ == old(out)@ + u64_le(x),
{
    proof {
        assert(x & 0xff < 256 && (x >> 8) & 0xff < 256 && (x >> 16) & 0xff < 256 && (x
            >> 24) & 0xff < 256 && (x >> 32) & 0xff < 256 && (x >> 40) & 0xff < 256 && (x
            >> 48) & 0xff < 256 && (x >> 56) & 0xff < 256) by (bit_vector);
    }
    out.push((x & 0xff) as u8);
    out.push(((x >> 8) & 0xff) as u8);
    out.push(((x >> 16) & 0xff) as u8);
    out.push(((x >> 24) & 0xff) as u8);
    out.push(((x >> 32) & 0xff) as u8);
    out.push(((x >> 40) & 0xff) as u8);
    out.push(((x >> 48) & 0xff) as u8);
    out.push(((x >> 56) & 0xff) as u8);
    proof {
        assert(final(out)@ =~= old(out)@ + u64_le(x));
    }
}

/// The 32-bit value whose little-endian bytes sit at `pos`.
pub open spec fn u32_at(s: Seq<u8>, pos: int) -> u32 {
    u32_of_le(s[pos], s[pos + 1], s[pos + 2], s[pos + 3])
}

/// The 64-bit value whose little-endian bytes sit at `pos`.
pub open spec fn u64_at(s: Seq<u8>, pos: int) -> u64 {
    u64_of_le(s[pos], s[pos + 1], s[pos + 2], s[pos + 3], s[pos + 4], s[pos + 5], s[pos + 6], s[pos + 7])
}

/// Read the 32-bit integer at `pos`, if four bytes are available.
pub fn read_u32_le(b: &Vec<u8>, pos: usize) -> (r: Option<u32>)
    ensures
        r is Some <==> pos + 4 <= b@.len(),
        r matches Some(x) ==> x == u32_at(b@, pos as int),
{
    if b.len() < 4 || pos > b.len() - 4 {
        return None;
    }
    Some(
        (b[pos] as u32) | ((b[pos + 1] as u32) << 8) | ((b[pos + 2] as u32) << 16) | ((b[pos
            + 3] as u32) << 24),
    )
}

/// Read the 64-bit integer at `pos`, if eight bytes are available.
pub fn read_u64_le(b: &Vec<u8>, pos: usize) -> (r: Option<u64>)
    ensures
        r is Some <==> pos + 8 <= b@.len(),
        r matches Some(x) ==> x == u64_at(b@, pos as int),
{
    if b.len() < 8 || pos > b.len() - 8 {
        return None;
    }
    Some(
        (b[pos] as u64) | ((b[pos + 1] as u64) << 8) | ((b[pos + 2] as u64) << 16) | ((b[pos
            + 3] as u64) << 24) | ((b[pos + 4] as u64) << 32) | ((b[pos + 5] as u64) << 40)
            | ((b[pos + 6] as u64) << 48) | ((b[pos + 7] as u64) << 56),
    )
}

/// The UTF-8 bytes of a character sequence.
pub open spec fn str_bytes(s: Seq<char>) -> Seq<u8> {
    vstd::utf8::encode_utf8(s)
}

/// The encoding of a string: a 64-bit byte count, then the UTF-8 bytes.
pub open spec fn enc_string(s: Seq<char>) -> Seq<u8> {
    u64_le(str_bytes(s).len() as u64) + str_bytes(s)
}

/// Whether a string can be read at `pos`.
pub open spec fn str_ok(s: Seq<u8>, pos: int) -> bool {
    &&& pos + 8 <= s.len()
    &&& pos + 8 + u64_at(s, pos) as int <= s.len()
    &&& vstd::utf8::valid_utf8(s.subrange(pos + 8, pos + 8 + u64_at(s, pos) as int))
}

/// The string read at `pos`.
pub open spec fn str_at(s: Seq<u8>, pos: int) -> Seq<char> {
    vstd::utf8::decode_utf8(s.subrange(pos + 8, pos + 8 + u64_at(s, pos) as int))
}

/// The position just after the string read at `pos`.
pub open spec fn str_end(s: Seq<u8>, pos: int) -> int {
    pos + 8 + u64_at(s, pos) as int
}

/// Relies on `String::from_utf8`: it returns the string whose UTF-8
/// encoding is the given bytes, and fails exactly on bytes that are not
/// valid UTF-8.
#[verifier::external_body]
fn string_from_bytes(v: Vec<u8>) -> (r: Option<String>)
    ensures
        r is Some <==> vstd::utf8::valid_utf8(v@),
        r matches Some(s) ==> vstd::utf8::encode_utf8(s@) == v@,
{
    String::from_utf8(v).ok()
}

/// Copy the byte range `from..to`.
pub fn copy_range(b: &Vec<u8>, from: usize, to: usize) -> (r: Vec<u8>)
    requires
        from <= to <= b@.len(),
    ensures
        r@ == b@.subrange(from as int, to as int),
{
    let mut r: Vec<u8> = Vec::new();
    let mut i: usize = from;
    while i < to
        invariant
            from <= i <= to <= b@.len(),
            r@ == b@.subrange(from as int, i as int),
        decreases to - i,
    {
        r.push(b[i]);
        proof {
            assert(r@ =~= b@.subrange(from as int, i + 1 as int));
        }
        i = i + 1;
    }
    r
}

/// Append the encoding of a string.
pub fn push_string(out: &mut Vec<u8>, s: &String)
    ensures
        final(out)@ == old(out)@ + enc_string(s@),
{
    let mut bytes = s.as_str().as_bytes_vec();
    push_u64_le(out, bytes.len() as u64);
    out.append(&mut bytes);
}

/// Read a string at `pos`.
#[verifier::loop_isolation(false)]
pub fn read_string(b: &Vec<u8>, pos: usize) -> (r: Option<(String, usize)>)
    ensures
        r is Some <==> str_ok(b@, pos as int),
        r matches Some((st, np)) ==> st@ == str_at(b@, pos as int) && np == str_end(
            b@,
            pos as int,
        ),
{
    let n = match read_u64_le(b, pos) {
        Some(n) => n,
        None => {
            return None;
        },
    };
    if n > (b.len() - (pos + 8)) as u64 {
        return None;
    }
    let start = pos + 8;
    let end = start + (n as usize);
    let bytes = copy_range(b, start, end);
    proof {
        broadcast use vstd::utf8::encode_utf8_decode_utf8;

    }
    match string_from_bytes(bytes) {
        Some(st) => Some((st, end)),
        None => None,
    }
}

/// The encoding of vector components: each as four little-endian bytes.
pub open spec fn enc_u32s_raw(d: Seq<u32>) -> Seq<u8>
    decreases d.len(),
{
    if d.len() == 0 {
        Seq::empty()
    } else {
        enc_u32s_raw(d.drop_last()) + u32_le(d.last())
    }
}

/// The encoding of vector data: a 64-bit component count, then the
/// components.
pub open spec fn enc_data(d: Seq<u32>) -> Seq<u8> {
    u64_le(d.len() as u64) + enc_u32s_raw(d)
}

pub proof fn lemma_enc_u32s_raw_len(d: Seq<u32>)
    ensures
        enc_u32s_raw(d).len() == 4 * d.len(),
    decreases d.len(),
{
    if d.len() > 0 {
        lemma_enc_u32s_raw_len(d.drop_last());
    }
}

pub proof fn lemma_enc_u32s_raw_index(d: Seq<u32>, i: int, j: int)
    requires
        0 <= i < d.len(),
        0 <= j < 4,
    ensures
        enc_u32s_raw(d)[4 * i + j] == u32_le(d[i])[j],
    decreases d.len(),
{
    lemma_enc_u32s_raw_len(d);
    if i == d.len() - 1 {
        lemma_enc_u32s_raw_len(d.drop_last());
    } else {
        lemma_enc_u32s_raw_len(d.drop_last());
        lemma_enc_u32s_raw_index(d.drop_last(), i, j);
    }
}

/// Whether vector data can be read at `pos`.
pub open spec fn data_ok(s: Seq<u8>, pos: int) -> bool {
    &&& pos + 8 <= s.len()
    &&& pos + 8 + 4 * (u64_at(s, pos) as int) <= s.len()
}

/// The vector data read at `pos`.
pub open spec fn data_at(s: Seq<u8>, pos: int) -> Seq<u32> {
    Seq::new(u64_at(s, pos) as nat, |i: int| u32_at(s, pos + 8 + 4 * i))
}

/// The position just after the vector data read at `pos`.
pub open spec fn data_end(s: Seq<u8>, pos: int) -> int {
    pos + 8 + 4 * (u64_at(s, pos) as int)
}

/// Append the encoding of vector data.
#[verifier::loop_isolation(false)]
pub fn push_data(out: &mut Vec<u8>, d: &Vec<u32>)
    ensures
        final(out)@ == old(out)@ + enc_data(d@),
{
    push_u64_le(out, d.len() as u64);
    let mut i: usize = 0;
    while i < d.len()
        invariant
            i <= d@.len(),
            out@ == old(out)@ + u64_le(d@.len() as u64) + enc_u32s_raw(d@.subrange(0, i as int)),
        decreases d@.len() - i,
    {
        push_u32_le(out, d[i]);
        proof {
            let pre = d@.subrange(0, i as int);
            let post = d@.subrange(0, i + 1 as int);
            assert(post.drop_last() =~= pre);
            assert(post.last() == d@[i as int]);
        }
        i = i + 1;
    }
    proof {
        assert(d@.subrange(0, d@.len() as int) =~= d@);
        assert(final(out)@ =~= old(out)@ + enc_data(d@));
    }
}

/// Read vector data at `pos`.
#[verifier::loop_isolation(false)]
pub fn read_data(b: &Vec<u8>, pos: usize) -> (r: Option<(Vec<u32>, usize)>)
    ensures
        r is Some <==> data_ok(b@, pos as int),
        r matches Some((d, np)) ==> d@ == data_at(b@, pos as int) && np == data_end(
            b@,
            pos as int,
        ),
{
    let n = match read_u64_le(b, pos) {
        Some(n) => n,
        None => {
            return None;
        },
    };
    if n > ((b.len() - (pos + 8)) / 4) as u64 {
        proof {
            assert(!data_ok(b@, pos as int)) by {
                assert(4 * (u64_at(b@, pos as int) as int) > b@.len() - (pos + 8));
            }
        }
        return None;
    }
    let count = n as usize;
    let mut d: Vec<u32> = Vec::new();
    let mut i: usize = 0;
    while i < count
        invariant
            i <= count,
            pos + 8 + 4 * count <= b@.len(),
            count == u64_at(b@, pos as int) as int,
            d@.len() == i,
            forall|j: int| 0 <= j < i ==> d@[j] == u32_at(b@, pos + 8 + 4 * j),
        decreases count - i,
    {
        let x = match read_u32_le(b, pos + 8 + 4 * i) {
            Some(x) => x,
            None => {
                proof {
                    assert(false);
                }
                return None;
            },
        };
        d.push(x);
        i = i + 1;
    }
    proof {
        assert(d@ =~= data_at(b@, pos as int));
    }
    Some((d, pos + 8 + 4 * count))
}


/// If the eight bytes at `pos` are the little-endian encoding of `x`,
/// the 64-bit value read there is `x`.
pub proof fn lemma_u64_at_of_le(b: Seq<u8>, pos: int, x: u64)
    requires
        0 <= pos,
        pos + 8 <= b.len(),
        b.subrange(pos, pos + 8) == u64_le(x),
    ensures
        u64_at(b, pos) == x,
{
    assert forall|k: int| 0 <= k < 8 implies #[trigger] b[pos + k] == u64_le(x)[k] by {
        assert(b.subrange(pos, pos + 8)[k] == b[pos + k]);
    }
    assert(b[pos] == u64_le(x)[0]);
    assert(b[pos + 1] == u64_le(x)[1]);
    assert(b[pos + 2] == u64_le(x)[2]);
    assert(b[pos + 3] == u64_le(x)[3]);
    assert(b[pos + 4] == u64_le(x)[4]);
    assert(b[pos + 5] == u64_le(x)[5]);
    assert(b[pos + 6] == u64_le(x)[6]);
    assert(b[pos + 7] == u64_le(x)[7]);
    lemma_u64_le_round_trip(x);
}

/// If the four bytes at `pos` are the little-endian encoding of `x`,
/// the 32-bit value read there is `x`.
pub proof fn lemma_u32_at_of_le(b: Seq<u8>, pos: int, x: u32)
    requires
        0 <= pos,
        pos + 4 <= b.len(),
        b.subrange(pos, pos + 4) == u32_le(x),
    ensures
        u32_at(b, pos) == x,
{
    assert forall|k: int| 0 <= k < 4 implies #[trigger] b[pos + k] == u32_le(x)[k] by {
        assert(b.subrange(pos, pos + 4)[k] == b[pos + k]);
    }
    assert(b[pos] == u32_le(x)[0]);
    assert(b[pos + 1] == u32_le(x)[1]);
    assert(b[pos + 2] == u32_le(x)[2]);
    assert(b[pos + 3] == u32_le(x)[3]);
    lemma_u32_le_round_trip(x);
}

/// Reading an encoded string embedded in a larger buffer gives the
/// string back.
pub proof fn lemma_read_string_at(b: Seq<u8>, pos: int, s: Seq<char>)
    requires
        0 <= pos,
        str_bytes(s).len() <= u64::MAX,
        pos + enc_string(s).len() <= b.len(),
        b.subrange(pos, pos + enc_string(s).len()) == enc_string(s),
    ensures
        str_ok(b, pos),
        str_at(b, pos) == s,
        str_end(b, pos) == pos + enc_string(s).len(),
{
    let e = enc_string(s);
    let n = str_bytes(s).len() as int;
    assert(e.len() == 8 + n);
    assert(b.subrange(pos, pos + 8) =~= u64_le(n as u64)) by {
        assert forall|k: int| 0 <= k < 8 implies #[trigger] b.subrange(pos, pos + 8)[k] == u64_le(
            n as u64,
        )[k] by {
            assert(b.subrange(pos, pos + 8)[k] == b[pos + k]);
            assert(b.subrange(pos, pos + e.len())[k] == b[pos + k]);
            assert(e[k] == u64_le(n as u64)[k]);
        }
    }
    lemma_u64_at_of_le(b, pos, n as u64);
    assert(b.subrange(pos + 8, pos + 8 + n) =~= str_bytes(s)) by {
        assert forall|k: int| 0 <= k < n implies #[trigger] b.subrange(pos + 8, pos + 8 + n)[k]
            == str_bytes(s)[k] by {
            assert(b.subrange(pos + 8, pos + 8 + n)[k] == b[pos + 8 + k]);
            assert(b.subrange(pos, pos + e.len())[8 + k] == b[pos + (8 + k)]);
            assert(e[8 + k] == str_bytes(s)[k]);
        }
    }
    broadcast use vstd::utf8::encode_utf8_valid_utf8;
    broadcast use vstd::utf8::encode_utf8_decode_utf8;

    assert(vstd::utf8::valid_utf8(str_bytes(s)));
    assert(vstd::utf8::decode_utf8(str_bytes(s)) == s);
}

/// Reading encoded vector data embedded in a larger buffer gives the
/// data back.
pub proof fn lemma_read_data_at(b: Seq<u8>, pos: int, d: Seq<u32>)
    requires
        0 <= pos,
        d.len() <= u64::MAX,
        pos + enc_data(d).len() <= b.len(),
        b.subrange(pos, pos + enc_data(d).len()) == enc_data(d),
    ensures
        data_ok(b, pos),
        data_at(b, pos) == d,
        data_end(b, pos) == pos + enc_data(d).len(),
{
    let e = enc_data(d);
    let n = d.len() as int;
    lemma_enc_u32s_raw_len(d);
    assert(e.len() == 8 + 4 * n);
    assert(b.subrange(pos, pos + 8) =~= u64_le(n as u64)) by {
        assert forall|k: int| 0 <= k < 8 implies #[trigger] b.subrange(pos, pos + 8)[k] == u64_le(
            n as u64,
        )[k] by {
            assert(b.subrange(pos, pos + 8)[k] == b[pos + k]);
            assert(b.subrange(pos, pos + e.len())[k] == b[pos + k]);
            assert(e[k] == u64_le(n as u64)[k]);
        }
    }
    lemma_u64_at_of_le(b, pos, n as u64);
    assert forall|i: int| 0 <= i < n implies u32_at(b, pos + 8 + 4 * i) == d[i] by {
        assert(b.subrange(pos + 8 + 4 * i, pos + 8 + 4 * i + 4) =~= u32_le(d[i])) by {
            assert forall|k: int| 0 <= k < 4 implies #[trigger] b.subrange(
                pos + 8 + 4 * i,
                pos + 8 + 4 * i + 4,
            )[k] == u32_le(d[i])[k] by {
                assert(b.subrange(pos + 8 + 4 * i, pos + 8 + 4 * i + 4)[k] == b[pos + 8 + 4
                    * i + k]);
                assert(b.subrange(pos, pos + e.len())[8 + 4 * i + k] == b[pos + (8 + 4 * i
                    + k)]);
                lemma_enc_u32s_raw_index(d, i, k);
                assert(e[8 + 4 * i + k] == enc_u32s_raw(d)[4 * i + k]);
            }
        }
        lemma_u32_at_of_le(b, pos + 8 + 4 * i, d[i]);
    }
    assert(data_at(b, pos) =~= d);
}


/// Re-encoding the 64-bit value read at `pos` reproduces its bytes.
pub proof fn lemma_u64_reencode(b: Seq<u8>, pos: int)
    requires
        0 <= pos,
        pos + 8 <= b.len(),
    ensures
        u64_le(u64_at(b, pos)) == b.subrange(pos, pos + 8),
{
    lemma_u64_of_le_round_trip(
        b[pos],
        b[pos + 1],
        b[pos + 2],
        b[pos + 3],
        b[pos + 4],
        b[pos + 5],
        b[pos + 6],
        b[pos + 7],
    );
    assert(u64_le(u64_at(b, pos)) =~= b.subrange(pos, pos + 8));
}

/// Re-encoding the string read at `pos` reproduces its bytes.
pub proof fn lemma_string_reencode(b: Seq<u8>, pos: int)
    requires
        0 <= pos,
        str_ok(b, pos),
    ensures
        enc_string(str_at(b, pos)) == b.subrange(pos, str_end(b, pos)),
        str_bytes(str_at(b, pos)).len() == u64_at(b, pos),
{
    let n = u64_at(b, pos) as int;
    let payload = b.subrange(pos + 8, pos + 8 + n);
    broadcast use vstd::utf8::decode_utf8_encode_utf8;

    assert(vstd::utf8::encode_utf8(vstd::utf8::decode_utf8(payload)) == payload);
    assert(str_bytes(str_at(b, pos)) == payload);
    lemma_u64_reencode(b, pos);
    assert(enc_string(str_at(b, pos)) =~= b.subrange(pos, str_end(b, pos)));
}

/// Re-encoding the vector data read at `pos` reproduces its bytes.
pub proof fn lemma_data_reencode(b: Seq<u8>, pos: int)
    requires
        0 <= pos,
        data_ok(b, pos),
    ensures
        enc_data(data_at(b, pos)) == b.subrange(pos, data_end(b, pos)),
{
    let n = u64_at(b, pos) as int;
    let d = data_at(b, pos);
    lemma_u64_reencode(b, pos);
    lemma_enc_u32s_raw_len(d);
    assert forall|i: int, j: int|
        0 <= i < n && 0 <= j < 4 implies (#[trigger] enc_u32s_raw(d)[4 * i + j]) == b[pos + 8 + 4
        * i + j] by {
        lemma_enc_u32s_raw_index(d, i, j);
        lemma_u32_of_le_round_trip(
            b[pos + 8 + 4 * i],
            b[pos + 8 + 4 * i + 1],
            b[pos + 8 + 4 * i + 2],
            b[pos + 8 + 4 * i + 3],
        );
        assert(u32_le(d[i]) =~= b.subrange(pos + 8 + 4 * i, pos + 8 + 4 * i + 4)) by {
            assert(d[i] == u32_at(b, pos + 8 + 4 * i));
            assert(u32_le(u32_of_le(
                b[pos + 8 + 4 * i],
                b[pos + 8 + 4 * i + 1],
                b[pos + 8 + 4 * i + 2],
                b[pos + 8 + 4 * i + 3],
            )) =~= seq![
                b[pos + 8 + 4 * i],
                b[pos + 8 + 4 * i + 1],
                b[pos + 8 + 4 * i + 2],
                b[pos + 8 + 4 * i + 3],
            ]);
        }
        assert(u32_le(d[i])[j] == b[pos + 8 + 4 * i + j]);
    }
    assert(enc_data(d) =~= b.subrange(pos, data_end(b, pos))) by {
        assert forall|x: int| 0 <= x < enc_data(d).len() implies enc_data(d)[x] == b.subrange(
            pos,
            data_end(b, pos),
        )[x] by {
            if x < 8 {
                assert(enc_data(d)[x] == u64_le(u64_at(b, pos))[x]);
                assert(u64_le(u64_at(b, pos))[x] == b.subrange(pos, pos + 8)[x]);
            } else {
                let y = x - 8;
                let i = y / 4;
                let j = y % 4;
                assert(y == 4 * i + j);
                assert(enc_data(d)[x] == enc_u32s_raw(d)[4 * i + j]);
                assert(enc_u32s_raw(d)[4 * i + j] == b[pos + 8 + 4 * i + j]);
            }
        }
    }
}

} // verus!
