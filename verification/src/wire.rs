//! Little-endian integer encodings used by the block and table formats.
//!
//! Every integer in the on-disk layout is little-endian: entry and key lengths
//! and block offsets are 16-bit, the meta-section footer is 32-bit, and the
//! meta record count and block file offsets are 64-bit.

use vstd::prelude::*;

verus! {

/// The two little-endian bytes of a 16-bit value.
pub open spec fn u16_le_bytes(v: u16) -> Seq<u8> {
    seq![(v % 256) as u8, (v / 256) as u8]
}

/// The 16-bit value held by two little-endian bytes.
pub open spec fn u16_of_le(b: Seq<u8>) -> int
    recommends
        b.len() == 2,
{
    b[0] + 256 * b[1]
}

/// The four little-endian bytes of a 32-bit value.
pub open spec fn u32_le_bytes(v: u32) -> Seq<u8> {
    seq![
        (v % 256) as u8,
        ((v / 256) % 256) as u8,
        ((v / 65536) % 256) as u8,
        (v / 16777216) as u8,
    ]
}

/// The 32-bit value held by four little-endian bytes.
pub open spec fn u32_of_le(b: Seq<u8>) -> int
    recommends
        b.len() == 4,
{
    b[0] + 256 * b[1] + 65536 * b[2] + 16777216 * b[3]
}

/// The eight little-endian bytes of a 64-bit value.
pub open spec fn u64_le_bytes(v: u64) -> Seq<u8> {
    seq![
        (v % 256) as u8,
        ((v / 256) % 256) as u8,
        ((v / 65536) % 256) as u8,
        ((v / 16777216) % 256) as u8,
        ((v / 4294967296) % 256) as u8,
        ((v / 1099511627776) % 256) as u8,
        ((v / 281474976710656) % 256) as u8,
        (v / 72057594037927936) as u8,
    ]
}

/// The 64-bit value held by eight little-endian bytes.
pub open spec fn u64_of_le(b: Seq<u8>) -> int
    recommends
        b.len() == 8,
{
    b[0] + 256 * b[1] + 65536 * b[2] + 16777216 * b[3] + 4294967296 * b[4] + 1099511627776 * b[5]
        + 281474976710656 * b[6] + 72057594037927936 * b[7]
}

/// Reading back the two little-endian bytes of `v` yields `v`.
pub proof fn lemma_u16_le_round_trip(v: u16)
    ensures
        u16_le_bytes(v).len() == 2,
        u16_of_le(u16_le_bytes(v)) == v,
{
    assert(v % 256 + 256 * (v / 256) == v) by (bit_vector);
}

/// Reading back the four little-endian bytes of `v` yields `v`.
pub proof fn lemma_u32_le_round_trip(v: u32)
    ensures
        u32_le_bytes(v).len() == 4,
        u32_of_le(u32_le_bytes(v)) == v,
{
    assert(v % 256 + 256 * ((v / 256) % 256) + 65536 * ((v / 65536) % 256) + 16777216 * (v
        / 16777216) == v) by (bit_vector);
    assert(v / 16777216 < 256) by (bit_vector);
}

/// Reading back the eight little-endian bytes of `v` yields `v`.
pub proof fn lemma_u64_le_round_trip(v: u64)
    ensures
        u64_le_bytes(v).len() == 8,
        u64_of_le(u64_le_bytes(v)) == v,
{
    assert(v % 256 + 256 * ((v / 256) % 256) + 65536 * ((v / 65536) % 256) + 16777216 * ((v
        / 16777216) % 256) + 4294967296 * ((v / 4294967296) % 256) + 1099511627776 * ((v
        / 1099511627776) % 256) + 281474976710656 * ((v / 281474976710656) % 256)
        + 72057594037927936 * (v / 72057594037927936) == v) by (bit_vector);
    assert(v / 72057594037927936 < 256) by (bit_vector);
}

/// Appends the two little-endian bytes of `v`.
pub fn put_u16_le(out: &mut Vec<u8>, v: u16)
    ensures
        final(out)@ == old(out)@ + u16_le_bytes(v),
{
    out.push((v % 256) as u8);
    out.push((v / 256) as u8);
    proof {
        assert(out@ =~= old(out)@ + u16_le_bytes(v));
    }
}

/// Appends the four little-endian bytes of `v`.
pub fn put_u32_le(out: &mut Vec<u8>, v: u32)
    ensures
        final(out)@ == old(out)@ + u32_le_bytes(v),
{
    out.push((v % 256) as u8);
    out.push(((v / 256) % 256) as u8);
    out.push(((v / 65536) % 256) as u8);
    proof {
        assert(v / 16777216 < 256) by (bit_vector);
    }
    out.push((v / 16777216) as u8);
    proof {
        assert(out@ =~= old(out)@ + u32_le_bytes(v));
    }
}

/// Appends the eight little-endian bytes of `v`.
pub fn put_u64_le(out: &mut Vec<u8>, v: u64)
    ensures
        final(out)@ == old(out)@ + u64_le_bytes(v),
{
    out.push((v % 256) as u8);
    out.push(((v / 256) % 256) as u8);
    out.push(((v / 65536) % 256) as u8);
    out.push(((v / 16777216) % 256) as u8);
    out.push(((v / 4294967296) % 256) as u8);
    out.push(((v / 1099511627776) % 256) as u8);
    out.push(((v / 281474976710656) % 256) as u8);
    proof {
        assert(v / 72057594037927936 < 256) by (bit_vector);
    }
    out.push((v / 72057594037927936) as u8);
    proof {
        assert(out@ =~= old(out)@ + u64_le_bytes(v));
    }
}

/// Appends a whole slice.
pub fn put_bytes(out: &mut Vec<u8>, s: &[u8])
    ensures
        final(out)@ == old(out)@ + s@,
{
    let len: usize = s.len();
    let mut i: usize = 0;
    while i < len
        invariant
            0 <= i <= len,
            len == s@.len(),
            out@ == old(out)@ + s@.take(i as int),
        decreases len - i,
    {
        out.push(s[i]);
        proof {
            assert(out@ =~= old(out)@ + s@.take(i as int + 1));
        }
        i = i + 1;
    }
    proof {
        assert(s@.take(len as int) =~= s@);
        assert(out@ =~= old(out)@ + s@);
    }
}

/// Reads the 16-bit little-endian value at byte offset `off`.
pub fn get_u16_le(b: &[u8], off: usize) -> (r: u16)
    requires
        off + 2 <= b@.len(),
    ensures
        r as int == u16_of_le(b@.subrange(off as int, off as int + 2)),
{
    let lo = b[off];
    let hi = b[off + 1];
    (lo as u16) + 256 * (hi as u16)
}

/// Reads the 32-bit little-endian value at byte offset `off`.
pub fn get_u32_le(b: &[u8], off: usize) -> (r: u32)
    requires
        off + 4 <= b@.len(),
    ensures
        r as int == u32_of_le(b@.subrange(off as int, off as int + 4)),
{
    let b0 = b[off] as u32;
    let b1 = b[off + 1] as u32;
    let b2 = b[off + 2] as u32;
    let b3 = b[off + 3] as u32;
    b0 + 256 * b1 + 65536 * b2 + 16777216 * b3
}

/// Reads the 64-bit little-endian value at byte offset `off`.
pub fn get_u64_le(b: &[u8], off: usize) -> (r: u64)
    requires
        off + 8 <= b@.len(),
    ensures
        r as int == u64_of_le(b@.subrange(off as int, off as int + 8)),
{
    let b0 = b[off] as u64;
    let b1 = b[off + 1] as u64;
    let b2 = b[off + 2] as u64;
    let b3 = b[off + 3] as u64;
    let b4 = b[off + 4] as u64;
    let b5 = b[off + 5] as u64;
    let b6 = b[off + 6] as u64;
    let b7 = b[off + 7] as u64;
    b0 + 256 * b1 + 65536 * b2 + 16777216 * b3 + 4294967296 * b4 + 1099511627776 * b5
        + 281474976710656 * b6 + 72057594037927936 * b7
}

} // verus!
