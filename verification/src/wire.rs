//! Byte-level primitives of the wire format: big-endian u32 and u64 fields,
//! the little-endian u32 index of a leaf id, and saturating size arithmetic
//! for length checks.

use vstd::prelude::*;

verus! {

/// The four big-endian bytes of `x`.
pub open spec fn u32_be_bytes(x: u32) -> Seq<u8> {
    seq![
        ((x >> 24) & 0xff) as u8,
        ((x >> 16) & 0xff) as u8,
        ((x >> 8) & 0xff) as u8,
        (x & 0xff) as u8,
    ]
}

/// The u32 read big-endian from a four-byte sequence.
pub open spec fn u32_of_be(s: Seq<u8>) -> u32
    recommends
        s.len() == 4,
{
    (((s[0] as u32) << 24) | ((s[1] as u32) << 16) | ((s[2] as u32) << 8) | (s[3] as u32)) as u32
}

/// The four little-endian bytes of `x`.
pub open spec fn u32_le_bytes(x: u32) -> Seq<u8> {
    seq![
        (x & 0xff) as u8,
        ((x >> 8) & 0xff) as u8,
        ((x >> 16) & 0xff) as u8,
        ((x >> 24) & 0xff) as u8,
    ]
}

/// The u32 read little-endian from a four-byte sequence.
pub open spec fn u32_of_le(s: Seq<u8>) -> u32
    recommends
        s.len() == 4,
{
    (((s[3] as u32) << 24) | ((s[2] as u32) << 16) | ((s[1] as u32) << 8) | (s[0] as u32)) as u32
}

/// The eight big-endian bytes of `x`.
pub open spec fn u64_be_bytes(x: u64) -> Seq<u8> {
    seq![
        ((x >> 56) & 0xff) as u8,
        ((x >> 48) & 0xff) as u8,
        ((x >> 40) & 0xff) as u8,
        ((x >> 32) & 0xff) as u8,
        ((x >> 24) & 0xff) as u8,
        ((x >> 16) & 0xff) as u8,
        ((x >> 8) & 0xff) as u8,
        (x & 0xff) as u8,
    ]
}

/// The u64 read big-endian from an eight-byte sequence.
pub open spec fn u64_of_be(s: Seq<u8>) -> u64
    recommends
        s.len() == 8,
{
    (((s[0] as u64) << 56) | ((s[1] as u64) << 48) | ((s[2] as u64) << 40) | ((s[3] as u64) << 32)
        | ((s[4] as u64) << 24) | ((s[5] as u64) << 16) | ((s[6] as u64) << 8) | (s[7] as u64)) as u64
}

/// Reading back the big-endian bytes of a u32 yields the u32 again.
pub proof fn lemma_u32_be_round_trip(x: u32)
    ensures
        u32_of_be(u32_be_bytes(x)) == x,
{
    assert((((((x >> 24) & 0xff) as u8) as u32) << 24) | (((((x >> 16) & 0xff) as u8) as u32)
        << 16) | (((((x >> 8) & 0xff) as u8) as u32) << 8) | ((((x & 0xff) as u8) as u32)) == x)
        by (bit_vector);
}

/// Reading back the little-endian bytes of a u32 yields the u32 again.
pub proof fn lemma_u32_le_round_trip(x: u32)
    ensures
        u32_of_le(u32_le_bytes(x)) == x,
{
    assert((((((x >> 24) & 0xff) as u8) as u32) << 24) | (((((x >> 16) & 0xff) as u8) as u32)
        << 16) | (((((x >> 8) & 0xff) as u8) as u32) << 8) | ((((x & 0xff) as u8) as u32)) == x)
        by (bit_vector);
}

/// Reading back the big-endian bytes of a u64 yields the u64 again.
pub proof fn lemma_u64_be_round_trip(x: u64)
    ensures
        u64_of_be(u64_be_bytes(x)) == x,
{
    assert((((((x >> 56) & 0xff) as u8) as u64) << 56) | (((((x >> 48) & 0xff) as u8) as u64)
        << 48) | (((((x >> 40) & 0xff) as u8) as u64) << 40) | (((((x >> 32) & 0xff) as u8) as u64)
        << 32) | (((((x >> 24) & 0xff) as u8) as u64) << 24) | (((((x >> 16) & 0xff) as u8) as u64)
        << 16) | (((((x >> 8) & 0xff) as u8) as u64) << 8) | ((((x & 0xff) as u8) as u64)) == x)
        by (bit_vector);
}

/// Writing back the u32 read big-endian from four bytes yields the bytes again.
pub proof fn lemma_u32_be_inverse(s: Seq<u8>)
    requires
        s.len() == 4,
    ensures
        u32_be_bytes(u32_of_be(s)) == s,
{
    let b0 = s[0];
    let b1 = s[1];
    let b2 = s[2];
    let b3 = s[3];
    let x = u32_of_be(s);
    assert({
        let y = (((b0 as u32) << 24) | ((b1 as u32) << 16) | ((b2 as u32) << 8) | (b3 as u32))
            as u32;
        ((y >> 24) & 0xff) as u8 == b0 && ((y >> 16) & 0xff) as u8 == b1 && ((y >> 8) & 0xff) as u8
            == b2 && (y & 0xff) as u8 == b3
    }) by (bit_vector);
    assert(u32_be_bytes(x) =~= s);
}

/// Writing back the u32 read little-endian from four bytes yields the bytes again.
pub proof fn lemma_u32_le_inverse(s: Seq<u8>)
    requires
        s.len() == 4,
    ensures
        u32_le_bytes(u32_of_le(s)) == s,
{
    let b0 = s[0];
    let b1 = s[1];
    let b2 = s[2];
    let b3 = s[3];
    let x = u32_of_le(s);
    assert({
        let y = (((b3 as u32) << 24) | ((b2 as u32) << 16) | ((b1 as u32) << 8) | (b0 as u32))
            as u32;
        ((y >> 24) & 0xff) as u8 == b3 && ((y >> 16) & 0xff) as u8 == b2 && ((y >> 8) & 0xff) as u8
            == b1 && (y & 0xff) as u8 == b0
    }) by (bit_vector);
    assert(u32_le_bytes(x) =~= s);
}

/// Writing back the u64 read big-endian from eight bytes yields the bytes again.
pub proof fn lemma_u64_be_inverse(s: Seq<u8>)
    requires
        s.len() == 8,
    ensures
        u64_be_bytes(u64_of_be(s)) == s,
{
    let b0 = s[0];
    let b1 = s[1];
    let b2 = s[2];
    let b3 = s[3];
    let b4 = s[4];
    let b5 = s[5];
    let b6 = s[6];
    let b7 = s[7];
    let x = u64_of_be(s);
    assert({
        let y = (((b0 as u64) << 56) | ((b1 as u64) << 48) | ((b2 as u64) << 40) | ((b3 as u64)
            << 32) | ((b4 as u64) << 24) | ((b5 as u64) << 16) | ((b6 as u64) << 8) | (b7 as u64))
            as u64;
        ((y >> 56) & 0xff) as u8 == b0 && ((y >> 48) & 0xff) as u8 == b1 && ((y >> 40)
            & 0xff) as u8 == b2 && ((y >> 32) & 0xff) as u8 == b3 && ((y >> 24) & 0xff) as u8 == b4
            && ((y >> 16) & 0xff) as u8 == b5 && ((y >> 8) & 0xff) as u8 == b6 && (y
            & 0xff) as u8 == b7
    }) by (bit_vector);
    assert(u64_be_bytes(x) =~= s);
}

/// Appends the four big-endian bytes of `x` to `v`.
pub fn push_u32_be(v: &mut Vec<u8>, x: u32)
    ensures
        final(v)@ == old(v)@ + u32_be_bytes(x),
{
    v.push(((x >> 24) & 0xff) as u8);
    v.push(((x >> 16) & 0xff) as u8);
    v.push(((x >> 8) & 0xff) as u8);
    v.push((x & 0xff) as u8);
    assert(v@ =~= old(v)@ + u32_be_bytes(x));
}

/// Appends the four little-endian bytes of `x` to `v`.
pub fn push_u32_le(v: &mut Vec<u8>, x: u32)
    ensures
        final(v)@ == old(v)@ + u32_le_bytes(x),
{
    v.push((x & 0xff) as u8);
    v.push(((x >> 8) & 0xff) as u8);
    v.push(((x >> 16) & 0xff) as u8);
    v.push(((x >> 24) & 0xff) as u8);
    assert(v@ =~= old(v)@ + u32_le_bytes(x));
}

/// Appends the eight big-endian bytes of `x` to `v`.
pub fn push_u64_be(v: &mut Vec<u8>, x: u64)
    ensures
        final(v)@ == old(v)@ + u64_be_bytes(x),
{
    v.push(((x >> 56) & 0xff) as u8);
    v.push(((x >> 48) & 0xff) as u8);
    v.push(((x >> 40) & 0xff) as u8);
    v.push(((x >> 32) & 0xff) as u8);
    v.push(((x >> 24) & 0xff) as u8);
    v.push(((x >> 16) & 0xff) as u8);
    v.push(((x >> 8) & 0xff) as u8);
    v.push((x & 0xff) as u8);
    assert(v@ =~= old(v)@ + u64_be_bytes(x));
}

/// Reads the big-endian u32 at `pos`.
pub fn read_u32_be(v: &[u8], pos: usize) -> (x: u32)
    requires
        pos + 4 <= v@.len(),
    ensures
        x == u32_of_be(v@.subrange(pos as int, pos as int + 4)),
{
    let b0 = v[pos] as u32;
    let b1 = v[pos + 1] as u32;
    let b2 = v[pos + 2] as u32;
    let b3 = v[pos + 3] as u32;
    proof {
        let s = v@.subrange(pos as int, pos as int + 4);
        assert(s[0] == v@[pos as int] && s[1] == v@[pos as int + 1] && s[2] == v@[pos as int + 2]
            && s[3] == v@[pos as int + 3]);
    }
    (b0 << 24) | (b1 << 16) | (b2 << 8) | b3
}

/// Reads the little-endian u32 at `pos`.
pub fn read_u32_le(v: &[u8], pos: usize) -> (x: u32)
    requires
        pos + 4 <= v@.len(),
    ensures
        x == u32_of_le(v@.subrange(pos as int, pos as int + 4)),
{
    let b0 = v[pos] as u32;
    let b1 = v[pos + 1] as u32;
    let b2 = v[pos + 2] as u32;
    let b3 = v[pos + 3] as u32;
    proof {
        let s = v@.subrange(pos as int, pos as int + 4);
        assert(s[0] == v@[pos as int] && s[1] == v@[pos as int + 1] && s[2] == v@[pos as int + 2]
            && s[3] == v@[pos as int + 3]);
    }
    (b3 << 24) | (b2 << 16) | (b1 << 8) | b0
}

/// Reads the big-endian u64 at `pos`.
pub fn read_u64_be(v: &[u8], pos: usize) -> (x: u64)
    requires
        pos + 8 <= v@.len(),
    ensures
        x == u64_of_be(v@.subrange(pos as int, pos as int + 8)),
{
    let b0 = v[pos] as u64;
    let b1 = v[pos + 1] as u64;
    let b2 = v[pos + 2] as u64;
    let b3 = v[pos + 3] as u64;
    let b4 = v[pos + 4] as u64;
    let b5 = v[pos + 5] as u64;
    let b6 = v[pos + 6] as u64;
    let b7 = v[pos + 7] as u64;
    proof {
        let s = v@.subrange(pos as int, pos as int + 8);
        assert(s[0] == v@[pos as int] && s[1] == v@[pos as int + 1] && s[2] == v@[pos as int + 2]
            && s[3] == v@[pos as int + 3] && s[4] == v@[pos as int + 4] && s[5] == v@[pos as int
            + 5] && s[6] == v@[pos as int + 6] && s[7] == v@[pos as int + 7]);
    }
    (b0 << 56) | (b1 << 48) | (b2 << 40) | (b3 << 32) | (b4 << 24) | (b5 << 16) | (b6 << 8) | b7
}

/// `a + b`, stopping at the largest usize instead of wrapping.
pub open spec fn sat_add(a: int, b: int) -> int {
    if a + b > usize::MAX {
        usize::MAX as int
    } else {
        a + b
    }
}

/// Saturating addition on usize, exactly `sat_add` on the values.
pub fn usize_sat_add(a: usize, b: usize) -> (r: usize)
    ensures
        r as int == sat_add(a as int, b as int),
{
    if a > usize::MAX - b {
        usize::MAX
    } else {
        a + b
    }
}

} // verus!
