//! Fixed-width integers as they lie in a region file.

use byteorder::{BigEndian, ByteOrder, LittleEndian};
use vstd::prelude::*;

verus! {

/// The number that two bytes spell, most significant byte first.
pub open spec fn be_u16(s: Seq<u8>) -> int
    recommends
        s.len() == 2,
{
    s[0] * 0x100 + s[1]
}

/// The number that four bytes spell, most significant byte first.
pub open spec fn be_u32(s: Seq<u8>) -> int
    recommends
        s.len() == 4,
{
    s[0] * 0x100_0000 + s[1] * 0x1_0000 + s[2] * 0x100 + s[3]
}

/// The number that four bytes spell, least significant byte first.
pub open spec fn le_u32(s: Seq<u8>) -> int
    recommends
        s.len() == 4,
{
    s[3] * 0x100_0000 + s[2] * 0x1_0000 + s[1] * 0x100 + s[0]
}

/// The unsigned number that eight bytes spell, most significant byte first.
pub open spec fn be_u64(s: Seq<u8>) -> int
    recommends
        s.len() == 8,
{
    be_u32(s.subrange(0, 4)) * 0x1_0000_0000 + be_u32(s.subrange(4, 8))
}

/// The two's complement number that eight bytes spell, most significant
/// byte first.
pub open spec fn be_i64(s: Seq<u8>) -> int
    recommends
        s.len() == 8,
{
    if be_u64(s) >= 0x8000_0000_0000_0000 {
        be_u64(s) - 0x1_0000_0000_0000_0000
    } else {
        be_u64(s)
    }
}

/// The two bytes of `v`, most significant first.
pub open spec fn u16_be_bytes(v: int) -> Seq<u8>
    recommends
        0 <= v < 0x1_0000,
{
    seq![(v / 0x100) as u8, (v % 0x100) as u8]
}

/// The four bytes of `v`, most significant first.
pub open spec fn u32_be_bytes(v: int) -> Seq<u8>
    recommends
        0 <= v < 0x1_0000_0000,
{
    seq![
        (v / 0x100_0000) as u8,
        (v / 0x1_0000 % 0x100) as u8,
        (v / 0x100 % 0x100) as u8,
        (v % 0x100) as u8,
    ]
}

/// The four bytes of `v`, least significant first.
pub open spec fn u32_le_bytes(v: int) -> Seq<u8>
    recommends
        0 <= v < 0x1_0000_0000,
{
    seq![
        (v % 0x100) as u8,
        (v / 0x100 % 0x100) as u8,
        (v / 0x1_0000 % 0x100) as u8,
        (v / 0x100_0000) as u8,
    ]
}

/// The eight bytes of the two's complement number `v`, most significant
/// first.
pub open spec fn i64_be_bytes(v: int) -> Seq<u8>
    recommends
        -0x8000_0000_0000_0000 <= v < 0x8000_0000_0000_0000,
{
    let u = if v < 0 {
        v + 0x1_0000_0000_0000_0000
    } else {
        v
    };
    u32_be_bytes(u / 0x1_0000_0000) + u32_be_bytes(u % 0x1_0000_0000)
}

/// Writing a number least significant byte first and reading it back gives
/// the number.
pub proof fn lemma_le_u32_round_trip(v: int)
    requires
        0 <= v < 0x1_0000_0000,
    ensures
        u32_le_bytes(v).len() == 4,
        le_u32(u32_le_bytes(v)) == v,
{
}

/// Writing a number most significant byte first and reading it back gives
/// the number.
pub proof fn lemma_be_u32_round_trip(v: int)
    requires
        0 <= v < 0x1_0000_0000,
    ensures
        u32_be_bytes(v).len() == 4,
        be_u32(u32_be_bytes(v)) == v,
{
}

/// Writing a signed number most significant byte first and reading it back
/// gives the number.
pub proof fn lemma_be_i64_round_trip(v: int)
    requires
        -0x8000_0000_0000_0000 <= v < 0x8000_0000_0000_0000,
    ensures
        i64_be_bytes(v).len() == 8,
        be_i64(i64_be_bytes(v)) == v,
{
    let u = if v < 0 {
        v + 0x1_0000_0000_0000_0000
    } else {
        v
    };
    let hi = u / 0x1_0000_0000;
    let lo = u % 0x1_0000_0000;
    lemma_be_u32_round_trip(hi);
    lemma_be_u32_round_trip(lo);
    let s = i64_be_bytes(v);
    assert(s.subrange(0, 4) =~= u32_be_bytes(hi));
    assert(s.subrange(4, 8) =~= u32_be_bytes(lo));
    assert(be_u64(s) == u);
}

/// Four bytes are the bytes of the little-endian number that they spell.
pub proof fn lemma_le_u32_bytes_of_value(s: Seq<u8>)
    requires
        s.len() == 4,
    ensures
        0 <= le_u32(s) < 0x1_0000_0000,
        u32_le_bytes(le_u32(s)) == s,
{
    let v = le_u32(s);
    let hi = s[3] * 0x1_0000 + s[2] * 0x100 + s[1];
    assert(v == hi * 0x100 + s[0]);
    assert(v / 0x100 == hi && v % 0x100 == s[0]);
    let top = s[3] * 0x100 + s[2];
    assert(hi == top * 0x100 + s[1]);
    assert(hi / 0x100 == top && hi % 0x100 == s[1]);
    assert(v / 0x1_0000 == top) by {
        assert(v == top * 0x1_0000 + (s[1] * 0x100 + s[0]));
    }
    assert(top / 0x100 == s[3] && top % 0x100 == s[2]);
    assert(v / 0x100_0000 == s[3]) by {
        assert(v == s[3] * 0x100_0000 + (s[2] * 0x1_0000 + s[1] * 0x100 + s[0]));
    }
    assert(u32_le_bytes(v) =~= s);
}

/// Reads the big-endian `u32` at `at`.
pub fn read_be_u32(data: &[u8], at: usize) -> (v: u32)
    requires
        at + 4 <= data@.len(),
    ensures
        v == be_u32(data@.subrange(at as int, at + 4)),
{
    let b0: u32 = data[at] as u32;
    let b1: u32 = data[at + 1] as u32;
    let b2: u32 = data[at + 2] as u32;
    let b3: u32 = data[at + 3] as u32;
    b0 * 0x100_0000 + b1 * 0x1_0000 + b2 * 0x100 + b3
}

/// Reads the big-endian `u16` at `at`.
pub fn read_be_u16(data: &[u8], at: usize) -> (v: u16)
    requires
        at + 2 <= data@.len(),
    ensures
        v == be_u16(data@.subrange(at as int, at + 2)),
{
    let b0: u16 = data[at] as u16;
    let b1: u16 = data[at + 1] as u16;
    b0 * 0x100 + b1
}

/// The four bytes of `v`, most significant first.
pub fn u32_to_be(v: u32) -> (b: [u8; 4])
    ensures
        b@ == u32_be_bytes(v as int),
{
    let b: [u8; 4] = [
        (v / 0x100_0000) as u8,
        (v / 0x1_0000 % 0x100) as u8,
        (v / 0x100 % 0x100) as u8,
        (v % 0x100) as u8,
    ];
    assert(b@ =~= u32_be_bytes(v as int));
    b
}

/// `byteorder::LittleEndian::read_u32`: the first four bytes of the buffer
/// read as a number, least significant byte first. The crate panics on a
/// shorter buffer, so exactly four bytes are asked for.
#[verifier::external_body]
pub(crate) fn le_read_u32(buf: &[u8]) -> (v: u32)
    requires
        buf@.len() == 4,
    ensures
        v == le_u32(buf@),
{
    LittleEndian::read_u32(buf)
}

/// `byteorder::LittleEndian::write_u32` into a buffer of four bytes: the
/// bytes of the number, least significant first.
#[verifier::external_body]
pub(crate) fn le_write_u32(v: u32) -> (b: [u8; 4])
    ensures
        b@ == u32_le_bytes(v as int),
{
    let mut b = [0u8; 4];
    LittleEndian::write_u32(&mut b, v);
    b
}

/// `byteorder::BigEndian::write_u16` into a buffer of two bytes: the bytes
/// of the number, most significant first.
#[verifier::external_body]
pub(crate) fn be_write_u16(v: u16) -> (b: [u8; 2])
    ensures
        b@ == u16_be_bytes(v as int),
{
    let mut b = [0u8; 2];
    BigEndian::write_u16(&mut b, v);
    b
}

/// `byteorder::BigEndian::read_i64`: the first eight bytes of the buffer
/// read as a two's complement number, most significant byte first. The
/// crate panics on a shorter buffer, so exactly eight bytes are asked for.
#[verifier::external_body]
pub(crate) fn be_read_i64(buf: &[u8]) -> (v: i64)
    requires
        buf@.len() == 8,
    ensures
        v == be_i64(buf@),
{
    BigEndian::read_i64(buf)
}

} // verus!
