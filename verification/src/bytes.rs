//! Little-endian integers inside byte sequences.
//!
//! Every format of this crate (map blobs, wire frames, session logs) is made
//! of little-endian fields. The spec functions here say what the bytes of an
//! integer are; the executable ones append and extract them.

use vstd::prelude::*;

verus! {

/// The two little-endian bytes of `v`.
pub open spec fn le16(v: u16) -> Seq<u8> {
    seq![(v % 256) as u8, (v / 256) as u8]
}

/// The four little-endian bytes of `v`.
pub open spec fn le32(v: u32) -> Seq<u8> {
    seq![
        (v % 256) as u8,
        (v / 256 % 256) as u8,
        (v / 65536 % 256) as u8,
        (v / 16777216) as u8,
    ]
}

/// The eight little-endian bytes of `v`: its low half, then its high half.
pub open spec fn le64(v: u64) -> Seq<u8> {
    le32((v % 0x1_0000_0000) as u32) + le32((v / 0x1_0000_0000) as u32)
}

/// The integer whose little-endian bytes are the first two of `s`.
pub open spec fn get16(s: Seq<u8>) -> u16 {
    (s[0] + 256 * s[1]) as u16
}

/// The integer whose little-endian bytes are the first four of `s`.
pub open spec fn get32(s: Seq<u8>) -> u32 {
    (s[0] + 256 * s[1] + 65536 * s[2] + 16777216 * s[3]) as u32
}

/// The integer whose little-endian bytes are the first eight of `s`.
pub open spec fn get64(s: Seq<u8>) -> u64 {
    (get32(s) + 0x1_0000_0000 * get32(s.skip(4))) as u64
}

/// The two bytes of an `i16` in two's complement, little-endian.
pub open spec fn le_i16(v: i16) -> Seq<u8> {
    le16((if v < 0 { v + 65536 } else { v as int }) as u16)
}

/// The `i16` whose two's complement bytes are the first two of `s`.
pub open spec fn get_i16(s: Seq<u8>) -> i16 {
    let u = get16(s);
    (if u >= 32768 { u - 65536 } else { u as int }) as i16
}

/// Reading back the bytes of an `i16` gives the same `i16`, whatever follows.
pub proof fn lemma_get_i16_le_i16(v: i16, rest: Seq<u8>)
    ensures
        le_i16(v).len() == 2,
        get_i16(le_i16(v) + rest) == v,
{
}

/// Reading back the bytes of a `u32` gives the same `u32`, whatever follows.
pub proof fn lemma_get32_le32(v: u32, rest: Seq<u8>)
    ensures
        le32(v).len() == 4,
        get32(le32(v) + rest) == v,
{
}

/// Reading back the bytes of a `u64` gives the same `u64`, whatever follows.
pub proof fn lemma_get64_le64(v: u64, rest: Seq<u8>)
    ensures
        le64(v).len() == 8,
        get64(le64(v) + rest) == v,
{
    let lo = (v % 0x1_0000_0000) as u32;
    let hi = (v / 0x1_0000_0000) as u32;
    let s = le64(v) + rest;
    assert(s =~= le32(lo) + (le32(hi) + rest));
    lemma_get32_le32(lo, le32(hi) + rest);
    assert(s.skip(4) =~= le32(hi) + rest);
    lemma_get32_le32(hi, rest);
}

/// Appends one byte run to another.
pub fn put_bytes(b: &mut Vec<u8>, s: &[u8])
    ensures
        final(b)@ == old(b)@ + s@,
{
    let n = s.len();
    for i in 0..n
        invariant
            n == s@.len(),
            b@ == old(b)@ + s@.take(i as int),
    {
        b.push(s[i]);
        assert(s@.take(i + 1) =~= s@.take(i as int).push(s@[i as int]));
    }
    assert(s@.take(n as int) =~= s@);
}

/// Appends the two's complement bytes of `v`.
pub fn put_i16(b: &mut Vec<u8>, v: i16)
    ensures
        final(b)@ == old(b)@ + le_i16(v),
{
    let u: u16 = if v < 0 { (v as i32 + 65536) as u16 } else { v as u16 };
    b.push((u % 256) as u8);
    b.push((u / 256) as u8);
}

/// Appends the four little-endian bytes of `v`.
pub fn put_u32(b: &mut Vec<u8>, v: u32)
    ensures
        final(b)@ == old(b)@ + le32(v),
{
    b.push((v % 256) as u8);
    b.push((v / 256 % 256) as u8);
    b.push((v / 65536 % 256) as u8);
    b.push((v / 16777216) as u8);
}

/// Appends the eight little-endian bytes of `v`.
pub fn put_u64(b: &mut Vec<u8>, v: u64)
    ensures
        final(b)@ == old(b)@ + le64(v),
{
    put_u32(b, (v % 0x1_0000_0000) as u32);
    put_u32(b, (v / 0x1_0000_0000) as u32);
    assert(b@ =~= old(b)@ + le64(v));
}

/// The `i16` at offset `at` of `s`.
pub fn i16_at(s: &[u8], at: usize) -> (v: i16)
    requires
        at + 2 <= s@.len(),
    ensures
        v == get_i16(s@.skip(at as int)),
{
    let u: u16 = s[at] as u16 + 256 * (s[at + 1] as u16);
    if u >= 32768 {
        (u as i32 - 65536) as i16
    } else {
        u as i16
    }
}

/// The `u32` at offset `at` of `s`.
pub fn u32_at(s: &[u8], at: usize) -> (v: u32)
    requires
        at + 4 <= s@.len(),
    ensures
        v == get32(s@.skip(at as int)),
{
    s[at] as u32 + 256 * (s[at + 1] as u32) + 65536 * (s[at + 2] as u32) + 16777216 * (s[at
        + 3] as u32)
}

/// The `u64` at offset `at` of `s`.
pub fn u64_at(s: &[u8], at: usize) -> (v: u64)
    requires
        at + 8 <= s@.len(),
    ensures
        v == get64(s@.skip(at as int)),
{
    assert(at + 8 <= s.len());
    let lo: u32 = u32_at(s, at);
    let hi: u32 = u32_at(s, at + 4);
    assert(s@.skip(at as int).skip(4) =~= s@.skip(at + 4));
    lo as u64 + 0x1_0000_0000 * (hi as u64)
}

} // verus!
