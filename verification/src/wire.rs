//! The fixed-width integers of the file format.
//!
//! The header is an unsigned 32-bit integer, least significant byte first.
//! The entry count is a signed 32-bit integer and each string length an
//! unsigned 16-bit integer, both most significant byte first.

use vstd::prelude::*;

verus! {

/// The four bytes of `v`, least significant first.
pub open spec fn u32_le(v: u32) -> Seq<u8> {
    seq![
        (v % 0x100) as u8,
        (v / 0x100 % 0x100) as u8,
        (v / 0x1_0000 % 0x100) as u8,
        (v / 0x100_0000) as u8,
    ]
}

/// The value whose least significant byte is `b[0]`.
pub open spec fn u32_from_le(b: Seq<u8>) -> u32
    recommends
        b.len() == 4,
{
    (b[0] + b[1] * 0x100 + b[2] * 0x1_0000 + b[3] * 0x100_0000) as u32
}

/// The two bytes of `v`, most significant first.
pub open spec fn u16_be(v: u16) -> Seq<u8> {
    seq![(v / 0x100) as u8, (v % 0x100) as u8]
}

/// The value whose most significant byte is `b[0]`.
pub open spec fn u16_from_be(b: Seq<u8>) -> u16
    recommends
        b.len() == 2,
{
    (b[0] * 0x100 + b[1]) as u16
}

/// The unsigned integer with the same 32 bits as `v` in two's complement.
pub open spec fn i32_bits(v: i32) -> int {
    if v < 0 {
        v + 0x1_0000_0000
    } else {
        v as int
    }
}

/// The four bytes of `v` in two's complement, most significant first.
pub open spec fn i32_be(v: i32) -> Seq<u8> {
    let u = i32_bits(v);
    seq![
        (u / 0x100_0000) as u8,
        (u / 0x1_0000 % 0x100) as u8,
        (u / 0x100 % 0x100) as u8,
        (u % 0x100) as u8,
    ]
}

/// The two's complement value whose most significant byte is `b[0]`.
pub open spec fn i32_from_be(b: Seq<u8>) -> i32
    recommends
        b.len() == 4,
{
    let u = b[0] * 0x100_0000 + b[1] * 0x1_0000 + b[2] * 0x100 + b[3];
    if u >= 0x8000_0000 {
        (u - 0x1_0000_0000) as i32
    } else {
        u as i32
    }
}

/// Reading back the bytes of a header gives the header.
pub proof fn lemma_u32_le_round_trip(v: u32)
    ensures
        u32_le(v).len() == 4,
        u32_from_le(u32_le(v)) == v,
{
}

/// Reading back the bytes of a length gives the length.
pub proof fn lemma_u16_be_round_trip(v: u16)
    ensures
        u16_be(v).len() == 2,
        u16_from_be(u16_be(v)) == v,
{
}

/// Reading back the bytes of a count gives the count.
pub proof fn lemma_i32_be_round_trip(v: i32)
    ensures
        i32_be(v).len() == 4,
        i32_from_be(i32_be(v)) == v,
{
}

/// Appends the header `v` to `out`.
pub fn put_u32_le(out: &mut Vec<u8>, v: u32)
    ensures
        final(out)@ == old(out)@ + u32_le(v),
{
    out.push((v % 0x100) as u8);
    out.push((v / 0x100 % 0x100) as u8);
    out.push((v / 0x1_0000 % 0x100) as u8);
    out.push((v / 0x100_0000) as u8);
}

/// Appends the length `v` to `out`.
pub fn put_u16_be(out: &mut Vec<u8>, v: u16)
    ensures
        final(out)@ == old(out)@ + u16_be(v),
{
    out.push((v / 0x100) as u8);
    out.push((v % 0x100) as u8);
}

/// Appends the count `v` to `out`.
pub fn put_i32_be(out: &mut Vec<u8>, v: i32)
    ensures
        final(out)@ == old(out)@ + i32_be(v),
{
    let u: u32 = if v < 0 {
        (v as i64 + 0x1_0000_0000) as u32
    } else {
        v as u32
    };
    out.push((u / 0x100_0000) as u8);
    out.push((u / 0x1_0000 % 0x100) as u8);
    out.push((u / 0x100 % 0x100) as u8);
    out.push((u % 0x100) as u8);
}

/// The header that starts at `pos`, if four bytes are there.
pub open spec fn u32_le_at(b: Seq<u8>, pos: int) -> Option<u32> {
    if 0 <= pos && pos + 4 <= b.len() {
        Some(u32_from_le(b.subrange(pos, pos + 4)))
    } else {
        None
    }
}

/// The length that starts at `pos`, if two bytes are there.
pub open spec fn u16_be_at(b: Seq<u8>, pos: int) -> Option<u16> {
    if 0 <= pos && pos + 2 <= b.len() {
        Some(u16_from_be(b.subrange(pos, pos + 2)))
    } else {
        None
    }
}

/// The count that starts at `pos`, if four bytes are there.
pub open spec fn i32_be_at(b: Seq<u8>, pos: int) -> Option<i32> {
    if 0 <= pos && pos + 4 <= b.len() {
        Some(i32_from_be(b.subrange(pos, pos + 4)))
    } else {
        None
    }
}

/// Reads the header that starts at `pos`.
pub fn get_u32_le(bytes: &[u8], pos: usize) -> (r: Option<u32>)
    ensures
        r == u32_le_at(bytes@, pos as int),
{
    if pos > bytes.len() || bytes.len() - pos < 4 {
        return None;
    }
    let b0: u32 = bytes[pos] as u32;
    let b1: u32 = bytes[pos + 1] as u32;
    let b2: u32 = bytes[pos + 2] as u32;
    let b3: u32 = bytes[pos + 3] as u32;
    Some(b0 + b1 * 0x100 + b2 * 0x1_0000 + b3 * 0x100_0000)
}

/// Reads the length that starts at `pos`.
pub fn get_u16_be(bytes: &[u8], pos: usize) -> (r: Option<u16>)
    ensures
        r == u16_be_at(bytes@, pos as int),
{
    if pos > bytes.len() || bytes.len() - pos < 2 {
        return None;
    }
    let b0: u16 = bytes[pos] as u16;
    let b1: u16 = bytes[pos + 1] as u16;
    Some(b0 * 0x100 + b1)
}

/// Reads the count that starts at `pos`.
pub fn get_i32_be(bytes: &[u8], pos: usize) -> (r: Option<i32>)
    ensures
        r == i32_be_at(bytes@, pos as int),
{
    if pos > bytes.len() || bytes.len() - pos < 4 {
        return None;
    }
    let b0: i64 = bytes[pos] as i64;
    let b1: i64 = bytes[pos + 1] as i64;
    let b2: i64 = bytes[pos + 2] as i64;
    let b3: i64 = bytes[pos + 3] as i64;
    let u: i64 = b0 * 0x100_0000 + b1 * 0x1_0000 + b2 * 0x100 + b3;
    if u >= 0x8000_0000 {
        Some((u - 0x1_0000_0000) as i32)
    } else {
        Some(u as i32)
    }
}

} // verus!
