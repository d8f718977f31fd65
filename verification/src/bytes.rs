//! Big-endian decoding of the fixed-width integers that NBT is made of.
//!
//! The decoding itself is done by `byteorder_lite`; each wrapper here states
//! what the crate computes for the bytes it is handed.

use byteorder_lite::{BigEndian, ByteOrder};
use vstd::prelude::*;

verus! {

/// The unsigned value of the two bytes at `p`, most significant first.
pub open spec fn be_u16_at(d: Seq<u8>, p: int) -> int {
    d[p] * 0x100 + d[p + 1]
}

/// The unsigned value of the four bytes at `p`, most significant first.
pub open spec fn be_u32_at(d: Seq<u8>, p: int) -> int {
    d[p] * 0x100_0000 + d[p + 1] * 0x1_0000 + d[p + 2] * 0x100 + d[p + 3]
}

/// The unsigned value of the eight bytes at `p`, most significant first.
pub open spec fn be_u64_at(d: Seq<u8>, p: int) -> int {
    be_u32_at(d, p) * 0x1_0000_0000 + be_u32_at(d, p + 4)
}

pub open spec fn i8_of(b: u8) -> i8 {
    (if b >= 0x80 { b - 0x100 } else { b as int }) as i8
}

pub open spec fn be_i16_at(d: Seq<u8>, p: int) -> i16 {
    (if be_u16_at(d, p) >= 0x8000 { be_u16_at(d, p) - 0x1_0000 } else { be_u16_at(d, p) }) as i16
}

pub open spec fn be_i32_at(d: Seq<u8>, p: int) -> i32 {
    (if be_u32_at(d, p) >= 0x8000_0000 { be_u32_at(d, p) - 0x1_0000_0000 } else { be_u32_at(
        d,
        p,
    ) }) as i32
}

pub open spec fn be_i64_at(d: Seq<u8>, p: int) -> i64 {
    (if be_u64_at(d, p) >= 0x8000_0000_0000_0000 {
        be_u64_at(d, p) - 0x1_0000_0000_0000_0000
    } else {
        be_u64_at(d, p)
    }) as i64
}

/// `BigEndian::read_u16` of `byteorder_lite`: the first two bytes, most significant first.
#[verifier::external_body]
fn read_be_u16(buf: &[u8]) -> (r: u16)
    requires
        buf@.len() >= 2,
    ensures
        r == be_u16_at(buf@, 0),
{
    BigEndian::read_u16(buf)
}

/// `BigEndian::read_u32` of `byteorder_lite`: the first four bytes, most significant first.
#[verifier::external_body]
fn read_be_u32(buf: &[u8]) -> (r: u32)
    requires
        buf@.len() >= 4,
    ensures
        r == be_u32_at(buf@, 0),
{
    BigEndian::read_u32(buf)
}

/// `BigEndian::read_u64` of `byteorder_lite`: the first eight bytes, most significant first.
#[verifier::external_body]
fn read_be_u64(buf: &[u8]) -> (r: u64)
    requires
        buf@.len() >= 8,
    ensures
        r == be_u64_at(buf@, 0),
{
    BigEndian::read_u64(buf)
}

/// `BigEndian::read_i16` of `byteorder_lite`: `read_u16` taken as two's complement.
#[verifier::external_body]
fn read_be_i16(buf: &[u8]) -> (r: i16)
    requires
        buf@.len() >= 2,
    ensures
        r == be_i16_at(buf@, 0),
{
    BigEndian::read_i16(buf)
}

/// `BigEndian::read_i32` of `byteorder_lite`: `read_u32` taken as two's complement.
#[verifier::external_body]
fn read_be_i32(buf: &[u8]) -> (r: i32)
    requires
        buf@.len() >= 4,
    ensures
        r == be_i32_at(buf@, 0),
{
    BigEndian::read_i32(buf)
}

/// `BigEndian::read_i64` of `byteorder_lite`: `read_u64` taken as two's complement.
#[verifier::external_body]
fn read_be_i64(buf: &[u8]) -> (r: i64)
    requires
        buf@.len() >= 8,
    ensures
        r == be_i64_at(buf@, 0),
{
    BigEndian::read_i64(buf)
}

/// The `u16` stored big-endian at `pos`.
pub fn u16_at(data: &[u8], pos: usize) -> (r: u16)
    requires
        pos + 2 <= data@.len(),
    ensures
        r == be_u16_at(data@, pos as int),
{
    proof {
        // the slice's length fits in a `usize`
        assert(data.len() == data@.len());
    }
    let b = &data[pos..pos + 2];
    read_be_u16(b)
}

/// The `u32` stored big-endian at `pos`.
pub fn u32_at(data: &[u8], pos: usize) -> (r: u32)
    requires
        pos + 4 <= data@.len(),
    ensures
        r == be_u32_at(data@, pos as int),
{
    proof {
        // the slice's length fits in a `usize`
        assert(data.len() == data@.len());
    }
    let b = &data[pos..pos + 4];
    read_be_u32(b)
}

/// The `u64` stored big-endian at `pos`.
pub fn u64_at(data: &[u8], pos: usize) -> (r: u64)
    requires
        pos + 8 <= data@.len(),
    ensures
        r == be_u64_at(data@, pos as int),
{
    proof {
        // the slice's length fits in a `usize`
        assert(data.len() == data@.len());
    }
    let b = &data[pos..pos + 8];
    read_be_u64(b)
}

/// The `i16` stored big-endian at `pos`.
pub fn i16_at(data: &[u8], pos: usize) -> (r: i16)
    requires
        pos + 2 <= data@.len(),
    ensures
        r == be_i16_at(data@, pos as int),
{
    proof {
        // the slice's length fits in a `usize`
        assert(data.len() == data@.len());
    }
    let b = &data[pos..pos + 2];
    read_be_i16(b)
}

/// The `i32` stored big-endian at `pos`.
pub fn i32_at(data: &[u8], pos: usize) -> (r: i32)
    requires
        pos + 4 <= data@.len(),
    ensures
        r == be_i32_at(data@, pos as int),
{
    proof {
        // the slice's length fits in a `usize`
        assert(data.len() == data@.len());
    }
    let b = &data[pos..pos + 4];
    read_be_i32(b)
}

/// The `i64` stored big-endian at `pos`.
pub fn i64_at(data: &[u8], pos: usize) -> (r: i64)
    requires
        pos + 8 <= data@.len(),
    ensures
        r == be_i64_at(data@, pos as int),
{
    proof {
        // the slice's length fits in a `usize`
        assert(data.len() == data@.len());
    }
    let b = &data[pos..pos + 8];
    read_be_i64(b)
}

/// The byte at `pos` read as a signed byte.
pub fn i8_at(data: &[u8], pos: usize) -> (r: i8)
    requires
        pos < data@.len(),
    ensures
        r == i8_of(data@[pos as int]),
{
    let b = data[pos];
    if b >= 0x80 {
        let v: i16 = b as i16 - 0x100;
        v as i8
    } else {
        b as i8
    }
}

} // verus!
