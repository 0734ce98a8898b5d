//! Little-endian field access on byte buffers.
//!
//! Every integer that reaches a byte format in this crate goes through here,
//! so the byte order is decided once. Signed values are stored as their
//! two's-complement bit pattern.

use vstd::bytes::*;
use vstd::prelude::*;

verus! {

/// Writes a `u16` at `offset`, leaving every other byte as it was.
pub fn put_u16(bytes: &mut Vec<u8>, offset: usize, value: u16)
    requires
        offset + 2 <= old(bytes).len(),
    ensures
        final(bytes)@ == old(bytes)@.take(offset as int) + spec_u16_to_le_bytes(value) + old(
            bytes,
        )@.skip(offset + 2),
{
    let encoded = u16_to_le_bytes(value);
    bytes.set(offset, encoded[0]);
    bytes.set(offset + 1, encoded[1]);
    proof {
        assert(bytes@ =~= old(bytes)@.take(offset as int) + spec_u16_to_le_bytes(value) + old(
            bytes,
        )@.skip(offset + 2));
    }
}

/// Writes a `u32` at `offset`, leaving every other byte as it was.
pub fn put_u32(bytes: &mut Vec<u8>, offset: usize, value: u32)
    requires
        offset + 4 <= old(bytes).len(),
    ensures
        final(bytes)@ == old(bytes)@.take(offset as int) + spec_u32_to_le_bytes(value) + old(
            bytes,
        )@.skip(offset + 4),
{
    let encoded = u32_to_le_bytes(value);
    let mut index: usize = 0;
    while index < 4
        invariant
            offset + 4 <= old(bytes).len(),
            encoded@ == spec_u32_to_le_bytes(value),
            encoded@.len() == 4,
            index <= 4,
            bytes@.len() == old(bytes)@.len(),
            forall|i: int|
                0 <= i < bytes@.len() ==> #[trigger] bytes@[i] == if offset <= i < offset + index {
                    encoded@[i - offset]
                } else {
                    old(bytes)@[i]
                },
        decreases 4 - index,
    {
        bytes.set(offset + index, encoded[index]);
        index = index + 1;
    }
    proof {
        assert(bytes@ =~= old(bytes)@.take(offset as int) + spec_u32_to_le_bytes(value) + old(
            bytes,
        )@.skip(offset + 4));
    }
}

/// Writes an `i32` at `offset` as its two's-complement bit pattern.
pub fn put_i32(bytes: &mut Vec<u8>, offset: usize, value: i32)
    requires
        offset + 4 <= old(bytes).len(),
    ensures
        final(bytes)@ == old(bytes)@.take(offset as int) + spec_u32_to_le_bytes(value as u32)
            + old(bytes)@.skip(offset + 4),
{
    put_u32(bytes, offset, value as u32);
}

/// Writes a `u64` at `offset`, leaving every other byte as it was.
pub fn put_u64(bytes: &mut Vec<u8>, offset: usize, value: u64)
    requires
        offset + 8 <= old(bytes).len(),
    ensures
        final(bytes)@ == old(bytes)@.take(offset as int) + spec_u64_to_le_bytes(value) + old(
            bytes,
        )@.skip(offset + 8),
{
    let encoded = u64_to_le_bytes(value);
    let mut index: usize = 0;
    while index < 8
        invariant
            offset + 8 <= old(bytes).len(),
            encoded@ == spec_u64_to_le_bytes(value),
            encoded@.len() == 8,
            index <= 8,
            bytes@.len() == old(bytes)@.len(),
            forall|i: int|
                0 <= i < bytes@.len() ==> #[trigger] bytes@[i] == if offset <= i < offset + index {
                    encoded@[i - offset]
                } else {
                    old(bytes)@[i]
                },
        decreases 8 - index,
    {
        bytes.set(offset + index, encoded[index]);
        index = index + 1;
    }
    proof {
        assert(bytes@ =~= old(bytes)@.take(offset as int) + spec_u64_to_le_bytes(value) + old(
            bytes,
        )@.skip(offset + 8));
    }
}

/// Reads the `u16` stored at `offset`.
pub fn read_u16(bytes: &[u8], offset: usize) -> (value: u16)
    requires
        offset + 2 <= bytes.len(),
    ensures
        value == spec_u16_from_le_bytes(bytes@.subrange(offset as int, offset + 2)),
{
    u16_from_le_bytes(vstd::slice::slice_subrange(bytes, offset, offset + 2))
}

/// Reads the `u32` stored at `offset`.
pub fn read_u32(bytes: &[u8], offset: usize) -> (value: u32)
    requires
        offset + 4 <= bytes.len(),
    ensures
        value == spec_u32_from_le_bytes(bytes@.subrange(offset as int, offset + 4)),
{
    u32_from_le_bytes(vstd::slice::slice_subrange(bytes, offset, offset + 4))
}

/// Reads the `i32` whose bit pattern is stored at `offset`.
pub fn read_i32(bytes: &[u8], offset: usize) -> (value: i32)
    requires
        offset + 4 <= bytes.len(),
    ensures
        value == spec_u32_from_le_bytes(bytes@.subrange(offset as int, offset + 4)) as i32,
{
    read_u32(bytes, offset) as i32
}

/// Reads the `u64` stored at `offset`.
pub fn read_u64(bytes: &[u8], offset: usize) -> (value: u64)
    requires
        offset + 8 <= bytes.len(),
    ensures
        value == spec_u64_from_le_bytes(bytes@.subrange(offset as int, offset + 8)),
{
    u64_from_le_bytes(vstd::slice::slice_subrange(bytes, offset, offset + 8))
}

/// Appends the little-endian bytes of a `u16`.
pub fn push_u16(bytes: &mut Vec<u8>, value: u16)
    ensures
        final(bytes)@ == old(bytes)@ + spec_u16_to_le_bytes(value),
{
    let mut encoded = u16_to_le_bytes(value);
    bytes.append(&mut encoded);
}

/// Appends the little-endian bytes of a `u32`.
pub fn push_u32(bytes: &mut Vec<u8>, value: u32)
    ensures
        final(bytes)@ == old(bytes)@ + spec_u32_to_le_bytes(value),
{
    let mut encoded = u32_to_le_bytes(value);
    bytes.append(&mut encoded);
}

/// Appends the little-endian two's-complement bytes of an `i32`.
pub fn push_i32(bytes: &mut Vec<u8>, value: i32)
    ensures
        final(bytes)@ == old(bytes)@ + spec_u32_to_le_bytes(value as u32),
{
    push_u32(bytes, value as u32);
}

/// Appends the little-endian bytes of a `u64`.
pub fn push_u64(bytes: &mut Vec<u8>, value: u64)
    ensures
        final(bytes)@ == old(bytes)@ + spec_u64_to_le_bytes(value),
{
    let mut encoded = u64_to_le_bytes(value);
    bytes.append(&mut encoded);
}

/// Appends the little-endian two's-complement bytes of an `i64`.
pub fn push_i64(bytes: &mut Vec<u8>, value: i64)
    ensures
        final(bytes)@ == old(bytes)@ + spec_u64_to_le_bytes(value as u64),
{
    push_u64(bytes, value as u64);
}

} // verus!
