//! Deterministic spatial hashing.
//!
//! Every function here is a pure function of a seed and a lattice position:
//! no global randomness, no sequential generator state, and no dependence on
//! the order in which chunks are generated.

use vstd::prelude::*;

verus! {

/// The SplitMix64 finaliser, used for every spatial hash.
pub open spec fn spec_mix64(value: u64) -> u64 {
    let a = value ^ (value >> 30u64);
    let b = a.wrapping_mul(0xbf58_476d_1ce4_e5b9);
    let c = b ^ (b >> 27u64);
    let e = c.wrapping_mul(0x94d0_49bb_1331_11eb);
    e ^ (e >> 31u64)
}

/// A 64-bit value rotated left by `shift` bits, `0 < shift < 64`.
pub open spec fn spec_rotate_left(value: u64, shift: u64) -> u64 {
    (value << shift) | (value >> (64 - shift) as u64)
}

/// The hash of a two-dimensional lattice point under a stream. Coordinates
/// are folded as two's-complement bit patterns.
pub open spec fn spec_hash_2d(seed: u64, stream: u64, x: i64, z: i64) -> u64 {
    let value = seed ^ spec_mix64(stream);
    let value = spec_mix64(value ^ (x as u64));
    spec_mix64(value ^ spec_rotate_left(z as u64, 32))
}

/// The hash of a three-dimensional lattice point under a stream.
pub open spec fn spec_hash_3d(seed: u64, stream: u64, x: i64, y: i64, z: i64) -> u64 {
    let value = seed ^ spec_mix64(stream);
    let value = spec_mix64(value ^ (x as u64));
    let value = spec_mix64(value ^ spec_rotate_left(y as u64, 21));
    spec_mix64(value ^ spec_rotate_left(z as u64, 42))
}

/// An independent value derived from a hash, addressable by index.
pub open spec fn spec_sub_hash(hash: u64, index: u64) -> u64 {
    spec_mix64(hash ^ index.wrapping_mul(0x9e37_79b9_7f4a_7c15))
}

fn mix64(value: u64) -> (mixed: u64)
    ensures
        mixed == spec_mix64(value),
{
    let a = value ^ (value >> 30u64);
    let b = a.wrapping_mul(0xbf58_476d_1ce4_e5b9);
    let c = b ^ (b >> 27u64);
    let e = c.wrapping_mul(0x94d0_49bb_1331_11eb);
    e ^ (e >> 31u64)
}

fn rotate_left(value: u64, shift: u64) -> (rotated: u64)
    requires
        0 < shift < 64,
    ensures
        rotated == spec_rotate_left(value, shift),
{
    (value << shift) | (value >> (64 - shift))
}

/// Hashes a two-dimensional lattice point under a named stream, so that
/// adding a draw to one system cannot perturb another.
pub fn hash_2d(seed: u64, stream: u64, x: i64, z: i64) -> (hash: u64)
    ensures
        hash == spec_hash_2d(seed, stream, x, z),
{
    let mut value = seed ^ mix64(stream);
    value = mix64(value ^ (x as u64));
    mix64(value ^ rotate_left(z as u64, 32))
}

/// Hashes a three-dimensional lattice point under a named stream.
pub fn hash_3d(seed: u64, stream: u64, x: i64, y: i64, z: i64) -> (hash: u64)
    ensures
        hash == spec_hash_3d(seed, stream, x, y, z),
{
    let mut value = seed ^ mix64(stream);
    value = mix64(value ^ (x as u64));
    value = mix64(value ^ rotate_left(y as u64, 21));
    mix64(value ^ rotate_left(z as u64, 42))
}

/// Derives an independent value from an existing hash: several numbers from
/// one lattice cell, each addressable by name.
pub fn sub_hash(hash: u64, index: u64) -> (derived: u64)
    ensures
        derived == spec_sub_hash(hash, index),
{
    mix64(hash ^ index.wrapping_mul(0x9e37_79b9_7f4a_7c15))
}

} // verus!
