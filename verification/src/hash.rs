//! FNV-1a 64: the one deterministic byte hash every identity, fingerprint and
//! cache checksum in this crate is built on.

use vstd::prelude::*;

verus! {

/// FNV-1a 64 offset basis.
pub const FNV_OFFSET_BASIS: u64 = 0xcbf2_9ce4_8422_2325;
/// FNV-1a 64 prime.
pub const FNV_PRIME: u64 = 0x0000_0100_0000_01b3;

/// One FNV-1a round: fold a byte in, then multiply modulo 2^64.
pub open spec fn fnv_step(hash: u64, byte: u8) -> u64 {
    (hash ^ (byte as u64)).wrapping_mul(FNV_PRIME)
}

/// FNV-1a 64 of a byte sequence, continuing from `start`.
pub open spec fn fnv_from(start: u64, bytes: Seq<u8>) -> u64
    decreases bytes.len(),
{
    if bytes.len() == 0 {
        start
    } else {
        fnv_step(fnv_from(start, bytes.drop_last()), bytes.last())
    }
}

/// FNV-1a 64 of a byte sequence.
pub open spec fn spec_fnv1a64(bytes: Seq<u8>) -> u64 {
    fnv_from(FNV_OFFSET_BASIS, bytes)
}

/// FNV-1a 64.
///
/// Small, dependency free and identical on every platform because it consumes
/// bytes rather than native integers. For identity and corruption detection
/// only; never a cryptographic measure.
pub fn fnv1a64(bytes: &[u8]) -> (hash: u64)
    ensures
        hash == spec_fnv1a64(bytes@),
{
    let mut hash: u64 = FNV_OFFSET_BASIS;
    let mut index: usize = 0;
    while index < bytes.len()
        invariant
            index <= bytes@.len(),
            hash == fnv_from(FNV_OFFSET_BASIS, bytes@.take(index as int)),
        decreases bytes@.len() - index,
    {
        proof {
            assert(bytes@.take(index as int + 1).drop_last() =~= bytes@.take(index as int));
        }
        hash = (hash ^ (bytes[index] as u64)).wrapping_mul(FNV_PRIME);
        index = index + 1;
    }
    proof {
        assert(bytes@.take(index as int) =~= bytes@);
    }
    hash
}

/// Hashing a concatenation is hashing the second part starting from the hash
/// of the first: FNV-1a is a left fold, so a fingerprint can be extended.
pub proof fn lemma_fnv_concat(start: u64, a: Seq<u8>, b: Seq<u8>)
    ensures
        fnv_from(start, a + b) == fnv_from(fnv_from(start, a), b),
    decreases b.len(),
{
    if b.len() == 0 {
        assert(a + b =~= a);
    } else {
        assert((a + b).drop_last() =~= a + b.drop_last());
        lemma_fnv_concat(start, a, b.drop_last());
    }
}

} // verus!
