//! World identity: the seed, the generator version, and the named random
//! streams every generator stage draws from.
//!
//! The same seed and generator version must yield equivalent results; the
//! streams here are how a stage gets its own randomness without perturbing
//! any other stage.

use vstd::bytes::*;
use vstd::prelude::*;

use crate::bytes::push_u64;
use crate::hash::{fnv1a64, spec_fnv1a64};

verus! {

/// Bumped by hand for an intentional generator-contract revision.
pub const TERRAIN_GENERATOR_VERSION: u32 = 1;
/// Version of the style contract, which constrains geometry as well as
/// shading and so takes part in a world's identity.
pub const STYLE_CONTRACT_VERSION: u32 = 1;
/// Locked signature of the canonical golden region's generated output.
pub const TERRAIN_BEHAVIOR_SIGNATURE: u64 = 0x2d88_497f_a6d6_d4b5;

/// The seed a world is generated from: a newtype, so a seed cannot be
/// confused with a fingerprint, a hash or an index at a call site.
#[derive(Clone, Copy, Debug, PartialEq, Eq, Hash, PartialOrd, Ord, Structural)]
pub struct WorldSeed(pub u64);

/// Named random streams. Each generator stage owns exactly one, so the
/// streams stay independent and an added draw is a local change.
#[derive(Clone, Copy, Debug, PartialEq, Eq, Structural)]
pub enum StreamLabel {
    ValleyMeander,
    HighlandRidges,
    MidDetail,
    FineDetail,
    DomainWarp,
    Moisture,
    ForestPockets,
    TreePlacement,
    TreeShape,
    ShrubPlacement,
    SurfaceVariation,
}

/// The number a stream label is hashed under: its position, from one.
pub open spec fn spec_label_code(label: StreamLabel) -> u64 {
    match label {
        StreamLabel::ValleyMeander => 1,
        StreamLabel::HighlandRidges => 2,
        StreamLabel::MidDetail => 3,
        StreamLabel::FineDetail => 4,
        StreamLabel::DomainWarp => 5,
        StreamLabel::Moisture => 6,
        StreamLabel::ForestPockets => 7,
        StreamLabel::TreePlacement => 8,
        StreamLabel::TreeShape => 9,
        StreamLabel::ShrubPlacement => 10,
        StreamLabel::SurfaceVariation => 11,
    }
}

/// The child stream of a seed for a label: FNV-1a over the seed, the label's
/// code and the generator version, each as eight little-endian bytes.
pub open spec fn spec_stream(seed: u64, label: StreamLabel) -> u64 {
    spec_fnv1a64(
        spec_u64_to_le_bytes(seed) + spec_u64_to_le_bytes(spec_label_code(label))
            + spec_u64_to_le_bytes(TERRAIN_GENERATOR_VERSION as u64),
    )
}

impl StreamLabel {
    /// The number this label is hashed under.
    pub fn code(self) -> (code: u64)
        ensures
            code == spec_label_code(self),
    {
        match self {
            StreamLabel::ValleyMeander => 1,
            StreamLabel::HighlandRidges => 2,
            StreamLabel::MidDetail => 3,
            StreamLabel::FineDetail => 4,
            StreamLabel::DomainWarp => 5,
            StreamLabel::Moisture => 6,
            StreamLabel::ForestPockets => 7,
            StreamLabel::TreePlacement => 8,
            StreamLabel::TreeShape => 9,
            StreamLabel::ShrubPlacement => 10,
            StreamLabel::SurfaceVariation => 11,
        }
    }
}

impl WorldSeed {
    /// The named seed of the golden slice; every fixture and recorded
    /// measurement refers to it.
    pub fn golden() -> (seed: WorldSeed)
        ensures
            seed == WorldSeed(0x5645_4c44_5741_4b45),
    {
        WorldSeed(0x5645_4c44_5741_4b45)
    }

    pub fn raw(self) -> (raw: u64)
        ensures
            raw == self.0,
    {
        self.0
    }

    /// Derives a stable child stream from a domain label. Every generator
    /// stage takes its stream from here rather than reusing the raw seed.
    pub fn stream(self, label: StreamLabel) -> (stream: u64)
        ensures
            stream == spec_stream(self.0, label),
    {
        let mut bytes: Vec<u8> = Vec::with_capacity(24);
        push_u64(&mut bytes, self.0);
        push_u64(&mut bytes, label.code());
        push_u64(&mut bytes, TERRAIN_GENERATOR_VERSION as u64);
        proof {
            assert(bytes@ =~= spec_u64_to_le_bytes(self.0) + spec_u64_to_le_bytes(
                spec_label_code(label),
            ) + spec_u64_to_le_bytes(TERRAIN_GENERATOR_VERSION as u64));
        }
        fnv1a64(bytes.as_slice())
    }
}

/// The finite extent of a generated region, in chunks, inclusive on every
/// axis. Outside it there is authoritatively nothing.
#[derive(Clone, Copy, Debug, PartialEq, Eq, Structural)]
pub struct RegionExtent {
    pub min_chunk_x: i32,
    pub max_chunk_x: i32,
    pub min_chunk_y: i32,
    pub max_chunk_y: i32,
    pub min_chunk_z: i32,
    pub max_chunk_z: i32,
}

/// Whether a chunk lies in an extent.
pub open spec fn spec_extent_contains(extent: RegionExtent, x: int, y: int, z: int) -> bool {
    &&& extent.min_chunk_x <= x <= extent.max_chunk_x
    &&& extent.min_chunk_y <= y <= extent.max_chunk_y
    &&& extent.min_chunk_z <= z <= extent.max_chunk_z
}

impl RegionExtent {
    /// The golden region: a valley twenty-five chunks along each horizontal
    /// axis and three chunks tall.
    pub fn golden() -> (extent: RegionExtent)
        ensures
            extent == (RegionExtent {
                min_chunk_x: -12i32,
                max_chunk_x: 12,
                min_chunk_y: 0,
                max_chunk_y: 2,
                min_chunk_z: -12i32,
                max_chunk_z: 12,
            }),
    {
        RegionExtent {
            min_chunk_x: -12,
            max_chunk_x: 12,
            min_chunk_y: 0,
            max_chunk_y: 2,
            min_chunk_z: -12,
            max_chunk_z: 12,
        }
    }

    pub fn contains(&self, x: i32, y: i32, z: i32) -> (inside: bool)
        ensures
            inside == spec_extent_contains(*self, x as int, y as int, z as int),
    {
        x >= self.min_chunk_x && x <= self.max_chunk_x && y >= self.min_chunk_y && y
            <= self.max_chunk_y && z >= self.min_chunk_z && z <= self.max_chunk_z
    }
}

/// Distinct labels name distinct streams of the same seed: their hashed
/// inputs differ in the label bytes.
pub proof fn lemma_stream_inputs_differ(seed: u64, first: StreamLabel, second: StreamLabel)
    requires
        first != second,
    ensures
        spec_u64_to_le_bytes(seed) + spec_u64_to_le_bytes(spec_label_code(first))
            + spec_u64_to_le_bytes(TERRAIN_GENERATOR_VERSION as u64) != spec_u64_to_le_bytes(seed)
            + spec_u64_to_le_bytes(spec_label_code(second)) + spec_u64_to_le_bytes(
            TERRAIN_GENERATOR_VERSION as u64,
        ),
{
    lemma_auto_spec_u64_to_from_le_bytes();
    let a = spec_u64_to_le_bytes(seed) + spec_u64_to_le_bytes(spec_label_code(first))
        + spec_u64_to_le_bytes(TERRAIN_GENERATOR_VERSION as u64);
    let b = spec_u64_to_le_bytes(seed) + spec_u64_to_le_bytes(spec_label_code(second))
        + spec_u64_to_le_bytes(TERRAIN_GENERATOR_VERSION as u64);
    assert(a.subrange(8, 16) =~= spec_u64_to_le_bytes(spec_label_code(first)));
    assert(b.subrange(8, 16) =~= spec_u64_to_le_bytes(spec_label_code(second)));
    assert(spec_u64_from_le_bytes(spec_u64_to_le_bytes(spec_label_code(first))) == spec_label_code(
        first,
    ));
    assert(spec_u64_from_le_bytes(spec_u64_to_le_bytes(spec_label_code(second)))
        == spec_label_code(second));
}

} // verus!
