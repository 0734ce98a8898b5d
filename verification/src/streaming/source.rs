//! What the streaming runtime loads: a chunk, or authoritative absence; and
//! the finite, code-defined diagnostic source that exercises its lifecycles.

use vstd::arithmetic::div_mod::lemma_fundamental_div_mod_converse;
use vstd::bytes::*;
use vstd::prelude::*;

use crate::bytes::{push_i32, push_i64, push_u16, push_u32, push_u64};
use crate::hash::{fnv1a64, spec_fnv1a64};
use crate::tags::{spec_tag_diagnostic_source, tag_diagnostic_source};
use crate::voxel::{Chunk, ChunkCoord, CHUNK_VOLUME};

verus! {

/// Result of a chunk source. Absence is authoritative knowledge, unlike a
/// chunk that has not completed loading.
#[derive(Clone, Debug, PartialEq, Eq)]
pub enum SourceChunk {
    Present(Chunk),
    KnownAbsent,
}

/// The cells a source result carries, or `None` for authoritative absence.
pub open spec fn source_cells(source: SourceChunk) -> Option<Seq<u16>> {
    match source {
        SourceChunk::Present(chunk) => Some(chunk@),
        SourceChunk::KnownAbsent => None,
    }
}

/// A source result whose chunk, if any, holds exactly one value per cell.
pub open spec fn source_wf(source: SourceChunk) -> bool {
    match source {
        SourceChunk::Present(chunk) => chunk.wf(),
        SourceChunk::KnownAbsent => true,
    }
}

/// Bumped by hand for an intentional source-contract revision.
pub const SOURCE_SCHEMA_REVISION: u32 = 1;
/// Locked hash of every chunk in the finite corridor plus a one-chunk absent
/// shell.
pub const SOURCE_BEHAVIOR_SIGNATURE: u64 = 0xa812_04f0_aa36_2bf9;
/// Inclusive half-extents of the finite corridor, in chunks.
pub const CORRIDOR_X: i32 = 4;
pub const CORRIDOR_Y: i32 = 1;
pub const CORRIDOR_Z: i32 = 4;
/// Edge of one checkerboard square, in voxels.
pub const CHECKER_PERIOD: i64 = 8;
/// Materials of the two checkerboard squares and of the landmark column.
pub const CHECKER_MATERIAL_A: u16 = 1;
pub const CHECKER_MATERIAL_B: u16 = 2;
pub const LANDMARK_MATERIAL: u16 = 7;
/// Height of the asymmetric landmark column and the local `z` it stands at.
pub const LANDMARK_TOP: usize = 6;
pub const LANDMARK_Z: usize = 3;

/// Finite, code-defined streaming input used only to exercise lifecycles.
#[derive(Clone, Copy, Debug, Default)]
pub struct DiagnosticChunkSource;

/// Whether a chunk lies in the finite corridor.
pub open spec fn spec_in_corridor(coord: ChunkCoord) -> bool {
    &&& -CORRIDOR_X <= coord.x <= CORRIDOR_X
    &&& -CORRIDOR_Y <= coord.y <= CORRIDOR_Y
    &&& -CORRIDOR_Z <= coord.z <= CORRIDOR_Z
}

/// One cell of a corridor chunk: a checkerboard of eight-voxel squares on the
/// ground course of the ground layer, and an asymmetric landmark column that
/// spans both sides of `x = 0`.
pub open spec fn spec_diagnostic_cell(coord: ChunkCoord, x: int, y: int, z: int) -> u16 {
    let world_x = coord.x * 32 + x;
    let world_z = coord.z * 32 + z;
    let column_x: int = if coord.x == -1 {
        31
    } else {
        0
    };
    if coord.y == 0 && y == 0 {
        if (world_x / CHECKER_PERIOD as int + world_z / CHECKER_PERIOD as int) % 2 == 0 {
            CHECKER_MATERIAL_A
        } else {
            CHECKER_MATERIAL_B
        }
    } else if coord.y == 0 && (coord.x == -1 || coord.x == 0) && coord.z == 0 && 1 <= y
        <= LANDMARK_TOP && z == LANDMARK_Z && x == column_x {
        LANDMARK_MATERIAL
    } else {
        0
    }
}

/// What the diagnostic source answers at a chunk: its cells in storage
/// order, or absence outside the corridor.
pub open spec fn spec_diagnostic_load(coord: ChunkCoord) -> Option<Seq<u16>> {
    if spec_in_corridor(coord) {
        Some(
            Seq::new(
                CHUNK_VOLUME as nat,
                |i: int| spec_diagnostic_cell(coord, i % 32, (i / 32) % 32, i / 1024),
            ),
        )
    } else {
        None
    }
}

/// The descriptor the diagnostic source's identity is hashed over.
pub open spec fn spec_diagnostic_descriptor() -> Seq<u8> {
    spec_tag_diagnostic_source() + spec_u32_to_le_bytes(SOURCE_SCHEMA_REVISION)
        + spec_u32_to_le_bytes(CORRIDOR_X as u32) + spec_u32_to_le_bytes(CORRIDOR_Y as u32)
        + spec_u32_to_le_bytes(CORRIDOR_Z as u32) + spec_u64_to_le_bytes(CHECKER_PERIOD as u64)
        + spec_u16_to_le_bytes(CHECKER_MATERIAL_A) + spec_u16_to_le_bytes(CHECKER_MATERIAL_B)
        + spec_u16_to_le_bytes(LANDMARK_MATERIAL) + spec_u64_to_le_bytes(LANDMARK_TOP as u64)
        + spec_u64_to_le_bytes(LANDMARK_Z as u64) + spec_u64_to_le_bytes(32)
        + spec_u64_to_le_bytes(SOURCE_BEHAVIOR_SIGNATURE)
}

/// The checker square a ground voxel falls in depends only on its local
/// position: a chunk edge is four whole squares.
proof fn lemma_checker_parity(cx: int, cz: int, x: int, z: int)
    requires
        0 <= x < 32,
        0 <= z < 32,
    ensures
        ((cx * 32 + x) / 8 + (cz * 32 + z) / 8) % 2 == (x / 8 + z / 8) % 2,
{
    lemma_fundamental_div_mod_converse(cx * 32 + x, 8, cx * 4 + x / 8, x % 8);
    lemma_fundamental_div_mod_converse(cz * 32 + z, 8, cz * 4 + z / 8, z % 8);
    let s = x / 8 + z / 8;
    lemma_fundamental_div_mod_converse(
        cx * 4 + cz * 4 + s,
        2,
        cx * 2 + cz * 2 + s / 2,
        s % 2,
    );
}

impl DiagnosticChunkSource {
    /// Deterministic identity of everything this source generates: a cache
    /// entry is only valid while the source that produced it is unchanged.
    pub fn fingerprint(self) -> (fingerprint: u64)
        ensures
            fingerprint == spec_fnv1a64(spec_diagnostic_descriptor()),
    {
        let mut descriptor = tag_diagnostic_source();
        push_u32(&mut descriptor, SOURCE_SCHEMA_REVISION);
        push_i32(&mut descriptor, CORRIDOR_X);
        push_i32(&mut descriptor, CORRIDOR_Y);
        push_i32(&mut descriptor, CORRIDOR_Z);
        push_i64(&mut descriptor, CHECKER_PERIOD);
        push_u16(&mut descriptor, CHECKER_MATERIAL_A);
        push_u16(&mut descriptor, CHECKER_MATERIAL_B);
        push_u16(&mut descriptor, LANDMARK_MATERIAL);
        push_u64(&mut descriptor, LANDMARK_TOP as u64);
        push_u64(&mut descriptor, LANDMARK_Z as u64);
        push_u64(&mut descriptor, 32);
        push_u64(&mut descriptor, SOURCE_BEHAVIOR_SIGNATURE);
        proof {
            assert(descriptor@ =~= spec_diagnostic_descriptor());
        }
        fnv1a64(descriptor.as_slice())
    }

    /// The content at a coordinate, or authoritative absence outside the
    /// corridor.
    pub fn load(self, coord: ChunkCoord) -> (chunk: SourceChunk)
        ensures
            source_wf(chunk),
            source_cells(chunk) == spec_diagnostic_load(coord),
    {
        if !(-CORRIDOR_X <= coord.x && coord.x <= CORRIDOR_X) || !(-CORRIDOR_Y <= coord.y && coord.y
            <= CORRIDOR_Y) || !(-CORRIDOR_Z <= coord.z && coord.z <= CORRIDOR_Z) {
            return SourceChunk::KnownAbsent;
        }
        let column_x: usize = if coord.x == -1 {
            31
        } else {
            0
        };
        let mut cells: Vec<u16> = Vec::with_capacity(CHUNK_VOLUME);
        let mut i: usize = 0;
        while i < CHUNK_VOLUME
            invariant
                spec_in_corridor(coord),
                column_x == (if coord.x == -1 {
                    31int
                } else {
                    0int
                }),
                i <= CHUNK_VOLUME,
                cells@.len() == i,
                forall|j: int|
                    0 <= j < i ==> #[trigger] cells@[j] == spec_diagnostic_cell(
                        coord,
                        j % 32,
                        (j / 32) % 32,
                        j / 1024,
                    ),
            decreases CHUNK_VOLUME - i,
        {
            let x = i % 32;
            let y = (i / 32) % 32;
            let z = i / 1024;
            proof {
                assert(i / 1024 == (i / 32) / 32) by (nonlinear_arith)
                    requires
                        i >= 0,
                ;
                lemma_checker_parity(coord.x as int, coord.z as int, x as int, z as int);
            }
            let value: u16 = if coord.y == 0 && y == 0 {
                if (x / 8 + z / 8) % 2 == 0 {
                    CHECKER_MATERIAL_A
                } else {
                    CHECKER_MATERIAL_B
                }
            } else if coord.y == 0 && (coord.x == -1 || coord.x == 0) && coord.z == 0 && 1 <= y
                && y <= LANDMARK_TOP && z == LANDMARK_Z && x == column_x {
                LANDMARK_MATERIAL
            } else {
                0
            };
            cells.push(value);
            i = i + 1;
        }
        proof {
            assert(cells@ =~= spec_diagnostic_load(coord)->0);
        }
        SourceChunk::Present(Chunk::from_cells(cells))
    }
}

} // verus!
