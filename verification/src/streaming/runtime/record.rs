//! What the streaming runtime keeps per tracked coordinate, and the queue
//! entries that point at those records.
//!
//! A mesh is carried as an opaque payload `M` together with its byte size;
//! the runtime never looks inside it.

use vstd::prelude::*;

use crate::streaming::runtime::{InvalidationCause, MeshStatus, ResidencyStatus};
use crate::streaming::types::{LodLevel, MeshStamp, RequestToken};
use crate::voxel::{Chunk, ChunkCoord};

verus! {

/// Where the payload of one tracked coordinate stands.
pub enum ResidencyState {
    LoadQueued,
    Loading,
    CpuResident { chunk: Chunk, content_generation: u64 },
    KnownAbsent,
    /// Retired, waiting for its bounded release; it may still own a chunk.
    EvictPending(Option<Chunk>),
}

/// Where the mesh of one tracked coordinate stands.
pub enum MeshState<M> {
    NotRequired,
    WaitingForNeighbors,
    Dirty(MeshStamp),
    Meshing(MeshStamp),
    CpuReady { stamp: MeshStamp, mesh: M, bytes: usize },
    /// The committed mesh already matches the target; nothing to build.
    Committed,
}

/// The mesh presentation may draw: built for a stamp that was the target when
/// it was committed.
pub struct CommittedMesh<M> {
    pub stamp: MeshStamp,
    pub mesh: M,
    pub bytes: usize,
}

/// Everything the runtime knows about one tracked coordinate.
pub struct ChunkRecord<M> {
    pub coord: ChunkCoord,
    pub token: RequestToken,
    pub residency: ResidencyState,
    pub mesh_generation: u64,
    pub mesh: MeshState<M>,
    /// Desired level; kept as history while the record is retained.
    pub lod: LodLevel,
    /// Why the last invalidation happened, for gap attribution.
    pub last_invalidation: Option<InvalidationCause>,
    /// Drawable mesh; survives presentation-only invalidations.
    pub committed: Option<CommittedMesh<M>>,
}

/// A queued load, ordered nearest first.
#[derive(Clone, Copy, Debug, PartialEq, Eq, Structural)]
pub struct LoadQueueEntry {
    /// Squared distance from the demand center when queued.
    pub squared: u128,
    pub coord: ChunkCoord,
    pub token: RequestToken,
}

/// A queued mesh job: full-detail work first, then nearest first.
#[derive(Clone, Copy, Debug, PartialEq, Eq, Structural)]
pub struct MeshQueueEntry {
    /// `0` for `Lod0` work, `1` for `Lod1` work.
    pub rank: u8,
    pub squared: u128,
    pub coord: ChunkCoord,
    pub token: RequestToken,
    pub mesh_generation: u64,
    pub lod: LodLevel,
}

pub open spec fn spec_residency_status(residency: ResidencyState) -> ResidencyStatus {
    match residency {
        ResidencyState::LoadQueued => ResidencyStatus::LoadQueued,
        ResidencyState::Loading => ResidencyStatus::Loading,
        ResidencyState::CpuResident { .. } => ResidencyStatus::CpuResident,
        ResidencyState::KnownAbsent => ResidencyStatus::KnownAbsent,
        ResidencyState::EvictPending(_) => ResidencyStatus::EvictPending,
    }
}

pub open spec fn spec_mesh_status<M>(mesh: MeshState<M>) -> MeshStatus {
    match mesh {
        MeshState::NotRequired => MeshStatus::NotRequired,
        MeshState::WaitingForNeighbors => MeshStatus::WaitingForNeighbors,
        MeshState::Dirty(_) => MeshStatus::Dirty,
        MeshState::Meshing(_) => MeshStatus::Meshing,
        MeshState::CpuReady { .. } => MeshStatus::CpuReady,
        MeshState::Committed => MeshStatus::Committed,
    }
}

/// Whether a residency owns a chunk and so counts against the hard cap.
pub open spec fn holds_payload(residency: ResidencyState) -> bool {
    match residency {
        ResidencyState::CpuResident { .. } => true,
        ResidencyState::EvictPending(chunk) => chunk is Some,
        _ => false,
    }
}

pub fn residency_status_of(residency: &ResidencyState) -> (status: ResidencyStatus)
    ensures
        status == spec_residency_status(*residency),
{
    match residency {
        ResidencyState::LoadQueued => ResidencyStatus::LoadQueued,
        ResidencyState::Loading => ResidencyStatus::Loading,
        ResidencyState::CpuResident { .. } => ResidencyStatus::CpuResident,
        ResidencyState::KnownAbsent => ResidencyStatus::KnownAbsent,
        ResidencyState::EvictPending(_) => ResidencyStatus::EvictPending,
    }
}

pub fn mesh_status_of<M>(mesh: &MeshState<M>) -> (status: MeshStatus)
    ensures
        status == spec_mesh_status(*mesh),
{
    match mesh {
        MeshState::NotRequired => MeshStatus::NotRequired,
        MeshState::WaitingForNeighbors => MeshStatus::WaitingForNeighbors,
        MeshState::Dirty(_) => MeshStatus::Dirty,
        MeshState::Meshing(_) => MeshStatus::Meshing,
        MeshState::CpuReady { .. } => MeshStatus::CpuReady,
        MeshState::Committed => MeshStatus::Committed,
    }
}

pub fn holds_payload_exec(residency: &ResidencyState) -> (holds: bool)
    ensures
        holds == holds_payload(*residency),
{
    match residency {
        ResidencyState::CpuResident { .. } => true,
        ResidencyState::EvictPending(chunk) => chunk.is_some(),
        _ => false,
    }
}

/// Whether two stamps are the same stamp, field by field.
pub fn same_stamp(a: &MeshStamp, b: &MeshStamp) -> (same: bool)
    ensures
        same == (*a == *b),
{
    if a.coord != b.coord || a.request_token != b.request_token || a.lod != b.lod
        || a.mesh_generation != b.mesh_generation || a.center_content_generation
        != b.center_content_generation {
        return false;
    }
    let mut index: usize = 0;
    while index < 6
        invariant
            index <= 6,
            forall|i: int| 0 <= i < index ==> a.neighbors[i] == b.neighbors[i],
        decreases 6 - index,
    {
        if a.neighbors[index] != b.neighbors[index] {
            return false;
        }
        index = index + 1;
    }
    proof {
        assert(a.neighbors =~= b.neighbors);
    }
    true
}

/// Whether two optional stamps are equal.
pub fn same_optional_stamp(a: &Option<MeshStamp>, b: &Option<MeshStamp>) -> (same: bool)
    ensures
        same == (*a == *b),
{
    match (a, b) {
        (Some(a), Some(b)) => same_stamp(a, b),
        (None, None) => true,
        _ => false,
    }
}

/// Lexicographic order of chunk coordinates: `x`, then `y`, then `z`.
pub open spec fn coord_lt(a: ChunkCoord, b: ChunkCoord) -> bool {
    a.x < b.x || (a.x == b.x && (a.y < b.y || (a.y == b.y && a.z < b.z)))
}

pub fn coord_less(a: ChunkCoord, b: ChunkCoord) -> (less: bool)
    ensures
        less == coord_lt(a, b),
{
    a.x < b.x || (a.x == b.x && (a.y < b.y || (a.y == b.y && a.z < b.z)))
}

/// The order a load queue pops in: nearest first, then by coordinate, then
/// by token.
pub open spec fn load_precedes(a: LoadQueueEntry, b: LoadQueueEntry) -> bool {
    a.squared < b.squared || (a.squared == b.squared && (coord_lt(a.coord, b.coord) || (a.coord
        == b.coord && a.token.0 <= b.token.0)))
}

/// The order a mesh queue pops in: `Lod0` work first, then nearest, then by
/// coordinate, token, generation and level.
pub open spec fn mesh_precedes(a: MeshQueueEntry, b: MeshQueueEntry) -> bool {
    a.rank < b.rank || (a.rank == b.rank && (a.squared < b.squared || (a.squared == b.squared && (
    coord_lt(a.coord, b.coord) || (a.coord == b.coord && (a.token.0 < b.token.0 || (a.token.0
        == b.token.0 && (a.mesh_generation < b.mesh_generation || (a.mesh_generation
        == b.mesh_generation && (a.lod == LodLevel::Lod0 || b.lod == LodLevel::Lod1))))))))))
}

/// Mesh pop order puts full-detail work first and, within a level of
/// detail, the nearest chunk first: whatever precedes another entry has no
/// higher rank and, at the same rank, no greater squared distance.
pub proof fn lemma_mesh_order_is_nearest_first(a: MeshQueueEntry, b: MeshQueueEntry)
    requires
        mesh_precedes(a, b),
    ensures
        a.rank <= b.rank,
        a.rank == b.rank ==> a.squared <= b.squared,
{
}

/// Load pop order is nearest first: whatever precedes another entry has no
/// greater squared distance.
pub proof fn lemma_load_order_is_nearest_first(a: LoadQueueEntry, b: LoadQueueEntry)
    requires
        load_precedes(a, b),
    ensures
        a.squared <= b.squared,
{
}

fn load_before(a: &LoadQueueEntry, b: &LoadQueueEntry) -> (before: bool)
    ensures
        before == load_precedes(*a, *b),
{
    a.squared < b.squared || (a.squared == b.squared && (coord_less(a.coord, b.coord) || (a.coord
        == b.coord && a.token.0 <= b.token.0)))
}

fn mesh_before(a: &MeshQueueEntry, b: &MeshQueueEntry) -> (before: bool)
    ensures
        before == mesh_precedes(*a, *b),
{
    a.rank < b.rank || (a.rank == b.rank && (a.squared < b.squared || (a.squared == b.squared && (
    coord_less(a.coord, b.coord) || (a.coord == b.coord && (a.token.0 < b.token.0 || (a.token.0
        == b.token.0 && (a.mesh_generation < b.mesh_generation || (a.mesh_generation
        == b.mesh_generation && (a.lod == LodLevel::Lod0 || b.lod == LodLevel::Lod1))))))))))
}

/// Takes the first entry of a load queue in pop order out of it.
pub fn pop_load(queue: &mut Vec<LoadQueueEntry>) -> (popped: Option<LoadQueueEntry>)
    ensures
        match popped {
            None => old(queue)@.len() == 0 && final(queue)@.len() == 0,
            Some(entry) => exists|i: int|
                0 <= i < old(queue)@.len() && old(queue)@[i] == entry && final(queue)@
                    == old(queue)@.remove(i) && forall|j: int|
                    0 <= j < old(queue)@.len() ==> load_precedes(entry, #[trigger] old(queue)@[j]),
        },
        forall|j: int|
            0 <= j < old(queue)@.len() ==> match popped {
                Some(entry) => entry.squared <= #[trigger] old(queue)@[j].squared,
                None => true,
            },
{
    if queue.len() == 0 {
        return None;
    }
    let mut best: usize = 0;
    let mut i: usize = 1;
    while i < queue.len()
        invariant
            1 <= i <= queue@.len(),
            best < i,
            forall|j: int| 0 <= j < i ==> load_precedes(queue@[best as int], #[trigger] queue@[j]),
        decreases queue@.len() - i,
    {
        if !load_before(&queue[best], &queue[i]) {
            best = i;
        }
        i = i + 1;
    }
    let entry = queue.remove(best);
    Some(entry)
}

/// Takes the first entry of a mesh queue in pop order out of it.
pub fn pop_mesh(queue: &mut Vec<MeshQueueEntry>) -> (popped: Option<MeshQueueEntry>)
    ensures
        match popped {
            None => old(queue)@.len() == 0 && final(queue)@.len() == 0,
            Some(entry) => exists|i: int|
                0 <= i < old(queue)@.len() && old(queue)@[i] == entry && final(queue)@
                    == old(queue)@.remove(i) && forall|j: int|
                    0 <= j < old(queue)@.len() ==> mesh_precedes(entry, #[trigger] old(queue)@[j]),
        },
        forall|j: int|
            0 <= j < old(queue)@.len() ==> match popped {
                Some(entry) => entry.rank <= #[trigger] old(queue)@[j].rank && (old(queue)@[j].rank
                    == entry.rank ==> entry.squared <= old(queue)@[j].squared),
                None => true,
            },
{
    if queue.len() == 0 {
        return None;
    }
    let mut best: usize = 0;
    let mut i: usize = 1;
    while i < queue.len()
        invariant
            1 <= i <= queue@.len(),
            best < i,
            forall|j: int| 0 <= j < i ==> mesh_precedes(queue@[best as int], #[trigger] queue@[j]),
        decreases queue@.len() - i,
    {
        if !mesh_before(&queue[best], &queue[i]) {
            best = i;
        }
        i = i + 1;
    }
    let entry = queue.remove(best);
    Some(entry)
}

} // verus!
