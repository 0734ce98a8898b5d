//! Identities and stamps the runtime attaches to loads and meshes.

use vstd::prelude::*;

use crate::voxel::{ChunkCoord, Face, face_index};

verus! {

/// Globally unique identity of one tracked-coordinate incarnation.
#[derive(Clone, Copy, Debug, PartialEq, Eq, Structural)]
pub struct RequestToken(pub u64);

impl RequestToken {
    /// The first token a runtime hands out.
    pub fn first() -> (token: RequestToken)
        ensures
            token.0 == 1,
    {
        RequestToken(1)
    }

    pub fn get(self) -> (value: u64)
        ensures
            value == self.0,
    {
        self.0
    }
}

/// Level of detail a render-demand chunk is meshed at.
#[derive(Clone, Copy, Debug, PartialEq, Eq, Structural)]
pub enum LodLevel {
    /// Full `32³` resolution.
    Lod0,
    /// `16³` grid derived by downsampling.
    Lod1,
}

/// What a neighbor contributes to a seam: content only, or a presented level
/// that decides the mixed-resolution seam rule.
#[derive(Clone, Copy, Debug, PartialEq, Eq, Structural)]
pub enum NeighborPresentation {
    /// Dependency or retention chunk: voxels at the center's own resolution.
    ContentOnly,
    Rendered(LodLevel),
}

/// The seam rule a mesh job applied toward one neighbor.
#[derive(Clone, Copy, Debug, PartialEq, Eq, Structural)]
pub enum SeamContract {
    /// Neighbor sampled at the center's own resolution.
    Same,
    /// Fine center next to a coarse-presented neighbor.
    CoarseNeighbor,
    /// Coarse center next to a fine-presented neighbor.
    FineNeighbor,
}

/// The seam rule between a center level and a neighbor's presentation.
pub open spec fn spec_seam(center: LodLevel, neighbor: NeighborPresentation) -> SeamContract {
    match (center, neighbor) {
        (LodLevel::Lod0, NeighborPresentation::Rendered(LodLevel::Lod1)) => SeamContract::CoarseNeighbor,
        (LodLevel::Lod1, NeighborPresentation::Rendered(LodLevel::Lod0)) => SeamContract::FineNeighbor,
        _ => SeamContract::Same,
    }
}

impl SeamContract {
    /// Two presentations that mesh identically share a contract, so a
    /// neighbor entering render demand at the center's own level never
    /// invalidates a seam that would not change.
    pub fn derive(center: LodLevel, neighbor: NeighborPresentation) -> (seam: SeamContract)
        ensures
            seam == spec_seam(center, neighbor),
    {
        match (center, neighbor) {
            (LodLevel::Lod0, NeighborPresentation::Rendered(LodLevel::Lod1)) => SeamContract::CoarseNeighbor,
            (LodLevel::Lod1, NeighborPresentation::Rendered(LodLevel::Lod0)) => SeamContract::FineNeighbor,
            _ => SeamContract::Same,
        }
    }
}

/// Versioned state of one axial dependency captured by a mesh job.
#[derive(Clone, Copy, Debug, PartialEq, Eq, Structural)]
pub enum NeighborStamp {
    Resident { coord: ChunkCoord, token: RequestToken, content_generation: u64, seam: SeamContract },
    KnownAbsent { coord: ChunkCoord, token: RequestToken },
}

/// Complete validity proof attached to a detached mesh job and result.
#[derive(Clone, Copy, Debug, PartialEq, Eq)]
pub struct MeshStamp {
    pub coord: ChunkCoord,
    pub request_token: RequestToken,
    pub lod: LodLevel,
    pub mesh_generation: u64,
    pub center_content_generation: u64,
    pub neighbors: [NeighborStamp; 6],
}

/// Whether two neighbor stamps describe the same data: the same identity,
/// token and content, whatever seam rule was applied.
pub open spec fn same_neighbor_data(mine: NeighborStamp, theirs: NeighborStamp) -> bool {
    match (mine, theirs) {
        (
            NeighborStamp::Resident { coord: a, token: ta, content_generation: ga, .. },
            NeighborStamp::Resident { coord: b, token: tb, content_generation: gb, .. },
        ) => a == b && ta == tb && ga == gb,
        (
            NeighborStamp::KnownAbsent { coord: a, token: ta },
            NeighborStamp::KnownAbsent { coord: b, token: tb },
        ) => a == b && ta == tb,
        _ => false,
    }
}

/// Whether two stamps differ only by presentation: the center level or a
/// neighbor's seam contract.
pub open spec fn spec_differs_only_by_presentation(a: MeshStamp, b: MeshStamp) -> bool {
    &&& a.coord == b.coord
    &&& a.request_token == b.request_token
    &&& a.center_content_generation == b.center_content_generation
    &&& forall|i: int| 0 <= i < 6 ==> same_neighbor_data(a.neighbors@[i], b.neighbors@[i])
}

fn neighbor_data_matches(mine: &NeighborStamp, theirs: &NeighborStamp) -> (same: bool)
    ensures
        same == same_neighbor_data(*mine, *theirs),
{
    match (mine, theirs) {
        (
            NeighborStamp::Resident { coord: a, token: ta, content_generation: ga, .. },
            NeighborStamp::Resident { coord: b, token: tb, content_generation: gb, .. },
        ) => *a == *b && *ta == *tb && *ga == *gb,
        (
            NeighborStamp::KnownAbsent { coord: a, token: ta },
            NeighborStamp::KnownAbsent { coord: b, token: tb },
        ) => *a == *b && *ta == *tb,
        _ => false,
    }
}

impl MeshStamp {
    /// The dependency stamp captured toward `face`.
    pub fn neighbor(&self, face: Face) -> (stamp: &NeighborStamp)
        ensures
            *stamp == self.neighbors@[face_index(face)],
    {
        &self.neighbors[face.index()]
    }

    /// Everything that determines the geometry: the stamp without its mesh
    /// generation. Two stamps with equal keys describe identical meshes.
    pub fn geometry_key(&self) -> (key: MeshStamp)
        ensures
            key == (MeshStamp { mesh_generation: 0, ..*self }),
    {
        MeshStamp { mesh_generation: 0, ..*self }
    }

    /// True when `other` differs from `self` only by presentation, so the old
    /// mesh is still a correct rendering of the same data.
    pub fn differs_only_by_presentation(&self, other: &MeshStamp) -> (only: bool)
        ensures
            only == spec_differs_only_by_presentation(*self, *other),
    {
        if self.coord != other.coord || self.request_token != other.request_token
            || self.center_content_generation != other.center_content_generation {
            return false;
        }
        let mut index: usize = 0;
        while index < 6
            invariant
                index <= 6,
                forall|i: int|
                    0 <= i < index ==> same_neighbor_data(self.neighbors@[i], other.neighbors@[i]),
            decreases 6 - index,
        {
            if !neighbor_data_matches(&self.neighbors[index], &other.neighbors[index]) {
                return false;
            }
            index = index + 1;
        }
        true
    }
}

} // verus!
