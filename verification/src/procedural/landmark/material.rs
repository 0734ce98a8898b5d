//! The landmark material table and the one place it becomes a voxel
//! identifier.
//!
//! A separate domain from the terrain materials on purpose: both are world
//! voxels written by the same generator, but they answer to different style
//! contracts, and a new content domain takes the next free identifier range
//! rather than extending somebody else's enum.

use vstd::prelude::*;

use crate::voxel::VoxelId;

verus! {

/// First identifier of the landmark range, the next free block after weapons.
pub const LANDMARK_ID_FIRST: u16 = 224;
/// One past the last identifier of the landmark range.
pub const LANDMARK_ID_END: u16 = 256;

/// The three materials the Monolith family is built from: the body, the
/// darker strata and crown, and the pale plinth a landmark stands on.
#[derive(Clone, Copy, Debug, PartialEq, Eq, Hash, PartialOrd, Ord, Structural)]
pub enum LandmarkMaterial {
    /// The body of every shaft.
    Stone,
    /// Strata courses and the crown: the darkest part of the silhouette.
    Band,
    /// The pale plinth course a landmark stands on.
    Cap,
}

/// Position of a material in declaration order.
pub open spec fn spec_landmark_index(material: LandmarkMaterial) -> u16 {
    match material {
        LandmarkMaterial::Stone => 0,
        LandmarkMaterial::Band => 1,
        LandmarkMaterial::Cap => 2,
    }
}

/// The material an identifier denotes, if it lies in the landmark range.
pub open spec fn spec_landmark_from_id(id: u16) -> Option<LandmarkMaterial> {
    if id == LANDMARK_ID_FIRST {
        Some(LandmarkMaterial::Stone)
    } else if id == LANDMARK_ID_FIRST + 1 {
        Some(LandmarkMaterial::Band)
    } else if id == LANDMARK_ID_FIRST + 2 {
        Some(LandmarkMaterial::Cap)
    } else {
        None
    }
}

/// Every landmark material, in declaration order.
pub fn all_landmark_materials() -> (materials: [LandmarkMaterial; 3])
    ensures
        materials@ == seq![LandmarkMaterial::Stone, LandmarkMaterial::Band, LandmarkMaterial::Cap],
{
    [LandmarkMaterial::Stone, LandmarkMaterial::Band, LandmarkMaterial::Cap]
}

impl LandmarkMaterial {
    /// Position in declaration order.
    pub fn index(self) -> (index: u16)
        ensures
            index == spec_landmark_index(self),
    {
        match self {
            LandmarkMaterial::Stone => 0,
            LandmarkMaterial::Band => 1,
            LandmarkMaterial::Cap => 2,
        }
    }

    /// The stable voxel identifier written into chunks.
    pub fn voxel_id(self) -> (id: VoxelId)
        ensures
            id.0 == LANDMARK_ID_FIRST + spec_landmark_index(self),
            LANDMARK_ID_FIRST <= id.0 < LANDMARK_ID_END,
    {
        VoxelId(LANDMARK_ID_FIRST + self.index())
    }

    /// Recovers the material a voxel identifier denotes, if it is one.
    pub fn from_voxel_id(id: VoxelId) -> (material: Option<LandmarkMaterial>)
        ensures
            material == spec_landmark_from_id(id.0),
    {
        if id.0 < LANDMARK_ID_FIRST {
            return None;
        }
        match id.0 - LANDMARK_ID_FIRST {
            0 => Some(LandmarkMaterial::Stone),
            1 => Some(LandmarkMaterial::Band),
            2 => Some(LandmarkMaterial::Cap),
            _ => None,
        }
    }

    /// The material's name in captures and reports.
    pub fn name(self) -> (name: &'static str)
        ensures
            self == LandmarkMaterial::Stone ==> name@ == "landmark-stone"@,
            self == LandmarkMaterial::Band ==> name@ == "landmark-band"@,
            self == LandmarkMaterial::Cap ==> name@ == "landmark-cap"@,
    {
        match self {
            LandmarkMaterial::Stone => "landmark-stone",
            LandmarkMaterial::Band => "landmark-band",
            LandmarkMaterial::Cap => "landmark-cap",
        }
    }
}

/// A landmark material's identifier gives the material back, and every
/// identifier that names a material is that material's identifier.
pub proof fn lemma_landmark_ids_round_trip(material: LandmarkMaterial, id: u16)
    ensures
        spec_landmark_from_id((LANDMARK_ID_FIRST + spec_landmark_index(material)) as u16) == Some(
            material,
        ),
        spec_landmark_from_id(id) == Some(material) ==> id == LANDMARK_ID_FIRST
            + spec_landmark_index(material),
{
}

} // verus!
