//! The terrain material table and the one place it becomes a voxel
//! identifier.

use vstd::prelude::*;

use crate::voxel::{Chunk, VoxelId, CHUNK_VOLUME};

verus! {

/// First identifier of the terrain range.
pub const FIRST_TERRAIN_ID: u16 = 64;

/// Every material the terrain generator writes.
#[derive(Clone, Copy, Debug, PartialEq, Eq, Hash, PartialOrd, Ord, Structural)]
pub enum TerrainMaterial {
    MeadowGrass,
    HighlandGrass,
    Soil,
    Rock,
    DeepRock,
    Sediment,
    Water,
    Trunk,
    Foliage,
    FoliageHighlight,
    Shrub,
}

/// Position of a material in declaration order.
pub open spec fn spec_terrain_index(material: TerrainMaterial) -> u16 {
    match material {
        TerrainMaterial::MeadowGrass => 0,
        TerrainMaterial::HighlandGrass => 1,
        TerrainMaterial::Soil => 2,
        TerrainMaterial::Rock => 3,
        TerrainMaterial::DeepRock => 4,
        TerrainMaterial::Sediment => 5,
        TerrainMaterial::Water => 6,
        TerrainMaterial::Trunk => 7,
        TerrainMaterial::Foliage => 8,
        TerrainMaterial::FoliageHighlight => 9,
        TerrainMaterial::Shrub => 10,
    }
}

/// The material at a position in declaration order, if there is one.
pub open spec fn spec_terrain_at(index: int) -> Option<TerrainMaterial> {
    if index == 0 {
        Some(TerrainMaterial::MeadowGrass)
    } else if index == 1 {
        Some(TerrainMaterial::HighlandGrass)
    } else if index == 2 {
        Some(TerrainMaterial::Soil)
    } else if index == 3 {
        Some(TerrainMaterial::Rock)
    } else if index == 4 {
        Some(TerrainMaterial::DeepRock)
    } else if index == 5 {
        Some(TerrainMaterial::Sediment)
    } else if index == 6 {
        Some(TerrainMaterial::Water)
    } else if index == 7 {
        Some(TerrainMaterial::Trunk)
    } else if index == 8 {
        Some(TerrainMaterial::Foliage)
    } else if index == 9 {
        Some(TerrainMaterial::FoliageHighlight)
    } else if index == 10 {
        Some(TerrainMaterial::Shrub)
    } else {
        None
    }
}

/// Every terrain material, in declaration order.
pub fn all_materials() -> (materials: [TerrainMaterial; 11])
    ensures
        forall|i: int| 0 <= i < 11 ==> Some(#[trigger] materials@[i]) == spec_terrain_at(i),
{
    [
        TerrainMaterial::MeadowGrass,
        TerrainMaterial::HighlandGrass,
        TerrainMaterial::Soil,
        TerrainMaterial::Rock,
        TerrainMaterial::DeepRock,
        TerrainMaterial::Sediment,
        TerrainMaterial::Water,
        TerrainMaterial::Trunk,
        TerrainMaterial::Foliage,
        TerrainMaterial::FoliageHighlight,
        TerrainMaterial::Shrub,
    ]
}

impl TerrainMaterial {
    /// Position in declaration order.
    pub fn index(self) -> (index: u16)
        ensures
            index == spec_terrain_index(self),
    {
        match self {
            TerrainMaterial::MeadowGrass => 0,
            TerrainMaterial::HighlandGrass => 1,
            TerrainMaterial::Soil => 2,
            TerrainMaterial::Rock => 3,
            TerrainMaterial::DeepRock => 4,
            TerrainMaterial::Sediment => 5,
            TerrainMaterial::Water => 6,
            TerrainMaterial::Trunk => 7,
            TerrainMaterial::Foliage => 8,
            TerrainMaterial::FoliageHighlight => 9,
            TerrainMaterial::Shrub => 10,
        }
    }

    /// The stable voxel identifier written into chunks.
    pub fn voxel_id(self) -> (id: VoxelId)
        ensures
            id.0 == FIRST_TERRAIN_ID + spec_terrain_index(self),
    {
        VoxelId(FIRST_TERRAIN_ID + self.index())
    }

    /// Recovers the material a voxel identifier denotes, if it is one.
    pub fn from_voxel_id(id: VoxelId) -> (material: Option<TerrainMaterial>)
        ensures
            material == (if id.0 >= FIRST_TERRAIN_ID {
                spec_terrain_at(id.0 - FIRST_TERRAIN_ID)
            } else {
                None
            }),
    {
        if id.0 < FIRST_TERRAIN_ID {
            return None;
        }
        match id.0 - FIRST_TERRAIN_ID {
            0 => Some(TerrainMaterial::MeadowGrass),
            1 => Some(TerrainMaterial::HighlandGrass),
            2 => Some(TerrainMaterial::Soil),
            3 => Some(TerrainMaterial::Rock),
            4 => Some(TerrainMaterial::DeepRock),
            5 => Some(TerrainMaterial::Sediment),
            6 => Some(TerrainMaterial::Water),
            7 => Some(TerrainMaterial::Trunk),
            8 => Some(TerrainMaterial::Foliage),
            9 => Some(TerrainMaterial::FoliageHighlight),
            10 => Some(TerrainMaterial::Shrub),
            _ => None,
        }
    }

    pub fn is_water(self) -> (water: bool)
        ensures
            water == (self == TerrainMaterial::Water),
    {
        match self {
            TerrainMaterial::Water => true,
            _ => false,
        }
    }

    /// Whether the material belongs to a plant rather than the ground.
    pub fn is_vegetation(self) -> (vegetation: bool)
        ensures
            vegetation == (self == TerrainMaterial::Trunk || self == TerrainMaterial::Foliage
                || self == TerrainMaterial::FoliageHighlight || self == TerrainMaterial::Shrub),
    {
        match self {
            TerrainMaterial::Trunk
            | TerrainMaterial::Foliage
            | TerrainMaterial::FoliageHighlight
            | TerrainMaterial::Shrub => true,
            _ => false,
        }
    }

    /// Whether a plant may stand on the material.
    pub fn supports_vegetation(self) -> (supports: bool)
        ensures
            supports == (self == TerrainMaterial::MeadowGrass || self
                == TerrainMaterial::HighlandGrass),
    {
        match self {
            TerrainMaterial::MeadowGrass | TerrainMaterial::HighlandGrass => true,
            _ => false,
        }
    }

    pub fn name(self) -> (name: &'static str)
        ensures
            self == TerrainMaterial::MeadowGrass ==> name@ == "meadow-grass"@,
            self == TerrainMaterial::HighlandGrass ==> name@ == "highland-grass"@,
            self == TerrainMaterial::Soil ==> name@ == "soil"@,
            self == TerrainMaterial::Rock ==> name@ == "rock"@,
            self == TerrainMaterial::DeepRock ==> name@ == "deep-rock"@,
            self == TerrainMaterial::Sediment ==> name@ == "sediment"@,
            self == TerrainMaterial::Water ==> name@ == "water"@,
            self == TerrainMaterial::Trunk ==> name@ == "trunk"@,
            self == TerrainMaterial::Foliage ==> name@ == "foliage"@,
            self == TerrainMaterial::FoliageHighlight ==> name@ == "foliage-highlight"@,
            self == TerrainMaterial::Shrub ==> name@ == "shrub"@,
    {
        match self {
            TerrainMaterial::MeadowGrass => "meadow-grass",
            TerrainMaterial::HighlandGrass => "highland-grass",
            TerrainMaterial::Soil => "soil",
            TerrainMaterial::Rock => "rock",
            TerrainMaterial::DeepRock => "deep-rock",
            TerrainMaterial::Sediment => "sediment",
            TerrainMaterial::Water => "water",
            TerrainMaterial::Trunk => "trunk",
            TerrainMaterial::Foliage => "foliage",
            TerrainMaterial::FoliageHighlight => "foliage-highlight",
            TerrainMaterial::Shrub => "shrub",
        }
    }
}

/// Identifiers round-trip and never collide: every material's identifier
/// names that material and no other, and none is air.
pub proof fn lemma_terrain_ids_round_trip(material: TerrainMaterial)
    ensures
        spec_terrain_at(spec_terrain_index(material) as int) == Some(material),
        FIRST_TERRAIN_ID + spec_terrain_index(material) != 0,
{
}

/// Nothing plants on a plant, and no plant is water.
pub proof fn lemma_vegetation_is_not_ground(material: TerrainMaterial)
    ensures
        (material == TerrainMaterial::Trunk || material == TerrainMaterial::Foliage || material
            == TerrainMaterial::FoliageHighlight || material == TerrainMaterial::Shrub) ==> !(
        material == TerrainMaterial::MeadowGrass || material == TerrainMaterial::HighlandGrass)
            && material != TerrainMaterial::Water,
{
}

/// How many cells of a sequence hold `id`.
pub open spec fn count_cells(cells: Seq<u16>, id: u16) -> nat
    decreases cells.len(),
{
    if cells.len() == 0 {
        0
    } else {
        count_cells(cells.drop_last(), id) + if cells.last() == id {
            1nat
        } else {
            0nat
        }
    }
}

/// The first `k` materials of the table that occur in the cells, in table
/// order, each with how many cells hold it.
pub open spec fn spec_histogram(cells: Seq<u16>, k: int) -> Seq<(TerrainMaterial, usize)>
    decreases k,
{
    if k <= 0 {
        Seq::empty()
    } else {
        let earlier = spec_histogram(cells, k - 1);
        let count = count_cells(cells, (FIRST_TERRAIN_ID + k - 1) as u16);
        if count > 0 {
            earlier.push((spec_terrain_at(k - 1)->0, count as usize))
        } else {
            earlier
        }
    }
}

proof fn lemma_count_bound(cells: Seq<u16>, id: u16)
    ensures
        count_cells(cells, id) <= cells.len(),
    decreases cells.len(),
{
    if cells.len() > 0 {
        lemma_count_bound(cells.drop_last(), id);
    }
}

/// Every terrain material a chunk holds, in table order, with its cell count.
pub fn material_histogram(chunk: &Chunk) -> (counts: Vec<(TerrainMaterial, usize)>)
    requires
        chunk.wf(),
    ensures
        counts@ == spec_histogram(chunk@, 11),
{
    let materials = all_materials();
    let mut counts: Vec<(TerrainMaterial, usize)> = Vec::new();
    let mut k: usize = 0;
    while k < 11
        invariant
            chunk.wf(),
            k <= 11,
            forall|i: int| 0 <= i < 11 ==> Some(#[trigger] materials@[i]) == spec_terrain_at(i),
            counts@ == spec_histogram(chunk@, k as int),
        decreases 11 - k,
    {
        let material = materials[k];
        let id = material.voxel_id();
        proof {
            assert(Some(materials@[k as int]) == spec_terrain_at(k as int));
            assert(id.0 == FIRST_TERRAIN_ID + k);
        }
        let mut total: usize = 0;
        let mut index: usize = 0;
        while index < CHUNK_VOLUME
            invariant
                chunk.wf(),
                index <= CHUNK_VOLUME,
                total == count_cells(chunk@.take(index as int), id.0),
            decreases CHUNK_VOLUME - index,
        {
            proof {
                assert(chunk@.take(index as int + 1).drop_last() =~= chunk@.take(index as int));
                lemma_count_bound(chunk@.take(index as int), id.0);
            }
            if chunk.read(index).0 == id.0 {
                total = total + 1;
            }
            index = index + 1;
        }
        proof {
            assert(chunk@.take(CHUNK_VOLUME as int) =~= chunk@);
        }
        if total > 0 {
            counts.push((material, total));
        }
        k = k + 1;
    }
    counts
}

} // verus!
