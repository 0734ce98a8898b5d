//! The classifications the terrain field gives a column: its landform and its
//! ecological zone.

use vstd::prelude::*;

verus! {

/// What the ground is shaped like at a column.
#[derive(Clone, Copy, Debug, PartialEq, Eq, Hash, PartialOrd, Ord, Structural)]
pub enum Landform {
    /// Inside the river channel or the pond basin.
    Channel,
    /// The flat, walkable meadow between the channel and the shoulder.
    ValleyFloor,
    /// The rising ground between the floor and the highlands.
    Shoulder,
    /// The plateau above the shoulder, where ridges are allowed.
    Highland,
    /// A ridge crest standing above the surrounding highland.
    Ridge,
}

impl Landform {
    pub fn name(self) -> (name: &'static str)
        ensures
            self == Landform::Channel ==> name@ == "channel"@,
            self == Landform::ValleyFloor ==> name@ == "valley-floor"@,
            self == Landform::Shoulder ==> name@ == "shoulder"@,
            self == Landform::Highland ==> name@ == "highland"@,
            self == Landform::Ridge ==> name@ == "ridge"@,
    {
        match self {
            Landform::Channel => "channel",
            Landform::ValleyFloor => "valley-floor",
            Landform::Shoulder => "shoulder",
            Landform::Highland => "highland",
            Landform::Ridge => "ridge",
        }
    }
}

/// Ecological micro-zone: one dominant biome, with zones decided by
/// elevation, moisture, slope and exposure, never by a per-chunk draw.
#[derive(Clone, Copy, Debug, PartialEq, Eq, Hash, PartialOrd, Ord, Structural)]
pub enum BiomeZone {
    /// The sediment margin around water.
    RiverBank,
    /// Moist, gentle meadow near the water course.
    Meadow,
    /// Meadow inside a forest pocket, where trees cluster.
    MeadowWood,
    /// The rising shoulder: sparser vegetation, thinner soil.
    Slope,
    /// Plateau grassland above the shoulder.
    Highland,
    /// Rock too steep for soil or plants.
    RockyRidge,
}

impl BiomeZone {
    pub fn name(self) -> (name: &'static str)
        ensures
            self == BiomeZone::RiverBank ==> name@ == "river-bank"@,
            self == BiomeZone::Meadow ==> name@ == "meadow"@,
            self == BiomeZone::MeadowWood ==> name@ == "meadow-wood"@,
            self == BiomeZone::Slope ==> name@ == "slope"@,
            self == BiomeZone::Highland ==> name@ == "highland"@,
            self == BiomeZone::RockyRidge ==> name@ == "rocky-ridge"@,
    {
        match self {
            BiomeZone::RiverBank => "river-bank",
            BiomeZone::Meadow => "meadow",
            BiomeZone::MeadowWood => "meadow-wood",
            BiomeZone::Slope => "slope",
            BiomeZone::Highland => "highland",
            BiomeZone::RockyRidge => "rocky-ridge",
        }
    }
}

} // verus!
