//! Named places of the golden region, each with the classification it must
//! keep.

use vstd::prelude::*;

use crate::procedural::material::TerrainMaterial;
use crate::procedural::terrain::{BiomeZone, Landform};

verus! {

/// A named place in the golden region, with the classification it must keep.
#[derive(Clone, Copy, Debug)]
pub struct GoldenProbe {
    /// What this place is called.
    pub name: &'static str,
    pub x: i64,
    pub z: i64,
    pub landform: Landform,
    pub zone: BiomeZone,
    pub surface: TerrainMaterial,
}

} // verus!
