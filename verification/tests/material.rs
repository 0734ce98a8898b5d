use std::collections::BTreeSet;

use lib::procedural::material::{all_materials, TerrainMaterial};
use lib::voxel::VoxelId;

#[test]
fn identifiers_round_trip_and_never_collide() {
    let mut ids = BTreeSet::new();
    for material in all_materials() {
        let id = material.voxel_id();
        assert!(!id.is_air(), "{} must not be air", material.name());
        assert!(ids.insert(id.0), "{} reuses an id", material.name());
        assert_eq!(
            TerrainMaterial::from_voxel_id(id),
            Some(material),
            "{} does not round trip",
            material.name()
        );
    }
    assert_eq!(ids.len(), all_materials().len());
}

#[test]
fn air_and_diagnostic_identifiers_are_not_terrain_materials() {
    assert_eq!(TerrainMaterial::from_voxel_id(VoxelId::air()), None);
    // The diagnostic fixture uses 1, 2, and 7.
    for id in [1, 2, 7, 63] {
        assert_eq!(TerrainMaterial::from_voxel_id(VoxelId(id)), None, "{id} must stay diagnostic");
    }
    assert_eq!(TerrainMaterial::from_voxel_id(VoxelId(u16::MAX)), None);
}

#[test]
fn names_are_unique_so_a_histogram_is_readable() {
    let names: BTreeSet<&str> = all_materials().into_iter().map(TerrainMaterial::name).collect();
    assert_eq!(names.len(), all_materials().len());
}

#[test]
fn only_grass_carries_plants_and_only_plants_are_vegetation() {
    for material in all_materials() {
        let grass = matches!(material, TerrainMaterial::MeadowGrass | TerrainMaterial::HighlandGrass);
        assert_eq!(material.supports_vegetation(), grass, "{}", material.name());
        assert_eq!(material.is_water(), material == TerrainMaterial::Water);
        if material.is_vegetation() {
            assert!(!material.supports_vegetation() && !material.is_water());
        }
    }
    assert_eq!(TerrainMaterial::Water.voxel_id(), VoxelId(70));
    assert_eq!(TerrainMaterial::MeadowGrass.voxel_id(), VoxelId(64));
    assert_eq!(TerrainMaterial::Shrub.voxel_id(), VoxelId(74));
}
