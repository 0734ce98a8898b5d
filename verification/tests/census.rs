use lib::procedural::material::{material_histogram, TerrainMaterial};
use lib::voxel::{distinct_ids, Chunk, VoxelId};

fn chunk_with(writes: &[(usize, usize, usize, VoxelId)]) -> Chunk {
    let mut chunk = Chunk::empty();
    for &(x, y, z, id) in writes {
        chunk.write_local(x, y, z, id);
    }
    chunk
}

#[test]
fn distinct_ids_lists_each_solid_id_once_in_scan_order() {
    let rock = TerrainMaterial::Rock.voxel_id();
    let water = TerrainMaterial::Water.voxel_id();
    let chunk = chunk_with(&[(5, 0, 0, water), (1, 0, 0, rock), (0, 3, 0, water), (0, 0, 9, rock)]);
    assert_eq!(distinct_ids(&chunk), vec![rock, water]);
    assert!(distinct_ids(&Chunk::empty()).is_empty());
}

#[test]
fn the_histogram_counts_materials_in_table_order_and_omits_absent_ones() {
    let grass = TerrainMaterial::MeadowGrass.voxel_id();
    let shrub = TerrainMaterial::Shrub.voxel_id();
    let chunk = chunk_with(&[(0, 0, 0, shrub), (1, 0, 0, grass), (2, 0, 0, grass), (3, 5, 7, shrub), (4, 5, 7, shrub)]);
    assert_eq!(
        material_histogram(&chunk),
        vec![(TerrainMaterial::MeadowGrass, 2), (TerrainMaterial::Shrub, 3)]
    );
    assert!(material_histogram(&Chunk::empty()).is_empty());
    // An identifier outside the terrain table is not counted.
    let other = chunk_with(&[(0, 0, 0, VoxelId(7))]);
    assert!(material_histogram(&other).is_empty());
    assert_eq!(distinct_ids(&other), vec![VoxelId(7)]);
}
