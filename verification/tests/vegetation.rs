use lib::procedural::material::TerrainMaterial;
use lib::procedural::vegetation::{
    ShrubDescriptor, TreeDescriptor, MAX_SHRUB_HEIGHT, MAX_SHRUB_REACH, MAX_TREE_HEIGHT, MIN_TREE_HEIGHT,
    SHRUB_BASE_EDGE,
};
use lib::procedural::terrain::{BiomeZone, Landform};

#[test]
fn a_tree_reports_its_proportions_and_bounds() {
    let tree = TreeDescriptor { base_x: 10, base_y: 40, base_z: -6, height: 10, canopy_radius: 3, trunk_edge: 2 };
    assert_eq!(tree.canopy_diameter(), 7);
    assert_eq!(tree.canopy_centre_y(), 46);
    assert_eq!(tree.trunk_top_offset(), 6);
    assert_eq!(tree.bounds(), ([7, 40, -9], [14, 49, -2]));
}

#[test]
fn a_shrub_spreads_at_its_base_and_stands_on_its_anchor_above() {
    let shrub = ShrubDescriptor { base_x: -1, base_y: 20, base_z: 4, height: 3 };
    assert_eq!(shrub.material_at(-1, 20, 4), Some(TerrainMaterial::Shrub));
    assert_eq!(shrub.material_at(0, 20, 5), Some(TerrainMaterial::Shrub));
    assert_eq!(shrub.material_at(1, 20, 4), None);
    assert_eq!(shrub.material_at(-1, 21, 4), Some(TerrainMaterial::Shrub));
    assert_eq!(shrub.material_at(0, 21, 4), None, "only the base spreads");
    assert_eq!(shrub.material_at(-1, 22, 4), Some(TerrainMaterial::Shrub));
    assert_eq!(shrub.material_at(-1, 23, 4), None, "nothing above the declared height");
    assert_eq!(shrub.material_at(-1, 19, 4), None, "nothing below the base");
    assert_eq!(SHRUB_BASE_EDGE - 1, MAX_SHRUB_REACH);
}

#[test]
fn classifications_have_stable_names() {
    assert_eq!(Landform::ValleyFloor.name(), "valley-floor");
    assert_eq!(Landform::Ridge.name(), "ridge");
    assert_eq!(BiomeZone::MeadowWood.name(), "meadow-wood");
    assert_eq!(BiomeZone::RockyRidge.name(), "rocky-ridge");
}

#[test]
fn every_grown_tree_obeys_the_style_bible_proportions() {
    let mut heights = [false; 4];
    for shape in 0..2000_u64 {
        let tree = TreeDescriptor::grown(3, 17, -9, shape.wrapping_mul(0x9e37_79b9_7f4a_7c15));
        assert_eq!((tree.base_x, tree.base_y, tree.base_z), (3, 17, -9));
        assert!((MIN_TREE_HEIGHT..=MAX_TREE_HEIGHT).contains(&tree.height), "tree height {}", tree.height);
        assert!((6..=11).contains(&tree.height));
        let diameter = tree.canopy_diameter();
        assert!((4..=7).contains(&diameter), "canopy diameter {diameter}");
        let ratio = diameter as f64 / tree.height as f64;
        assert!((0.40..=0.70).contains(&ratio), "canopy {diameter} against height {}: {ratio}", tree.height);
        assert!(tree.trunk_edge == 1 || (tree.trunk_edge == 2 && tree.height >= 9));
        assert!(tree.trunk_top_offset() >= 1, "a tree with no visible trunk");
        heights[(tree.height - MIN_TREE_HEIGHT) as usize] = true;
    }
    assert_eq!(heights, [true; 4], "every allowed height is grown");
}

#[test]
fn the_tallest_trees_carry_the_wide_crown_and_the_thick_trunk() {
    for shape in 0..500_u64 {
        let tree = TreeDescriptor::grown(0, 0, 0, shape);
        if tree.height >= 10 {
            assert_eq!((tree.canopy_radius, tree.trunk_edge), (3, 2));
        } else {
            assert_eq!((tree.canopy_radius, tree.trunk_edge), (2, 1));
        }
    }
}

#[test]
fn every_grown_shrub_is_present_and_low() {
    let mut heights = [false; 3];
    for hash in 0..600_u64 {
        let shrub = ShrubDescriptor::grown(-4, 12, 8, hash);
        assert_eq!((shrub.base_x, shrub.base_y, shrub.base_z), (-4, 12, 8));
        assert!((1..=MAX_SHRUB_HEIGHT).contains(&shrub.height));
        heights[(shrub.height - 1) as usize] = true;
    }
    assert_eq!(heights, [true; 3]);
}
