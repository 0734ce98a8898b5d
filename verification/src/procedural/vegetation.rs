//! The geometry of a single plant: where a tree's trunk and canopy stand and
//! what a shrub occupies.

use vstd::prelude::*;

use crate::procedural::material::TerrainMaterial;
use crate::procedural::noise::{spec_sub_hash, sub_hash};

verus! {

/// Closest two trees may stand, in voxels.
pub const MIN_TREE_SPACING: i64 = 6;
pub const MIN_TREE_HEIGHT: i64 = 8;
pub const MAX_TREE_HEIGHT: i64 = 11;
pub const MAX_CANOPY_RADIUS: i64 = 3;
/// Farthest a tree reaches from its anchor column.
pub const MAX_TREE_REACH: i64 = 4;
pub const MAX_SHRUB_HEIGHT: i64 = 3;
/// Edge of a shrub's spreading base course.
pub const SHRUB_BASE_EDGE: i64 = 2;
/// Farthest a shrub reaches from its anchor column.
pub const MAX_SHRUB_REACH: i64 = 1;

/// Every number a tree is grown from, so a test can hold every tree to the
/// style contract's proportions.
#[derive(Clone, Copy, Debug, PartialEq, Eq, Structural)]
pub struct TreeDescriptor {
    /// World voxel of the lowest trunk voxel.
    pub base_x: i64,
    pub base_y: i64,
    pub base_z: i64,
    /// Total height, base voxel to canopy top, inclusive.
    pub height: i64,
    /// Horizontal canopy radius in voxels.
    pub canopy_radius: i64,
    /// Trunk footprint edge: one, or two for the tallest trees.
    pub trunk_edge: i64,
}

/// Every field small enough that the derived heights and bounds stay inside
/// `i64`.
pub open spec fn spec_tree_fits(tree: TreeDescriptor) -> bool {
    &&& -0x1000_0000_0000_0000 <= tree.base_x <= 0x1000_0000_0000_0000
    &&& -0x1000_0000_0000_0000 <= tree.base_y <= 0x1000_0000_0000_0000
    &&& -0x1000_0000_0000_0000 <= tree.base_z <= 0x1000_0000_0000_0000
    &&& -0x1000_0000_0000_0000 <= tree.height <= 0x1000_0000_0000_0000
    &&& -0x1000_0000_0000_0000 <= tree.canopy_radius <= 0x1000_0000_0000_0000
    &&& -0x1000_0000_0000_0000 <= tree.trunk_edge <= 0x1000_0000_0000_0000
}

impl TreeDescriptor {
    /// Canopy diameter as the style contract measures it.
    pub fn canopy_diameter(&self) -> (diameter: i64)
        requires
            spec_tree_fits(*self),
        ensures
            diameter == 2 * self.canopy_radius + 1,
    {
        2 * self.canopy_radius + 1
    }

    /// World `y` of the canopy centre.
    pub fn canopy_centre_y(&self) -> (centre: i64)
        requires
            spec_tree_fits(*self),
        ensures
            centre == self.base_y + self.height - 1 - self.canopy_radius,
    {
        self.base_y + self.height - 1 - self.canopy_radius
    }

    /// Highest trunk voxel, measured from the base.
    pub fn trunk_top_offset(&self) -> (offset: i64)
        requires
            spec_tree_fits(*self),
        ensures
            offset == self.height - self.canopy_radius - 1,
    {
        self.height - self.canopy_radius - 1
    }

    /// Inclusive world-space bounds, used to skip a tree that cannot touch a
    /// chunk before any per-voxel work happens.
    pub fn bounds(&self) -> (bounds: ([i64; 3], [i64; 3]))
        requires
            spec_tree_fits(*self),
        ensures
            bounds.0@ == seq![
                (self.base_x - self.canopy_radius) as i64,
                self.base_y,
                (self.base_z - self.canopy_radius) as i64,
            ],
            bounds.1@ == seq![
                (self.base_x + self.canopy_radius + self.trunk_edge - 1) as i64,
                (self.base_y + self.height - 1) as i64,
                (self.base_z + self.canopy_radius + self.trunk_edge - 1) as i64,
            ],
    {
        let low = [self.base_x - self.canopy_radius, self.base_y, self.base_z - self.canopy_radius];
        let high = [
            self.base_x + self.canopy_radius + self.trunk_edge - 1,
            self.base_y + self.height - 1,
            self.base_z + self.canopy_radius + self.trunk_edge - 1,
        ];
        proof {
            assert(low@ =~= seq![
                (self.base_x - self.canopy_radius) as i64,
                self.base_y,
                (self.base_z - self.canopy_radius) as i64,
            ]);
            assert(high@ =~= seq![
                (self.base_x + self.canopy_radius + self.trunk_edge - 1) as i64,
                (self.base_y + self.height - 1) as i64,
                (self.base_z + self.canopy_radius + self.trunk_edge - 1) as i64,
            ]);
        }
        (low, high)
    }
}

/// Draw of a tree's shape hash its height is taken from.
pub const TREE_HEIGHT_DRAW: u64 = 3;
/// Draw of a shrub's placement hash its height is taken from.
pub const SHRUB_HEIGHT_DRAW: u64 = 4;

/// The tree a shape hash grows at a base voxel: a height drawn from the four
/// the style contract allows, and the wider crown with the thicker trunk on
/// the two tallest.
pub open spec fn spec_grown_tree(base_x: i64, base_y: i64, base_z: i64, shape: u64) -> TreeDescriptor {
    let height = MIN_TREE_HEIGHT + (spec_sub_hash(shape, TREE_HEIGHT_DRAW) % 4) as int;
    let tall = height >= 10;
    TreeDescriptor {
        base_x,
        base_y,
        base_z,
        height: height as i64,
        canopy_radius: if tall {
            3
        } else {
            2
        },
        trunk_edge: if tall {
            2
        } else {
            1
        },
    }
}

/// The proportions the style contract asks of every tree: six to eleven
/// voxels high, a crown four to seven across and between four and seven
/// tenths of the height, the two-voxel trunk only on trees nine or more
/// high, and at least one trunk voxel showing under the crown.
pub open spec fn spec_tree_proportioned(tree: TreeDescriptor) -> bool {
    let diameter = 2 * tree.canopy_radius + 1;
    &&& 6 <= tree.height <= 11
    &&& 4 <= diameter <= 7
    &&& 4 * tree.height <= 10 * diameter <= 7 * tree.height
    &&& tree.trunk_edge == 1 || (tree.trunk_edge == 2 && tree.height >= 9)
    &&& tree.height - tree.canopy_radius - 1 >= 1
}

/// Every tree a shape hash grows keeps the style contract's proportions,
/// whatever the hash and wherever it stands.
pub proof fn lemma_grown_trees_are_proportioned(base_x: i64, base_y: i64, base_z: i64, shape: u64)
    ensures
        spec_tree_proportioned(spec_grown_tree(base_x, base_y, base_z, shape)),
{
}

impl TreeDescriptor {
    /// Grows the tree a cell's shape hash describes, standing on the given
    /// base voxel. Taller trees carry the wider crown and the thicker trunk,
    /// which keeps every tree inside the canopy-to-height band and the
    /// two-voxel trunk on the tall trees only.
    pub fn grown(base_x: i64, base_y: i64, base_z: i64, shape: u64) -> (tree: TreeDescriptor)
        ensures
            tree == spec_grown_tree(base_x, base_y, base_z, shape),
            spec_tree_proportioned(tree),
    {
        let span = (MAX_TREE_HEIGHT - MIN_TREE_HEIGHT + 1) as u64;
        let height = MIN_TREE_HEIGHT + (sub_hash(shape, TREE_HEIGHT_DRAW) % span) as i64;
        let tall = height >= 10;
        TreeDescriptor {
            base_x,
            base_y,
            base_z,
            height,
            canopy_radius: if tall {
                3
            } else {
                2
            },
            trunk_edge: if tall {
                2
            } else {
                1
            },
        }
    }
}

/// The shrub a cell's placement hash grows at a base voxel: one to
/// `MAX_SHRUB_HEIGHT` voxels high.
pub open spec fn spec_grown_shrub(base_x: i64, base_y: i64, base_z: i64, hash: u64) -> ShrubDescriptor {
    ShrubDescriptor {
        base_x,
        base_y,
        base_z,
        height: (1 + spec_sub_hash(hash, SHRUB_HEIGHT_DRAW) % (MAX_SHRUB_HEIGHT as u64)) as i64,
    }
}

/// One low plant: a two-by-two base with a narrower crown on top.
#[derive(Clone, Copy, Debug, PartialEq, Eq, Structural)]
pub struct ShrubDescriptor {
    pub base_x: i64,
    pub base_y: i64,
    pub base_z: i64,
    pub height: i64,
}

/// What a shrub occupies: its base course spreads over a two-by-two square,
/// every course above stands on the anchor column alone.
pub open spec fn spec_shrub_at(shrub: ShrubDescriptor, x: int, y: int, z: int) -> Option<TerrainMaterial> {
    let dy = y - shrub.base_y;
    let edge: int = if dy == 0 {
        SHRUB_BASE_EDGE as int
    } else {
        1
    };
    if dy < 0 || dy >= shrub.height {
        None
    } else if shrub.base_x <= x < shrub.base_x + edge && shrub.base_z <= z < shrub.base_z + edge {
        Some(TerrainMaterial::Shrub)
    } else {
        None
    }
}

impl ShrubDescriptor {
    /// Grows the shrub a cell's placement hash describes, standing on the
    /// given base voxel: always present, never taller than the limit.
    pub fn grown(base_x: i64, base_y: i64, base_z: i64, hash: u64) -> (shrub: ShrubDescriptor)
        ensures
            shrub == spec_grown_shrub(base_x, base_y, base_z, hash),
            1 <= shrub.height <= MAX_SHRUB_HEIGHT,
    {
        let span = MAX_SHRUB_HEIGHT as u64;
        ShrubDescriptor { base_x, base_y, base_z, height: 1 + (sub_hash(hash, SHRUB_HEIGHT_DRAW) % span) as i64 }
    }

    /// The material at a world voxel, if this shrub occupies it.
    pub fn material_at(&self, x: i64, y: i64, z: i64) -> (material: Option<TerrainMaterial>)
        requires
            i64::MIN <= y - self.base_y <= i64::MAX,
            ({
                let edge: int = if y == self.base_y {
                    SHRUB_BASE_EDGE as int
                } else {
                    1
                };
                &&& 0 <= y - self.base_y < self.height ==> self.base_x + edge <= i64::MAX
                &&& 0 <= y - self.base_y < self.height && self.base_x <= x < self.base_x + edge ==> self.base_z
                    + edge <= i64::MAX
            }),
        ensures
            material == spec_shrub_at(*self, x as int, y as int, z as int),
    {
        let dy = y - self.base_y;
        if dy < 0 || dy >= self.height {
            return None;
        }
        let edge: i64 = if dy == 0 {
            SHRUB_BASE_EDGE
        } else {
            1
        };
        if self.base_x <= x && x < self.base_x + edge && self.base_z <= z && z < self.base_z + edge {
            Some(TerrainMaterial::Shrub)
        } else {
            None
        }
    }
}

} // verus!
