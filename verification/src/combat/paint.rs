//! The paint of a weapon: which material each grid cell carries, and what a
//! scan of the whole grid finds, the solid count and the blade's extent.
//!
//! The collision segment is derived from this scan rather than from the
//! descriptor, so a change of geometry moves it with nothing else to update.

use vstd::prelude::*;

use crate::combat::weapon::{
    lemma_valid_descriptor, spec_metrics, spec_validate_weapon, Band, ValidatedWeapon,
    WeaponDescriptor, WeaponDescriptorError, WeaponError, WeaponMetrics, MAX_WEAPON_EDGE,
};

verus! {

/// The material one cell of a weapon is painted with.
#[derive(Clone, Copy, Debug, PartialEq, Eq, Hash, Structural)]
pub enum WeaponMaterial {
    /// The sharpened side of the blade, its low `z` face.
    BladeEdge,
    /// The blade between edge and spine.
    BladeBody,
    /// The spine of the blade, its high `z` face.
    BladeShade,
    Guard,
    Grip,
    Pommel,
}

impl WeaponMaterial {
    pub open spec fn spec_is_blade(self) -> bool {
        self is BladeEdge || self is BladeBody || self is BladeShade
    }

    /// Whether this material belongs to the blade.
    pub fn is_blade(self) -> (blade: bool)
        ensures
            blade == self.spec_is_blade(),
    {
        match self {
            WeaponMaterial::BladeEdge | WeaponMaterial::BladeBody | WeaponMaterial::BladeShade => true,
            _ => false,
        }
    }

    /// The material's place in a table kept per material: its place in the
    /// declaration, from the edge of the blade to the pommel.
    pub open spec fn spec_slot(self) -> int {
        match self {
            WeaponMaterial::BladeEdge => 0,
            WeaponMaterial::BladeBody => 1,
            WeaponMaterial::BladeShade => 2,
            WeaponMaterial::Guard => 3,
            WeaponMaterial::Grip => 4,
            WeaponMaterial::Pommel => 5,
        }
    }

    /// The material's place in a table kept per material.
    pub fn index(self) -> (index: usize)
        ensures
            index == self.spec_slot(),
    {
        match self {
            WeaponMaterial::BladeEdge => 0,
            WeaponMaterial::BladeBody => 1,
            WeaponMaterial::BladeShade => 2,
            WeaponMaterial::Guard => 3,
            WeaponMaterial::Grip => 4,
            WeaponMaterial::Pommel => 5,
        }
    }
}

/// Number of weapon materials, the length of a table kept per material.
pub const WEAPON_MATERIAL_COUNT: usize = 6;

pub open spec fn spec_in_band(band: Band, value: int) -> bool {
    band.low <= value < band.high
}

/// The material at one grid cell: the blade first, then the guard, the grip
/// and the pommel; air everywhere else.
pub open spec fn spec_material_at(m: WeaponMetrics, x: int, y: int, z: int) -> Option<WeaponMaterial> {
    if spec_in_band(m.blade_y, y) && spec_in_band(m.blade_x, x) && spec_in_band(m.blade_z, z) {
        Some(
            if z == m.blade_z.low {
                WeaponMaterial::BladeEdge
            } else if z == m.blade_z.high - 1 {
                WeaponMaterial::BladeShade
            } else {
                WeaponMaterial::BladeBody
            },
        )
    } else if spec_in_band(m.guard_y, y) && spec_in_band(m.guard_x, x) && spec_in_band(m.guard_z, z) {
        Some(WeaponMaterial::Guard)
    } else if spec_in_band(m.grip_y, y) && spec_in_band(m.grip_x, x) && spec_in_band(m.grip_z, z) {
        Some(WeaponMaterial::Grip)
    } else if spec_in_band(m.pommel_y, y) && spec_in_band(m.pommel_x, x) && spec_in_band(m.pommel_z, z) {
        Some(WeaponMaterial::Pommel)
    } else {
        None
    }
}

impl WeaponMetrics {
    /// The material at one grid cell, or `None` where the weapon is air.
    ///
    /// This is the one place the weapon's shape is decided.
    pub fn material_at(&self, cell: [i32; 3]) -> (material: Option<WeaponMaterial>)
        ensures
            material == spec_material_at(*self, cell[0] as int, cell[1] as int, cell[2] as int),
    {
        let x = cell[0];
        let y = cell[1];
        let z = cell[2];
        if self.blade_y.contains(y) && self.blade_x.contains(x) && self.blade_z.contains(z) {
            return Some(
                if z == self.blade_z.low {
                    WeaponMaterial::BladeEdge
                } else if z == self.blade_z.high - 1 {
                    WeaponMaterial::BladeShade
                } else {
                    WeaponMaterial::BladeBody
                },
            );
        }
        if self.guard_y.contains(y) && self.guard_x.contains(x) && self.guard_z.contains(z) {
            return Some(WeaponMaterial::Guard);
        }
        if self.grip_y.contains(y) && self.grip_x.contains(x) && self.grip_z.contains(z) {
            return Some(WeaponMaterial::Grip);
        }
        if self.pommel_y.contains(y) && self.pommel_x.contains(x) && self.pommel_z.contains(z) {
            return Some(WeaponMaterial::Pommel);
        }
        None
    }
}

/// Whether a cell's paint is one a count selects: any solid cell for `None`,
/// cells of exactly that material for `Some`.
pub open spec fn spec_selected(paint: Option<WeaponMaterial>, select: Option<WeaponMaterial>) -> bool {
    match select {
        None => paint is Some,
        Some(material) => paint == Some(material),
    }
}

/// Selected cells among the first `n` of row `y` of layer `z`.
pub open spec fn spec_row_count(m: WeaponMetrics, select: Option<WeaponMaterial>, y: int, z: int, n: int) -> nat
    decreases n,
{
    if n <= 0 {
        0
    } else {
        spec_row_count(m, select, y, z, n - 1) + if spec_selected(spec_material_at(m, n - 1, y, z), select) {
            1nat
        } else {
            0nat
        }
    }
}

/// Selected cells among the first `n` full rows of layer `z`.
pub open spec fn spec_layer_count(m: WeaponMetrics, select: Option<WeaponMaterial>, z: int, n: int) -> nat
    decreases n,
{
    if n <= 0 {
        0
    } else {
        spec_layer_count(m, select, z, n - 1) + spec_row_count(m, select, n - 1, z, m.dims[0] as int)
    }
}

/// Selected cells among the first `n` full layers.
pub open spec fn spec_layers_count(m: WeaponMetrics, select: Option<WeaponMaterial>, n: int) -> nat
    decreases n,
{
    if n <= 0 {
        0
    } else {
        spec_layers_count(m, select, n - 1) + spec_layer_count(m, select, n - 1, m.dims[1] as int)
    }
}

/// Solid cells in the whole grid.
pub open spec fn spec_solid_voxels(m: WeaponMetrics) -> nat {
    spec_layers_count(m, None, m.dims[2] as int)
}

/// Cells of one material in the whole grid.
pub open spec fn spec_material_voxels(m: WeaponMetrics, material: WeaponMaterial) -> nat {
    spec_layers_count(m, Some(material), m.dims[2] as int)
}

/// The sum of a per-material quantity over the six materials.
pub open spec fn spec_over_materials(f: spec_fn(WeaponMaterial) -> nat) -> nat {
    f(WeaponMaterial::BladeEdge) + f(WeaponMaterial::BladeBody) + f(WeaponMaterial::BladeShade) + f(
        WeaponMaterial::Guard,
    ) + f(WeaponMaterial::Grip) + f(WeaponMaterial::Pommel)
}

/// A grid cell painted with a blade material.
pub open spec fn spec_blade_cell(m: WeaponMetrics, x: int, y: int, z: int) -> bool {
    &&& 0 <= x < m.dims[0]
    &&& 0 <= y < m.dims[1]
    &&& 0 <= z < m.dims[2]
    &&& spec_material_at(m, x, y, z) is Some
    &&& spec_material_at(m, x, y, z)->0.spec_is_blade()
}

pub open spec fn spec_axis(x: int, y: int, z: int, axis: int) -> int {
    if axis == 0 {
        x
    } else if axis == 1 {
        y
    } else {
        z
    }
}

/// `band` is exactly the extent, on `axis`, of the painted blade cells: every
/// one lies inside it and its two ends are reached.
pub open spec fn spec_blade_extent(m: WeaponMetrics, axis: int, band: Band) -> bool {
    &&& forall|x: int, y: int, z: int|
        #[trigger] spec_blade_cell(m, x, y, z) ==> spec_in_band(band, spec_axis(x, y, z, axis))
    &&& exists|x: int, y: int, z: int| #[trigger] spec_blade_cell(m, x, y, z) && spec_axis(x, y, z, axis) == band.low
    &&& exists|x: int, y: int, z: int|
        #[trigger] spec_blade_cell(m, x, y, z) && spec_axis(x, y, z, axis) + 1 == band.high
}

/// What a scan of a weapon's grid finds.
#[derive(Clone, Copy, Debug, PartialEq, Eq)]
pub struct WeaponPaint {
    /// Cells that are not air.
    pub solid_voxels: u32,
    /// Cells of each material, by the material's index.
    pub material_counts: [u32; WEAPON_MATERIAL_COUNT],
    /// The extent of the painted blade cells on each axis.
    pub blade_x: Band,
    pub blade_y: Band,
    pub blade_z: Band,
}

/// Cells a scan in layer, row, column order has passed before `(cx, cy, cz)`.
pub open spec fn spec_scanned(x: int, y: int, z: int, cx: int, cy: int, cz: int) -> bool {
    z < cz || (z == cz && (y < cy || (y == cy && x < cx)))
}

/// The running extent of the blade on one axis, over the cells scanned.
spec fn spec_extent_so_far(m: WeaponMetrics, axis: int, low: i32, high: i32, cx: int, cy: int, cz: int) -> bool {
    &&& forall|x: int, y: int, z: int|
        #[trigger] spec_blade_cell(m, x, y, z) && spec_scanned(x, y, z, cx, cy, cz) ==> low <= spec_axis(
            x,
            y,
            z,
            axis,
        ) < high
    &&& (exists|x: int, y: int, z: int| #[trigger] spec_blade_cell(m, x, y, z) && spec_scanned(x, y, z, cx, cy, cz))
        ==> (exists|x: int, y: int, z: int|
        #[trigger] spec_blade_cell(m, x, y, z) && spec_scanned(x, y, z, cx, cy, cz) && spec_axis(x, y, z, axis)
            == low) && (exists|x: int, y: int, z: int|
        #[trigger] spec_blade_cell(m, x, y, z) && spec_scanned(x, y, z, cx, cy, cz) && spec_axis(x, y, z, axis)
            + 1 == high)
    &&& !(exists|x: int, y: int, z: int| #[trigger] spec_blade_cell(m, x, y, z) && spec_scanned(x, y, z, cx, cy, cz))
        ==> low == i32::MAX && high == i32::MIN
}

/// Selected cells a scan in layer, row, column order has passed before
/// `(x, y, z)`.
pub open spec fn spec_scanned_count(m: WeaponMetrics, select: Option<WeaponMaterial>, x: int, y: int, z: int) -> nat {
    spec_layers_count(m, select, z) + spec_layer_count(m, select, z, y) + spec_row_count(m, select, y, z, x)
}

/// Past the last column of a row, the count goes on at the next row's start.
proof fn lemma_count_next_row(m: WeaponMetrics, y: int, z: int)
    requires
        0 <= y,
    ensures
        forall|s: Option<WeaponMaterial>|
            #[trigger] spec_scanned_count(m, s, m.dims[0] as int, y, z) == spec_scanned_count(m, s, 0, y + 1, z),
{
}

/// Past the last row of a layer, the count goes on at the next layer's start.
proof fn lemma_count_next_layer(m: WeaponMetrics, z: int)
    requires
        0 <= z,
        0 <= m.dims[1],
    ensures
        forall|s: Option<WeaponMaterial>|
            #[trigger] spec_scanned_count(m, s, 0, m.dims[1] as int, z) == spec_scanned_count(m, s, 0, 0, z + 1),
{
}

spec fn spec_in_grid(m: WeaponMetrics) -> bool {
    &&& 0 <= m.dims[0] <= MAX_WEAPON_EDGE
    &&& 0 <= m.dims[1] <= MAX_WEAPON_EDGE
    &&& 0 <= m.dims[2] <= MAX_WEAPON_EDGE
}

proof fn lemma_extent_start(m: WeaponMetrics, axis: int)
    ensures
        spec_extent_so_far(m, axis, i32::MAX, i32::MIN, 0, 0, 0),
{
}

/// Scanning one more cell moves the running extent to cover it when it is a
/// blade cell.
proof fn lemma_extent_step(
    m: WeaponMetrics,
    axis: int,
    low: i32,
    high: i32,
    cx: int,
    cy: int,
    cz: int,
    low2: i32,
    high2: i32,
)
    requires
        spec_extent_so_far(m, axis, low, high, cx, cy, cz),
        spec_blade_cell(m, cx, cy, cz) ==> low2 == (if spec_axis(cx, cy, cz, axis) < low {
            spec_axis(cx, cy, cz, axis)
        } else {
            low as int
        }) && high2 == (if spec_axis(cx, cy, cz, axis) + 1 > high {
            spec_axis(cx, cy, cz, axis) + 1
        } else {
            high as int
        }),
        !spec_blade_cell(m, cx, cy, cz) ==> low2 == low && high2 == high,
    ensures
        spec_extent_so_far(m, axis, low2, high2, cx + 1, cy, cz),
{
    let a = spec_axis(cx, cy, cz, axis);
    if spec_blade_cell(m, cx, cy, cz) {
        assert(spec_blade_cell(m, cx, cy, cz) && spec_scanned(cx, cy, cz, cx + 1, cy, cz));
        if exists|x: int, y: int, z: int| #[trigger] spec_blade_cell(m, x, y, z) && spec_scanned(x, y, z, cx, cy, cz) {
            let (lx, ly, lz) = choose|x: int, y: int, z: int|
                #[trigger] spec_blade_cell(m, x, y, z) && spec_scanned(x, y, z, cx, cy, cz) && spec_axis(x, y, z, axis)
                    == low;
            let (hx, hy, hz) = choose|x: int, y: int, z: int|
                #[trigger] spec_blade_cell(m, x, y, z) && spec_scanned(x, y, z, cx, cy, cz) && spec_axis(x, y, z, axis)
                    + 1 == high;
            assert(spec_scanned(lx, ly, lz, cx + 1, cy, cz));
            assert(spec_scanned(hx, hy, hz, cx + 1, cy, cz));
            if a < low {
                assert(spec_blade_cell(m, cx, cy, cz) && spec_scanned(cx, cy, cz, cx + 1, cy, cz) && spec_axis(cx, cy, cz, axis) == low2);
            } else {
                assert(spec_blade_cell(m, lx, ly, lz) && spec_scanned(lx, ly, lz, cx + 1, cy, cz) && spec_axis(lx, ly, lz, axis) == low2);
            }
            if a + 1 > high {
                assert(spec_blade_cell(m, cx, cy, cz) && spec_scanned(cx, cy, cz, cx + 1, cy, cz) && spec_axis(cx, cy, cz, axis) + 1 == high2);
            } else {
                assert(spec_blade_cell(m, hx, hy, hz) && spec_scanned(hx, hy, hz, cx + 1, cy, cz) && spec_axis(hx, hy, hz, axis) + 1 == high2);
            }
        } else {
            assert(spec_blade_cell(m, cx, cy, cz) && spec_scanned(cx, cy, cz, cx + 1, cy, cz) && spec_axis(cx, cy, cz, axis) == low2);
            assert(spec_blade_cell(m, cx, cy, cz) && spec_scanned(cx, cy, cz, cx + 1, cy, cz) && spec_axis(cx, cy, cz, axis) + 1 == high2);
            assert forall|x: int, y: int, z: int|
                #[trigger] spec_blade_cell(m, x, y, z) && spec_scanned(x, y, z, cx + 1, cy, cz) implies low2 <= spec_axis(
                x,
                y,
                z,
                axis,
            ) < high2 by {
                if !(x == cx && y == cy && z == cz) {
                    assert(spec_scanned(x, y, z, cx, cy, cz));
                }
            }
        }
    } else {
        assert forall|x: int, y: int, z: int|
            #[trigger] spec_blade_cell(m, x, y, z) && spec_scanned(x, y, z, cx + 1, cy, cz) implies spec_scanned(
            x,
            y,
            z,
            cx,
            cy,
            cz,
        ) by {
            if x == cx && y == cy && z == cz {
            }
        }
        if exists|x: int, y: int, z: int| #[trigger] spec_blade_cell(m, x, y, z) && spec_scanned(x, y, z, cx + 1, cy, cz) {
            let (x, y, z) = choose|x: int, y: int, z: int|
                #[trigger] spec_blade_cell(m, x, y, z) && spec_scanned(x, y, z, cx + 1, cy, cz);
            assert(spec_blade_cell(m, x, y, z) && spec_scanned(x, y, z, cx, cy, cz));
            let (lx, ly, lz) = choose|x: int, y: int, z: int|
                #[trigger] spec_blade_cell(m, x, y, z) && spec_scanned(x, y, z, cx, cy, cz) && spec_axis(x, y, z, axis)
                    == low;
            let (hx, hy, hz) = choose|x: int, y: int, z: int|
                #[trigger] spec_blade_cell(m, x, y, z) && spec_scanned(x, y, z, cx, cy, cz) && spec_axis(x, y, z, axis)
                    + 1 == high;
            assert(spec_blade_cell(m, lx, ly, lz) && spec_scanned(lx, ly, lz, cx + 1, cy, cz) && spec_axis(lx, ly, lz, axis) == low2);
            assert(spec_blade_cell(m, hx, hy, hz) && spec_scanned(hx, hy, hz, cx + 1, cy, cz) && spec_axis(hx, hy, hz, axis) + 1 == high2);
        }
    }
}

/// Past the last column of a row, the scan goes on at the start of the next.
proof fn lemma_extent_next_row(m: WeaponMetrics, axis: int, low: i32, high: i32, cy: int, cz: int)
    requires
        spec_extent_so_far(m, axis, low, high, m.dims[0] as int, cy, cz),
    ensures
        spec_extent_so_far(m, axis, low, high, 0, cy + 1, cz),
{
    assert forall|x: int, y: int, z: int| #[trigger] spec_blade_cell(m, x, y, z) implies (spec_scanned(
        x,
        y,
        z,
        m.dims[0] as int,
        cy,
        cz,
    ) <==> spec_scanned(x, y, z, 0, cy + 1, cz)) by {}
}

/// Past the last row of a layer, the scan goes on at the start of the next.
proof fn lemma_extent_next_layer(m: WeaponMetrics, axis: int, low: i32, high: i32, cz: int)
    requires
        spec_extent_so_far(m, axis, low, high, 0, m.dims[1] as int, cz),
    ensures
        spec_extent_so_far(m, axis, low, high, 0, 0, cz + 1),
{
    assert forall|x: int, y: int, z: int| #[trigger] spec_blade_cell(m, x, y, z) implies (spec_scanned(
        x,
        y,
        z,
        0,
        m.dims[1] as int,
        cz,
    ) <==> spec_scanned(x, y, z, 0, 0, cz + 1)) by {}
}

/// Once every layer is scanned, a blade cell that exists makes the running
/// extent exact.
proof fn lemma_extent_done(m: WeaponMetrics, axis: int, low: i32, high: i32, bx: int, by: int, bz: int)
    requires
        spec_extent_so_far(m, axis, low, high, 0, 0, m.dims[2] as int),
        spec_blade_cell(m, bx, by, bz),
    ensures
        spec_blade_extent(m, axis, Band { low, high }),
        low <= high,
{
    assert(spec_blade_cell(m, bx, by, bz) && spec_scanned(bx, by, bz, 0, 0, m.dims[2] as int));
    let (lx, ly, lz) = choose|x: int, y: int, z: int|
        #[trigger] spec_blade_cell(m, x, y, z) && spec_scanned(x, y, z, 0, 0, m.dims[2] as int) && spec_axis(
            x,
            y,
            z,
            axis,
        ) == low;
    let (hx, hy, hz) = choose|x: int, y: int, z: int|
        #[trigger] spec_blade_cell(m, x, y, z) && spec_scanned(x, y, z, 0, 0, m.dims[2] as int) && spec_axis(
            x,
            y,
            z,
            axis,
        ) + 1 == high;
    assert(spec_blade_cell(m, lx, ly, lz) && spec_axis(lx, ly, lz, axis) == low);
    assert(spec_blade_cell(m, hx, hy, hz) && spec_axis(hx, hy, hz, axis) + 1 == high);
    assert forall|x: int, y: int, z: int| #[trigger] spec_blade_cell(m, x, y, z) implies spec_in_band(
        Band { low, high },
        spec_axis(x, y, z, axis),
    ) by {
        assert(spec_scanned(x, y, z, 0, 0, m.dims[2] as int));
    }
}

proof fn lemma_row_bound(m: WeaponMetrics, select: Option<WeaponMaterial>, y: int, z: int, n: int)
    requires
        n >= 0,
    ensures
        spec_row_count(m, select, y, z, n) <= n,
    decreases n,
{
    if n > 0 {
        lemma_row_bound(m, select, y, z, n - 1);
    }
}

proof fn lemma_layer_bound(m: WeaponMetrics, select: Option<WeaponMaterial>, z: int, n: int)
    requires
        n >= 0,
        0 <= m.dims[0] <= MAX_WEAPON_EDGE,
    ensures
        spec_layer_count(m, select, z, n) <= n * 32,
    decreases n,
{
    if n > 0 {
        lemma_layer_bound(m, select, z, n - 1);
        lemma_row_bound(m, select, n - 1, z, m.dims[0] as int);
    }
}

proof fn lemma_layers_bound(m: WeaponMetrics, select: Option<WeaponMaterial>, n: int)
    requires
        n >= 0,
        spec_in_grid(m),
    ensures
        spec_layers_count(m, select, n) <= n * 1024,
    decreases n,
{
    if n > 0 {
        lemma_layers_bound(m, select, n - 1);
        lemma_layer_bound(m, select, n - 1, m.dims[1] as int);
    }
}

/// A solid cell in a row makes the row's count positive.
proof fn lemma_row_positive(m: WeaponMetrics, x: int, y: int, z: int, n: int)
    requires
        0 <= x < n,
        spec_material_at(m, x, y, z) is Some,
    ensures
        spec_row_count(m, None, y, z, n) > 0,
    decreases n,
{
    if x < n - 1 {
        lemma_row_positive(m, x, y, z, n - 1);
    }
}

proof fn lemma_layer_positive(m: WeaponMetrics, x: int, y: int, z: int, n: int)
    requires
        0 <= x < m.dims[0],
        0 <= y < n,
        spec_material_at(m, x, y, z) is Some,
    ensures
        spec_layer_count(m, None, z, n) > 0,
    decreases n,
{
    if y < n - 1 {
        lemma_layer_positive(m, x, y, z, n - 1);
    } else {
        lemma_row_positive(m, x, y, z, m.dims[0] as int);
    }
}

proof fn lemma_layers_positive(m: WeaponMetrics, x: int, y: int, z: int, n: int)
    requires
        0 <= x < m.dims[0],
        0 <= y < m.dims[1],
        0 <= z < n,
        spec_material_at(m, x, y, z) is Some,
    ensures
        spec_layers_count(m, None, n) > 0,
    decreases n,
{
    if z < n - 1 {
        lemma_layers_positive(m, x, y, z, n - 1);
    } else {
        lemma_layer_positive(m, x, y, z, m.dims[1] as int);
    }
}

/// Every solid cell wears exactly one of the six materials, so a row's solid
/// count is the sum of its counts by material.
proof fn lemma_row_by_material(m: WeaponMetrics, y: int, z: int, n: int)
    ensures
        spec_row_count(m, None, y, z, n) == spec_over_materials(
            |k: WeaponMaterial| spec_row_count(m, Some(k), y, z, n),
        ),
    decreases n,
{
    if n > 0 {
        lemma_row_by_material(m, y, z, n - 1);
    }
}

proof fn lemma_layer_by_material(m: WeaponMetrics, z: int, n: int)
    ensures
        spec_layer_count(m, None, z, n) == spec_over_materials(
            |k: WeaponMaterial| spec_layer_count(m, Some(k), z, n),
        ),
    decreases n,
{
    if n > 0 {
        lemma_layer_by_material(m, z, n - 1);
        lemma_row_by_material(m, n - 1, z, m.dims[0] as int);
    }
}

proof fn lemma_layers_by_material(m: WeaponMetrics, n: int)
    ensures
        spec_layers_count(m, None, n) == spec_over_materials(|k: WeaponMaterial| spec_layers_count(m, Some(k), n)),
    decreases n,
{
    if n > 0 {
        lemma_layers_by_material(m, n - 1);
        lemma_layer_by_material(m, n - 1, m.dims[1] as int);
    }
}

/// The counts by material of a weapon's grid add up to its solid count.
pub proof fn lemma_material_counts_add_up(m: WeaponMetrics)
    ensures
        spec_solid_voxels(m) == spec_over_materials(|k: WeaponMaterial| spec_material_voxels(m, k)),
{
    lemma_layers_by_material(m, m.dims[2] as int);
}

/// The layout of a validated descriptor puts the whole blade box inside the
/// grid, from the tip at row zero.
proof fn lemma_blade_in_grid(d: WeaponDescriptor, m: WeaponMetrics)
    requires
        spec_validate_weapon(d) == Ok::<WeaponMetrics, WeaponDescriptorError>(m),
    ensures
        spec_in_grid(m),
        0 <= m.blade_x.low < m.blade_x.high <= m.dims[0],
        0 == m.blade_y.low < m.blade_y.high <= m.dims[1],
        0 <= m.blade_z.low < m.blade_z.high <= m.dims[2],
{
    lemma_valid_descriptor(d);
    assert(m == spec_metrics(d));
}

/// A band that holds every blade cell on `axis` and whose two ends are blade
/// cells is the blade's extent there.
proof fn lemma_band_is_extent(
    m: WeaponMetrics,
    axis: int,
    declared: Band,
    found: Band,
    lo: (int, int, int),
    hi: (int, int, int),
)
    requires
        spec_blade_extent(m, axis, found),
        forall|x: int, y: int, z: int|
            #[trigger] spec_blade_cell(m, x, y, z) ==> spec_in_band(declared, spec_axis(x, y, z, axis)),
        spec_blade_cell(m, lo.0, lo.1, lo.2),
        spec_axis(lo.0, lo.1, lo.2, axis) == declared.low,
        spec_blade_cell(m, hi.0, hi.1, hi.2),
        spec_axis(hi.0, hi.1, hi.2, axis) == declared.high - 1,
    ensures
        found == declared,
        spec_blade_extent(m, axis, declared),
{
    let (ax, ay, az) = choose|x: int, y: int, z: int|
        #[trigger] spec_blade_cell(m, x, y, z) && spec_axis(x, y, z, axis) == found.low;
    let (bx, by, bz) = choose|x: int, y: int, z: int|
        #[trigger] spec_blade_cell(m, x, y, z) && spec_axis(x, y, z, axis) + 1 == found.high;
    assert(spec_in_band(declared, spec_axis(ax, ay, az, axis)));
    assert(spec_in_band(declared, spec_axis(bx, by, bz, axis)));
    assert(spec_in_band(found, spec_axis(lo.0, lo.1, lo.2, axis)));
    assert(spec_in_band(found, spec_axis(hi.0, hi.1, hi.2, axis)));
}

/// What a scan has counted before a cell of the grid stays far below `u32`'s
/// limit.
proof fn lemma_scan_bound(m: WeaponMetrics, select: Option<WeaponMaterial>, x: int, y: int, z: int)
    requires
        spec_in_grid(m),
        0 <= x < m.dims[0],
        0 <= y < m.dims[1],
        0 <= z < m.dims[2],
    ensures
        spec_scanned_count(m, select, x, y, z) < 40000,
{
    lemma_layers_bound(m, select, z);
    lemma_layer_bound(m, select, z, y);
    lemma_row_bound(m, select, y, z, x);
    assert(z * 1024 + y * 32 + x < 40000) by (nonlinear_arith)
        requires
            0 <= z < 32,
            0 <= y < 32,
            0 <= x < 32,
    ;
}

impl WeaponPaint {
    /// Scans a validated weapon's grid in layer, row, column order: counts
    /// the solid cells and the cells of each material, and takes the extent
    /// of the blade cells on each axis.
    ///
    /// The grid always holds a blade, so the scan always succeeds; the extent
    /// it finds is the blade box the layout declares, and the counts by
    /// material add up to the solid count.
    pub fn of(weapon: &ValidatedWeapon) -> (result: Result<WeaponPaint, WeaponError>)
        ensures
            ({
                let m = weapon.spec_metrics();
                match result {
                    Ok(paint) => {
                        &&& paint.solid_voxels == spec_solid_voxels(m)
                        &&& forall|k: WeaponMaterial|
                            #[trigger] paint.material_counts[k.spec_slot()] == spec_material_voxels(m, k)
                        &&& spec_over_materials(|k: WeaponMaterial| paint.material_counts[k.spec_slot()] as nat)
                            == paint.solid_voxels
                        &&& paint.blade_x == m.blade_x
                        &&& paint.blade_y == m.blade_y
                        &&& paint.blade_z == m.blade_z
                        &&& spec_solid_voxels(m) > 0
                        &&& spec_blade_extent(m, 0, m.blade_x)
                        &&& spec_blade_extent(m, 1, m.blade_y)
                        &&& spec_blade_extent(m, 2, m.blade_z)
                    },
                    Err(_) => false,
                }
            }),
    {
        let metrics = weapon.metrics();
        let ghost m = *metrics;
        proof {
            lemma_blade_in_grid(weapon.spec_descriptor(), m);
        }
        let width = metrics.dims[0];
        let height = metrics.dims[1];
        let depth = metrics.dims[2];
        let mut solids: u32 = 0;
        let mut counts: [u32; WEAPON_MATERIAL_COUNT] = [0, 0, 0, 0, 0, 0];
        let mut y_low: i32 = i32::MAX;
        let mut y_high: i32 = i32::MIN;
        let mut x_low: i32 = i32::MAX;
        let mut x_high: i32 = i32::MIN;
        let mut z_low: i32 = i32::MAX;
        let mut z_high: i32 = i32::MIN;
        proof {
            lemma_extent_start(m, 0);
            lemma_extent_start(m, 1);
            lemma_extent_start(m, 2);
        }
        let mut z: i32 = 0;
        while z < depth
            invariant
                m == *metrics,
                spec_in_grid(m),
                width == m.dims[0],
                height == m.dims[1],
                depth == m.dims[2],
                0 <= z <= depth,
                solids == spec_scanned_count(m, None, 0, 0, z as int),
                forall|k: WeaponMaterial|
                    #[trigger] counts@[k.spec_slot()] == spec_scanned_count(m, Some(k), 0, 0, z as int),
                spec_extent_so_far(m, 0, x_low, x_high, 0, 0, z as int),
                spec_extent_so_far(m, 1, y_low, y_high, 0, 0, z as int),
                spec_extent_so_far(m, 2, z_low, z_high, 0, 0, z as int),
            decreases depth - z,
        {
            let mut y: i32 = 0;
            while y < height
                invariant
                    m == *metrics,
                    spec_in_grid(m),
                    width == m.dims[0],
                    height == m.dims[1],
                    depth == m.dims[2],
                    0 <= z < depth,
                    0 <= y <= height,
                    solids == spec_scanned_count(m, None, 0, y as int, z as int),
                    forall|k: WeaponMaterial|
                        #[trigger] counts@[k.spec_slot()] == spec_scanned_count(m, Some(k), 0, y as int, z as int),
                    spec_extent_so_far(m, 0, x_low, x_high, 0, y as int, z as int),
                    spec_extent_so_far(m, 1, y_low, y_high, 0, y as int, z as int),
                    spec_extent_so_far(m, 2, z_low, z_high, 0, y as int, z as int),
                decreases height - y,
            {
                let mut x: i32 = 0;
                while x < width
                    invariant
                        m == *metrics,
                        spec_in_grid(m),
                        width == m.dims[0],
                        height == m.dims[1],
                        depth == m.dims[2],
                        0 <= z < depth,
                        0 <= y < height,
                        0 <= x <= width,
                        solids == spec_scanned_count(m, None, x as int, y as int, z as int),
                        forall|k: WeaponMaterial|
                            #[trigger] counts@[k.spec_slot()] == spec_scanned_count(
                                m,
                                Some(k),
                                x as int,
                                y as int,
                                z as int,
                            ),
                        spec_extent_so_far(m, 0, x_low, x_high, x as int, y as int, z as int),
                        spec_extent_so_far(m, 1, y_low, y_high, x as int, y as int, z as int),
                        spec_extent_so_far(m, 2, z_low, z_high, x as int, y as int, z as int),
                    decreases width - x,
                {
                    let material = metrics.material_at([x, y, z]);
                    let ghost (x0, x1, y0, y1, z0, z1) = (x_low, x_high, y_low, y_high, z_low, z_high);
                    let ghost before = counts@;
                    match material {
                        Some(found) => {
                            let slot = found.index();
                            proof {
                                lemma_scan_bound(m, None, x as int, y as int, z as int);
                                lemma_scan_bound(m, Some(found), x as int, y as int, z as int);
                                assert(counts@[found.spec_slot()] == spec_scanned_count(
                                    m,
                                    Some(found),
                                    x as int,
                                    y as int,
                                    z as int,
                                ));
                            }
                            solids = solids + 1;
                            counts[slot] = counts[slot] + 1;
                            if found.is_blade() {
                                if y < y_low {
                                    y_low = y;
                                }
                                if y + 1 > y_high {
                                    y_high = y + 1;
                                }
                                if x < x_low {
                                    x_low = x;
                                }
                                if x + 1 > x_high {
                                    x_high = x + 1;
                                }
                                if z < z_low {
                                    z_low = z;
                                }
                                if z + 1 > z_high {
                                    z_high = z + 1;
                                }
                            }
                        },
                        None => {},
                    }
                    proof {
                        lemma_extent_step(m, 0, x0, x1, x as int, y as int, z as int, x_low, x_high);
                        lemma_extent_step(m, 1, y0, y1, x as int, y as int, z as int, y_low, y_high);
                        lemma_extent_step(m, 2, z0, z1, x as int, y as int, z as int, z_low, z_high);
                        assert forall|k: WeaponMaterial| #[trigger]
                            counts@[k.spec_slot()] == spec_scanned_count(
                                m,
                                Some(k),
                                x + 1,
                                y as int,
                                z as int,
                            ) by {
                            assert(before[k.spec_slot()] == spec_scanned_count(
                                m,
                                Some(k),
                                x as int,
                                y as int,
                                z as int,
                            ));
                        }
                    }
                    x = x + 1;
                }
                proof {
                    lemma_count_next_row(m, y as int, z as int);
                    assert forall|k: WeaponMaterial| #[trigger]
                        counts@[k.spec_slot()] == spec_scanned_count(m, Some(k), 0, y + 1, z as int) by {
                        assert(counts@[k.spec_slot()] == spec_scanned_count(
                            m,
                            Some(k),
                            m.dims[0] as int,
                            y as int,
                            z as int,
                        ));
                    }
                    lemma_extent_next_row(m, 0, x_low, x_high, y as int, z as int);
                    lemma_extent_next_row(m, 1, y_low, y_high, y as int, z as int);
                    lemma_extent_next_row(m, 2, z_low, z_high, y as int, z as int);
                }
                y = y + 1;
            }
            proof {
                lemma_count_next_layer(m, z as int);
                assert forall|k: WeaponMaterial| #[trigger]
                    counts@[k.spec_slot()] == spec_scanned_count(m, Some(k), 0, 0, z + 1) by {
                    assert(counts@[k.spec_slot()] == spec_scanned_count(m, Some(k), 0, m.dims[1] as int, z as int));
                }
                lemma_extent_next_layer(m, 0, x_low, x_high, z as int);
                lemma_extent_next_layer(m, 1, y_low, y_high, z as int);
                lemma_extent_next_layer(m, 2, z_low, z_high, z as int);
            }
            z = z + 1;
        }
        proof {
            let (bx, by, bz) = (m.blade_x.low as int, m.blade_y.low as int, m.blade_z.low as int);
            assert(spec_blade_cell(m, bx, by, bz));
            lemma_extent_done(m, 0, x_low, x_high, bx, by, bz);
            lemma_extent_done(m, 1, y_low, y_high, bx, by, bz);
            lemma_extent_done(m, 2, z_low, z_high, bx, by, bz);
            lemma_layers_positive(m, bx, by, bz, m.dims[2] as int);
            let lo = (bx, by, bz);
            let hi = (m.blade_x.high - 1, m.blade_y.high - 1, m.blade_z.high - 1);
            assert(spec_blade_cell(m, hi.0, hi.1, hi.2));
            assert forall|x: int, y: int, z: int| #[trigger] spec_blade_cell(m, x, y, z) implies spec_in_band(
                m.blade_x,
                x,
            ) && spec_in_band(m.blade_y, y) && spec_in_band(m.blade_z, z) by {}
            lemma_band_is_extent(m, 0, m.blade_x, Band { low: x_low, high: x_high }, lo, hi);
            lemma_band_is_extent(m, 1, m.blade_y, Band { low: y_low, high: y_high }, lo, hi);
            lemma_band_is_extent(m, 2, m.blade_z, Band { low: z_low, high: z_high }, lo, hi);
            assert forall|k: WeaponMaterial| #[trigger] counts@[k.spec_slot()] == spec_material_voxels(m, k) by {
                assert(counts@[k.spec_slot()] == spec_scanned_count(m, Some(k), 0, 0, m.dims[2] as int));
            }
            lemma_material_counts_add_up(m);
            assert(counts@[WeaponMaterial::BladeEdge.spec_slot()] == spec_material_voxels(m, WeaponMaterial::BladeEdge));
            assert(counts@[WeaponMaterial::BladeBody.spec_slot()] == spec_material_voxels(m, WeaponMaterial::BladeBody));
            assert(counts@[WeaponMaterial::BladeShade.spec_slot()] == spec_material_voxels(m, WeaponMaterial::BladeShade));
            assert(counts@[WeaponMaterial::Guard.spec_slot()] == spec_material_voxels(m, WeaponMaterial::Guard));
            assert(counts@[WeaponMaterial::Grip.spec_slot()] == spec_material_voxels(m, WeaponMaterial::Grip));
            assert(counts@[WeaponMaterial::Pommel.spec_slot()] == spec_material_voxels(m, WeaponMaterial::Pommel));
        }
        if solids == 0 {
            return Err(WeaponError::Empty);
        }
        if y_low > y_high {
            return Err(WeaponError::NoBlade);
        }
        Ok(
            WeaponPaint {
                solid_voxels: solids,
                material_counts: counts,
                blade_x: Band::new(x_low, x_high),
                blade_y: Band::new(y_low, y_high),
                blade_z: Band::new(z_low, z_high),
            },
        )
    }
}

} // verus!
