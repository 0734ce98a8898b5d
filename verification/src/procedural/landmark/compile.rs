//! The Monolith compiler: a descriptor becomes voxels and an occupancy column
//! table, once.
//!
//! Everything downstream reads this one artefact: the chunk generator copies
//! its voxels and the traversal veto reads its columns. There is deliberately
//! no second description of a landmark anywhere.

use vstd::arithmetic::div_mod::{
    lemma_div_is_ordered, lemma_div_multiples_vanish, lemma_div_pos_is_pos,
    lemma_fundamental_div_mod_converse,
};
use vstd::arithmetic::mul::lemma_mul_inequality;
use vstd::bytes::*;
use vstd::prelude::*;

use crate::bytes::push_u32;
use crate::hash::{fnv1a64, spec_fnv1a64};
use crate::procedural::landmark::descriptor::{
    draw, lemma_seeded_descriptors_validate, spec_draw, spec_from_seed, spec_short_shaft_height,
    spec_span_width, spec_validate, MonolithDescriptor,
    SilhouetteClass, SpanAxis, RUBBLE_APRON,
};
use crate::procedural::landmark::masses::{masses_of, spec_masses, GroundedMass};
use crate::procedural::landmark::material::LandmarkMaterial;
use crate::tags::{spec_tag_landmark_geometry, tag_landmark_geometry};

verus! {

/// Courses of crown that take the dark band material.
pub const CROWN_COURSES: i64 = 2;
/// Chance in a hundred that an outer crown voxel has weathered away.
pub const EROSION_PERCENT: u8 = 18;
/// Chance in a hundred at a broken shaft's torn top.
pub const BREAK_EROSION_PERCENT: u8 = 34;
/// Draws a broken frame spends, at most, scattering its rubble.
pub const RUBBLE_ATTEMPTS: u64 = 64;

/// What the compiler accepts: a descriptor inside the style bands whose grid
/// has no more cells than any `usize` can count. Validation bounds every
/// field but a frame's lean, which only widens the grid.
pub open spec fn spec_compilable(d: MonolithDescriptor) -> bool {
    &&& spec_validate(d) is Ok
    &&& spec_grid_fits(d)
}

/// Whether a descriptor's grid has no more than `MAX_GRID_CELLS` cells.
#[verifier::opaque]
pub open spec fn spec_grid_fits(d: MonolithDescriptor) -> bool {
    spec_grid(d).0 * spec_grid(d).1 * spec_grid(d).2 <= MAX_GRID_CELLS
}

pub open spec fn spec_abs(value: int) -> int {
    if value < 0 {
        -value
    } else {
        value
    }
}

/// Local grid size `(x, y, z)`: the span grows by the lean's one column.
pub open spec fn spec_grid(d: MonolithDescriptor) -> (int, int, int) {
    let span_cells = spec_span_width(d) + spec_abs(d.lean as int);
    match d.axis {
        SpanAxis::X => (span_cells, d.height as int, d.depth as int),
        SpanAxis::Z => (d.depth as int, d.height as int, span_cells),
    }
}

/// Span and depth coordinates `(u, v)` of a world-aligned column `(x, z)`.
pub open spec fn spec_span_coord(d: MonolithDescriptor, x: int, z: int) -> (int, int) {
    match d.axis {
        SpanAxis::X => (x, z),
        SpanAxis::Z => (z, x),
    }
}

/// The material of a course, before erosion: the plinth at the bottom, the
/// crown courses and every `band_period`-th course in the band material.
pub open spec fn spec_course_material(d: MonolithDescriptor, y: int, top: int) -> LandmarkMaterial {
    if y == 0 {
        LandmarkMaterial::Cap
    } else if y >= top - CROWN_COURSES || y % (d.band_period as int) == 0 {
        LandmarkMaterial::Band
    } else {
        LandmarkMaterial::Stone
    }
}

/// Half the base width of a spire, its centre line across the span.
pub open spec fn spec_spire_half(d: MonolithDescriptor) -> int {
    (d.shaft_width - 1) / 2
}

/// The course at which a spire's taper ends in its point.
pub open spec fn spec_taper_end(d: MonolithDescriptor) -> int {
    let point_courses = 3 + (spec_draw(d.seed, 10) % 3) as int;
    let end = d.height - point_courses;
    if end < 1 {
        1
    } else {
        end
    }
}

/// Half width of a spire course: shrinking linearly to the point.
pub open spec fn spec_spire_width(d: MonolithDescriptor, y: int) -> int {
    let half = spec_spire_half(d);
    let end = spec_taper_end(d);
    if y >= end {
        0
    } else {
        half - (y * half) / end
    }
}

/// Span coordinate of a spire course's centre: shifted by the lean from half
/// height up.
pub open spec fn spec_spire_centre(d: MonolithDescriptor, y: int) -> int {
    let base = if d.lean < 0 {
        1int
    } else {
        0int
    };
    let lean = if y * 2 >= d.height {
        d.lean as int
    } else {
        0int
    };
    base + spec_spire_half(d) + lean
}

/// Whether a cell lies in the square course of a spire.
pub open spec fn spec_in_spire(d: MonolithDescriptor, u: int, y: int, v: int) -> bool {
    let width = spec_spire_width(d, y);
    &&& 0 <= y < d.height
    &&& spec_abs(u - spec_spire_centre(d, y)) <= width
    &&& spec_abs(v - spec_spire_half(d)) <= width
}

/// First span column of a frame's second shaft.
pub open spec fn spec_second_shaft(d: MonolithDescriptor) -> int {
    d.shaft_width + d.opening
}

pub open spec fn spec_in_first_shaft(d: MonolithDescriptor, u: int, y: int, v: int) -> bool {
    0 <= u < d.shaft_width && 0 <= y < d.height && 0 <= v < d.depth
}

pub open spec fn spec_in_second_shaft(d: MonolithDescriptor, u: int, y: int, v: int) -> bool {
    let first = spec_second_shaft(d);
    first <= u < first + d.shaft_width && 0 <= y < spec_short_shaft_height(d) && 0 <= v < d.depth
}

/// Whether a cell lies in a gate's lintel.
pub open spec fn spec_in_lintel(d: MonolithDescriptor, u: int, y: int, v: int) -> bool {
    let clearance = d.height - d.lintel_thickness - d.rise;
    &&& d.class == SilhouetteClass::Gate
    &&& clearance <= y < clearance + d.lintel_thickness
    &&& 0 <= u < spec_span_width(d)
    &&& 0 <= v < d.depth
}

/// The material the shapes give a cell, before rubble and erosion: the lintel
/// over the shafts, each shaft in its own courses.
pub open spec fn spec_shape_material(d: MonolithDescriptor, u: int, y: int, v: int) -> Option<
    LandmarkMaterial,
> {
    if d.class == SilhouetteClass::Spire {
        if spec_in_spire(d, u, y, v) {
            Some(spec_course_material(d, y, d.height as int))
        } else {
            None
        }
    } else if spec_in_lintel(d, u, y, v) {
        Some(LandmarkMaterial::Band)
    } else if spec_in_first_shaft(d, u, y, v) {
        Some(spec_course_material(d, y, d.height as int))
    } else if spec_in_second_shaft(d, u, y, v) {
        Some(spec_course_material(d, y, spec_short_shaft_height(d)))
    } else {
        None
    }
}

/// How likely, in a hundred, a cell is to weather away: the outer crown of a
/// spire and the crown courses of each shaft; a torn shaft more than a whole
/// one.
pub open spec fn spec_shape_mark(d: MonolithDescriptor, u: int, y: int, v: int) -> u8 {
    if d.class == SilhouetteClass::Spire {
        let width = spec_spire_width(d, y);
        let outer = spec_abs(u - spec_spire_centre(d, y)) == width || spec_abs(
            v - spec_spire_half(d),
        ) == width;
        if spec_in_spire(d, u, y, v) && outer && width > 0 && y * 3 >= d.height * 2 {
            EROSION_PERCENT
        } else {
            0
        }
    } else if spec_in_first_shaft(d, u, y, v) && y >= d.height - CROWN_COURSES && y > 0 {
        EROSION_PERCENT
    } else if spec_in_second_shaft(d, u, y, v) && y >= spec_short_shaft_height(d) - CROWN_COURSES
        && y > 0 {
        if d.class == SilhouetteClass::Broken {
            BREAK_EROSION_PERCENT
        } else {
            EROSION_PERCENT
        }
    } else {
        0
    }
}

/// Where a rubble draw lands: `(u, v, tall)`, in the opening or in the apron
/// beyond the stump, one or two blocks high.
pub open spec fn spec_rubble_draw(d: MonolithDescriptor, attempt: int) -> (int, int, int) {
    let hash = spec_draw(d.seed, (400 + attempt) as u64);
    let zone = d.shaft_width + (hash % ((d.opening + RUBBLE_APRON) as u64)) as int;
    let u = if zone < d.shaft_width + d.opening {
        zone
    } else {
        zone + d.shaft_width
    };
    let v = ((hash >> 16u64) % (d.depth as u64)) as int;
    let tall = if (hash >> 32u64) % 2 == 0 {
        1int
    } else {
        0int
    };
    (u, v, tall)
}

/// The rubble a broken frame has scattered after some draws: how many blocks
/// stand, and the top course of each occupied column. A draw that lands on a
/// column already holding something at the ground is spent for nothing.
pub open spec fn spec_rubble(d: MonolithDescriptor, attempts: nat) -> (int, Map<(int, int), int>)
    decreases attempts,
{
    if attempts == 0 {
        (0, Map::empty())
    } else {
        let (placed, tops) = spec_rubble(d, (attempts - 1) as nat);
        let (u, v, tall) = spec_rubble_draw(d, attempts - 1);
        if placed >= d.rubble || u >= spec_span_width(d) || spec_shape_material(d, u, 0, v) is Some
            || tops.contains_key((u, v)) {
            (placed, tops)
        } else {
            (placed + 1, tops.insert((u, v), tall))
        }
    }
}

/// A cell as the builder left it, before erosion.
pub open spec fn spec_built(d: MonolithDescriptor, x: int, y: int, z: int) -> Option<
    LandmarkMaterial,
> {
    let (u, v) = spec_span_coord(d, x, z);
    let tops = spec_rubble(d, RUBBLE_ATTEMPTS as nat).1;
    if d.class == SilhouetteClass::Broken && tops.contains_key((u, v)) && 0 <= y <= tops[(u, v)] {
        Some(LandmarkMaterial::Stone)
    } else {
        spec_shape_material(d, u, y, v)
    }
}

/// How likely a built cell is to weather away.
pub open spec fn spec_mark(d: MonolithDescriptor, x: int, y: int, z: int) -> u8 {
    let (u, v) = spec_span_coord(d, x, z);
    spec_shape_mark(d, u, y, v)
}

/// Mixes three small integers into one draw index.
pub open spec fn spec_mix(a: int, b: int, c: int) -> int {
    (a * 73 + b * 179 + c * 283) % 4096
}

/// A compiled cell. A marked stone above the base course weathers away when
/// its draw falls under its chance, but only once nothing rests on it: the
/// crown erodes from the top down, so no voxel is ever left hanging.
#[verifier::opaque]
pub open spec fn spec_cell(d: MonolithDescriptor, x: int, y: int, z: int) -> Option<
    LandmarkMaterial,
>
    decreases spec_grid(d).1 - y,
{
    let built = spec_built(d, x, y, z);
    let mark = spec_mark(d, x, y, z);
    let bare_above = if y + 1 < spec_grid(d).1 {
        spec_cell(d, x, y + 1, z) is None
    } else {
        true
    };
    if 1 <= y && built is Some && mark > 0 && bare_above && spec_draw(
        d.seed,
        (500 + spec_mix(y, x, z)) as u64,
    ) % 100 < mark as u64 {
        None
    } else {
        built
    }
}

/// The compiled cells in storage order: `x` fastest, then `z`, then `y`.
pub open spec fn spec_cells(d: MonolithDescriptor) -> Seq<Option<LandmarkMaterial>> {
    let (sx, sy, sz) = spec_grid(d);
    Seq::new((sx * sy * sz) as nat, |i: int| spec_cell(d, i % sx, i / sx / sz, (i / sx) % sz))
}

/// What a column record says of a column: nothing for an empty column, else
/// its lowest and highest filled course.
pub open spec fn spec_column_ok(d: MonolithDescriptor, x: int, z: int, column: Option<(i32, i32)>) -> bool {
    let sy = spec_grid(d).1;
    match column {
        None => forall|y: int| 0 <= y < sy ==> #[trigger] spec_cell(d, x, y, z) is None,
        Some((low, high)) => {
            &&& 0 <= low <= high < sy
            &&& spec_cell(d, x, low as int, z) is Some
            &&& spec_cell(d, x, high as int, z) is Some
            &&& forall|y: int| 0 <= y < low ==> #[trigger] spec_cell(d, x, y, z) is None
            &&& forall|y: int| high < y < sy ==> #[trigger] spec_cell(d, x, y, z) is None
        },
    }
}

/// The byte a cell contributes to the geometry fingerprint.
pub open spec fn spec_material_code(cell: Option<LandmarkMaterial>) -> u8 {
    match cell {
        None => 0,
        Some(LandmarkMaterial::Stone) => 1,
        Some(LandmarkMaterial::Band) => 2,
        Some(LandmarkMaterial::Cap) => 3,
    }
}

/// Identity of the compiled geometry: the grid size and every cell.
pub open spec fn spec_geometry_fingerprint(d: MonolithDescriptor) -> u64 {
    let (sx, sy, sz) = spec_grid(d);
    spec_fnv1a64(
        spec_tag_landmark_geometry() + spec_u32_to_le_bytes(sx as u32) + spec_u32_to_le_bytes(
            sy as u32,
        ) + spec_u32_to_le_bytes(sz as u32) + spec_cells(d).map_values(
            |cell: Option<LandmarkMaterial>| spec_material_code(cell),
        ),
    )
}


/// Erosion never undercuts: a voxel the builder laid under a voxel that is
/// still standing is still standing too, so weathering can never leave a stone
/// hanging over a hole it made.
pub proof fn lemma_erosion_never_undercuts(d: MonolithDescriptor, x: int, y: int, z: int)
    requires
        spec_compilable(d),
        1 <= y < spec_grid(d).1,
        spec_cell(d, x, y, z) is Some,
        spec_built(d, x, y - 1, z) is Some,
    ensures
        spec_cell(d, x, y - 1, z) is Some,
{
    reveal(spec_cell);
}

/// Erosion only ever removes: a compiled voxel was laid by the builder, with
/// the same material.
pub proof fn lemma_erosion_only_removes(d: MonolithDescriptor, x: int, y: int, z: int)
    requires
        spec_cell(d, x, y, z) is Some,
    ensures
        spec_cell(d, x, y, z) == spec_built(d, x, y, z),
{
    reveal(spec_cell);
}

/// Strata: every `band_period`-th course above the plinth is a band course,
/// so any shape cell the builder lays in such a course is band material,
/// whatever the class and however far below the crown it stands.
pub proof fn lemma_strata_are_banded(d: MonolithDescriptor, u: int, y: int, v: int)
    requires
        spec_compilable(d),
        0 < y,
        y % (d.band_period as int) == 0,
        spec_shape_material(d, u, y, v) is Some,
    ensures
        spec_shape_material(d, u, y, v) == Some(LandmarkMaterial::Band),
{
    lemma_compilable_ranges(d);
}

/// Plinth and crown: a shape cell on the ground course is cap material, and
/// the top `CROWN_COURSES` courses of a spire or of a frame's full shaft are
/// band material.
pub proof fn lemma_plinth_and_crown(d: MonolithDescriptor, u: int, y: int, v: int)
    requires
        spec_compilable(d),
        spec_shape_material(d, u, y, v) is Some,
    ensures
        y == 0 ==> spec_shape_material(d, u, y, v) == Some(LandmarkMaterial::Cap),
        0 < y && y >= d.height - CROWN_COURSES && (d.class == SilhouetteClass::Spire
            || spec_in_first_shaft(d, u, y, v)) ==> spec_shape_material(d, u, y, v) == Some(
            LandmarkMaterial::Band,
        ),
{
    lemma_compilable_ranges(d);
}

/// The strata survive compilation: a compiled voxel of a spire or a gate in
/// a course above the plinth that is a multiple of the band period is band
/// material. (A broken frame's rubble is plain stone wherever it falls.)
pub proof fn lemma_compiled_strata_are_banded(d: MonolithDescriptor, x: int, y: int, z: int)
    requires
        spec_compilable(d),
        d.class != SilhouetteClass::Broken,
        0 < y,
        y % (d.band_period as int) == 0,
        spec_material_at(d, x, y, z) is Some,
    ensures
        spec_material_at(d, x, y, z) == Some(LandmarkMaterial::Band),
{
    lemma_erosion_only_removes(d, x, y, z);
    let (u, v) = spec_span_coord(d, x, z);
    assert(spec_built(d, x, y, z) == spec_shape_material(d, u, y, v));
    lemma_strata_are_banded(d, u, y, v);
}


/// The compiled cells before erosion: the shapes, and for a broken frame its
/// scattered rubble.
pub open spec fn spec_built_cells(d: MonolithDescriptor) -> Seq<Option<LandmarkMaterial>> {
    let (sx, sy, sz) = spec_grid(d);
    Seq::new((sx * sy * sz) as nat, |i: int| spec_built(d, i % sx, i / sx / sz, (i / sx) % sz))
}

/// Every cell's erosion chance, in storage order.
pub open spec fn spec_marks(d: MonolithDescriptor) -> Seq<u8> {
    let (sx, sy, sz) = spec_grid(d);
    Seq::new((sx * sy * sz) as nat, |i: int| spec_mark(d, i % sx, i / sx / sz, (i / sx) % sz))
}

/// A cell as the shapes leave it, with the rubble scattered so far.
pub open spec fn spec_with_rubble(
    d: MonolithDescriptor,
    tops: Map<(int, int), int>,
    x: int,
    y: int,
    z: int,
) -> Option<LandmarkMaterial> {
    let (u, v) = spec_span_coord(d, x, z);
    if tops.contains_key((u, v)) && 0 <= y <= tops[(u, v)] {
        Some(LandmarkMaterial::Stone)
    } else {
        spec_shape_material(d, u, y, v)
    }
}

/// Most cells a compilable descriptor's grid holds: half of what a `usize`
/// counts on every target, so an index one layer past any cell still fits.
pub const MAX_GRID_CELLS: usize = 2_147_483_647;

/// Every seeded descriptor is one the compiler accepts.
pub proof fn lemma_seeded_compilable(class: SilhouetteClass, axis: SpanAxis, seed: u64)
    ensures
        spec_compilable(spec_from_seed(class, axis, seed)),
{
    let d = spec_from_seed(class, axis, seed);
    lemma_seeded_descriptors_validate(class, axis, seed);
    reveal(spec_grid_fits);
    let (sx, sy, sz) = spec_grid(d);
    assert(sx * sy * sz <= MAX_GRID_CELLS) by (nonlinear_arith)
        requires
            1 <= sx <= 22,
            1 <= sy <= 34,
            1 <= sz <= 22,
    ;
}

/// The ranges a compilable descriptor's fields lie in.
pub proof fn lemma_compilable_ranges(d: MonolithDescriptor)
    requires
        spec_compilable(d),
    ensures
        22 <= d.height <= 34,
        3 <= d.depth <= 7,
        3 <= d.shaft_width <= 7,
        3 <= d.band_period <= 4,
        d.class != SilhouetteClass::Spire ==> 5 <= d.opening <= 9,
        d.class == SilhouetteClass::Gate ==> 2 <= d.lintel_thickness <= 3 && 1 <= d.rise <= 3,
        d.class == SilhouetteClass::Broken ==> 35 <= d.broken_percent <= 60 && 3 <= d.rubble <= 8,
        d.class == SilhouetteClass::Spire ==> d.shaft_width == 5 || d.shaft_width == 7,
        3 <= spec_span_width(d) <= 21,
        1 <= spec_short_shaft_height(d) <= 34,
        ({
            let (sx, sy, sz) = spec_grid(d);
            &&& 1 <= sx <= 32_537_631
            &&& 1 <= sz <= 32_537_631
            &&& sy == d.height
            &&& sx * sz <= 97_612_893
            &&& sx * sy <= 715_827_882
            &&& sx * sy * sz <= MAX_GRID_CELLS
        }),
{
    if d.class == SilhouetteClass::Broken {
        assert(d.height * d.broken_percent / 100 <= 34) by (nonlinear_arith)
            requires
                22 <= d.height <= 34,
                35 <= d.broken_percent <= 60,
        ;
    }
    reveal(spec_grid_fits);
    let (sx, sy, sz) = spec_grid(d);
    assert(3 <= sx && 3 <= sz);
    assert(sx * 66 <= sx * sy * sz && sz * 66 <= sx * sy * sz && sx * sz * 22 <= sx * sy * sz && sx * sy * 3
        <= sx * sy * sz) by (nonlinear_arith)
        requires
            3 <= sx,
            3 <= sz,
            22 <= sy,
    ;
}

/// Local grid size of a compilable descriptor.
fn grid_size(d: &MonolithDescriptor) -> (size: (usize, usize, usize))
    requires
        spec_compilable(*d),
    ensures
        size.0 as int == spec_grid(*d).0,
        size.1 as int == spec_grid(*d).1,
        size.2 as int == spec_grid(*d).2,
{
    proof {
        lemma_compilable_ranges(*d);
    }
    let span = match d.class {
        SilhouetteClass::Spire => d.shaft_width,
        SilhouetteClass::Gate => 2 * d.shaft_width + d.opening,
        SilhouetteClass::Broken => 2 * d.shaft_width + d.opening + RUBBLE_APRON,
    };
    let lean = if d.lean < 0 {
        -d.lean
    } else {
        d.lean
    };
    let span_cells = span + lean;
    let height = d.height as usize;
    match d.axis {
        SpanAxis::X => (span_cells as usize, height, d.depth as usize),
        SpanAxis::Z => (d.depth as usize, height, span_cells as usize),
    }
}

/// The material of a course, before erosion.
fn course_material(d: &MonolithDescriptor, y: i64, top: i64) -> (material: LandmarkMaterial)
    requires
        spec_compilable(*d),
        0 <= y <= 1000,
        -1000 <= top <= 1000,
    ensures
        material == spec_course_material(*d, y as int, top as int),
        y == 0 ==> material == LandmarkMaterial::Cap,
        y > 0 && y % d.band_period == 0 ==> material == LandmarkMaterial::Band,
        y > 0 && y >= top - CROWN_COURSES ==> material == LandmarkMaterial::Band,
{
    proof {
        lemma_compilable_ranges(*d);
    }
    if y == 0 {
        LandmarkMaterial::Cap
    } else if y >= top - CROWN_COURSES || y % d.band_period == 0 {
        LandmarkMaterial::Band
    } else {
        LandmarkMaterial::Stone
    }
}

/// The course at which a spire's taper ends.
fn taper_end(d: &MonolithDescriptor) -> (end: i64)
    requires
        spec_compilable(*d),
    ensures
        end == spec_taper_end(*d),
        1 <= end <= 34,
{
    proof {
        lemma_compilable_ranges(*d);
    }
    let point_courses = 3 + (draw(d.seed, 10) % 3) as i64;
    let end = d.height - point_courses;
    if end < 1 {
        1
    } else {
        end
    }
}

fn abs_i64(value: i64) -> (magnitude: i64)
    requires
        value > i64::MIN,
    ensures
        magnitude == spec_abs(value as int),
{
    if value < 0 {
        -value
    } else {
        value
    }
}

/// The material and erosion chance the shapes give one cell.
fn shape_at(d: &MonolithDescriptor, end: i64, u: i64, y: i64, v: i64) -> (cell: (
    Option<LandmarkMaterial>,
    u8,
))
    requires
        spec_compilable(*d),
        end == spec_taper_end(*d),
        0 <= u <= 100_000_000,
        0 <= y <= 1000,
        0 <= v <= 100_000_000,
    ensures
        cell.0 == spec_shape_material(*d, u as int, y as int, v as int),
        cell.1 == spec_shape_mark(*d, u as int, y as int, v as int),
{
    proof {
        lemma_compilable_ranges(*d);
    }
    let height = d.height;
    if d.class == SilhouetteClass::Spire {
        let half = (d.shaft_width - 1) / 2;
        let width = if y >= end {
            0
        } else {
            proof {
                assert(0 <= y * half <= 3000) by (nonlinear_arith)
                    requires
                        0 <= y <= 1000,
                        0 <= half <= 3,
                ;
            }
            half - (y * half) / end
        };
        let lean = if y * 2 >= height {
            d.lean
        } else {
            0
        };
        let base = if d.lean < 0 {
            1
        } else {
            0
        };
        let centre = base + half + lean;
        let du = abs_i64(u - centre);
        let dv = abs_i64(v - half);
        let inside = y < height && du <= width && dv <= width;
        if !inside {
            return (None, 0);
        }
        let material = course_material(d, y, height);
        let outer = du == width || dv == width;
        let mark = if outer && width > 0 && y * 3 >= height * 2 {
            EROSION_PERCENT
        } else {
            0
        };
        return (Some(material), mark);
    }
    let shaft = d.shaft_width;
    let depth = d.depth;
    let short = if d.class == SilhouetteClass::Gate {
        height - d.rise
    } else {
        proof {
            assert(0 <= height * d.broken_percent <= 2040) by (nonlinear_arith)
                requires
                    22 <= height <= 34,
                    35 <= d.broken_percent <= 60,
            ;
        }
        let stump = height * d.broken_percent / 100;
        if stump < 1 {
            1
        } else {
            stump
        }
    };
    let span = if d.class == SilhouetteClass::Gate {
        2 * shaft + d.opening
    } else {
        2 * shaft + d.opening + RUBBLE_APRON
    };
    let second = shaft + d.opening;
    let in_first = u < shaft && y < height && v < depth;
    let in_second = second <= u && u < second + shaft && y < short && v < depth;
    let in_lintel = if d.class == SilhouetteClass::Gate {
        let clearance = height - d.lintel_thickness - d.rise;
        clearance <= y && y < clearance + d.lintel_thickness && u < span && v < depth
    } else {
        false
    };
    let material = if in_lintel {
        Some(LandmarkMaterial::Band)
    } else if in_first {
        Some(course_material(d, y, height))
    } else if in_second {
        Some(course_material(d, y, short))
    } else {
        None
    };
    let mark = if in_first && y >= height - CROWN_COURSES && y > 0 {
        EROSION_PERCENT
    } else if in_second && y >= short - CROWN_COURSES && y > 0 {
        if d.class == SilhouetteClass::Broken {
            BREAK_EROSION_PERCENT
        } else {
            EROSION_PERCENT
        }
    } else {
        0
    };
    (material, mark)
}

/// Maps span/depth coordinates onto world-aligned local axes.
fn place(d: &MonolithDescriptor, u: i64, v: i64) -> (column: (i64, i64))
    ensures
        spec_span_coord(*d, column.0 as int, column.1 as int) == (u as int, v as int),
        column == (match d.axis {
            SpanAxis::X => (u, v),
            SpanAxis::Z => (v, u),
        }),
{
    match d.axis {
        SpanAxis::X => (u, v),
        SpanAxis::Z => (v, u),
    }
}

/// Lays every shape cell out in storage order, with its erosion chance.
fn shape_cells(d: &MonolithDescriptor, sx: usize, sy: usize, sz: usize) -> (cells: (
    Vec<Option<LandmarkMaterial>>,
    Vec<u8>,
))
    requires
        spec_compilable(*d),
        sx as int == spec_grid(*d).0,
        sy as int == spec_grid(*d).1,
        sz as int == spec_grid(*d).2,
    ensures
        cells.0@.len() == sx * sy * sz,
        cells.1@ == spec_marks(*d),
        forall|i: int|
            0 <= i < sx * sy * sz ==> #[trigger] cells.0@[i] == spec_with_rubble(
                *d,
                Map::empty(),
                i % (sx as int),
                i / (sx as int) / (sz as int),
                (i / (sx as int)) % (sz as int),
            ),
{
    proof {
        lemma_compilable_ranges(*d);
    }
    let end = taper_end(d);
    let n = sx * sy * sz;
    let mut voxels: Vec<Option<LandmarkMaterial>> = Vec::with_capacity(n);
    let mut marks: Vec<u8> = Vec::with_capacity(n);
    let mut i: usize = 0;
    while i < n
        invariant
            spec_compilable(*d),
            end == spec_taper_end(*d),
            sx as int == spec_grid(*d).0,
            sy as int == spec_grid(*d).1,
            sz as int == spec_grid(*d).2,
            n == sx * sy * sz,
            n <= MAX_GRID_CELLS,
            sx >= 1,
            sz >= 1,
            sx <= 32_537_631,
            sz <= 32_537_631,
            sy <= 34,
            i <= n,
            voxels@.len() == i,
            marks@.len() == i,
            forall|j: int|
                0 <= j < i ==> #[trigger] voxels@[j] == spec_with_rubble(
                    *d,
                    Map::empty(),
                    j % (sx as int),
                    j / (sx as int) / (sz as int),
                    (j / (sx as int)) % (sz as int),
                ),
            forall|j: int| 0 <= j < i ==> #[trigger] marks@[j] == spec_marks(*d)[j],
        decreases n - i,
    {
        let x = i % sx;
        let t = i / sx;
        let z = t % sz;
        let y = t / sz;
        proof {
            lemma_decode(i as int, sx as int, sz as int);
            assert(y < sy) by (nonlinear_arith)
                requires
                    i < n,
                    n == sx * sy * sz,
                    i == (y * sz + z) * sx + x,
                    0 <= x < sx,
                    0 <= z < sz,
                    y >= 0,
            ;
        }
        let (u, v) = match d.axis {
            SpanAxis::X => (x as i64, z as i64),
            SpanAxis::Z => (z as i64, x as i64),
        };
        let (material, mark) = shape_at(d, end, u, y as i64, v);
        voxels.push(material);
        marks.push(mark);
        i = i + 1;
    }
    proof {
        assert(marks@ =~= spec_marks(*d));
    }
    (voxels, marks)
}


/// Once enough blocks stand, further draws change nothing.
proof fn lemma_rubble_settled(d: MonolithDescriptor, done: nat, later: nat)
    requires
        done <= later,
        spec_rubble(d, done).0 >= d.rubble,
    ensures
        spec_rubble(d, later) == spec_rubble(d, done),
    decreases later - done,
{
    if later > done {
        lemma_rubble_settled(d, done, (later - 1) as nat);
    }
}

/// Scatters a broken frame's fallen blocks over the opening and the apron
/// beyond the stump.
fn scatter_rubble(
    d: &MonolithDescriptor,
    sx: usize,
    sy: usize,
    sz: usize,
    voxels: &mut Vec<Option<LandmarkMaterial>>,
)
    requires
        spec_compilable(*d),
        d.class == SilhouetteClass::Broken,
        sx as int == spec_grid(*d).0,
        sy as int == spec_grid(*d).1,
        sz as int == spec_grid(*d).2,
        old(voxels)@.len() == sx * sy * sz,
        forall|i: int|
            0 <= i < sx * sy * sz ==> #[trigger] old(voxels)@[i] == spec_with_rubble(
                *d,
                Map::empty(),
                i % (sx as int),
                i / (sx as int) / (sz as int),
                (i / (sx as int)) % (sz as int),
            ),
    ensures
        final(voxels)@.len() == sx * sy * sz,
        forall|i: int|
            0 <= i < sx * sy * sz ==> #[trigger] final(voxels)@[i] == spec_with_rubble(
                *d,
                spec_rubble(*d, RUBBLE_ATTEMPTS as nat).1,
                i % (sx as int),
                i / (sx as int) / (sz as int),
                (i / (sx as int)) % (sz as int),
            ),
{
    proof {
        lemma_compilable_ranges(*d);
    }
    let ghost n = sx * sy * sz;
    let shaft = d.shaft_width;
    let opening = d.opening;
    let span = 2 * shaft + opening + RUBBLE_APRON;
    let layer = sx * sz;
    let mut placed: i64 = 0;
    let mut attempt: u64 = 0;
    let ghost mut tops: Map<(int, int), int> = Map::empty();
    while placed < d.rubble && attempt < RUBBLE_ATTEMPTS
        invariant
            spec_compilable(*d),
            d.class == SilhouetteClass::Broken,
            sx as int == spec_grid(*d).0,
            sy as int == spec_grid(*d).1,
            sz as int == spec_grid(*d).2,
            n == sx * sy * sz,
            layer == sx * sz,
            shaft == d.shaft_width,
            opening == d.opening,
            span == spec_span_width(*d),
            attempt <= RUBBLE_ATTEMPTS,
            0 <= placed <= d.rubble,
            spec_rubble(*d, attempt as nat) == (placed as int, tops),
            forall|k: (int, int)| tops.contains_key(k) ==> 0 <= #[trigger] tops[k] <= 1,
            voxels@.len() == n,
            forall|i: int|
                0 <= i < n ==> #[trigger] voxels@[i] == spec_with_rubble(
                    *d,
                    tops,
                    i % (sx as int),
                    i / (sx as int) / (sz as int),
                    (i / (sx as int)) % (sz as int),
                ),
        decreases RUBBLE_ATTEMPTS - attempt,
    {
        proof {
            lemma_compilable_ranges(*d);
        }
        let hash = draw(d.seed, 400 + attempt);
        let ghost drawn = attempt as int;
        attempt = attempt + 1;
        let zone = shaft + (hash % ((opening + RUBBLE_APRON) as u64)) as i64;
        let u = if zone < shaft + opening {
            zone
        } else {
            zone + shaft
        };
        if u >= span {
            continue;
        }
        let v = ((hash >> 16u64) % (d.depth as u64)) as i64;
        let (x, z) = place(d, u, v);
        let (xi, zi) = (x as usize, z as usize);
        proof {
            lemma_encode(xi as int, 0, zi as int, sx as int, sz as int);
            lemma_encode(xi as int, 1, zi as int, sx as int, sz as int);
            assert(spec_index(sx as int, sz as int, xi as int, 1, zi as int) < n) by (
            nonlinear_arith)
                requires
                    0 <= xi < sx,
                    0 <= zi < sz,
                    sy >= 2,
                    n == sx * sy * sz,
            ;
            assert(spec_index(sx as int, sz as int, xi as int, 1, zi as int) == zi * sx + xi
                + layer) by (nonlinear_arith)
                requires
                    layer == sx * sz,
            ;
        }
        let ground = zi * sx + xi;
        if voxels[ground].is_some() {
            continue;
        }
        let tall: i64 = if (hash >> 32u64) % 2 == 0 {
            1
        } else {
            0
        };
        let ghost old_tops = tops;
        let ghost before = voxels@;
        voxels.set(ground, Some(LandmarkMaterial::Stone));
        if tall == 1 {
            voxels.set(ground + layer, Some(LandmarkMaterial::Stone));
        }
        proof {
            tops = tops.insert((u as int, v as int), tall as int);
            assert forall|i: int| 0 <= i < n implies #[trigger] voxels@[i] == spec_with_rubble(
                *d,
                tops,
                i % (sx as int),
                i / (sx as int) / (sz as int),
                (i / (sx as int)) % (sz as int),
            ) by {
                lemma_decode(i, sx as int, sz as int);
                let (xx, yy, zz) = (i % (sx as int), i / (sx as int) / (sz as int), (i / (
                sx as int)) % (sz as int));
                if spec_span_coord(*d, xx, zz) == (u as int, v as int) {
                    assert(xx == xi && zz == zi);
                    if yy == 0 {
                        assert(i == ground);
                    } else if yy == 1 {
                        assert(i == ground + layer);
                    }
                }
            }
        }
        placed = placed + 1;
    }
    proof {
        if attempt < RUBBLE_ATTEMPTS {
            lemma_rubble_settled(*d, attempt as nat, RUBBLE_ATTEMPTS as nat);
        }
    }
}

/// Mixes three small integers into one draw index.
fn mix(a: i64, b: i64, c: i64) -> (key: u64)
    requires
        0 <= a <= 100_000_000,
        0 <= b <= 100_000_000,
        0 <= c <= 100_000_000,
    ensures
        key as int == spec_mix(a as int, b as int, c as int),
        key < 4096,
{
    ((a * 73 + b * 179 + c * 283) as u64) % 4096
}

/// Weathers the crown, from the top down: a stone only falls once nothing
/// rests on it, so erosion never leaves a voxel hanging over an empty column.
fn weather(
    d: &MonolithDescriptor,
    sx: usize,
    sy: usize,
    sz: usize,
    voxels: &mut Vec<Option<LandmarkMaterial>>,
    marks: &Vec<u8>,
)
    requires
        spec_compilable(*d),
        sx as int == spec_grid(*d).0,
        sy as int == spec_grid(*d).1,
        sz as int == spec_grid(*d).2,
        old(voxels)@ == spec_built_cells(*d),
        marks@ == spec_marks(*d),
    ensures
        final(voxels)@ == spec_cells(*d),
{
    proof {
        lemma_compilable_ranges(*d);
        assert(sx * sz <= sx * sy * sz) by (nonlinear_arith)
            requires
                sy >= 1,
                sx >= 1,
                sz >= 1,
        ;
    }
    let n = sx * sy * sz;
    let layer = sx * sz;
    let mut j: usize = n;
    while j > layer
        invariant
            spec_compilable(*d),
            sx as int == spec_grid(*d).0,
            sy as int == spec_grid(*d).1,
            sz as int == spec_grid(*d).2,
            n == sx * sy * sz,
            layer == sx * sz,
            sx >= 1,
            sz >= 1,
            sx <= 32_537_631,
            sz <= 32_537_631,
            sy <= 34,
            n <= MAX_GRID_CELLS,
            layer <= j <= n,
            marks@ == spec_marks(*d),
            voxels@.len() == n,
            forall|i: int|
                0 <= i < n ==> #[trigger] voxels@[i] == if i >= j {
                    spec_cells(*d)[i]
                } else {
                    spec_built_cells(*d)[i]
                },
        decreases j,
    {
        j = j - 1;
        let x = j % sx;
        let t = j / sx;
        let z = t % sz;
        let y = t / sz;
        proof {
            lemma_decode(j as int, sx as int, sz as int);
            assert(1 <= y < sy) by (nonlinear_arith)
                requires
                    j < n,
                    j >= layer,
                    layer == sx * sz,
                    n == sx * sy * sz,
                    j == (y * sz + z) * sx + x,
                    0 <= x < sx,
                    0 <= z < sz,
                    y >= 0,
            ;
            assert((j + layer < n) == (y + 1 < sy)) by (nonlinear_arith)
                requires
                    layer == sx * sz,
                    n == sx * sy * sz,
                    j == (y * sz + z) * sx + x,
                    0 <= x < sx,
                    0 <= z < sz,
                    y >= 0,
            ;
        }
        proof {
            reveal(spec_cell);
        }
        let percent = marks[j];
        if percent == 0 || voxels[j].is_none() {
            continue;
        }
        if j + layer < n && voxels[j + layer].is_some() {
            continue;
        }
        let key = mix(y as i64, x as i64, z as i64);
        if draw(d.seed, 500 + key) % 100 < percent as u64 {
            voxels.set(j, None);
        }
    }
    proof {
        reveal(spec_cell);
        assert forall|i: int| 0 <= i < n implies #[trigger] voxels@[i] == spec_cells(*d)[i] by {
            if i < j {
                lemma_decode(i, sx as int, sz as int);
                let yy = i / (sx as int) / (sz as int);
                assert(yy == 0) by (nonlinear_arith)
                    requires
                        i < layer,
                        layer == sx * sz,
                        i == (yy * sz + (i / (sx as int)) % (sz as int)) * sx + i % (sx as int),
                        0 <= i % (sx as int) < sx,
                        0 <= (i / (sx as int)) % (sz as int) < sz,
                        yy >= 0,
                ;
            }
        }
        assert(voxels@ =~= spec_cells(*d));
    }
}


/// Records, per column, the lowest and highest course holding a voxel.
fn index_columns(
    d: &MonolithDescriptor,
    sx: usize,
    sy: usize,
    sz: usize,
    voxels: &Vec<Option<LandmarkMaterial>>,
) -> (columns: Vec<Option<(i32, i32)>>)
    requires
        spec_compilable(*d),
        sx as int == spec_grid(*d).0,
        sy as int == spec_grid(*d).1,
        sz as int == spec_grid(*d).2,
        voxels@ == spec_cells(*d),
    ensures
        columns@.len() == sx * sz,
        forall|c: int|
            0 <= c < sx * sz ==> spec_column_ok(
                *d,
                c % (sx as int),
                c / (sx as int),
                #[trigger] columns@[c],
            ),
{
    proof {
        lemma_compilable_ranges(*d);
    }
    let layer = sx * sz;
    let mut columns: Vec<Option<(i32, i32)>> = Vec::with_capacity(layer);
    let mut c: usize = 0;
    while c < layer
        invariant
            spec_compilable(*d),
            sx as int == spec_grid(*d).0,
            sy as int == spec_grid(*d).1,
            sz as int == spec_grid(*d).2,
            voxels@ == spec_cells(*d),
            layer == sx * sz,
            sx >= 1,
            sz >= 1,
            sx <= 32_537_631,
            sz <= 32_537_631,
            1 <= sy <= 34,
            sx * sy * sz <= MAX_GRID_CELLS,
            c <= layer,
            columns@.len() == c,
            forall|k: int|
                0 <= k < c ==> spec_column_ok(
                    *d,
                    k % (sx as int),
                    k / (sx as int),
                    #[trigger] columns@[k],
                ),
        decreases layer - c,
    {
        let x = c % sx;
        let z = c / sx;
        proof {
            assert(c == z * sx + x && 0 <= x < sx && 0 <= z < sz) by (nonlinear_arith)
                requires
                    sx >= 1,
                    x == c % sx,
                    z == c / sx,
                    c < layer,
                    layer == sx * sz,
            ;
        }
        let mut low: Option<i32> = None;
        let mut high: Option<i32> = None;
        let mut y: usize = 0;
        while y < sy
            invariant
                spec_compilable(*d),
                sx as int == spec_grid(*d).0,
                sy as int == spec_grid(*d).1,
                sz as int == spec_grid(*d).2,
                voxels@ == spec_cells(*d),
                0 <= x < sx,
                0 <= z < sz,
                sx >= 1,
                sz >= 1,
                1 <= sy <= 34,
                sx * sy * sz <= MAX_GRID_CELLS,
                y <= sy,
                low is None <==> high is None,
                low is None ==> forall|w: int|
                    0 <= w < y ==> #[trigger] spec_cell(*d, x as int, w, z as int) is None,
                low is Some ==> {
                    let (l, h) = (low->0 as int, high->0 as int);
                    &&& 0 <= l <= h < y
                    &&& spec_cell(*d, x as int, l, z as int) is Some
                    &&& spec_cell(*d, x as int, h, z as int) is Some
                    &&& forall|w: int| 0 <= w < l ==> #[trigger] spec_cell(*d, x as int, w, z as int) is None
                    &&& forall|w: int| h < w < y ==> #[trigger] spec_cell(*d, x as int, w, z as int) is None
                },
            decreases sy - y,
        {
            proof {
                lemma_encode(x as int, y as int, z as int, sx as int, sz as int);
                assert(spec_index(sx as int, sz as int, x as int, y as int, z as int) < sx * sy
                    * sz) by (nonlinear_arith)
                    requires
                        0 <= x < sx,
                        0 <= z < sz,
                        0 <= y < sy,
                ;
            }
            let index = (y * sz + z) * sx + x;
            if voxels[index].is_some() {
                let course = y as i32;
                if low.is_none() {
                    low = Some(course);
                }
                high = Some(course);
            }
            y = y + 1;
        }
        let column = match (low, high) {
            (Some(l), Some(h)) => Some((l, h)),
            _ => None,
        };
        proof {
            assert(c as int % (sx as int) == x && c as int / (sx as int) == z);
        }
        columns.push(column);
        c = c + 1;
    }
    columns
}

/// Identity of the compiled geometry: the grid size and every cell's
/// material code.
fn geometry_of(sx: usize, sy: usize, sz: usize, voxels: &Vec<Option<LandmarkMaterial>>) -> (fingerprint: u64)
    requires
        sx <= u32::MAX,
        sy <= u32::MAX,
        sz <= u32::MAX,
    ensures
        fingerprint == spec_fnv1a64(
            spec_tag_landmark_geometry() + spec_u32_to_le_bytes(sx as u32) + spec_u32_to_le_bytes(
                sy as u32,
            ) + spec_u32_to_le_bytes(sz as u32) + voxels@.map_values(
                |cell: Option<LandmarkMaterial>| spec_material_code(cell),
            ),
        ),
{
    let mut bytes = tag_landmark_geometry();
    push_u32(&mut bytes, sx as u32);
    push_u32(&mut bytes, sy as u32);
    push_u32(&mut bytes, sz as u32);
    let ghost prefix = bytes@;
    let mut i: usize = 0;
    while i < voxels.len()
        invariant
            i <= voxels@.len(),
            bytes@ == prefix + voxels@.take(i as int).map_values(
                |cell: Option<LandmarkMaterial>| spec_material_code(cell),
            ),
        decreases voxels@.len() - i,
    {
        let code: u8 = match voxels[i] {
            None => 0,
            Some(LandmarkMaterial::Stone) => 1,
            Some(LandmarkMaterial::Band) => 2,
            Some(LandmarkMaterial::Cap) => 3,
        };
        bytes.push(code);
        proof {
            assert(voxels@.take(i + 1).map_values(
                |cell: Option<LandmarkMaterial>| spec_material_code(cell),
            ) =~= voxels@.take(i as int).map_values(
                |cell: Option<LandmarkMaterial>| spec_material_code(cell),
            ).push(code));
        }
        i = i + 1;
    }
    proof {
        assert(voxels@.take(voxels@.len() as int) =~= voxels@);
    }
    fnv1a64(bytes.as_slice())
}


/// The material at a local voxel: the compiled cell inside the grid, nothing
/// outside it.
pub open spec fn spec_material_at(d: MonolithDescriptor, x: int, y: int, z: int) -> Option<
    LandmarkMaterial,
> {
    let (sx, sy, sz) = spec_grid(d);
    if 0 <= x < sx && 0 <= y < sy && 0 <= z < sz {
        spec_cell(d, x, y, z)
    } else {
        None
    }
}

/// How many cells of a sequence hold a voxel.
pub open spec fn spec_filled(cells: Seq<Option<LandmarkMaterial>>) -> nat
    decreases cells.len(),
{
    if cells.len() == 0 {
        0
    } else {
        spec_filled(cells.drop_last()) + if cells.last() is Some {
            1nat
        } else {
            0nat
        }
    }
}

/// How many cells of a sequence hold one material.
pub open spec fn spec_filled_with(cells: Seq<Option<LandmarkMaterial>>, material: LandmarkMaterial) -> nat
    decreases cells.len(),
{
    if cells.len() == 0 {
        0
    } else {
        spec_filled_with(cells.drop_last(), material) + if cells.last() == Some(material) {
            1nat
        } else {
            0nat
        }
    }
}

/// Every filled cell is stone, band or cap, so the three counts by material
/// add up to the filled count.
proof fn lemma_cells_by_material(cells: Seq<Option<LandmarkMaterial>>)
    ensures
        spec_filled(cells) == spec_filled_with(cells, LandmarkMaterial::Stone) + spec_filled_with(
            cells,
            LandmarkMaterial::Band,
        ) + spec_filled_with(cells, LandmarkMaterial::Cap),
    decreases cells.len(),
{
    if cells.len() > 0 {
        lemma_cells_by_material(cells.drop_last());
        let last = cells.last();
        assert(cells.drop_last().push(last) == cells);
        if last is Some {
            let m = last->0;
            assert(m == LandmarkMaterial::Stone || m == LandmarkMaterial::Band || m == LandmarkMaterial::Cap);
        }
    }
}

/// A compiled landmark's voxel count is the sum of its stone, band and cap
/// counts: every voxel it holds wears one of the three.
pub proof fn lemma_material_counts_add_up(d: MonolithDescriptor)
    ensures
        spec_filled(spec_cells(d)) == spec_filled_with(spec_cells(d), LandmarkMaterial::Stone)
            + spec_filled_with(spec_cells(d), LandmarkMaterial::Band) + spec_filled_with(
            spec_cells(d),
            LandmarkMaterial::Cap,
        ),
{
    lemma_cells_by_material(spec_cells(d));
}



/// Whether the landmark fills a local voxel; nothing outside the grid is filled.
pub open spec fn spec_occupied(d: MonolithDescriptor, x: int, y: int, z: int) -> bool {
    spec_material_at(d, x, y, z) is Some
}

/// Whether a cell differs from its mirror image across either axis.
pub open spec fn spec_mirror_differs(d: MonolithDescriptor, x: int, y: int, z: int) -> bool {
    let (sx, sy, sz) = spec_grid(d);
    spec_cell(d, x, y, z) != spec_cell(d, sx - 1 - x, y, z) || spec_cell(d, x, y, z) != spec_cell(
        d,
        x,
        y,
        sz - 1 - z,
    )
}

/// Whether the cell stored at an index differs from its mirror images.
spec fn mirror_differs_at(d: MonolithDescriptor, i: int) -> bool {
    let (sx, sy, sz) = spec_grid(d);
    spec_mirror_differs(d, i % sx, i / sx / sz, (i / sx) % sz)
}

/// Whether the mass differs from its own mirror image across either axis.
pub open spec fn spec_is_asymmetric(d: MonolithDescriptor) -> bool {
    let (sx, sy, sz) = spec_grid(d);
    exists|x: int, y: int, z: int|
        0 <= x < sx && 0 <= y < sy && 0 <= z < sz && #[trigger] spec_mirror_differs(d, x, y, z)
}

/// A leaning course sits on the course below by one column of overlap.
pub open spec fn spec_neighbour_below(d: MonolithDescriptor, x: int, y: int, z: int) -> bool {
    ||| spec_occupied(d, x + 1, y - 1, z)
    ||| spec_occupied(d, x - 1, y - 1, z)
    ||| spec_occupied(d, x, y - 1, z + 1)
    ||| spec_occupied(d, x, y - 1, z - 1)
}

/// Whether a voxel above the base course rests on the course below it,
/// directly or by one column of overlap.
pub open spec fn spec_rests(d: MonolithDescriptor, x: int, y: int, z: int) -> bool {
    spec_cell(d, x, y, z) is Some ==> spec_occupied(d, x, y - 1, z) || spec_neighbour_below(
        d,
        x,
        y,
        z,
    )
}

/// Whether no course of a shaft overhangs the course below it. A lintel is
/// exempt: it is the one horizontal span the style contract allows, and it is
/// carried at both ends.
pub open spec fn spec_respects_taper(d: MonolithDescriptor) -> bool {
    let (sx, sy, sz) = spec_grid(d);
    d.class == SilhouetteClass::Gate || forall|x: int, y: int, z: int|
        0 <= x < sx && 1 <= y < sy && 0 <= z < sz ==> #[trigger] spec_rests(d, x, y, z)
}


/// Whether two cells share a face.
pub open spec fn spec_adjacent(a: (int, int, int), b: (int, int, int)) -> bool {
    spec_abs(a.0 - b.0) + spec_abs(a.1 - b.1) + spec_abs(a.2 - b.2) == 1
}

/// A chain of filled, face-adjacent voxels that starts on the base course.
pub open spec fn spec_grounded_path(d: MonolithDescriptor, path: Seq<(int, int, int)>) -> bool {
    &&& path.len() >= 1
    &&& path[0].1 == 0
    &&& forall|k: int|
        0 <= k < path.len() ==> spec_occupied(d, (#[trigger] path[k]).0, path[k].1, path[k].2)
    &&& forall|k: int| 0 <= k < path.len() - 1 ==> spec_adjacent(#[trigger] path[k], path[k + 1])
}

/// Whether every voxel is face-connected to the base course.
pub open spec fn spec_is_supported(d: MonolithDescriptor) -> bool {
    forall|x: int, y: int, z: int|
        #[trigger] spec_occupied(d, x, y, z) ==> exists|path: Seq<(int, int, int)>|
            #[trigger] spec_grounded_path(d, path) && path.last() == (x, y, z)
}

/// A spire's course half-widths never grow going up, and never go negative.
proof fn lemma_spire_width_shrinks(d: MonolithDescriptor, y: int)
    requires
        spec_compilable(d),
        d.class == SilhouetteClass::Spire,
        1 <= y,
    ensures
        0 <= spec_spire_width(d, y) <= spec_spire_width(d, y - 1),
{
    lemma_compilable_ranges(d);
    let half = spec_spire_half(d);
    let end = spec_taper_end(d);
    assert(1 <= end);
    assert(half == 2 || half == 3);
    if y - 1 < end {
        lemma_mul_inequality(y - 1, end, half);
        lemma_div_is_ordered((y - 1) * half, end * half, end);
        lemma_div_multiples_vanish(half, end);
        assert(end * half == half * end) by (nonlinear_arith);
        lemma_div_pos_is_pos((y - 1) * half, end);
        assert((y - 1) * half >= 0) by (nonlinear_arith)
            requires
                y >= 1,
                half >= 0,
        ;
        if y < end {
            lemma_mul_inequality(y, end, half);
            lemma_div_is_ordered(y * half, end * half, end);
            lemma_mul_inequality(y - 1, y, half);
            lemma_div_is_ordered((y - 1) * half, y * half, end);
        }
    }
}

/// A spire course sits on the course below: directly, or at the one course
/// where the lean begins, on the next column over, which no erosion reaches.
proof fn lemma_spire_course_rests(d: MonolithDescriptor, x: int, y: int, z: int)
    requires
        spec_compilable(d),
        d.class == SilhouetteClass::Spire,
        0 <= x < spec_grid(d).0,
        1 <= y < spec_grid(d).1,
        0 <= z < spec_grid(d).2,
        spec_cell(d, x, y, z) is Some,
    ensures
        spec_rests(d, x, y, z),
{
    lemma_compilable_ranges(d);
    lemma_erosion_only_removes(d, x, y, z);
    lemma_spire_width_shrinks(d, y);
    let (u, v) = spec_span_coord(d, x, z);
    assert(spec_in_spire(d, u, y, v));
    if spec_in_spire(d, u, y - 1, v) {
        assert(spec_built(d, x, y - 1, z) is Some);
        lemma_erosion_never_undercuts(d, x, y, z);
    } else {
        // The lean begins at this course: the column one step back against
        // the lean holds the course below, and nothing that low is marked.
        let lean = d.lean as int;
        assert(lean == 1 || lean == -1);
        assert(y * 2 >= d.height && (y - 1) * 2 < d.height);
        let back = u - lean;
        assert(spec_in_spire(d, back, y - 1, v));
        let (nx, nz) = match d.axis {
            SpanAxis::X => (back, v),
            SpanAxis::Z => (v, back),
        };
        assert(spec_span_coord(d, nx, nz) == (back, v));
        assert(0 <= nx < spec_grid(d).0 && 0 <= nz < spec_grid(d).2);
        assert(spec_mark(d, nx, y - 1, nz) == 0);
        assert(spec_built(d, nx, y - 1, nz) is Some);
        assert(spec_cell(d, nx, y - 1, nz) is Some) by {
            reveal(spec_cell);
        }
        assert(spec_occupied(d, nx, y - 1, nz));
        assert(spec_neighbour_below(d, x, y, z));
    }
}

/// A frame's shafts and its rubble stand on the course below them.
proof fn lemma_broken_course_rests(d: MonolithDescriptor, x: int, y: int, z: int)
    requires
        spec_compilable(d),
        d.class == SilhouetteClass::Broken,
        0 <= x < spec_grid(d).0,
        1 <= y < spec_grid(d).1,
        0 <= z < spec_grid(d).2,
        spec_cell(d, x, y, z) is Some,
    ensures
        spec_rests(d, x, y, z),
{
    lemma_compilable_ranges(d);
    lemma_erosion_only_removes(d, x, y, z);
    lemma_rubble_heights(d, RUBBLE_ATTEMPTS as nat);
    assert(spec_built(d, x, y - 1, z) is Some);
    lemma_erosion_never_undercuts(d, x, y, z);
}

/// Rubble is one or two blocks high.
proof fn lemma_rubble_heights(d: MonolithDescriptor, attempts: nat)
    ensures
        forall|k: (int, int)|
            spec_rubble(d, attempts).1.contains_key(k) ==> 0 <= #[trigger] spec_rubble(
                d,
                attempts,
            ).1[k] <= 1,
    decreases attempts,
{
    if attempts > 0 {
        lemma_rubble_heights(d, (attempts - 1) as nat);
        let before = spec_rubble(d, (attempts - 1) as nat).1;
        let after = spec_rubble(d, attempts).1;
        let (u, v, tall) = spec_rubble_draw(d, attempts - 1);
        assert(0 <= tall <= 1);
        assert forall|k: (int, int)| after.contains_key(k) implies 0 <= #[trigger] after[k] <= 1 by {
            if k != (u, v) || after == before {
                assert(before.contains_key(k));
                assert(after[k] == before[k]);
            }
        }
    }
}

/// No compiled spire or broken frame overhangs: every voxel above the base
/// course rests on the course below it, directly or, where a spire's lean
/// begins, by one column of overlap. A gate's lintel is exempt by the style
/// contract.
pub proof fn lemma_compiled_landmarks_respect_taper(d: MonolithDescriptor)
    requires
        spec_compilable(d),
    ensures
        spec_respects_taper(d),
{
    if d.class != SilhouetteClass::Gate {
        let (sx, sy, sz) = spec_grid(d);
        assert forall|x: int, y: int, z: int|
            0 <= x < sx && 1 <= y < sy && 0 <= z < sz implies #[trigger] spec_rests(d, x, y, z) by {
            if spec_cell(d, x, y, z) is Some {
                if d.class == SilhouetteClass::Spire {
                    lemma_spire_course_rests(d, x, y, z);
                } else {
                    lemma_broken_course_rests(d, x, y, z);
                }
            }
        }
    }
}

/// One landmark, compiled: its voxels in storage order, the column table and
/// the geometry fingerprint, all determined by the descriptor.
#[derive(Debug, PartialEq, Eq)]
pub struct CompiledMonolith {
    descriptor: MonolithDescriptor,
    size_x: usize,
    size_y: usize,
    size_z: usize,
    voxels: Vec<Option<LandmarkMaterial>>,
    /// Lowest and highest local `y` holding a voxel, per column, or `None`.
    columns: Vec<Option<(i32, i32)>>,
    geometry: u64,
}

impl CompiledMonolith {
    #[verifier::type_invariant]
    spec fn compiled_from_descriptor(self) -> bool {
        let (sx, sy, sz) = spec_grid(self.descriptor);
        &&& spec_compilable(self.descriptor)
        &&& self.size_x == sx
        &&& self.size_y == sy
        &&& self.size_z == sz
        &&& self.voxels@ == spec_cells(self.descriptor)
        &&& self.columns@.len() == sx * sz
        &&& forall|c: int|
            0 <= c < sx * sz ==> spec_column_ok(
                self.descriptor,
                c % sx,
                c / sx,
                #[trigger] self.columns@[c],
            )
        &&& self.geometry == spec_geometry_fingerprint(self.descriptor)
    }

    /// The descriptor a landmark was compiled from: every part of it follows.
    pub closed spec fn spec_descriptor(self) -> MonolithDescriptor {
        self.descriptor
    }

    /// Compiles a canonical descriptor.
    ///
    /// Every descriptor drawn from a seed is compilable; authored input is
    /// compilable once it validates.
    pub fn new(descriptor: MonolithDescriptor) -> (compiled: Self)
        requires
            spec_compilable(descriptor),
        ensures
            compiled.spec_descriptor() == descriptor,
    {
        proof {
            lemma_compilable_ranges(descriptor);
        }
        let d = descriptor;
        let (sx, sy, sz) = grid_size(&d);
        let (mut voxels, marks) = shape_cells(&d, sx, sy, sz);
        if d.class == SilhouetteClass::Broken {
            scatter_rubble(&d, sx, sy, sz, &mut voxels);
        }
        proof {
            let n = sx * sy * sz;
            let tops = spec_rubble(d, RUBBLE_ATTEMPTS as nat).1;
            assert forall|i: int| 0 <= i < n implies #[trigger] voxels@[i] == spec_built_cells(
                d,
            )[i] by {
                let (x, y, z) = (i % (sx as int), i / (sx as int) / (sz as int), (i / (
                sx as int)) % (sz as int));
                assert(spec_built_cells(d)[i] == spec_built(d, x, y, z));
            }
            assert(voxels@ =~= spec_built_cells(d));
        }
        weather(&d, sx, sy, sz, &mut voxels, &marks);
        let columns = index_columns(&d, sx, sy, sz, &voxels);
        let geometry = geometry_of(sx, sy, sz, &voxels);
        proof {
            assert(voxels@.map_values(|cell: Option<LandmarkMaterial>| spec_material_code(cell))
                =~= spec_cells(d).map_values(
                |cell: Option<LandmarkMaterial>| spec_material_code(cell),
            ));
        }
        CompiledMonolith {
            descriptor: d,
            size_x: sx,
            size_y: sy,
            size_z: sz,
            voxels,
            columns,
            geometry,
        }
    }

    pub fn descriptor(&self) -> (descriptor: &MonolithDescriptor)
        ensures
            *descriptor == self.spec_descriptor(),
    {
        &self.descriptor
    }

    /// Local grid size, in voxels.
    pub fn size(&self) -> (size: (usize, usize, usize))
        ensures
            size.0 as int == spec_grid(self.spec_descriptor()).0,
            size.1 as int == spec_grid(self.spec_descriptor()).1,
            size.2 as int == spec_grid(self.spec_descriptor()).2,
    {
        proof {
            use_type_invariant(self);
        }
        (self.size_x, self.size_y, self.size_z)
    }

    /// The material at a local voxel, if the landmark fills it.
    pub fn material_at(&self, x: usize, y: usize, z: usize) -> (material: Option<LandmarkMaterial>)
        ensures
            material == spec_material_at(self.spec_descriptor(), x as int, y as int, z as int),
    {
        proof {
            use_type_invariant(self);
            lemma_compilable_ranges(self.descriptor);
        }
        if x >= self.size_x || y >= self.size_y || z >= self.size_z {
            return None;
        }
        proof {
            lemma_encode(x as int, y as int, z as int, self.size_x as int, self.size_z as int);
            assert(spec_index(
                self.size_x as int,
                self.size_z as int,
                x as int,
                y as int,
                z as int,
            ) < self.size_x * self.size_y * self.size_z) by (nonlinear_arith)
                requires
                    x < self.size_x,
                    y < self.size_y,
                    z < self.size_z,
            ;
        }
        self.voxels[(y * self.size_z + z) * self.size_x + x]
    }

    /// Lowest and highest local `y` a column holds, if it holds anything.
    pub fn column(&self, x: usize, z: usize) -> (column: Option<(i32, i32)>)
        ensures
            ({
                let (sx, sy, sz) = spec_grid(self.spec_descriptor());
                if x < sx && z < sz {
                    spec_column_ok(self.spec_descriptor(), x as int, z as int, column)
                } else {
                    column is None
                }
            }),
    {
        proof {
            use_type_invariant(self);
            lemma_compilable_ranges(self.descriptor);
        }
        if x >= self.size_x || z >= self.size_z {
            return None;
        }
        proof {
            lemma_encode(x as int, 0, z as int, self.size_x as int, self.size_z as int);
            assert(z * self.size_x + x < self.size_x * self.size_z) by (nonlinear_arith)
                requires
                    x < self.size_x,
                    z < self.size_z,
            ;
        }
        self.columns[z * self.size_x + x]
    }

    /// How many voxels the landmark is made of.
    pub fn voxel_count(&self) -> (count: usize)
        ensures
            count == spec_filled(spec_cells(self.spec_descriptor())),
    {
        proof {
            use_type_invariant(self);
        }
        let mut count: usize = 0;
        let mut i: usize = 0;
        while i < self.voxels.len()
            invariant
                i <= self.voxels@.len(),
                count == spec_filled(self.voxels@.take(i as int)),
                count <= i,
            decreases self.voxels@.len() - i,
        {
            proof {
                assert(self.voxels@.take(i + 1).drop_last() =~= self.voxels@.take(i as int));
            }
            if self.voxels[i].is_some() {
                count = count + 1;
            }
            i = i + 1;
        }
        proof {
            assert(self.voxels@.take(self.voxels@.len() as int) =~= self.voxels@);
        }
        count
    }

    /// How many voxels carry one material.
    pub fn material_count(&self, material: LandmarkMaterial) -> (count: usize)
        ensures
            count == spec_filled_with(spec_cells(self.spec_descriptor()), material),
    {
        proof {
            use_type_invariant(self);
        }
        let mut count: usize = 0;
        let mut i: usize = 0;
        while i < self.voxels.len()
            invariant
                i <= self.voxels@.len(),
                count == spec_filled_with(self.voxels@.take(i as int), material),
                count <= i,
            decreases self.voxels@.len() - i,
        {
            proof {
                assert(self.voxels@.take(i + 1).drop_last() =~= self.voxels@.take(i as int));
            }
            let same = match self.voxels[i] {
                Some(found) => found == material,
                None => false,
            };
            if same {
                count = count + 1;
            }
            i = i + 1;
        }
        proof {
            assert(self.voxels@.take(self.voxels@.len() as int) =~= self.voxels@);
        }
        count
    }

    /// Identity of the compiled geometry, independent of where it stands.
    pub fn geometry_fingerprint(&self) -> (fingerprint: u64)
        ensures
            fingerprint == spec_geometry_fingerprint(self.spec_descriptor()),
    {
        proof {
            use_type_invariant(self);
        }
        self.geometry
    }

    /// Whether every voxel is face-connected to the base course.
    #[verifier::rlimit(60)]
    #[verifier::spinoff_prover]
    pub fn is_supported(&self) -> (supported: bool)
        ensures
            supported == spec_is_supported(self.spec_descriptor()),
    {
        proof {
            use_type_invariant(self);
            lemma_compilable_ranges(self.descriptor);
        }
        let ghost d = self.descriptor;
        let (sx, sy, sz) = (self.size_x, self.size_y, self.size_z);
        proof {
            assert(sx * sz <= sx * sy * sz) by (nonlinear_arith)
                requires
                    sy >= 1,
                    sx >= 1,
                    sz >= 1,
            ;
        }
        let n = sx * sy * sz;
        let layer = sx * sz;
        let mut seen: Vec<bool> = Vec::with_capacity(n);
        let mut i: usize = 0;
        while i < n
            invariant
                i <= n,
                seen@.len() == i,
                forall|k: int| 0 <= k < i ==> !#[trigger] seen@[k],
            decreases n - i,
        {
            seen.push(false);
            i = i + 1;
        }
        let mut stack: Vec<usize> = Vec::new();
        let mut c: usize = 0;
        while c < layer
            invariant
                spec_compilable(d),
                d == self.descriptor,
                sx as int == spec_grid(d).0,
                sy as int == spec_grid(d).1,
                sz as int == spec_grid(d).2,
                n == sx * sy * sz,
                layer == sx * sz,
                layer <= n,
                self.voxels@ == spec_cells(d),
                c <= layer,
                seen@.len() == n,
                forall|k: int| 0 <= k < stack@.len() ==> #[trigger] stack@[k] < n && seen@[stack@[k] as int],
                forall|k: int| 0 <= k < n && #[trigger] seen@[k] ==> k < c && spec_cells(d)[k] is Some && grounded_at(d, k),
                forall|k: int| 0 <= k < n && #[trigger] seen@[k] ==> stack@.contains(k as usize),
                forall|k: int| 0 <= k < c && (#[trigger] spec_cells(d)[k]) is Some ==> seen@[k],
            decreases layer - c,
        {
            if self.voxels[c].is_some() {
                proof {
                    lemma_neighbours(d, c as int);
                    let (x, y, z) = spec_decode(d, c as int);
                    assert(y == 0) by (nonlinear_arith)
                        requires
                            c < layer,
                            layer == sx * sz,
                            c == (y * sz + z) * sx + x,
                            0 <= x < sx,
                            0 <= z < sz,
                            y >= 0,
                    ;
                    let path = seq![(x, y, z)];
                    assert(spec_grounded_path(d, path));
                }
                let ghost before = stack@;
                seen.set(c, true);
                stack.push(c);
                proof {
                    assert forall|k: int| 0 <= k < n && #[trigger] seen@[k] implies stack@.contains(
                        k as usize,
                    ) by {
                        if k != c {
                            let w = choose|w: int| 0 <= w < before.len() && before[w] == k as usize;
                            assert(stack@[w] == k as usize);
                        } else {
                            assert(stack@[before.len() as int] == c);
                        }
                    }
                }
            }
            c = c + 1;
        }
        while stack.len() > 0
            invariant
                spec_compilable(d),
                d == self.descriptor,
                sx as int == spec_grid(d).0,
                sy as int == spec_grid(d).1,
                sz as int == spec_grid(d).2,
                sx >= 1,
                sz >= 1,
                sy >= 1,
                n == sx * sy * sz,
                layer == sx * sz,
                n <= MAX_GRID_CELLS,
                self.voxels@ == spec_cells(d),
                seen@.len() == n,
                forall|k: int| 0 <= k < stack@.len() ==> #[trigger] stack@[k] < n && seen@[stack@[k] as int],
                forall|k: int| 0 <= k < n && #[trigger] seen@[k] ==> spec_cells(d)[k] is Some && grounded_at(d, k),
                forall|k: int| 0 <= k < n && #[trigger] seen@[k] ==> closed_at(d, seen@, k) || stack@.contains(k as usize),
                forall|k: int| 0 <= k < layer && (#[trigger] spec_cells(d)[k]) is Some ==> seen@[k],
            decreases unseen(seen@) + stack@.len(),
        {
            let ghost before = stack@;
            let p = stack.pop().unwrap();
            proof {
                assert(stack@ =~= before.drop_last());
                assert forall|k: int| 0 <= k < n && #[trigger] seen@[k] implies closed_at(d, seen@, k)
                    || stack@.contains(k as usize) || k == p by {
                    if !closed_at(d, seen@, k) && k != p {
                        let w = choose|w: int| 0 <= w < before.len() && before[w] == k as usize;
                        assert(w != before.len() - 1);
                        assert(stack@[w] == k as usize);
                    }
                }
                lemma_neighbours(d, p as int);
            }
            let x = p % sx;
            let t = p / sx;
            let z = t % sz;
            let y = t / sz;
            let ghost start = seen@;
            if x + 1 < sx {
                self.visit(&mut seen, &mut stack, Ghost(p as int), p + 1);
            }
            if x > 0 {
                self.visit(&mut seen, &mut stack, Ghost(p as int), p - 1);
            }
            if y + 1 < sy {
                self.visit(&mut seen, &mut stack, Ghost(p as int), p + layer);
            }
            if y > 0 {
                self.visit(&mut seen, &mut stack, Ghost(p as int), p - layer);
            }
            if z + 1 < sz {
                self.visit(&mut seen, &mut stack, Ghost(p as int), p + sx);
            }
            if z > 0 {
                self.visit(&mut seen, &mut stack, Ghost(p as int), p - sx);
            }
            proof {
                assert(closed_at(d, seen@, p as int));
            }
        }
        let mut k: usize = 0;
        while k < n
            invariant
                spec_compilable(d),
                d == self.descriptor,
                sx as int == spec_grid(d).0,
                sy as int == spec_grid(d).1,
                sz as int == spec_grid(d).2,
                n == sx * sy * sz,
                layer == sx * sz,
                self.voxels@ == spec_cells(d),
                seen@.len() == n,
                forall|j: int| 0 <= j < n && #[trigger] seen@[j] ==> spec_cells(d)[j] is Some && grounded_at(d, j),
                forall|j: int| 0 <= j < n && #[trigger] seen@[j] ==> closed_at(d, seen@, j),
                forall|j: int| 0 <= j < layer && (#[trigger] spec_cells(d)[j]) is Some ==> seen@[j],
                k <= n,
                forall|j: int| 0 <= j < k && (#[trigger] spec_cells(d)[j]) is Some ==> seen@[j],
            decreases n - k,
        {
            if self.voxels[k].is_some() && !seen[k] {
                proof {
                    lemma_neighbours(d, k as int);
                    let (x, y, z) = spec_decode(d, k as int);
                    assert(spec_occupied(d, x, y, z));
                    if spec_is_supported(d) {
                        let path = choose|path: Seq<(int, int, int)>|
                            #[trigger] spec_grounded_path(d, path) && path.last() == (x, y, z);
                        lemma_paths_stay_seen(d, seen@, path, path.len() - 1);
                    }
                }
                return false;
            }
            k = k + 1;
        }
        proof {
            assert forall|x: int, y: int, z: int| #[trigger] spec_occupied(d, x, y, z) implies exists|
                path: Seq<(int, int, int)>,
            | #[trigger] spec_grounded_path(d, path) && path.last() == (x, y, z) by {
                lemma_occupied_stored(d, x, y, z);
                let i = spec_index(sx as int, sz as int, x, y, z);
                assert(seen@[i]);
                assert(grounded_at(d, i));
            }
        }
        true
    }

    /// Reaches one neighbour of a voxel being explored.
    #[verifier::rlimit(50)]
    fn visit(
        &self,
        seen: &mut Vec<bool>,
        stack: &mut Vec<usize>,
        Ghost(from): Ghost<int>,
        to: usize,
    )
        requires
            spec_compilable(self.descriptor),
            self.voxels@ == spec_cells(self.descriptor),
            old(seen)@.len() == spec_grid(self.descriptor).0 * spec_grid(self.descriptor).1
                * spec_grid(self.descriptor).2,
            to < old(seen)@.len(),
            0 <= from < old(seen)@.len(),
            old(seen)@[from],
            spec_adjacent(spec_decode(self.descriptor, from), spec_decode(self.descriptor, to as int)),
            forall|k: int| 0 <= k < old(stack)@.len() ==> #[trigger] old(stack)@[k] < old(seen)@.len() && old(seen)@[old(stack)@[k] as int],
            forall|k: int| 0 <= k < old(seen)@.len() && #[trigger] old(seen)@[k] ==> spec_cells(self.descriptor)[k] is Some && grounded_at(self.descriptor, k),
            forall|k: int| 0 <= k < old(seen)@.len() && #[trigger] old(seen)@[k] ==> closed_at(self.descriptor, old(seen)@, k)
                || old(stack)@.contains(k as usize) || k == from,
        ensures
            final(seen)@.len() == old(seen)@.len(),
            forall|k: int| 0 <= k < old(seen)@.len() && old(seen)@[k] ==> #[trigger] final(seen)@[k],
            spec_cells(self.descriptor)[to as int] is Some ==> final(seen)@[to as int],
            forall|k: int| 0 <= k < final(stack)@.len() ==> #[trigger] final(stack)@[k] < old(seen)@.len() && final(seen)@[final(stack)@[k] as int],
            forall|k: int| 0 <= k < old(seen)@.len() && #[trigger] final(seen)@[k] ==> spec_cells(self.descriptor)[k] is Some && grounded_at(self.descriptor, k),
            forall|k: int| 0 <= k < old(seen)@.len() && #[trigger] final(seen)@[k] ==> closed_at(self.descriptor, final(seen)@, k)
                || final(stack)@.contains(k as usize) || k == from,
            unseen(final(seen)@) + final(stack)@.len() == unseen(old(seen)@) + old(stack)@.len(),
    {
        let ghost d = self.descriptor;
        if seen[to] || self.voxels[to].is_none() {
            return;
        }
        let ghost old_seen = seen@;
        let ghost old_stack = stack@;
        proof {
            lemma_unseen_mark(seen@, to as int);
            let path = choose|path: Seq<(int, int, int)>|
                #[trigger] spec_grounded_path(d, path) && path.last() == spec_decode(d, from);
            let longer = path.push(spec_decode(d, to as int));
            lemma_neighbours(d, to as int);
            assert(spec_grounded_path(d, longer)) by {
                assert forall|k: int| 0 <= k < longer.len() implies spec_occupied(
                    d,
                    (#[trigger] longer[k]).0,
                    longer[k].1,
                    longer[k].2,
                ) by {
                    if k < path.len() {
                        assert(longer[k] == path[k]);
                    }
                }
                assert forall|k: int| 0 <= k < longer.len() - 1 implies spec_adjacent(
                    #[trigger] longer[k],
                    longer[k + 1],
                ) by {
                    if k < path.len() - 1 {
                        assert(longer[k] == path[k] && longer[k + 1] == path[k + 1]);
                    }
                }
            }
            assert(grounded_at(d, to as int));
        }
        seen.set(to, true);
        stack.push(to);
        proof {
            assert forall|k: int| 0 <= k < old_seen.len() && #[trigger] seen@[k] implies closed_at(
                d,
                seen@,
                k,
            ) || stack@.contains(k as usize) || k == from by {
                if k == to {
                    assert(stack@[old_stack.len() as int] == to);
                } else if old_stack.contains(k as usize) {
                    let w = choose|w: int| 0 <= w < old_stack.len() && old_stack[w] == k as usize;
                    assert(stack@[w] == k as usize);
                } else if k != from {
                    lemma_neighbours(d, k);
                    lemma_closed_grows(d, old_seen, seen@, k);
                }
            }
        }
    }

    /// Whether the mass differs from its own mirror image across either axis.
    pub fn is_asymmetric(&self) -> (asymmetric: bool)
        ensures
            asymmetric == spec_is_asymmetric(self.spec_descriptor()),
    {
        proof {
            use_type_invariant(self);
            lemma_compilable_ranges(self.descriptor);
        }
        let ghost d = self.descriptor;
        let (sx, sy, sz) = (self.size_x, self.size_y, self.size_z);
        let n = sx * sy * sz;
        let mut j: usize = 0;
        while j < n
            invariant
                spec_compilable(d),
                d == self.descriptor,
                sx as int == spec_grid(d).0,
                sy as int == spec_grid(d).1,
                sz as int == spec_grid(d).2,
                sx >= 1,
                sz >= 1,
                sy >= 1,
                n == sx * sy * sz,
                n <= MAX_GRID_CELLS,
                self.voxels@ == spec_cells(d),
                j <= n,
                forall|i: int| 0 <= i < j ==> !#[trigger] mirror_differs_at(d, i),
            decreases n - j,
        {
            let x = j % sx;
            let t = j / sx;
            let z = t % sz;
            let y = t / sz;
            proof {
                lemma_decode(j as int, sx as int, sz as int);
                assert(y < sy) by (nonlinear_arith)
                    requires
                        j < n,
                        n == sx * sy * sz,
                        j == (y * sz + z) * sx + x,
                        0 <= x < sx,
                        0 <= z < sz,
                        y >= 0,
                ;
                lemma_encode((sx - 1 - x) as int, y as int, z as int, sx as int, sz as int);
                lemma_encode(x as int, y as int, (sz - 1 - z) as int, sx as int, sz as int);
                assert(spec_index(sx as int, sz as int, (sx - 1 - x) as int, y as int, z as int)
                    < n && spec_index(sx as int, sz as int, x as int, y as int, (sz - 1 - z) as int)
                    < n) by (nonlinear_arith)
                    requires
                        0 <= x < sx,
                        0 <= z < sz,
                        0 <= y < sy,
                        n == sx * sy * sz,
                ;
            }
            let here = self.voxels[j];
            let across_x = self.voxels[(y * sz + z) * sx + (sx - 1 - x)];
            let across_z = self.voxels[(y * sz + (sz - 1 - z)) * sx + x];
            if !same_cell(here, across_x) || !same_cell(here, across_z) {
                proof {
                    assert(spec_mirror_differs(d, x as int, y as int, z as int));
                }
                return true;
            }
            j = j + 1;
        }
        proof {
            assert forall|x: int, y: int, z: int|
                0 <= x < sx && 0 <= y < sy && 0 <= z < sz implies !#[trigger] spec_mirror_differs(
                d,
                x,
                y,
                z,
            ) by {
                lemma_encode(x, y, z, sx as int, sz as int);
                assert(spec_index(sx as int, sz as int, x, y, z) < n) by (nonlinear_arith)
                    requires
                        0 <= x < sx,
                        0 <= z < sz,
                        0 <= y < sy,
                        n == sx * sy * sz,
                ;
                assert(!mirror_differs_at(d, spec_index(sx as int, sz as int, x, y, z)));
            }
        }
        false
    }

    /// Whether no course of a shaft overhangs the course below it.
    pub fn respects_taper(&self) -> (respects: bool)
        ensures
            respects == spec_respects_taper(self.spec_descriptor()),
    {
        proof {
            use_type_invariant(self);
            lemma_compilable_ranges(self.descriptor);
        }
        if self.descriptor.class == SilhouetteClass::Gate {
            return true;
        }
        let ghost d = self.descriptor;
        let (sx, sy, sz) = (self.size_x, self.size_y, self.size_z);
        let mut y: usize = 1;
        while y < sy
            invariant
                spec_compilable(d),
                d == self.descriptor,
                d.class != SilhouetteClass::Gate,
                sx as int == spec_grid(d).0,
                sy as int == spec_grid(d).1,
                sz as int == spec_grid(d).2,
                1 <= y <= sy,
                forall|xx: int, yy: int, zz: int|
                    0 <= xx < sx && 1 <= yy < y && 0 <= zz < sz ==> #[trigger] spec_rests(
                        d,
                        xx,
                        yy,
                        zz,
                    ),
            decreases sy - y,
        {
            let mut z: usize = 0;
            while z < sz
                invariant
                    spec_compilable(d),
                    d == self.descriptor,
                    d.class != SilhouetteClass::Gate,
                    sx as int == spec_grid(d).0,
                    sy as int == spec_grid(d).1,
                    sz as int == spec_grid(d).2,
                    1 <= y < sy,
                    z <= sz,
                    forall|xx: int, yy: int, zz: int|
                        0 <= xx < sx && 1 <= yy < y && 0 <= zz < sz ==> #[trigger] spec_rests(
                            d,
                            xx,
                            yy,
                            zz,
                        ),
                    forall|xx: int, zz: int|
                        0 <= xx < sx && 0 <= zz < z ==> #[trigger] spec_rests(d, xx, y as int, zz),
                decreases sz - z,
            {
                let mut x: usize = 0;
                while x < sx
                    invariant
                        spec_compilable(d),
                        d == self.descriptor,
                        d.class != SilhouetteClass::Gate,
                        sx as int == spec_grid(d).0,
                        sy as int == spec_grid(d).1,
                        sz as int == spec_grid(d).2,
                        1 <= y < sy,
                        z < sz,
                        x <= sx,
                        forall|xx: int, yy: int, zz: int|
                            0 <= xx < sx && 1 <= yy < y && 0 <= zz < sz ==> #[trigger] spec_rests(
                                d,
                                xx,
                                yy,
                                zz,
                            ),
                        forall|xx: int, zz: int|
                            0 <= xx < sx && 0 <= zz < z ==> #[trigger] spec_rests(d, xx, y as int, zz),
                        forall|xx: int| 0 <= xx < x ==> #[trigger] spec_rests(d, xx, y as int, z as int),
                    decreases sx - x,
                {
                    if self.material_at(x, y, z).is_some() {
                        proof {
                            lemma_compilable_ranges(d);
                        }
                        let supported = self.material_at(x, y - 1, z).is_some()
                            || self.neighbour_below(x, y, z);
                        if !supported {
                            proof {
                                assert(!spec_rests(d, x as int, y as int, z as int));
                            }
                            return false;
                        }
                    }
                    x = x + 1;
                }
                z = z + 1;
            }
            y = y + 1;
        }
        true
    }

    /// Whether a horizontal neighbour of a voxel's column holds the course
    /// below it.
    fn neighbour_below(&self, x: usize, y: usize, z: usize) -> (found: bool)
        requires
            1 <= y,
            x < 100_000_000,
            z < 100_000_000,
        ensures
            found == spec_neighbour_below(self.spec_descriptor(), x as int, y as int, z as int),
    {
        if self.material_at(x + 1, y - 1, z).is_some() {
            return true;
        }
        if x > 0 && self.material_at(x - 1, y - 1, z).is_some() {
            return true;
        }
        if self.material_at(x, y - 1, z + 1).is_some() {
            return true;
        }
        if z > 0 && self.material_at(x, y - 1, z - 1).is_some() {
            return true;
        }
        false
    }
}




/// The cell a storage index holds.
spec fn spec_decode(d: MonolithDescriptor, i: int) -> (int, int, int) {
    let (sx, sy, sz) = spec_grid(d);
    (i % sx, i / sx / sz, (i / sx) % sz)
}

/// Some grounded path ends at the cell stored at an index.
spec fn grounded_at(d: MonolithDescriptor, i: int) -> bool {
    exists|path: Seq<(int, int, int)>|
        #[trigger] spec_grounded_path(d, path) && path.last() == spec_decode(d, i)
}

/// Every filled face neighbour of the cell at an index has been reached.
spec fn closed_at(d: MonolithDescriptor, seen: Seq<bool>, i: int) -> bool {
    let (sx, sy, sz) = spec_grid(d);
    let (x, y, z) = spec_decode(d, i);
    let cells = spec_cells(d);
    let layer = sx * sz;
    &&& (x + 1 < sx && cells[i + 1] is Some ==> seen[i + 1])
    &&& (x >= 1 && cells[i - 1] is Some ==> seen[i - 1])
    &&& (y + 1 < sy && cells[i + layer] is Some ==> seen[i + layer])
    &&& (y >= 1 && cells[i - layer] is Some ==> seen[i - layer])
    &&& (z + 1 < sz && cells[i + sx] is Some ==> seen[i + sx])
    &&& (z >= 1 && cells[i - sx] is Some ==> seen[i - sx])
}

/// Reaching more cells keeps a closed cell closed.
proof fn lemma_closed_grows(d: MonolithDescriptor, before: Seq<bool>, after: Seq<bool>, i: int)
    requires
        spec_compilable(d),
        before.len() == after.len(),
        forall|j: int| 0 <= j < before.len() && #[trigger] before[j] ==> after[j],
        closed_at(d, before, i),
        0 <= i < before.len(),
        ({
            let (sx, sy, sz) = spec_grid(d);
            let (x, y, z) = spec_decode(d, i);
            &&& (x + 1 < sx ==> i + 1 < before.len())
            &&& (x >= 1 ==> i - 1 >= 0)
            &&& (y + 1 < sy ==> i + sx * sz < before.len())
            &&& (y >= 1 ==> i - sx * sz >= 0)
            &&& (z + 1 < sz ==> i + sx < before.len())
            &&& (z >= 1 ==> i - sx >= 0)
        }),
    ensures
        closed_at(d, after, i),
{
    lemma_compilable_ranges(d);
    let (sx, sy, sz) = spec_grid(d);
    let layer = sx * sz;
    assert(layer >= 0) by (nonlinear_arith)
        requires
            layer == sx * sz,
            sx >= 1,
            sz >= 1,
    ;
    let (x, y, z) = spec_decode(d, i);
    if x + 1 < sx && before[i + 1] {
        assert(after[i + 1]);
    }
    if x >= 1 && before[i - 1] {
        assert(after[i - 1]);
    }
    if y + 1 < sy && before[i + layer] {
        assert(after[i + layer]);
    }
    if y >= 1 && before[i - layer] {
        assert(after[i - layer]);
    }
    if z + 1 < sz && before[i + sx] {
        assert(after[i + sx]);
    }
    if z >= 1 && before[i - sx] {
        assert(after[i - sx]);
    }
}


/// How many cells have not been reached.
spec fn unseen(seen: Seq<bool>) -> nat
    decreases seen.len(),
{
    if seen.len() == 0 {
        0
    } else {
        unseen(seen.drop_last()) + if seen.last() {
            0nat
        } else {
            1nat
        }
    }
}

proof fn lemma_unseen_mark(seen: Seq<bool>, q: int)
    requires
        0 <= q < seen.len(),
        !seen[q],
    ensures
        unseen(seen.update(q, true)) + 1 == unseen(seen),
    decreases seen.len(),
{
    let marked = seen.update(q, true);
    if q == seen.len() - 1 {
        assert(marked.drop_last() =~= seen.drop_last());
    } else {
        assert(marked.drop_last() =~= seen.drop_last().update(q, true));
        lemma_unseen_mark(seen.drop_last(), q);
    }
}

/// The neighbours of a stored cell sit one step, one row or one layer away.
proof fn lemma_neighbours(d: MonolithDescriptor, i: int)
    requires
        spec_compilable(d),
        0 <= i < spec_grid(d).0 * spec_grid(d).1 * spec_grid(d).2,
    ensures
        ({
            let (sx, sy, sz) = spec_grid(d);
            let (x, y, z) = spec_decode(d, i);
            let layer = sx * sz;
            &&& 0 <= x < sx && 0 <= y < sy && 0 <= z < sz
            &&& i == spec_index(sx, sz, x, y, z)
            &&& spec_cells(d)[i] == spec_cell(d, x, y, z)
            &&& (x + 1 < sx ==> i + 1 < sx * sy * sz && spec_decode(d, i + 1) == (x + 1, y, z))
            &&& (x >= 1 ==> i - 1 >= 0 && spec_decode(d, i - 1) == (x - 1, y, z))
            &&& (y + 1 < sy ==> i + layer < sx * sy * sz && spec_decode(d, i + layer) == (
                x,
                y + 1,
                z,
            ))
            &&& (y >= 1 ==> i - layer >= 0 && spec_decode(d, i - layer) == (x, y - 1, z))
            &&& (z + 1 < sz ==> i + sx < sx * sy * sz && spec_decode(d, i + sx) == (x, y, z + 1))
            &&& (z >= 1 ==> i - sx >= 0 && spec_decode(d, i - sx) == (x, y, z - 1))
        }),
{
    lemma_compilable_ranges(d);
    let (sx, sy, sz) = spec_grid(d);
    lemma_decode(i, sx, sz);
    let (x, y, z) = spec_decode(d, i);
    assert(y < sy) by (nonlinear_arith)
        requires
            i < sx * sy * sz,
            i == (y * sz + z) * sx + x,
            0 <= x < sx,
            0 <= z < sz,
            y >= 0,
    ;
    if x + 1 < sx {
        lemma_encode(x + 1, y, z, sx, sz);
    }
    if x >= 1 {
        lemma_encode(x - 1, y, z, sx, sz);
    }
    if y + 1 < sy {
        lemma_encode(x, y + 1, z, sx, sz);
        assert(spec_index(sx, sz, x, y + 1, z) == i + sx * sz) by (nonlinear_arith)
            requires
                i == (y * sz + z) * sx + x,
        ;
    }
    if y >= 1 {
        lemma_encode(x, y - 1, z, sx, sz);
        assert(spec_index(sx, sz, x, y - 1, z) == i - sx * sz) by (nonlinear_arith)
            requires
                i == (y * sz + z) * sx + x,
        ;
    }
    if z + 1 < sz {
        lemma_encode(x, y, z + 1, sx, sz);
        assert(spec_index(sx, sz, x, y, z + 1) == i + sx) by (nonlinear_arith)
            requires
                i == (y * sz + z) * sx + x,
        ;
    }
    if z >= 1 {
        lemma_encode(x, y, z - 1, sx, sz);
        assert(spec_index(sx, sz, x, y, z - 1) == i - sx) by (nonlinear_arith)
            requires
                i == (y * sz + z) * sx + x,
        ;
    }
    if y + 1 < sy {
        lemma_index_bound(x, y + 1, z, sx, sy, sz);
    }
    if z + 1 < sz {
        lemma_index_bound(x, y, z + 1, sx, sy, sz);
    }
    if x + 1 < sx {
        lemma_index_bound(x + 1, y, z, sx, sy, sz);
    }
}

/// A filled cell inside the grid is stored at its index.
proof fn lemma_occupied_stored(d: MonolithDescriptor, x: int, y: int, z: int)
    requires
        spec_compilable(d),
        spec_occupied(d, x, y, z),
    ensures
        ({
            let (sx, sy, sz) = spec_grid(d);
            let i = spec_index(sx, sz, x, y, z);
            &&& 0 <= x < sx && 0 <= y < sy && 0 <= z < sz
            &&& 0 <= i < sx * sy * sz
            &&& spec_decode(d, i) == (x, y, z)
            &&& spec_cells(d)[i] is Some
            &&& (y == 0 ==> i < sx * sz)
        }),
{
    lemma_compilable_ranges(d);
    let (sx, sy, sz) = spec_grid(d);
    lemma_encode(x, y, z, sx, sz);
    assert(spec_index(sx, sz, x, y, z) < sx * sy * sz) by (nonlinear_arith)
        requires
            0 <= x < sx,
            0 <= z < sz,
            0 <= y < sy,
    ;
    if y == 0 {
        assert(spec_index(sx, sz, x, y, z) < sx * sz) by (nonlinear_arith)
            requires
                0 <= x < sx,
                0 <= z < sz,
                y == 0,
        ;
    }
}

/// A reached, closed voxel passes reaching on to a filled voxel it shares a
/// face with.
#[verifier::rlimit(50)]
proof fn lemma_step_seen(d: MonolithDescriptor, seen: Seq<bool>, a: (int, int, int), b: (int, int, int))
    requires
        spec_compilable(d),
        seen.len() == spec_grid(d).0 * spec_grid(d).1 * spec_grid(d).2,
        spec_occupied(d, a.0, a.1, a.2),
        spec_occupied(d, b.0, b.1, b.2),
        spec_adjacent(a, b),
        seen[spec_index(spec_grid(d).0, spec_grid(d).2, a.0, a.1, a.2)],
        closed_at(d, seen, spec_index(spec_grid(d).0, spec_grid(d).2, a.0, a.1, a.2)),
    ensures
        seen[spec_index(spec_grid(d).0, spec_grid(d).2, b.0, b.1, b.2)],
{
    let (sx, sy, sz) = spec_grid(d);
    lemma_occupied_stored(d, a.0, a.1, a.2);
    lemma_occupied_stored(d, b.0, b.1, b.2);
    let pi = spec_index(sx, sz, a.0, a.1, a.2);
    let i = spec_index(sx, sz, b.0, b.1, b.2);
    lemma_neighbours(d, pi);
    if b.0 == a.0 + 1 {
        assert(i == pi + 1);
    } else if b.0 == a.0 - 1 {
        assert(i == pi - 1);
    } else if b.1 == a.1 + 1 {
        assert(i == pi + sx * sz) by (nonlinear_arith)
            requires
                i == ((a.1 + 1) * sz + a.2) * sx + a.0,
                pi == (a.1 * sz + a.2) * sx + a.0,
        ;
    } else if b.1 == a.1 - 1 {
        assert(i == pi - sx * sz) by (nonlinear_arith)
            requires
                i == ((a.1 - 1) * sz + a.2) * sx + a.0,
                pi == (a.1 * sz + a.2) * sx + a.0,
        ;
    } else if b.2 == a.2 + 1 {
        assert(i == pi + sx) by (nonlinear_arith)
            requires
                i == (a.1 * sz + a.2 + 1) * sx + a.0,
                pi == (a.1 * sz + a.2) * sx + a.0,
        ;
    } else {
        assert(b.2 == a.2 - 1);
        assert(i == pi - sx) by (nonlinear_arith)
            requires
                i == (a.1 * sz + a.2 - 1) * sx + a.0,
                pi == (a.1 * sz + a.2) * sx + a.0,
        ;
    }
}

/// Once every reached voxel is closed and the whole base course is reached,
/// every grounded path runs through reached voxels only.
proof fn lemma_paths_stay_seen(d: MonolithDescriptor, seen: Seq<bool>, path: Seq<(int, int, int)>, k: int)
    requires
        spec_compilable(d),
        seen.len() == spec_grid(d).0 * spec_grid(d).1 * spec_grid(d).2,
        forall|i: int| 0 <= i < seen.len() && #[trigger] seen[i] ==> closed_at(d, seen, i),
        forall|c: int|
            0 <= c < spec_grid(d).0 * spec_grid(d).2 && (#[trigger] spec_cells(d)[c]) is Some
                ==> seen[c],
        spec_grounded_path(d, path),
        0 <= k < path.len(),
    ensures
        seen[spec_index(spec_grid(d).0, spec_grid(d).2, path[k].0, path[k].1, path[k].2)],
    decreases k,
{
    let (sx, sy, sz) = spec_grid(d);
    let (x, y, z) = path[k];
    lemma_occupied_stored(d, x, y, z);
    if k == 0 {
        assert(spec_cells(d)[spec_index(sx, sz, x, y, z)] is Some);
    } else {
        lemma_paths_stay_seen(d, seen, path, k - 1);
        let a = path[k - 1];
        assert(spec_adjacent(path[k - 1], path[k]));
        lemma_occupied_stored(d, a.0, a.1, a.2);
        lemma_step_seen(d, seen, a, path[k]);
    }
}

/// Whether two cells hold the same thing.
fn same_cell(a: Option<LandmarkMaterial>, b: Option<LandmarkMaterial>) -> (same: bool)
    ensures
        same == (a == b),
{
    match (a, b) {
        (None, None) => true,
        (Some(left), Some(right)) => left == right,
        _ => false,
    }
}

/// Storage index of a cell.
pub open spec fn spec_index(sx: int, sz: int, x: int, y: int, z: int) -> int {
    (y * sz + z) * sx + x
}

/// A storage index splits into its cell, and the cell one course up lies one
/// layer further on.
proof fn lemma_decode(i: int, sx: int, sz: int)
    requires
        sx > 0,
        sz > 0,
        i >= 0,
    ensures
        0 <= i % sx < sx,
        0 <= (i / sx) % sz < sz,
        i / sx / sz >= 0,
        i == spec_index(sx, sz, i % sx, i / sx / sz, (i / sx) % sz),
        (i + sx * sz) % sx == i % sx,
        ((i + sx * sz) / sx) % sz == (i / sx) % sz,
        (i + sx * sz) / sx / sz == i / sx / sz + 1,
{
    let x = i % sx;
    let t = i / sx;
    let z = t % sz;
    let y = t / sz;
    assert(i == t * sx + x && 0 <= x < sx) by (nonlinear_arith)
        requires
            sx > 0,
            x == i % sx,
            t == i / sx,
    ;
    assert(t == y * sz + z && 0 <= z < sz && t >= 0) by (nonlinear_arith)
        requires
            sz > 0,
            i >= 0,
            sx > 0,
            t == i / sx,
            z == t % sz,
            y == t / sz,
    ;
    assert(y >= 0) by (nonlinear_arith)
        requires
            t >= 0,
            sz > 0,
            y == t / sz,
    ;
    lemma_encode(x, y + 1, z, sx, sz);
    assert(spec_index(sx, sz, x, y + 1, z) == i + sx * sz) by (nonlinear_arith)
        requires
            i == (y * sz + z) * sx + x,
    ;
}

/// Every cell of the grid is stored inside it.
proof fn lemma_index_bound(x: int, y: int, z: int, sx: int, sy: int, sz: int)
    requires
        0 <= x < sx,
        0 <= y < sy,
        0 <= z < sz,
    ensures
        0 <= spec_index(sx, sz, x, y, z) < sx * sy * sz,
{
    assert(y * sz + z + 1 <= (y + 1) * sz) by (nonlinear_arith)
        requires
            z < sz,
    ;
    lemma_mul_inequality(y * sz + z + 1, (y + 1) * sz, sx);
    lemma_mul_inequality(y + 1, sy, sz);
    lemma_mul_inequality((y + 1) * sz, sy * sz, sx);
    assert((y * sz + z + 1) * sx == (y * sz + z) * sx + sx) by (nonlinear_arith);
    assert(sy * sz * sx == sx * sy * sz) by (nonlinear_arith);
    assert(y * sz + z >= 0) by (nonlinear_arith)
        requires
            y >= 0,
            z >= 0,
            sz > 0,
    ;
    assert((y * sz + z) * sx >= 0) by (nonlinear_arith)
        requires
            y * sz + z >= 0,
            sx > 0,
    ;
}

/// The cell of a storage index comes back out of it.
proof fn lemma_encode(x: int, y: int, z: int, sx: int, sz: int)
    requires
        0 <= x < sx,
        0 <= z < sz,
        y >= 0,
    ensures
        ({
            let i = spec_index(sx, sz, x, y, z);
            &&& i >= 0
            &&& i % sx == x
            &&& i / sx == y * sz + z
            &&& (i / sx) % sz == z
            &&& i / sx / sz == y
        }),
{
    let i = spec_index(sx, sz, x, y, z);
    assert(y * sz + z >= 0) by (nonlinear_arith)
        requires
            y >= 0,
            z >= 0,
            sz > 0,
    ;
    assert(i >= 0) by (nonlinear_arith)
        requires
            i == (y * sz + z) * sx + x,
            y * sz + z >= 0,
            sx > 0,
            x >= 0,
    ;
    lemma_fundamental_div_mod_converse(i, sx, y * sz + z, x);
    lemma_fundamental_div_mod_converse(y * sz + z, sz, y, z);
}

/// The one record that describes column `(x, z)`.
pub open spec fn spec_column_record(d: MonolithDescriptor, x: int, z: int) -> Option<(i32, i32)> {
    choose|column: Option<(i32, i32)>| spec_column_ok(d, x, z, column)
}

/// A column has one record only.
proof fn lemma_column_record(d: MonolithDescriptor, x: int, z: int, column: Option<(i32, i32)>)
    requires
        spec_column_ok(d, x, z, column),
    ensures
        spec_column_record(d, x, z) == column,
{
    let other = spec_column_record(d, x, z);
    assert(spec_column_ok(d, x, z, other));
    match (other, column) {
        (Some((a, b)), Some((c, e))) => {
            if a < c {
                assert(spec_cell(d, x, a as int, z) is Some);
            }
            if c < a {
                assert(spec_cell(d, x, c as int, z) is Some);
            }
            if b < e {
                assert(spec_cell(d, x, e as int, z) is Some);
            }
            if e < b {
                assert(spec_cell(d, x, b as int, z) is Some);
            }
        },
        (Some((a, b)), None) => {
            assert(spec_cell(d, x, a as int, z) is Some);
        },
        (None, Some((c, e))) => {
            assert(spec_cell(d, x, c as int, z) is Some);
        },
        (None, None) => {},
    }
}

/// The record of the column at index `i`, columns counted along `x` first.
pub open spec fn spec_record_at(d: MonolithDescriptor, i: int) -> Option<(i32, i32)> {
    let sx = spec_grid(d).0;
    spec_column_record(d, i % sx, i / sx)
}

/// Grounded column heights by index: a column that reaches the ground
/// stands its highest course plus one tall; any other holds nothing.
pub open spec fn spec_ground_table(d: MonolithDescriptor) -> Seq<Option<i64>> {
    let (sx, sy, sz) = spec_grid(d);
    Seq::new(
        (sx * sz) as nat,
        |i: int|
            match spec_record_at(d, i) {
                Some((low, high)) => if low == 0 {
                    Some((high + 1) as i64)
                } else {
                    None
                },
                None => None,
            },
    )
}

/// The course from which the top quarter of a landmark begins.
pub open spec fn spec_crown_floor(d: MonolithDescriptor) -> int {
    d.height - d.height / 4
}

/// Columns among the first `k` that reach into the top quarter.
pub open spec fn spec_crown_columns(d: MonolithDescriptor, k: int) -> int
    decreases k,
{
    if k <= 0 {
        0
    } else {
        spec_crown_columns(d, k - 1) + match spec_record_at(d, k - 1) {
            Some((low, high)) => if high + 1 >= spec_crown_floor(d) {
                1int
            } else {
                0int
            },
            None => 0int,
        }
    }
}

/// Columns among the first `k` with air under their lowest course.
pub open spec fn spec_opening_columns(d: MonolithDescriptor, k: int) -> int
    decreases k,
{
    if k <= 0 {
        0
    } else {
        spec_opening_columns(d, k - 1) + match spec_record_at(d, k - 1) {
            Some((low, high)) => if low > 0 {
                1int
            } else {
                0int
            },
            None => 0int,
        }
    }
}

/// The lowest lowest-course among the first `k` columns with air under
/// them, or the largest value where there is none.
pub open spec fn spec_opening_floor(d: MonolithDescriptor, k: int) -> i64
    decreases k,
{
    if k <= 0 {
        i64::MAX
    } else {
        let rest = spec_opening_floor(d, k - 1);
        match spec_record_at(d, k - 1) {
            Some((low, high)) => if low > 0 && (low as i64) < rest {
                low as i64
            } else {
                rest
            },
            None => rest,
        }
    }
}

/// What a landmark looks like from outside, in voxels: the integer part of
/// its silhouette, and the separate masses it stands on.
#[derive(Debug, PartialEq, Eq)]
pub struct SilhouetteShape {
    /// Total height in voxels, base course included.
    pub height: i64,
    /// Footprint along x and along z.
    pub footprint: (i64, i64),
    /// Widest horizontal extent of the outline, in columns.
    pub width: i64,
    /// Columns occupied in the top quarter of the height.
    pub crown_width: i64,
    /// Columns a body can pass under.
    pub opening_columns: i64,
    /// Clear height under the opening, zero where there is none.
    pub opening_clearance: i64,
    /// The grounded masses, in the order of their first column.
    pub masses: Vec<GroundedMass>,
}

impl CompiledMonolith {
    /// One pass over the columns, along `x` first: the grounded table, the
    /// crown columns, the opening columns and the lowest opening.
    fn column_scan(&self) -> (scan: (Vec<Option<i64>>, i64, i64, i64))
        ensures
            ({
                let d = self.spec_descriptor();
                let (sx, sy, sz) = spec_grid(d);
                &&& scan.0@ == spec_ground_table(d)
                &&& scan.1 == spec_crown_columns(d, sx * sz)
                &&& scan.2 == spec_opening_columns(d, sx * sz)
                &&& scan.3 == spec_opening_floor(d, sx * sz)
            }),
    {
        proof {
            use_type_invariant(self);
            lemma_compilable_ranges(self.descriptor);
        }
        let ghost d = self.descriptor;
        let sx = self.size_x;
        let sz = self.size_z;
        let total = sx * sz;
        let mut table: Vec<Option<i64>> = Vec::new();
        let mut crown: i64 = 0;
        let mut openings: i64 = 0;
        let mut floor: i64 = i64::MAX;
        let crown_floor = self.descriptor.height - self.descriptor.height / 4;
        let mut i: usize = 0;
        let mut x: usize = 0;
        let mut z: usize = 0;
        while i < total
            invariant
                d == self.spec_descriptor(),
                sx as int == spec_grid(d).0,
                sz as int == spec_grid(d).2,
                1 <= sx <= 32_537_631,
                1 <= sz <= 32_537_631,
                total == sx * sz,
                total <= 97_612_893,
                crown_floor == spec_crown_floor(d),
                i <= total,
                x < sx,
                i == z * sx + x,
                table@.len() == i,
                forall|k: int| 0 <= k < i ==> #[trigger] table@[k] == spec_ground_table(d)[k],
                crown == spec_crown_columns(d, i as int),
                openings == spec_opening_columns(d, i as int),
                floor == spec_opening_floor(d, i as int),
                0 <= crown <= i,
                0 <= openings <= i,
            decreases total - i,
        {
            proof {
                assert(z < sz) by (nonlinear_arith)
                    requires
                        i == z * sx + x,
                        i < sx * sz,
                        x < sx,
                ;
                lemma_fundamental_div_mod_converse(i as int, sx as int, z as int, x as int);
            }
            let column = self.column(x, z);
            proof {
                lemma_column_record(d, x as int, z as int, column);
                assert(spec_record_at(d, i as int) == column);
            }
            let entry = match column {
                Some((low, high)) => if low == 0 {
                    Some(high as i64 + 1)
                } else {
                    None
                },
                None => None,
            };
            match column {
                Some((low, high)) => {
                    if high as i64 + 1 >= crown_floor {
                        crown = crown + 1;
                    }
                    if low > 0 {
                        openings = openings + 1;
                        if (low as i64) < floor {
                            floor = low as i64;
                        }
                    }
                },
                None => {},
            }
            table.push(entry);
            proof {
                assert(table@[i as int] == spec_ground_table(d)[i as int]);
            }
            i = i + 1;
            if x + 1 < sx {
                x = x + 1;
            } else {
                proof {
                    assert(i == (z + 1) * sx) by (nonlinear_arith)
                        requires
                            i == z * sx + x + 1,
                            x + 1 == sx,
                    ;
                }
                x = 0;
                z = z + 1;
            }
        }
        proof {
            assert(table@ =~= spec_ground_table(d));
        }
        (table, crown, openings, floor)
    }

    /// The separate masses the landmark stands on.
    pub fn grounded_masses(&self) -> (masses: Vec<GroundedMass>)
        ensures
            spec_masses(spec_ground_table(self.spec_descriptor()), spec_grid(self.spec_descriptor()).0, masses@),
    {
        proof {
            use_type_invariant(self);
            lemma_compilable_ranges(self.descriptor);
        }
        let scan = self.column_scan();
        masses_of(&scan.0, self.size_x)
    }

    /// The landmark's silhouette: height, footprint and width from its
    /// descriptor, the columns in its crown and under its opening, the
    /// clear height of the opening and its separate masses.
    pub fn silhouette_shape(&self) -> (shape: SilhouetteShape)
        ensures
            ({
                let d = self.spec_descriptor();
                let (sx, sy, sz) = spec_grid(d);
                &&& shape.height == d.height
                &&& shape.footprint == match d.axis {
                    SpanAxis::X => (spec_span_width(d) as i64, d.depth),
                    SpanAxis::Z => (d.depth, spec_span_width(d) as i64),
                }
                &&& shape.width == spec_span_width(d)
                &&& shape.crown_width == spec_crown_columns(d, sx * sz)
                &&& shape.opening_columns == spec_opening_columns(d, sx * sz)
                &&& shape.opening_clearance == if spec_opening_columns(d, sx * sz) == 0 {
                    0
                } else {
                    spec_opening_floor(d, sx * sz)
                }
                &&& spec_masses(spec_ground_table(d), sx, shape.masses@)
            }),
    {
        proof {
            use_type_invariant(self);
            lemma_compilable_ranges(self.descriptor);
        }
        let scan = self.column_scan();
        let masses = masses_of(&scan.0, self.size_x);
        let d = &self.descriptor;
        let width = match d.class {
            SilhouetteClass::Spire => d.shaft_width,
            SilhouetteClass::Gate => 2 * d.shaft_width + d.opening,
            SilhouetteClass::Broken => 2 * d.shaft_width + d.opening + RUBBLE_APRON,
        };
        let footprint = match d.axis {
            SpanAxis::X => (width, d.depth),
            SpanAxis::Z => (d.depth, width),
        };
        SilhouetteShape {
            height: self.descriptor.height,
            footprint,
            width,
            crown_width: scan.1,
            opening_columns: scan.2,
            opening_clearance: if scan.2 == 0 {
                0
            } else {
                scan.3
            },
            masses,
        }
    }
}

} // verus!
