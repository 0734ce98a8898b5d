//! Where a plan looks for ground: the rings of columns an overlook search
//! walks out from its hint, the columns that decide whether a pad is level
//! and dry, and the jittered lattice landmark sites are drawn from.
//!
//! Everything here is integer geometry over columns; what the terrain holds
//! at a column is asked for by the caller.

use vstd::prelude::*;

use crate::procedural::landmark::plan::{spec_in_plan_range, PLAN_COORD_LIMIT};
use crate::procedural::noise::{hash_2d, spec_hash_2d, spec_sub_hash, sub_hash};

verus! {

/// Whether a column lies on the square ring `radius` columns out from `hint`.
pub open spec fn spec_on_ring(hint: (i64, i64), radius: int, c: (i64, i64)) -> bool {
    let dx = c.0 - hint.0;
    let dz = c.1 - hint.1;
    &&& -radius <= dx <= radius
    &&& -radius <= dz <= radius
    &&& (dx == -radius || dx == radius || dz == -radius || dz == radius)
}

/// Column order of a search: by `z`, then by `x`.
pub open spec fn spec_column_before(a: (i64, i64), b: (i64, i64)) -> bool {
    a.1 < b.1 || (a.1 == b.1 && a.0 < b.0)
}

/// Columns in strictly increasing search order, so none occurs twice.
pub open spec fn spec_in_search_order(columns: Seq<(i64, i64)>) -> bool {
    forall|i: int, j: int| 0 <= i < j < columns.len() ==> spec_column_before(columns[i], columns[j])
}

/// Every column of `columns` is one `keep` selects, and every column `keep`
/// selects before `limit` in search order is among them.
spec fn spec_collects_before(columns: Seq<(i64, i64)>, hint: (i64, i64), radius: int, limit: (i64, i64)) -> bool {
    &&& forall|i: int| 0 <= i < columns.len() ==> spec_on_ring(hint, radius, #[trigger] columns[i])
    &&& forall|i: int| 0 <= i < columns.len() ==> spec_column_before(#[trigger] columns[i], limit)
    &&& forall|c: (i64, i64)|
        spec_on_ring(hint, radius, c) && spec_column_before(c, limit) ==> #[trigger] columns.contains(c)
}

/// Appending a column at the end keeps what was collected.
proof fn lemma_push_keeps(columns: Seq<(i64, i64)>, c: (i64, i64))
    ensures
        forall|d: (i64, i64)| columns.contains(d) ==> #[trigger] columns.push(c).contains(d),
        columns.push(c).contains(c),
{
    assert(columns.push(c)[columns.len() as int] == c);
    assert forall|d: (i64, i64)| columns.contains(d) implies #[trigger] columns.push(c).contains(d) by {
        let i = choose|i: int| 0 <= i < columns.len() && columns[i] == d;
        assert(columns.push(c)[i] == d);
    }
}

/// The ring of columns `radius` out from `hint`, each once, in search order:
/// by `z`, then by `x`. Walking the rings outward in this order makes the
/// nearest suitable column win and resolves ties the same way in every run.
pub fn overlook_ring(hint: (i64, i64), radius: i64) -> (ring: Vec<(i64, i64)>)
    requires
        spec_in_plan_range(hint.0 as int),
        spec_in_plan_range(hint.1 as int),
        0 <= radius <= PLAN_COORD_LIMIT,
    ensures
        spec_in_search_order(ring@),
        forall|i: int| 0 <= i < ring@.len() ==> spec_on_ring(hint, radius as int, #[trigger] ring@[i]),
        forall|c: (i64, i64)| spec_on_ring(hint, radius as int, c) ==> #[trigger] ring@.contains(c),
{
    let mut ring: Vec<(i64, i64)> = Vec::new();
    let mut dz: i64 = -radius;
    while dz <= radius
        invariant
            spec_in_plan_range(hint.0 as int),
            spec_in_plan_range(hint.1 as int),
            0 <= radius <= PLAN_COORD_LIMIT,
            -radius <= dz <= radius + 1,
            spec_in_search_order(ring@),
            spec_collects_before(ring@, hint, radius as int, (i64::MIN, (hint.1 + dz) as i64)),
        decreases radius + 1 - dz,
    {
        let z = hint.1 + dz;
        if dz == -radius || dz == radius {
            let mut dx: i64 = -radius;
            while dx <= radius
                invariant
                    spec_in_plan_range(hint.0 as int),
                    spec_in_plan_range(hint.1 as int),
                    0 <= radius <= PLAN_COORD_LIMIT,
                    -radius <= dz <= radius,
                    dz == -radius || dz == radius,
                    z == hint.1 + dz,
                    -radius <= dx <= radius + 1,
                    spec_in_search_order(ring@),
                    spec_collects_before(ring@, hint, radius as int, ((hint.0 + dx) as i64, z)),
                decreases radius + 1 - dx,
            {
                let column = (hint.0 + dx, z);
                proof {
                    lemma_push_keeps(ring@, column);
                }
                ring.push(column);
                dx = dx + 1;
            }
            proof {
                assert forall|c: (i64, i64)|
                    spec_on_ring(hint, radius as int, c) && spec_column_before(
                        c,
                        (i64::MIN, (hint.1 + dz + 1) as i64),
                    ) implies #[trigger] ring@.contains(c) by {
                    assert(spec_column_before(c, ((hint.0 + dx) as i64, z)));
                }
            }
        } else {
            let west = (hint.0 - radius, z);
            proof {
                assert(spec_on_ring(hint, radius as int, west));
                lemma_push_keeps(ring@, west);
            }
            ring.push(west);
            let east = (hint.0 + radius, z);
            proof {
                assert(spec_on_ring(hint, radius as int, east));
                lemma_push_keeps(ring@, east);
            }
            ring.push(east);
            proof {
                assert forall|c: (i64, i64)|
                    spec_on_ring(hint, radius as int, c) && spec_column_before(
                        c,
                        (i64::MIN, (hint.1 + dz + 1) as i64),
                    ) implies #[trigger] ring@.contains(c) by {
                    if c.1 != z {
                        assert(spec_column_before(c, (i64::MIN, z)));
                    } else if c.0 == west.0 {
                        assert(c == west);
                    } else {
                        assert(c == east);
                    }
                }
            }
        }
        dz = dz + 1;
    }
    proof {
        assert forall|c: (i64, i64)| spec_on_ring(hint, radius as int, c) implies #[trigger] ring@.contains(c) by {
            assert(spec_column_before(c, (i64::MIN, (hint.1 + dz) as i64)));
        }
    }
    ring
}

/// Columns a pad keeps clear beyond its own radius, so no landmark stands on
/// a shoreline.
pub const PAD_MARGIN: i64 = 3;

/// The ground under a square of columns around a centre, `margin` columns
/// out on every side: the terrain face and whether water stands there, row by
/// row along `z`, each row along `x`.
pub struct PadSurvey {
    pub centre: (i64, i64),
    pub margin: i64,
    pub faces: Vec<i32>,
    pub water: Vec<bool>,
}

/// Where the column `(dx, dz)` off a survey's centre is kept.
pub open spec fn spec_survey_index(margin: int, dx: int, dz: int) -> int {
    (dz + margin) * (2 * margin + 1) + (dx + margin)
}

/// A survey that covers its whole square.
pub open spec fn spec_survey_complete(survey: PadSurvey) -> bool {
    let side = 2 * survey.margin + 1;
    &&& 0 <= survey.margin <= PLAN_COORD_LIMIT
    &&& survey.faces@.len() == side * side
    &&& survey.water@.len() == side * side
}

pub open spec fn spec_face_off(survey: PadSurvey, dx: int, dz: int) -> i32 {
    survey.faces@[spec_survey_index(survey.margin as int, dx, dz)]
}

pub open spec fn spec_water_off(survey: PadSurvey, dx: int, dz: int) -> bool {
    survey.water@[spec_survey_index(survey.margin as int, dx, dz)]
}

/// Whether a column stands within one voxel of the centre's face.
pub open spec fn spec_level_with(survey: PadSurvey, dx: int, dz: int) -> bool {
    -1 <= spec_face_off(survey, dx, dz) - spec_face_off(survey, 0, 0) <= 1
}

/// Whether a disc of `radius` columns with its margin lies inside the
/// inclusive region `(min x, max x, min z, max z)`.
pub open spec fn spec_pad_inside(centre: (i64, i64), radius: int, region: (i64, i64, i64, i64)) -> bool {
    let margin = radius + PAD_MARGIN;
    &&& centre.0 - margin >= region.0
    &&& centre.0 + margin <= region.1
    &&& centre.1 - margin >= region.2
    &&& centre.1 + margin <= region.3
}

/// Whether a disc of `radius` columns around the survey's centre is a place
/// a landmark or an overlook can stand: inside the region with its margin,
/// dry at the centre, level and dry at the four rim points and two margin
/// corners, level to a voxel over the whole disc, and dry on every second
/// column of the margin square.
pub open spec fn spec_level_and_dry(radius: int, region: (i64, i64, i64, i64), survey: PadSurvey) -> bool {
    let m = radius + PAD_MARGIN;
    &&& spec_pad_inside(survey.centre, radius, region)
    &&& !spec_water_off(survey, 0, 0)
    &&& forall|k: int|
        0 <= k < 6 ==> spec_level_with(survey, #[trigger] spec_probe(radius, k).0, spec_probe(radius, k).1)
            && !spec_water_off(survey, spec_probe(radius, k).0, spec_probe(radius, k).1)
    &&& forall|dx: int, dz: int|
        -radius <= dx <= radius && -radius <= dz <= radius && dx * dx + dz * dz <= radius * radius
            ==> #[trigger] spec_level_with(survey, dx, dz)
    &&& forall|dx: int, dz: int|
        -m <= dx <= m && -m <= dz <= m && (dx + m) % 2 == 0 && (dz + m) % 2 == 0 ==> !#[trigger] spec_water_off(
            survey,
            dx,
            dz,
        )
}

/// The six quick probes, in the order they are asked: the four rim points,
/// then two opposite corners of the margin square.
pub open spec fn spec_probe(radius: int, k: int) -> (int, int) {
    let m = radius + PAD_MARGIN;
    if k == 0 {
        (radius, 0)
    } else if k == 1 {
        (-radius, 0)
    } else if k == 2 {
        (0, radius)
    } else if k == 3 {
        (0, -radius)
    } else if k == 4 {
        (m, m)
    } else {
        (-m, -m)
    }
}

impl PadSurvey {
    fn index(&self, dx: i64, dz: i64) -> (i: usize)
        requires
            spec_survey_complete(*self),
            -self.margin <= dx <= self.margin,
            -self.margin <= dz <= self.margin,
        ensures
            i as int == spec_survey_index(self.margin as int, dx as int, dz as int),
            (i as int) < self.faces@.len(),
    {
        let len = self.faces.len();
        let side = 2 * self.margin + 1;
        proof {
            assert(side * side <= 0x2000_0000_0000_0000) by (nonlinear_arith)
                requires
                    1 <= side <= 2 * PLAN_COORD_LIMIT + 1,
            ;
            assert((dz + self.margin) * side + (dx + self.margin) < side * side) by (nonlinear_arith)
                requires
                    0 <= dz + self.margin < side,
                    0 <= dx + self.margin < side,
            ;
            assert(0 <= (dz + self.margin) * side <= side * side) by (nonlinear_arith)
                requires
                    0 <= dz + self.margin < side,
                    0 < side,
            ;
        }
        ((dz + self.margin) * side + (dx + self.margin)) as usize
    }
}

/// The probe of the given place in the order they are asked.
fn probe(radius: i64, k: usize) -> (offset: (i64, i64))
    requires
        0 <= radius <= PLAN_COORD_LIMIT,
    ensures
        offset.0 == spec_probe(radius as int, k as int).0,
        offset.1 == spec_probe(radius as int, k as int).1,
{
    let margin = radius + PAD_MARGIN;
    if k == 0 {
        (radius, 0)
    } else if k == 1 {
        (-radius, 0)
    } else if k == 2 {
        (0, radius)
    } else if k == 3 {
        (0, -radius)
    } else if k == 4 {
        (margin, margin)
    } else {
        (-margin, -margin)
    }
}

/// Judges a pad from its survey, asking its columns in the order that rejects
/// most candidates soonest: the region, the centre, six probes, the disc,
/// then the margin.
pub fn level_and_dry(radius: i64, region: (i64, i64, i64, i64), survey: &PadSurvey) -> (fits: bool)
    requires
        0 <= radius <= PLAN_COORD_LIMIT,
        survey.margin == radius + PAD_MARGIN,
        spec_survey_complete(*survey),
        spec_in_plan_range(survey.centre.0 as int),
        spec_in_plan_range(survey.centre.1 as int),
    ensures
        fits == spec_level_and_dry(radius as int, region, *survey),
{
    let margin = survey.margin;
    let centre = survey.centre;
    if centre.0 - margin < region.0 || centre.0 + margin > region.1 || centre.1 - margin < region.2
        || centre.1 + margin > region.3 {
        return false;
    }
    let base = survey.faces[survey.index(0, 0)];
    if survey.water[survey.index(0, 0)] {
        return false;
    }
    let mut k: usize = 0;
    while k < 6
        invariant
            0 <= radius <= PLAN_COORD_LIMIT,
            margin == radius + PAD_MARGIN,
            survey.margin == margin,
            spec_survey_complete(*survey),
            base == spec_face_off(*survey, 0, 0),
            k <= 6,
            forall|j: int|
                0 <= j < k ==> spec_level_with(*survey, #[trigger] spec_probe(radius as int, j).0, spec_probe(
                    radius as int,
                    j,
                ).1) && !spec_water_off(*survey, spec_probe(radius as int, j).0, spec_probe(radius as int, j).1),
        decreases 6 - k,
    {
        let (dx, dz) = probe(radius, k);
        let i = survey.index(dx, dz);
        let face = survey.faces[i];
        if (face as i64) - (base as i64) > 1 || (base as i64) - (face as i64) > 1 || survey.water[i] {
            proof {
                assert(!(spec_level_with(*survey, spec_probe(radius as int, k as int).0, spec_probe(radius as int, k as int).1)
                    && !spec_water_off(*survey, spec_probe(radius as int, k as int).0, spec_probe(radius as int, k as int).1)));
            }
            return false;
        }
        k = k + 1;
    }
    let mut dz: i64 = -radius;
    while dz <= radius
        invariant
            0 <= radius <= PLAN_COORD_LIMIT,
            margin == radius + PAD_MARGIN,
            spec_survey_complete(*survey),
            survey.margin == margin,
            base == spec_face_off(*survey, 0, 0),
            -radius <= dz <= radius + 1,
            forall|x: int, z: int|
                -radius <= x <= radius && -radius <= z < dz && x * x + z * z <= radius * radius
                    ==> #[trigger] spec_level_with(*survey, x, z),
        decreases radius + 1 - dz,
    {
        let mut dx: i64 = -radius;
        while dx <= radius
            invariant
                0 <= radius <= PLAN_COORD_LIMIT,
                margin == radius + PAD_MARGIN,
                spec_survey_complete(*survey),
                survey.margin == margin,
                base == spec_face_off(*survey, 0, 0),
                -radius <= dz <= radius,
                -radius <= dx <= radius + 1,
                forall|x: int, z: int|
                    -radius <= x <= radius && -radius <= z < dz && x * x + z * z <= radius * radius
                        ==> #[trigger] spec_level_with(*survey, x, z),
                forall|x: int|
                    -radius <= x < dx && x * x + dz * dz <= radius * radius ==> #[trigger] spec_level_with(
                        *survey,
                        x,
                        dz as int,
                    ),
            decreases radius + 1 - dx,
        {
            proof {
                assert(0 <= dx * dx <= radius * radius && 0 <= dz * dz <= radius * radius && radius * radius
                    <= PLAN_COORD_LIMIT * PLAN_COORD_LIMIT) by (nonlinear_arith)
                    requires
                        -radius <= dx <= radius,
                        -radius <= dz <= radius,
                        0 <= radius <= PLAN_COORD_LIMIT,
                ;
            }
            if dx * dx + dz * dz <= radius * radius {
                let i = survey.index(dx, dz);
                let face = survey.faces[i];
                if (face as i64) - (base as i64) > 1 || (base as i64) - (face as i64) > 1 {
                    proof {
                        assert(!spec_level_with(*survey, dx as int, dz as int));
                    }
                    return false;
                }
            }
            dx = dx + 1;
        }
        dz = dz + 1;
    }
    let mut dz: i64 = -margin;
    while dz <= margin
        invariant
            0 <= radius <= PLAN_COORD_LIMIT,
            margin == radius + PAD_MARGIN,
            spec_survey_complete(*survey),
            survey.margin == margin,
            -margin <= dz <= margin + 2,
            (dz + margin) % 2 == 0,
            forall|x: int, z: int|
                -margin <= x <= margin && -margin <= z < dz && (x + margin) % 2 == 0 && (z + margin) % 2 == 0
                    ==> !#[trigger] spec_water_off(*survey, x, z),
        decreases margin + 2 - dz,
    {
        let mut dx: i64 = -margin;
        while dx <= margin
            invariant
                0 <= radius <= PLAN_COORD_LIMIT,
                margin == radius + PAD_MARGIN,
                spec_survey_complete(*survey),
                survey.margin == margin,
                -margin <= dz <= margin,
                (dz + margin) % 2 == 0,
                -margin <= dx <= margin + 2,
                (dx + margin) % 2 == 0,
                forall|x: int, z: int|
                    -margin <= x <= margin && -margin <= z < dz && (x + margin) % 2 == 0 && (z + margin) % 2
                        == 0 ==> !#[trigger] spec_water_off(*survey, x, z),
                forall|x: int|
                    -margin <= x < dx && (x + margin) % 2 == 0 ==> !#[trigger] spec_water_off(
                        *survey,
                        x,
                        dz as int,
                    ),
            decreases margin + 2 - dx,
        {
            if survey.water[survey.index(dx, dz)] {
                proof {
                    assert(spec_water_off(*survey, dx as int, dz as int));
                }
                return false;
            }
            dx = dx + 2;
        }
        dz = dz + 2;
    }
    true
}

/// How far a site may stray from its lattice point on each axis.
pub const SITE_JITTER: i64 = 2;

/// A site's offset on one axis from its lattice point, drawn from the cell's
/// hash: `-SITE_JITTER..=SITE_JITTER`.
pub open spec fn spec_site_jitter(hash: u64, draw: u64) -> int {
    (spec_sub_hash(hash, draw) % 5) as int - SITE_JITTER
}

/// The site a lattice cell offers: its lattice point, jittered by the cell's
/// hash under the placement stream.
pub open spec fn spec_lattice_site(cell_x: i64, cell_z: i64, lattice: i64, seed: u64, stream: u64) -> (int, int) {
    let hash = spec_hash_2d(seed, stream, cell_x, cell_z);
    (cell_x * lattice + spec_site_jitter(hash, 0), cell_z * lattice + spec_site_jitter(hash, 1))
}

/// The site one cell of the placement lattice offers.
pub fn lattice_site(cell_x: i64, cell_z: i64, lattice: i64, seed: u64, stream: u64) -> (site: (i64, i64))
    requires
        1 <= lattice <= PLAN_COORD_LIMIT,
        spec_in_plan_range(cell_x as int),
        spec_in_plan_range(cell_z as int),
    ensures
        site.0 == spec_lattice_site(cell_x, cell_z, lattice, seed, stream).0,
        site.1 == spec_lattice_site(cell_x, cell_z, lattice, seed, stream).1,
{
    proof {
        assert(-0x400_0000_0000_0000 <= cell_x * lattice <= 0x400_0000_0000_0000) by (nonlinear_arith)
            requires
                1 <= lattice <= PLAN_COORD_LIMIT,
                -PLAN_COORD_LIMIT <= cell_x <= PLAN_COORD_LIMIT,
        ;
        assert(-0x400_0000_0000_0000 <= cell_z * lattice <= 0x400_0000_0000_0000) by (nonlinear_arith)
            requires
                1 <= lattice <= PLAN_COORD_LIMIT,
                -PLAN_COORD_LIMIT <= cell_z <= PLAN_COORD_LIMIT,
        ;
    }
    let hash = hash_2d(seed, stream, cell_x, cell_z);
    let span = (2 * SITE_JITTER + 1) as u64;
    let jitter_x = (sub_hash(hash, 0) % span) as i64 - SITE_JITTER;
    let jitter_z = (sub_hash(hash, 1) % span) as i64 - SITE_JITTER;
    (cell_x * lattice + jitter_x, cell_z * lattice + jitter_z)
}

} // verus!
