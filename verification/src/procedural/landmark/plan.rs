//! The landmark plan: a finite, deterministic, immutable description of every
//! landmark in one world: where each stands, what it is made of, the ground
//! kept free of plants, and where a session first looks out over the world.
//!
//! Choosing the sites is a question of sight lines over the terrain field and
//! happens before a plan is assembled; everything asked of a plan once it
//! exists is answered here.

use vstd::bytes::*;
use vstd::prelude::*;

use crate::bytes::{push_i32, push_i64, push_u32, push_u64};
use crate::hash::{fnv1a64, spec_fnv1a64};
use crate::procedural::landmark::compile::{
    lemma_compilable_ranges, lemma_seeded_compilable, spec_column_ok, spec_compilable, spec_geometry_fingerprint, spec_grid,
    spec_material_at, CompiledMonolith,
};
use crate::procedural::landmark::descriptor::{
    lemma_seeded_descriptors_validate, spec_descriptor_fingerprint, spec_from_seed,
    MonolithDescriptor, SilhouetteClass, SpanAxis,
};
use crate::procedural::landmark::material::LandmarkMaterial;
use crate::procedural::landmark::LANDMARK_PLAN_VERSION;
use crate::procedural::noise::{hash_2d, spec_hash_2d, spec_sub_hash, sub_hash};
use crate::tags::{spec_tag_landmark_plan, tag_landmark_plan};

verus! {

/// What a landmark is for, in the discovery composition.
#[derive(Clone, Copy, Debug, PartialEq, Eq, Structural)]
pub enum LandmarkRole {
    /// Visible from the overlook: one of the two the first choice is between.
    FirstChoice,
    /// Hidden from the overlook and found from one of the first two.
    Revealed,
}

impl LandmarkRole {
    pub fn name(self) -> (name: &'static str)
        ensures
            self == LandmarkRole::FirstChoice ==> name@ == "first-choice"@,
            self == LandmarkRole::Revealed ==> name@ == "revealed"@,
    {
        match self {
            LandmarkRole::FirstChoice => "first-choice",
            LandmarkRole::Revealed => "revealed",
        }
    }
}

/// Ground a landmark plan keeps free of plants.
#[derive(Clone, Copy, Debug, PartialEq, Eq)]
pub enum Reservation {
    /// A clearing: a plant anchored inside the disc is not grown.
    Clearing { centre: (i64, i64), radius: i64 },
    /// A structure and its apron: a plant whose horizontal bounds touch the
    /// rectangle is not grown, so nothing can lean into the stone.
    Footprint { min_x: i64, max_x: i64, min_z: i64, max_z: i64 },
}

/// Whether a reservation's arithmetic on a plant stays inside `i64`: the
/// squared distance of the anchor from a clearing's centre, and the squared
/// radius.
pub open spec fn spec_suppression_fits(reservation: Reservation, anchor_x: i64, anchor_z: i64) -> bool {
    match reservation {
        Reservation::Clearing { centre, radius } => {
            let dx = anchor_x - centre.0;
            let dz = anchor_z - centre.1;
            &&& i64::MIN <= dx <= i64::MAX
            &&& i64::MIN <= dz <= i64::MAX
            &&& dx * dx <= i64::MAX
            &&& dx * dx + dz * dz <= i64::MAX
            &&& radius * radius <= i64::MAX
        },
        Reservation::Footprint { .. } => true,
    }
}

/// Whether none of the first `i` reservations removes the plant: the ones a
/// query in order has asked before it reaches the reservation at `i`.
pub open spec fn spec_none_suppress_before(
    reservations: Seq<Reservation>,
    i: int,
    anchor_x: i64,
    anchor_z: i64,
    min_x: i64,
    max_x: i64,
    min_z: i64,
    max_z: i64,
) -> bool {
    forall|k: int|
        0 <= k < i ==> !spec_suppresses(#[trigger] reservations[k], anchor_x, anchor_z, min_x, max_x, min_z, max_z)
}

/// Whether a reservation removes a plant with the given anchor and horizontal
/// bounds: an anchor within a clearing's radius, or bounds that touch a
/// footprint.
pub open spec fn spec_suppresses(
    reservation: Reservation,
    anchor_x: i64,
    anchor_z: i64,
    min_x: i64,
    max_x: i64,
    min_z: i64,
    max_z: i64,
) -> bool {
    match reservation {
        Reservation::Clearing { centre, radius } => {
            let dx = anchor_x - centre.0;
            let dz = anchor_z - centre.1;
            dx * dx + dz * dz <= radius * radius
        },
        Reservation::Footprint { min_x: low_x, max_x: high_x, min_z: low_z, max_z: high_z } => {
            min_x <= high_x && max_x >= low_x && min_z <= high_z && max_z >= low_z
        },
    }
}

impl Reservation {
    /// Whether this reservation removes a plant with the given anchor and
    /// horizontal bounds.
    pub fn suppresses(
        &self,
        anchor_x: i64,
        anchor_z: i64,
        min_x: i64,
        max_x: i64,
        min_z: i64,
        max_z: i64,
    ) -> (removed: bool)
        requires
            spec_suppression_fits(*self, anchor_x, anchor_z),
        ensures
            removed == spec_suppresses(*self, anchor_x, anchor_z, min_x, max_x, min_z, max_z),
    {
        match *self {
            Reservation::Clearing { centre, radius } => {
                let dx = anchor_x - centre.0;
                let dz = anchor_z - centre.1;
                proof {
                    assert(0 <= dx * dx && 0 <= dz * dz && 0 <= radius * radius) by (
                    nonlinear_arith);
                }
                dx * dx + dz * dz <= radius * radius
            },
            Reservation::Footprint { min_x: low_x, max_x: high_x, min_z: low_z, max_z: high_z } => {
                min_x <= high_x && max_x >= low_x && min_z <= high_z && max_z >= low_z
            },
        }
    }

    /// Whether any reservation in a set removes the plant.
    pub fn any_suppresses(
        reservations: &[Reservation],
        anchor_x: i64,
        anchor_z: i64,
        min_x: i64,
        max_x: i64,
        min_z: i64,
        max_z: i64,
    ) -> (removed: bool)
        requires
            forall|i: int|
                0 <= i < reservations@.len() && spec_none_suppress_before(
                    reservations@,
                    i,
                    anchor_x,
                    anchor_z,
                    min_x,
                    max_x,
                    min_z,
                    max_z,
                ) ==> spec_suppression_fits(#[trigger] reservations@[i], anchor_x, anchor_z),
        ensures
            removed == exists|i: int|
                0 <= i < reservations@.len() && spec_suppresses(
                    #[trigger] reservations@[i],
                    anchor_x,
                    anchor_z,
                    min_x,
                    max_x,
                    min_z,
                    max_z,
                ),
    {
        let mut i: usize = 0;
        while i < reservations.len()
            invariant
                i <= reservations@.len(),
                forall|k: int|
                    0 <= k < reservations@.len() && spec_none_suppress_before(
                        reservations@,
                        k,
                        anchor_x,
                        anchor_z,
                        min_x,
                        max_x,
                        min_z,
                        max_z,
                    ) ==> spec_suppression_fits(#[trigger] reservations@[k], anchor_x, anchor_z),
                forall|k: int|
                    0 <= k < i ==> !spec_suppresses(
                        #[trigger] reservations@[k],
                        anchor_x,
                        anchor_z,
                        min_x,
                        max_x,
                        min_z,
                        max_z,
                    ),
            decreases reservations@.len() - i,
        {
            proof {
                assert(spec_none_suppress_before(reservations@, i as int, anchor_x, anchor_z, min_x, max_x, min_z, max_z));
            }
            if reservations[i].suppresses(anchor_x, anchor_z, min_x, max_x, min_z, max_z) {
                return true;
            }
            i = i + 1;
        }
        false
    }
}

/// How far from zero a world coordinate of a landmark may lie.
pub const PLAN_COORD_LIMIT: i64 = 0x2000_0000;

/// One landmark, placed: its compiled mass, where its local grid stands, the
/// base course it sits on and the terrain face under each footprint column.
#[derive(Debug, PartialEq, Eq)]
pub struct LandmarkInstance {
    pub index: usize,
    pub role: LandmarkRole,
    pub descriptor: MonolithDescriptor,
    pub compiled: CompiledMonolith,
    /// World column of the compiled grid's local origin.
    pub origin: (i64, i64),
    /// World `y` of the base course.
    pub base_y: i64,
    /// The column the silhouette is judged from.
    pub crown_column: (i64, i64),
    /// Inclusive horizontal bounds of the structure itself.
    pub bounds: (i64, i64, i64, i64),
    /// The structure plus its apron, kept free of plants.
    pub reservation: Reservation,
    /// Which landmark this one is discovered from, for a revealed landmark.
    pub revealed_from: Option<usize>,
    /// Terrain face under every footprint column, `i32::MAX` where the
    /// landmark fills nothing, in storage order.
    pub ground: Vec<i32>,
}

/// Whether a world coordinate lies inside the range a plan works in.
pub open spec fn spec_in_plan_range(value: int) -> bool {
    -PLAN_COORD_LIMIT <= value <= PLAN_COORD_LIMIT
}

/// The terrain face recorded under a local column, `i32::MAX` past the
/// record.
pub open spec fn spec_ground_face(ground: Seq<i32>, sx: int, lx: int, lz: int) -> i32 {
    let i = lz * sx + lx;
    if 0 <= i < ground.len() {
        ground[i]
    } else {
        i32::MAX
    }
}

/// The material a placed landmark puts at a world voxel: its compiled cell
/// from the base course up, and below it a stone foundation down to the
/// column's own terrain face, only under a column that carries the base
/// course.
pub open spec fn spec_instance_material(
    d: MonolithDescriptor,
    origin: (i64, i64),
    base_y: i64,
    ground: Seq<i32>,
    x: int,
    y: int,
    z: int,
) -> Option<LandmarkMaterial> {
    let (sx, sy, sz) = spec_grid(d);
    let lx = x - origin.0;
    let lz = z - origin.1;
    if !(0 <= lx < sx && 0 <= lz < sz) {
        None
    } else if y >= base_y {
        spec_material_at(d, lx, y - base_y, lz)
    } else if spec_material_at(d, lx, 0, lz) is None {
        None
    } else if y >= spec_ground_face(ground, sx, lx, lz) {
        Some(LandmarkMaterial::Stone)
    } else {
        None
    }
}

/// The lowest and highest world `y` a placed landmark fills in a column:
/// a column reaching the base course reaches down to its foundation.
pub open spec fn spec_instance_column_ok(
    d: MonolithDescriptor,
    origin: (i64, i64),
    base_y: i64,
    ground: Seq<i32>,
    x: int,
    z: int,
    column: Option<(i64, i64)>,
) -> bool {
    let (sx, sy, sz) = spec_grid(d);
    let lx = x - origin.0;
    let lz = z - origin.1;
    if !(0 <= lx < sx && 0 <= lz < sz) {
        column is None
    } else {
        exists|local: Option<(i32, i32)>|
            #![trigger spec_column_ok(d, lx, lz, local)]
            spec_column_ok(d, lx, lz, local) && column == match local {
                None => None,
                Some((low, high)) => Some(
                    (
                        if low == 0 {
                            let face = spec_ground_face(ground, sx, lx, lz) as i64;
                            if face <= base_y {
                                face
                            } else {
                                base_y
                            }
                        } else {
                            (base_y + low) as i64
                        },
                        (base_y + high) as i64,
                    ),
                ),
            }
    }
}

impl LandmarkInstance {
    /// The fields agree with each other: the mass is the descriptor's, the
    /// ground record covers the footprint, the bounds are the footprint's and
    /// every coordinate lies in the plan's range.
    pub open spec fn wf(&self) -> bool {
        let (sx, sy, sz) = spec_grid(self.descriptor);
        &&& spec_compilable(self.descriptor)
        &&& self.compiled.spec_descriptor() == self.descriptor
        &&& self.spec_ground().len() == sx * sz
        &&& spec_in_plan_range(self.origin.0 as int)
        &&& spec_in_plan_range(self.origin.1 as int)
        &&& i32::MIN <= self.base_y <= i32::MAX
        &&& self.bounds == (
            self.origin.0,
            (self.origin.0 + sx - 1) as i64,
            self.origin.1,
            (self.origin.1 + sz - 1) as i64,
        )
    }

    pub open spec fn spec_ground(&self) -> Seq<i32> {
        self.ground@
    }

    pub fn class(&self) -> (class: SilhouetteClass)
        ensures
            class == self.descriptor.class,
    {
        self.descriptor.class
    }

    /// Whether a chunk's horizontal extent can hold any of this landmark.
    pub fn touches_columns(&self, min_x: i64, max_x: i64, min_z: i64, max_z: i64) -> (touches: bool)
        ensures
            touches == (min_x <= self.bounds.1 && max_x >= self.bounds.0 && min_z <= self.bounds.3
                && max_z >= self.bounds.2),
    {
        let (low_x, high_x, low_z, high_z) = self.bounds;
        min_x <= high_x && max_x >= low_x && min_z <= high_z && max_z >= low_z
    }

    /// The compiled grid's column under a world column, if it has one.
    fn local_column(&self, x: i64, z: i64) -> (local: Option<(usize, usize)>)
        requires
            self.wf(),
            spec_in_plan_range(x as int),
            spec_in_plan_range(z as int),
        ensures
            ({
                let (sx, sy, sz) = spec_grid(self.descriptor);
                let (lx, lz) = (x - self.origin.0, z - self.origin.1);
                match local {
                    Some((a, b)) => 0 <= lx < sx && 0 <= lz < sz && a == lx && b == lz,
                    None => !(0 <= lx < sx && 0 <= lz < sz),
                }
            }),
    {
        proof {
            lemma_compilable_ranges(self.descriptor);
        }
        let (size_x, _, size_z) = self.compiled.size();
        let lx = x - self.origin.0;
        let lz = z - self.origin.1;
        if lx < 0 || lz < 0 || lx >= size_x as i64 || lz >= size_z as i64 {
            return None;
        }
        Some((lx as usize, lz as usize))
    }

    /// The terrain face recorded under a local column.
    fn ground_face(&self, lx: usize, lz: usize) -> (face: i32)
        requires
            self.wf(),
            (lx as int) < spec_grid(self.descriptor).0,
            (lz as int) < spec_grid(self.descriptor).2,
        ensures
            face == spec_ground_face(self.spec_ground(), spec_grid(self.descriptor).0, lx as int, lz as int),
    {
        let (size_x, _, size_z) = self.compiled.size();
        proof {
            lemma_compilable_ranges(self.descriptor);
            assert(lz * size_x + lx < size_x * size_z) by (nonlinear_arith)
                requires
                    lx < size_x,
                    lz < size_z,
            ;
        }
        let i = lz * size_x + lx;
        if i < self.ground.len() {
            self.ground[i]
        } else {
            i32::MAX
        }
    }

    /// The material this landmark puts at a world voxel, if any: a landmark
    /// never floats and never replaces a terrain voxel.
    pub fn material_at(&self, x: i64, y: i64, z: i64) -> (material: Option<LandmarkMaterial>)
        requires
            self.wf(),
            spec_in_plan_range(x as int),
            spec_in_plan_range(y as int),
            spec_in_plan_range(z as int),
        ensures
            material == spec_instance_material(
                self.descriptor,
                self.origin,
                self.base_y,
                self.spec_ground(),
                x as int,
                y as int,
                z as int,
            ),
    {
        let (lx, lz) = match self.local_column(x, z) {
            Some(local) => local,
            None => return None,
        };
        let (_, size_y, _) = self.compiled.size();
        if y >= self.base_y {
            let ly = y - self.base_y;
            if ly >= size_y as i64 {
                return None;
            }
            return self.compiled.material_at(lx, ly as usize, lz);
        }
        if self.compiled.material_at(lx, 0, lz).is_none() {
            return None;
        }
        let face = self.ground_face(lx, lz) as i64;
        if y >= face {
            Some(LandmarkMaterial::Stone)
        } else {
            None
        }
    }

    /// The lowest and highest world `y` this landmark fills in a column.
    pub fn column(&self, x: i64, z: i64) -> (column: Option<(i64, i64)>)
        requires
            self.wf(),
            spec_in_plan_range(x as int),
            spec_in_plan_range(z as int),
        ensures
            spec_instance_column_ok(
                self.descriptor,
                self.origin,
                self.base_y,
                self.spec_ground(),
                x as int,
                z as int,
                column,
            ),
    {
        let (lx, lz) = match self.local_column(x, z) {
            Some(local) => local,
            None => return None,
        };
        let local = self.compiled.column(lx, lz);
        let result = match local {
            None => None,
            Some((low, high)) => {
                let top = self.base_y + high as i64;
                let bottom = if low == 0 {
                    let face = self.ground_face(lx, lz) as i64;
                    if face <= self.base_y {
                        face
                    } else {
                        self.base_y
                    }
                } else {
                    self.base_y + low as i64
                };
                Some((bottom, top))
            },
        };
        proof {
            assert(spec_column_ok(
                self.descriptor,
                (x - self.origin.0) as int,
                (z - self.origin.1) as int,
                local,
            ));
        }
        result
    }

    /// Inclusive vertical bounds of everything this landmark writes: from
    /// the lowest foundation face to the top course.
    pub fn vertical_bounds(&self) -> (bounds: (i64, i64))
        requires
            self.wf(),
        ensures
            bounds.1 == self.base_y + spec_grid(self.descriptor).1 - 1,
            bounds.0 <= self.base_y,
            forall|i: int|
                0 <= i < self.spec_ground().len() && self.spec_ground()[i] != i32::MAX ==> bounds.0
                    <= #[trigger] self.spec_ground()[i],
            bounds.0 == self.base_y || exists|i: int|
                0 <= i < self.spec_ground().len() && self.spec_ground()[i] != i32::MAX
                    && bounds.0 == #[trigger] self.spec_ground()[i],
    {
        let (_, size_y, _) = self.compiled.size();
        let mut lowest = self.base_y;
        let mut i: usize = 0;
        while i < self.ground.len()
            invariant
                self.wf(),
                i <= self.ground@.len(),
                lowest <= self.base_y,
                forall|k: int|
                    0 <= k < i && self.ground@[k] != i32::MAX ==> lowest <= #[trigger] self.ground@[k],
                lowest == self.base_y || exists|k: int|
                    0 <= k < i && self.ground@[k] != i32::MAX && lowest == #[trigger] self.ground@[k],
            decreases self.ground@.len() - i,
        {
            let face = self.ground[i];
            if face != i32::MAX && (face as i64) < lowest {
                lowest = face as i64;
            }
            i = i + 1;
        }
        (lowest, self.base_y + size_y as i64 - 1)
    }

    /// World height of the crown.
    pub fn crown_top(&self) -> (top: i64)
        requires
            self.wf(),
        ensures
            top == self.base_y + self.descriptor.height,
    {
        self.base_y + self.descriptor.height
    }
}

/// The span axis a landmark is drawn on: a frame stands broadside to
/// whoever is meant to see it, so its width is what reads.
pub open spec fn spec_facing(site: (i64, i64), seen_from: (i64, i64)) -> SpanAxis {
    let dx = site.0 - seen_from.0;
    let dz = site.1 - seen_from.1;
    let ax = if dx < 0 {
        -dx
    } else {
        dx
    };
    let az = if dz < 0 {
        -dz
    } else {
        dz
    };
    if ax >= az {
        SpanAxis::Z
    } else {
        SpanAxis::X
    }
}

/// The descriptor a site draws: its class, facing the viewer, seeded from
/// the site's lattice hash and the landmark's index.
pub open spec fn spec_site_descriptor(
    class: SilhouetteClass,
    site: (i64, i64),
    seen_from: (i64, i64),
    stream: u64,
    seed: u64,
    index: usize,
) -> MonolithDescriptor {
    spec_from_seed(
        class,
        spec_facing(site, seen_from),
        spec_sub_hash(spec_hash_2d(seed, stream, site.0, site.1), index as u64),
    )
}

/// Where a compiled grid stands so that a site lies at its middle.
pub open spec fn spec_site_origin(d: MonolithDescriptor, site: (i64, i64)) -> (i64, i64) {
    let (sx, sy, sz) = spec_grid(d);
    ((site.0 - sx / 2) as i64, (site.1 - sz / 2) as i64)
}

/// A landmark drawn for a site but not yet set on the ground.
#[derive(Debug, PartialEq, Eq)]
pub struct Sited {
    pub descriptor: MonolithDescriptor,
    pub compiled: CompiledMonolith,
    /// World column of the compiled grid's local origin.
    pub origin: (i64, i64),
}

/// Draws and compiles the landmark a site holds, centred on the site.
pub fn site_landmark(
    index: usize,
    class: SilhouetteClass,
    site: (i64, i64),
    seen_from: (i64, i64),
    stream: u64,
    seed: u64,
) -> (sited: Sited)
    requires
        spec_in_plan_range(site.0 as int),
        spec_in_plan_range(site.1 as int),
        spec_in_plan_range(seen_from.0 as int),
        spec_in_plan_range(seen_from.1 as int),
    ensures
        sited.descriptor == spec_site_descriptor(class, site, seen_from, stream, seed, index),
        sited.compiled.spec_descriptor() == sited.descriptor,
        sited.origin == spec_site_origin(sited.descriptor, site),
        spec_compilable(sited.descriptor),
{
    let dx = site.0 - seen_from.0;
    let dz = site.1 - seen_from.1;
    let ax = if dx < 0 {
        -dx
    } else {
        dx
    };
    let az = if dz < 0 {
        -dz
    } else {
        dz
    };
    let axis = if ax >= az {
        SpanAxis::Z
    } else {
        SpanAxis::X
    };
    let descriptor = MonolithDescriptor::from_seed(
        class,
        axis,
        sub_hash(hash_2d(seed, stream, site.0, site.1), index as u64),
    );
    proof {
        lemma_seeded_descriptors_validate(class, axis, sub_hash_value(seed, stream, site, index));
        lemma_seeded_compilable(class, axis, sub_hash_value(seed, stream, site, index));
        lemma_compilable_ranges(descriptor);
    }
    let compiled = CompiledMonolith::new(descriptor);
    let (size_x, _, size_z) = compiled.size();
    let origin = (site.0 - (size_x / 2) as i64, site.1 - (size_z / 2) as i64);
    Sited { descriptor, compiled, origin }
}

spec fn sub_hash_value(seed: u64, stream: u64, site: (i64, i64), index: usize) -> u64 {
    spec_sub_hash(spec_hash_2d(seed, stream, site.0, site.1), index as u64)
}

/// Whether a compiled landmark fills anything in a local column.
pub open spec fn spec_column_filled(d: MonolithDescriptor, lx: int, lz: int) -> bool {
    exists|y: int| 0 <= y < spec_grid(d).1 && #[trigger] spec_material_at(d, lx, y, lz) is Some
}

/// The highest terrain face under a filled column among the first `upto`
/// footprint columns, or `i32::MIN` if there is none.
pub open spec fn spec_highest_face(d: MonolithDescriptor, faces: Seq<i32>, upto: int) -> i32
    decreases upto,
{
    if upto <= 0 {
        i32::MIN
    } else {
        let rest = spec_highest_face(d, faces, upto - 1);
        let i = upto - 1;
        let sx = spec_grid(d).0;
        if spec_column_filled(d, i % sx, i / sx) && faces[i] > rest {
            faces[i]
        } else {
            rest
        }
    }
}

/// The ground record of a footprint: the face under every filled column,
/// `i32::MAX` under an empty one.
pub open spec fn spec_ground_record(d: MonolithDescriptor, faces: Seq<i32>) -> Seq<i32> {
    let (sx, sy, sz) = spec_grid(d);
    Seq::new(
        (sx * sz) as nat,
        |i: int|
            if spec_column_filled(d, i % sx, i / sx) {
                faces[i]
            } else {
                i32::MAX
            },
    )
}

/// Sets a sited landmark on the ground. `faces` holds the terrain face under
/// every footprint column in storage order; only those under a filled column
/// are read. The base course sits on the highest of them, and a landmark that
/// would reach the region's ceiling is refused.
pub fn settle(
    sited: Sited,
    index: usize,
    role: LandmarkRole,
    site: (i64, i64),
    apron: i64,
    faces: &Vec<i32>,
    revealed_from: Option<usize>,
    ceiling: i64,
) -> (result: Result<LandmarkInstance, PlanError>)
    requires
        spec_compilable(sited.descriptor),
        sited.compiled.spec_descriptor() == sited.descriptor,
        faces@.len() == spec_grid(sited.descriptor).0 * spec_grid(sited.descriptor).2,
        spec_in_plan_range(sited.origin.0 as int),
        spec_in_plan_range(sited.origin.1 as int),
        0 <= apron <= PLAN_COORD_LIMIT,
    ensures
        ({
            let d = sited.descriptor;
            let (sx, sy, sz) = spec_grid(d);
            let base_y = spec_highest_face(d, faces@, sx * sz) as i64;
            let top = base_y + sy;
            match result {
                Err(error) => top >= ceiling && error == PlanError::AboveRegion {
                    top: top as i64,
                    ceiling,
                },
                Ok(instance) => {
                    &&& top < ceiling
                    &&& instance.wf()
                    &&& instance.index == index
                    &&& instance.role == role
                    &&& instance.descriptor == d
                    &&& instance.origin == sited.origin
                    &&& instance.base_y == base_y
                    &&& instance.crown_column == site
                    &&& instance.revealed_from == revealed_from
                    &&& instance.spec_ground() == spec_ground_record(d, faces@)
                    &&& instance.reservation == Reservation::Footprint {
                        min_x: (instance.bounds.0 - apron) as i64,
                        max_x: (instance.bounds.1 + apron) as i64,
                        min_z: (instance.bounds.2 - apron) as i64,
                        max_z: (instance.bounds.3 + apron) as i64,
                    }
                },
            }
        }),
{
    let ghost d = sited.descriptor;
    proof {
        lemma_compilable_ranges(d);
    }
    let (size_x, size_y, size_z) = sited.compiled.size();
    let n = size_x * size_z;
    let mut ground: Vec<i32> = Vec::with_capacity(n);
    let mut base: i32 = i32::MIN;
    let mut i: usize = 0;
    while i < n
        invariant
            spec_compilable(d),
            sited.compiled.spec_descriptor() == d,
            size_x as int == spec_grid(d).0,
            size_y as int == spec_grid(d).1,
            size_z as int == spec_grid(d).2,
            n == size_x * size_z,
            faces@.len() == n,
            size_x >= 1,
            i <= n,
            ground@.len() == i,
            forall|k: int| 0 <= k < i ==> #[trigger] ground@[k] == spec_ground_record(d, faces@)[k],
            base == spec_highest_face(d, faces@, i as int),
        decreases n - i,
    {
        let lx = i % size_x;
        let lz = i / size_x;
        proof {
            assert(lz < size_z) by (nonlinear_arith)
                requires
                    i < n,
                    n == size_x * size_z,
                    lz == i / size_x,
                    size_x >= 1,
            ;
        }
        let column = sited.compiled.column(lx, lz);
        proof {
            if column is Some {
                let span = column->0;
                let low = span.0 as int;
                assert(spec_material_at(d, lx as int, low, lz as int) is Some);
            } else {
                assert(!spec_column_filled(d, lx as int, lz as int));
            }
        }
        if column.is_some() {
            let face = faces[i];
            ground.push(face);
            if face > base {
                base = face;
            }
        } else {
            ground.push(i32::MAX);
        }
        i = i + 1;
    }
    proof {
        assert(ground@ =~= spec_ground_record(d, faces@));
    }
    let base_y = base as i64;
    let top = base_y + size_y as i64;
    if top >= ceiling {
        return Err(PlanError::AboveRegion { top, ceiling });
    }
    let origin = sited.origin;
    let bounds = (
        origin.0,
        origin.0 + size_x as i64 - 1,
        origin.1,
        origin.1 + size_z as i64 - 1,
    );
    let reservation = Reservation::Footprint {
        min_x: bounds.0 - apron,
        max_x: bounds.1 + apron,
        min_z: bounds.2 - apron,
        max_z: bounds.3 + apron,
    };
    Ok(
        LandmarkInstance {
            index,
            role,
            descriptor: sited.descriptor,
            compiled: sited.compiled,
            origin,
            base_y,
            crown_column: site,
            bounds,
            reservation,
            revealed_from,
            ground,
        },
    )
}

/// Where a session looks out over the world for the first time: a
/// compositional property of the world, not a player spawn.
#[derive(Clone, Copy, Debug, PartialEq, Eq)]
pub struct DiscoveryOverlook {
    pub column: (i64, i64),
    /// The face a sole rests on at the overlook.
    pub ground_face: i32,
    pub clearing_radius: i64,
}

/// Why a world cannot be given landmarks.
#[derive(Clone, Copy, Debug, PartialEq, Eq)]
pub enum PlanError {
    /// No column near the hint is a place a person could stand and look out.
    NoOverlook { hint: (i64, i64) },
    /// The world offers no two sites the overlook can see apart from each
    /// other.
    NoFirstPair { candidates: usize },
    /// Nothing is both hidden from the overlook and visible from a first
    /// landmark.
    NoRevealedSite { candidates: usize },
    /// A landmark would stand through the top of the region.
    AboveRegion { top: i64, ceiling: i64 },
}


/// The byte a role contributes to a plan's identity.
pub open spec fn spec_role_byte(role: LandmarkRole) -> u8 {
    match role {
        LandmarkRole::FirstChoice => 0,
        LandmarkRole::Revealed => 1,
    }
}

/// The bytes one placed landmark contributes to a plan's identity.
pub open spec fn spec_instance_bytes(instance: LandmarkInstance) -> Seq<u8> {
    spec_u64_to_le_bytes(spec_descriptor_fingerprint(instance.descriptor))
        + spec_u64_to_le_bytes(spec_geometry_fingerprint(instance.descriptor))
        + spec_u64_to_le_bytes(instance.origin.0 as u64)
        + spec_u64_to_le_bytes(instance.origin.1 as u64)
        + spec_u64_to_le_bytes(instance.base_y as u64)
        + seq![spec_role_byte(instance.role)]
}

/// The bytes of every placed landmark, in order.
pub open spec fn spec_instances_bytes(instances: Seq<LandmarkInstance>) -> Seq<u8>
    decreases instances.len(),
{
    if instances.len() == 0 {
        Seq::empty()
    } else {
        spec_instances_bytes(instances.drop_last()) + spec_instance_bytes(instances.last())
    }
}

/// The canonical bytes of a plan: its tag and version, the overlook, then
/// every landmark.
pub open spec fn spec_plan_bytes(overlook: DiscoveryOverlook, instances: Seq<LandmarkInstance>) -> Seq<u8> {
    spec_tag_landmark_plan() + spec_u32_to_le_bytes(LANDMARK_PLAN_VERSION) + spec_u64_to_le_bytes(
        overlook.column.0 as u64,
    ) + spec_u64_to_le_bytes(overlook.column.1 as u64) + spec_u32_to_le_bytes(
        overlook.ground_face as u32,
    ) + spec_u64_to_le_bytes(overlook.clearing_radius as u64) + spec_instances_bytes(instances)
}

/// Identity of a whole composition.
#[verifier::opaque]
pub open spec fn spec_plan_fingerprint(overlook: DiscoveryOverlook, instances: Seq<LandmarkInstance>) -> u64 {
    spec_fnv1a64(spec_plan_bytes(overlook, instances))
}

/// The ground a plan keeps free of plants: the overlook's clearing, then
/// each landmark's footprint, in order.
pub open spec fn spec_plan_reservations(
    overlook: DiscoveryOverlook,
    instances: Seq<LandmarkInstance>,
) -> Seq<Reservation> {
    seq![Reservation::Clearing { centre: overlook.column, radius: overlook.clearing_radius }]
        + instances.map_values(|instance: LandmarkInstance| instance.reservation)
}

/// Whether a placed landmark's horizontal bounds meet a chunk's extent.
pub open spec fn spec_instance_touches(
    instance: LandmarkInstance,
    min_x: i64,
    max_x: i64,
    min_z: i64,
    max_z: i64,
) -> bool {
    min_x <= instance.bounds.1 && max_x >= instance.bounds.0 && min_z <= instance.bounds.3
        && max_z >= instance.bounds.2
}

/// The material a placed landmark puts at a world voxel.
pub open spec fn spec_placed_material(instance: LandmarkInstance, x: int, y: int, z: int) -> Option<
    LandmarkMaterial,
> {
    spec_instance_material(
        instance.descriptor,
        instance.origin,
        instance.base_y,
        instance.ground@,
        x,
        y,
        z,
    )
}

/// Whether a column answer is a placed landmark's.
pub open spec fn spec_placed_column_ok(
    instance: LandmarkInstance,
    x: int,
    z: int,
    column: Option<(i64, i64)>,
) -> bool {
    spec_instance_column_ok(
        instance.descriptor,
        instance.origin,
        instance.base_y,
        instance.ground@,
        x,
        z,
        column,
    )
}

/// Every landmark in one world.
#[derive(Debug, PartialEq, Eq)]
pub struct LandmarkPlan {
    overlook: DiscoveryOverlook,
    instances: Vec<LandmarkInstance>,
    reservations: Vec<Reservation>,
    fingerprint: u64,
}

impl LandmarkPlan {
    /// Every landmark is well formed, the reservations are the overlook's
    /// clearing and each landmark's footprint, and the fingerprint is the
    /// composition's.
    #[verifier::type_invariant]
    spec fn inv(self) -> bool {
        &&& forall|i: int| 0 <= i < self.instances@.len() ==> #[trigger] self.instances@[i].wf()
        &&& self.reservations@ == spec_plan_reservations(self.overlook, self.instances@)
        &&& self.fingerprint == spec_plan_fingerprint(self.overlook, self.instances@)
    }

    pub closed spec fn spec_overlook(&self) -> DiscoveryOverlook {
        self.overlook
    }

    pub closed spec fn spec_instances(&self) -> Seq<LandmarkInstance> {
        self.instances@
    }

    /// Puts an overlook and its placed landmarks together into a plan: the
    /// reservations and the fingerprint follow from them.
    pub fn assemble(overlook: DiscoveryOverlook, instances: Vec<LandmarkInstance>) -> (plan: Self)
        requires
            forall|i: int| 0 <= i < instances@.len() ==> #[trigger] instances@[i].wf(),
        ensures
            plan.spec_overlook() == overlook,
            plan.spec_instances() == instances@,
    {
        let mut reservations: Vec<Reservation> = Vec::new();
        reservations.push(
            Reservation::Clearing { centre: overlook.column, radius: overlook.clearing_radius },
        );
        let mut i: usize = 0;
        while i < instances.len()
            invariant
                i <= instances@.len(),
                reservations@ == spec_plan_reservations(overlook, instances@.take(i as int)),
            decreases instances@.len() - i,
        {
            reservations.push(instances[i].reservation);
            i = i + 1;
            proof {
                assert(instances@.take(i as int).map_values(
                    |instance: LandmarkInstance| instance.reservation,
                ) =~= instances@.take(i - 1).map_values(
                    |instance: LandmarkInstance| instance.reservation,
                ).push(instances@[i - 1].reservation));
                assert(reservations@ =~= spec_plan_reservations(overlook, instances@.take(i as int)));
            }
        }
        proof {
            assert(instances@.take(i as int) =~= instances@);
        }
        let fingerprint = plan_fingerprint(&overlook, &instances);
        LandmarkPlan { overlook, instances, reservations, fingerprint }
    }

    pub fn overlook(&self) -> (overlook: DiscoveryOverlook)
        ensures
            overlook == self.spec_overlook(),
    {
        self.overlook
    }

    /// The placed landmarks, in the order they were chosen.
    pub fn instances(&self) -> (instances: &[LandmarkInstance])
        ensures
            instances@ == self.spec_instances(),
            forall|i: int| 0 <= i < instances@.len() ==> #[trigger] instances@[i].wf(),
    {
        proof {
            use_type_invariant(self);
        }
        self.instances.as_slice()
    }

    /// The ground kept free of plants.
    pub fn reservations(&self) -> (reservations: &[Reservation])
        ensures
            reservations@ == spec_plan_reservations(self.spec_overlook(), self.spec_instances()),
    {
        proof {
            use_type_invariant(self);
        }
        self.reservations.as_slice()
    }

    /// Identity of the whole composition.
    pub fn fingerprint(&self) -> (fingerprint: u64)
        ensures
            fingerprint == spec_plan_fingerprint(self.spec_overlook(), self.spec_instances()),
    {
        proof {
            use_type_invariant(self);
        }
        self.fingerprint
    }
}

impl LandmarkPlan {
    /// Whether a plant with this anchor and these bounds is removed: some
    /// reservation of the plan suppresses it.
    pub fn suppresses_plant(
        &self,
        anchor_x: i64,
        anchor_z: i64,
        min_x: i64,
        max_x: i64,
        min_z: i64,
        max_z: i64,
    ) -> (removed: bool)
        requires
            forall|i: int|
                0 <= i < spec_plan_reservations(self.spec_overlook(), self.spec_instances()).len()
                    ==> spec_suppression_fits(
                    #[trigger] spec_plan_reservations(self.spec_overlook(), self.spec_instances())[i],
                    anchor_x,
                    anchor_z,
                ),
        ensures
            removed == exists|i: int|
                0 <= i < spec_plan_reservations(self.spec_overlook(), self.spec_instances()).len()
                    && spec_suppresses(
                    #[trigger] spec_plan_reservations(self.spec_overlook(), self.spec_instances())[i],
                    anchor_x,
                    anchor_z,
                    min_x,
                    max_x,
                    min_z,
                    max_z,
                ),
    {
        proof {
            use_type_invariant(self);
        }
        let reservations = self.reservations.as_slice();
        proof {
            assert(reservations@ == spec_plan_reservations(self.spec_overlook(), self.spec_instances()));
        }
        Reservation::any_suppresses(
            reservations,
            anchor_x,
            anchor_z,
            min_x,
            max_x,
            min_z,
            max_z,
        )
    }

    /// The material any landmark puts at a world voxel: that of the first
    /// landmark, in plan order, that puts one there.
    pub fn material_at(&self, x: i64, y: i64, z: i64) -> (material: Option<LandmarkMaterial>)
        requires
            spec_in_plan_range(x as int),
            spec_in_plan_range(y as int),
            spec_in_plan_range(z as int),
        ensures
            ({
                let instances = self.spec_instances();
                match material {
                    None => forall|i: int|
                        0 <= i < instances.len() ==> #[trigger] spec_placed_material(
                            instances[i],
                            x as int,
                            y as int,
                            z as int,
                        ) is None,
                    Some(_) => exists|i: int|
                        0 <= i < instances.len() && #[trigger] spec_placed_material(
                            instances[i],
                            x as int,
                            y as int,
                            z as int,
                        ) == material && forall|j: int|
                            0 <= j < i ==> #[trigger] spec_placed_material(
                                instances[j],
                                x as int,
                                y as int,
                                z as int,
                            ) is None,
                }
            }),
    {
        proof {
            use_type_invariant(self);
        }
        let mut i: usize = 0;
        while i < self.instances.len()
            invariant
                forall|k: int| 0 <= k < self.instances@.len() ==> #[trigger] self.instances@[k].wf(),
                spec_in_plan_range(x as int),
                spec_in_plan_range(y as int),
                spec_in_plan_range(z as int),
                i <= self.instances@.len(),
                forall|j: int|
                    0 <= j < i ==> #[trigger] spec_placed_material(
                        self.instances@[j],
                        x as int,
                        y as int,
                        z as int,
                    ) is None,
            decreases self.instances@.len() - i,
        {
            proof {
                assert(self.instances@[i as int].wf());
            }
            let found = self.instances[i].material_at(x, y, z);
            if found.is_some() {
                proof {
                    assert(spec_placed_material(self.instances@[i as int], x as int, y as int, z as int)
                        == found);
                }
                return found;
            }
            i = i + 1;
        }
        None
    }

    /// The lowest and highest world `y` filled by landmark stone in a column:
    /// the span of the first landmark, in plan order, that fills it.
    pub fn column(&self, x: i64, z: i64) -> (column: Option<(i64, i64)>)
        requires
            spec_in_plan_range(x as int),
            spec_in_plan_range(z as int),
        ensures
            ({
                let instances = self.spec_instances();
                match column {
                    None => forall|i: int|
                        0 <= i < instances.len() ==> #[trigger] spec_placed_column_ok(
                            instances[i],
                            x as int,
                            z as int,
                            None,
                        ),
                    Some(_) => exists|i: int|
                        0 <= i < instances.len() && #[trigger] spec_placed_column_ok(
                            instances[i],
                            x as int,
                            z as int,
                            column,
                        ) && forall|j: int|
                            0 <= j < i ==> #[trigger] spec_placed_column_ok(
                                instances[j],
                                x as int,
                                z as int,
                                None,
                            ),
                }
            }),
    {
        proof {
            use_type_invariant(self);
        }
        let mut i: usize = 0;
        while i < self.instances.len()
            invariant
                forall|k: int| 0 <= k < self.instances@.len() ==> #[trigger] self.instances@[k].wf(),
                spec_in_plan_range(x as int),
                spec_in_plan_range(z as int),
                i <= self.instances@.len(),
                forall|j: int|
                    0 <= j < i ==> #[trigger] spec_placed_column_ok(
                        self.instances@[j],
                        x as int,
                        z as int,
                        None,
                    ),
            decreases self.instances@.len() - i,
        {
            proof {
                assert(self.instances@[i as int].wf());
            }
            let found = self.instances[i].column(x, z);
            if found.is_some() {
                proof {
                    let instances = self.spec_instances();
                    assert(instances == self.instances@);
                    assert(spec_placed_column_ok(instances[i as int], x as int, z as int, found));
                    assert(forall|j: int|
                        0 <= j < i ==> #[trigger] spec_placed_column_ok(
                            instances[j],
                            x as int,
                            z as int,
                            None,
                        ));
                }
                return found;
            }
            i = i + 1;
        }
        None
    }

    /// The index, in plan order, of every landmark that reaches into a
    /// chunk's horizontal extent.
    pub fn touching(&self, min_x: i64, max_x: i64, min_z: i64, max_z: i64) -> (indices: Vec<usize>)
        ensures
            forall|k: int|
                0 <= k < indices@.len() ==> indices@[k] < self.spec_instances().len()
                    && spec_instance_touches(
                    #[trigger] self.spec_instances()[indices@[k] as int],
                    min_x,
                    max_x,
                    min_z,
                    max_z,
                ),
            forall|a: int, b: int|
                0 <= a < b < indices@.len() ==> #[trigger] indices@[a] < #[trigger] indices@[b],
            forall|i: int|
                0 <= i < self.spec_instances().len() && spec_instance_touches(
                    #[trigger] self.spec_instances()[i],
                    min_x,
                    max_x,
                    min_z,
                    max_z,
                ) ==> exists|k: int| 0 <= k < indices@.len() && indices@[k] == i,
    {
        let mut indices: Vec<usize> = Vec::new();
        let mut i: usize = 0;
        while i < self.instances.len()
            invariant
                i <= self.instances@.len(),
                forall|k: int| 0 <= k < indices@.len() ==> #[trigger] indices@[k] < i,
                forall|k: int|
                    0 <= k < indices@.len() ==> spec_instance_touches(
                        #[trigger] self.instances@[indices@[k] as int],
                        min_x,
                        max_x,
                        min_z,
                        max_z,
                    ),
                forall|a: int, b: int|
                    0 <= a < b < indices@.len() ==> #[trigger] indices@[a] < #[trigger] indices@[b],
                forall|j: int|
                    0 <= j < i && spec_instance_touches(
                        #[trigger] self.instances@[j],
                        min_x,
                        max_x,
                        min_z,
                        max_z,
                    ) ==> exists|k: int| 0 <= k < indices@.len() && indices@[k] == j,
            decreases self.instances@.len() - i,
        {
            if self.instances[i].touches_columns(min_x, max_x, min_z, max_z) {
                let ghost before = indices@;
                indices.push(i);
                proof {
                    assert(indices@ == before.push(i));
                    assert(spec_instance_touches(self.instances@[i as int], min_x, max_x, min_z, max_z));
                    assert forall|k: int| 0 <= k < indices@.len() implies indices@[k] < i + 1
                        && spec_instance_touches(
                        #[trigger] self.instances@[indices@[k] as int],
                        min_x,
                        max_x,
                        min_z,
                        max_z,
                    ) by {
                        if k < before.len() {
                            assert(indices@[k] == before[k]);
                        }
                    }
                    assert forall|a: int, b: int|
                        0 <= a < b < indices@.len() implies #[trigger] indices@[a]
                        < #[trigger] indices@[b] by {
                        assert(indices@[a] == before[a]);
                        if b < before.len() {
                            assert(indices@[b] == before[b]);
                        }
                    }
                    assert forall|j: int|
                        0 <= j < i + 1 && spec_instance_touches(
                            #[trigger] self.instances@[j],
                            min_x,
                            max_x,
                            min_z,
                            max_z,
                        ) implies exists|k: int| 0 <= k < indices@.len() && indices@[k] == j by {
                        if j == i {
                            assert(indices@[before.len() as int] == j);
                        } else {
                            let k = choose|k: int| 0 <= k < before.len() && before[k] == j;
                            assert(indices@[k] == j);
                        }
                    }
                }
            }
            i = i + 1;
        }
        indices
    }
}

proof fn lemma_instances_bytes_step(instances: Seq<LandmarkInstance>, i: int)
    requires
        0 <= i < instances.len(),
    ensures
        spec_instances_bytes(instances.take(i + 1)) == spec_instances_bytes(instances.take(i))
            + spec_instance_bytes(instances[i]),
{
    let next = instances.take(i + 1);
    assert(next.drop_last() =~= instances.take(i));
    assert(next.last() == instances[i]);
}

/// Computes the identity of a composition from its canonical bytes.
#[verifier::spinoff_prover]
fn plan_fingerprint(overlook: &DiscoveryOverlook, instances: &Vec<LandmarkInstance>) -> (fingerprint: u64)
    requires
        forall|i: int| 0 <= i < instances@.len() ==> #[trigger] instances@[i].wf(),
    ensures
        fingerprint == spec_plan_fingerprint(*overlook, instances@),
{
    let mut bytes = tag_landmark_plan();
    push_u32(&mut bytes, LANDMARK_PLAN_VERSION);
    push_i64(&mut bytes, overlook.column.0);
    push_i64(&mut bytes, overlook.column.1);
    push_i32(&mut bytes, overlook.ground_face);
    push_i64(&mut bytes, overlook.clearing_radius);
    let ghost head = bytes@;
    proof {
        assert(spec_instances_bytes(instances@.take(0)) =~= Seq::<u8>::empty());
        assert(head + Seq::<u8>::empty() =~= head);
    }
    let mut i: usize = 0;
    while i < instances.len()
        invariant
            i <= instances@.len(),
            forall|k: int| 0 <= k < instances@.len() ==> #[trigger] instances@[k].wf(),
            bytes@ == head + spec_instances_bytes(instances@.take(i as int)),
        decreases instances@.len() - i,
    {
        let instance = &instances[i];
        let ghost before = bytes@;
        proof {
            assert(instances@[i as int].wf());
        }
        let descriptor_fingerprint = instance.descriptor.fingerprint();
        let geometry_fingerprint = instance.compiled.geometry_fingerprint();
        push_u64(&mut bytes, descriptor_fingerprint);
        push_u64(&mut bytes, geometry_fingerprint);
        push_i64(&mut bytes, instance.origin.0);
        push_i64(&mut bytes, instance.origin.1);
        push_i64(&mut bytes, instance.base_y);
        let role: u8 = match instance.role {
            LandmarkRole::FirstChoice => 0,
            LandmarkRole::Revealed => 1,
        };
        bytes.push(role);
        proof {
            lemma_instances_bytes_step(instances@, i as int);
            assert(role == spec_role_byte(instance.role));
            assert(bytes@ =~= before + spec_instance_bytes(*instance));
            assert(bytes@ =~= head + spec_instances_bytes(instances@.take(i + 1)));
        }
        i = i + 1;
    }
    proof {
        assert(instances@.take(i as int) =~= instances@);
        assert(bytes@ =~= spec_plan_bytes(*overlook, instances@));
        reveal(spec_plan_fingerprint);
    }
    fnv1a64(bytes.as_slice())
}

} // verus!
