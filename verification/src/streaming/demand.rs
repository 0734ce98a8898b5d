//! Demand: which chunks to render, which their meshes depend on, and which
//! to keep resident, all derived from one chunk-space center.

use vstd::prelude::*;

use crate::streaming::runtime::record::coord_lt;
use crate::streaming::types::LodLevel;
use crate::voxel::{ChunkCoord, fits_i32};

verus! {

/// How render-demand chunks are assigned a level of detail.
#[derive(Clone, Copy, Debug, PartialEq, Eq, Structural)]
pub enum LodSelection {
    /// Every render-demand chunk is `Lod0`.
    Lod0Only,
    /// Spatial band by Chebyshev chunk distance `d` from the camera chunk:
    /// `d <= 1` is `Lod0`, `d == 2` keeps the previous level, `d >= 3` is
    /// `Lod1`. A coordinate with no history starts at `Lod1` unless `d <= 1`.
    Banded,
}

/// Chebyshev distance inside which `Banded` forces `Lod0`.
pub const BAND_LOD0_RADIUS: u32 = 1;
/// Chebyshev distance at which `Banded` keeps the previous level.
pub const BAND_TRANSITION_RADIUS: u32 = 2;

/// The level a selection assigns at a distance, given the retained level.
pub open spec fn spec_select(
    selection: LodSelection,
    distance: u32,
    previous: Option<LodLevel>,
) -> LodLevel {
    match selection {
        LodSelection::Lod0Only => LodLevel::Lod0,
        LodSelection::Banded => if distance <= BAND_LOD0_RADIUS {
            LodLevel::Lod0
        } else if distance == BAND_TRANSITION_RADIUS {
            match previous {
                Some(level) => level,
                None => LodLevel::Lod1,
            }
        } else {
            LodLevel::Lod1
        },
    }
}

/// Selection never ping-pongs: selecting again at the same distance, with
/// the level just selected as history, selects the same level; and inside
/// the transition band a banded selection keeps the level a coordinate had.
pub proof fn lemma_selection_is_stable(selection: LodSelection, distance: u32, previous: Option<LodLevel>)
    ensures
        spec_select(selection, distance, Some(spec_select(selection, distance, previous)))
            == spec_select(selection, distance, previous),
        selection == LodSelection::Banded && distance == BAND_TRANSITION_RADIUS && previous is Some
            ==> spec_select(selection, distance, previous) == previous->0,
{
}

/// The bands of the banded selection: the camera chunk and its neighbours
/// (`d <= 1`) are full detail, the ring at `d == 2` keeps the level a chunk
/// had (coarse when it had none), and everything from `d == 3` outward is
/// coarse whatever it was before. The plain selection is full detail at
/// every distance.
pub proof fn lemma_banded_selection_bands(distance: u32, previous: Option<LodLevel>)
    ensures
        spec_select(LodSelection::Lod0Only, distance, previous) == LodLevel::Lod0,
        distance <= 1 ==> spec_select(LodSelection::Banded, distance, previous) == LodLevel::Lod0,
        distance == 2 ==> spec_select(LodSelection::Banded, distance, previous) == match previous {
            Some(kept) => kept,
            None => LodLevel::Lod1,
        },
        distance >= 3 ==> spec_select(LodSelection::Banded, distance, previous) == LodLevel::Lod1,
{
}

impl LodSelection {
    /// Deterministic level for a render-demand chunk at Chebyshev distance
    /// `distance`, given the level it had while retained (if any).
    pub fn select(self, distance: u32, previous: Option<LodLevel>) -> (level: LodLevel)
        ensures
            level == spec_select(self, distance, previous),
            self == LodSelection::Lod0Only ==> level == LodLevel::Lod0,
            self == LodSelection::Banded && distance <= BAND_LOD0_RADIUS ==> level == LodLevel::Lod0,
            self == LodSelection::Banded && distance == BAND_TRANSITION_RADIUS ==> level == match previous {
                Some(kept) => kept,
                None => LodLevel::Lod1,
            },
            self == LodSelection::Banded && distance > BAND_TRANSITION_RADIUS ==> level == LodLevel::Lod1,
    {
        match self {
            LodSelection::Lod0Only => LodLevel::Lod0,
            LodSelection::Banded => {
                if distance <= BAND_LOD0_RADIUS {
                    LodLevel::Lod0
                } else if distance == BAND_TRANSITION_RADIUS {
                    match previous {
                        Some(level) => level,
                        None => LodLevel::Lod1,
                    }
                } else {
                    LodLevel::Lod1
                }
            },
        }
    }
}

/// Tunable limits of the streaming runtime.
#[derive(Clone, Copy, Debug, PartialEq, Eq, Structural)]
pub struct StreamingConfig {
    pub render_radius: u32,
    pub dependency_halo: u32,
    pub retention_radius: u32,
    pub hard_resident_cap: usize,
    /// CPU records whose eviction may be finalized in one update.
    pub max_cpu_evictions_per_update: usize,
    pub lod_selection: LodSelection,
}

/// Why a configuration or a demand set cannot be used.
#[derive(Clone, Copy, Debug, PartialEq, Eq, Structural)]
pub enum DemandError {
    RetentionTooSmall {
        render_radius: u32,
        dependency_halo: u32,
        retention_radius: u32,
        required_retention: u32,
    },
    RadiusOverflow { render_radius: u32, dependency_halo: u32 },
    ZeroResidentCap,
    ZeroEvictionBudget,
    RadiusTooLarge,
    CoordinateOverflow { center: ChunkCoord },
}

/// What validation answers for a configuration.
pub open spec fn spec_validate(config: StreamingConfig) -> Result<StreamingConfig, DemandError> {
    let required = config.render_radius + config.dependency_halo;
    if required > u32::MAX {
        Err(
            DemandError::RadiusOverflow {
                render_radius: config.render_radius,
                dependency_halo: config.dependency_halo,
            },
        )
    } else if config.retention_radius < required {
        Err(
            DemandError::RetentionTooSmall {
                render_radius: config.render_radius,
                dependency_halo: config.dependency_halo,
                retention_radius: config.retention_radius,
                required_retention: required as u32,
            },
        )
    } else if config.hard_resident_cap == 0 {
        Err(DemandError::ZeroResidentCap)
    } else if config.max_cpu_evictions_per_update == 0 {
        Err(DemandError::ZeroEvictionBudget)
    } else {
        Ok(config)
    }
}

impl StreamingConfig {
    /// Radius 1, every render chunk at `Lod0`.
    pub fn default_profile() -> (config: Self)
        ensures
            config == (StreamingConfig {
                render_radius: 1,
                dependency_halo: 1,
                retention_radius: 2,
                hard_resident_cap: 160,
                max_cpu_evictions_per_update: 8,
                lod_selection: LodSelection::Lod0Only,
            }),
    {
        StreamingConfig {
            render_radius: 1,
            dependency_halo: 1,
            retention_radius: 2,
            hard_resident_cap: 160,
            max_cpu_evictions_per_update: 8,
            lod_selection: LodSelection::Lod0Only,
        }
    }

    /// The level-of-detail diagnostic profile: visible radius 3, banded.
    pub fn m3c_diagnostic() -> (config: Self)
        ensures
            config == (StreamingConfig {
                render_radius: 3,
                dependency_halo: 1,
                retention_radius: 4,
                hard_resident_cap: 810,
                max_cpu_evictions_per_update: 8,
                lod_selection: LodSelection::Banded,
            }),
    {
        StreamingConfig {
            render_radius: 3,
            dependency_halo: 1,
            retention_radius: 4,
            hard_resident_cap: 810,
            max_cpu_evictions_per_update: 8,
            lod_selection: LodSelection::Banded,
        }
    }

    /// The diagnostic profile with every render chunk at `Lod0`: the no-LOD
    /// reference the banded profile is measured against.
    pub fn m3c_baseline() -> (config: Self)
        ensures
            config == (StreamingConfig {
                lod_selection: LodSelection::Lod0Only,
                ..Self::spec_m3c_diagnostic()
            }),
    {
        StreamingConfig { lod_selection: LodSelection::Lod0Only, ..Self::m3c_diagnostic() }
    }

    pub open spec fn spec_m3c_diagnostic() -> Self {
        StreamingConfig {
            render_radius: 3,
            dependency_halo: 1,
            retention_radius: 4,
            hard_resident_cap: 810,
            max_cpu_evictions_per_update: 8,
            lod_selection: LodSelection::Banded,
        }
    }

    pub open spec fn spec_m4_golden() -> Self {
        StreamingConfig {
            render_radius: 6,
            dependency_halo: 1,
            retention_radius: 7,
            hard_resident_cap: 4_100,
            max_cpu_evictions_per_update: 8,
            lod_selection: LodSelection::Lod0Only,
        }
    }

    /// The golden-slice profile: visible radius 6, every render chunk at
    /// `Lod0`; the cap is the retention set plus one chunk of movement.
    pub fn m4_golden() -> (config: Self)
        ensures
            config == Self::spec_m4_golden(),
    {
        StreamingConfig {
            render_radius: 6,
            dependency_halo: 1,
            retention_radius: 7,
            hard_resident_cap: 4_100,
            max_cpu_evictions_per_update: 8,
            lod_selection: LodSelection::Lod0Only,
        }
    }

    /// The golden-slice profile with the level-of-detail band enabled.
    pub fn m4_golden_banded() -> (config: Self)
        ensures
            config == (StreamingConfig { lod_selection: LodSelection::Banded, ..Self::spec_m4_golden() }),
    {
        StreamingConfig { lod_selection: LodSelection::Banded, ..Self::m4_golden() }
    }

    /// Rejects every configuration whose sets would contradict each other:
    /// retention must cover the whole dependency set, and both budgets must
    /// be non-zero.
    pub fn validate(self) -> (result: Result<Self, DemandError>)
        ensures
            result == spec_validate(self),
    {
        let required = match self.render_radius.checked_add(self.dependency_halo) {
            Some(required) => required,
            None => {
                return Err(
                    DemandError::RadiusOverflow {
                        render_radius: self.render_radius,
                        dependency_halo: self.dependency_halo,
                    },
                );
            },
        };
        if self.retention_radius < required {
            return Err(
                DemandError::RetentionTooSmall {
                    render_radius: self.render_radius,
                    dependency_halo: self.dependency_halo,
                    retention_radius: self.retention_radius,
                    required_retention: required,
                },
            );
        }
        if self.hard_resident_cap == 0 {
            return Err(DemandError::ZeroResidentCap);
        }
        if self.max_cpu_evictions_per_update == 0 {
            return Err(DemandError::ZeroEvictionBudget);
        }
        Ok(self)
    }
}

impl Default for StreamingConfig {
    fn default() -> (config: Self)
        ensures
            config == (StreamingConfig {
                render_radius: 1,
                dependency_halo: 1,
                retention_radius: 2,
                hard_resident_cap: 160,
                max_cpu_evictions_per_update: 8,
                lod_selection: LodSelection::Lod0Only,
            }),
    {
        Self::default_profile()
    }
}

/// Whether `value` is within `radius` of `center` on one axis.
pub open spec fn within(value: int, center: int, radius: int) -> bool {
    center - radius <= value <= center + radius
}

/// The chunks of the cube of a radius around a center.
pub open spec fn in_cube(coord: ChunkCoord, center: ChunkCoord, radius: int) -> bool {
    &&& within(coord.x as int, center.x as int, radius)
    &&& within(coord.y as int, center.y as int, radius)
    &&& within(coord.z as int, center.z as int, radius)
}

/// Whether every coordinate of a cube fits the coordinate range.
pub open spec fn cube_fits(center: ChunkCoord, radius: int) -> bool {
    &&& fits_i32(center.x - radius) && fits_i32(center.x + radius)
    &&& fits_i32(center.y - radius) && fits_i32(center.y + radius)
    &&& fits_i32(center.z - radius) && fits_i32(center.z + radius)
}

/// At most one axis strays beyond `inner` from the center.
pub open spec fn one_axis_beyond(coord: ChunkCoord, center: ChunkCoord, inner: int) -> bool {
    let bx = !within(coord.x as int, center.x as int, inner);
    let by = !within(coord.y as int, center.y as int, inner);
    let bz = !within(coord.z as int, center.z as int, inner);
    !(bx && by) && !(bx && bz) && !(by && bz)
}

/// The render set grown by `halo` steps along each axis from every render
/// chunk: the chunks of the outer cube that leave the render cube on at most
/// one axis.
pub open spec fn in_dependency(coord: ChunkCoord, center: ChunkCoord, render: int, halo: int) -> bool {
    in_cube(coord, center, render + halo) && one_axis_beyond(coord, center, render)
}

/// Deterministic sets derived from a chunk-space demand center.
///
/// Each is held without repetition, in ascending `(z, y, x)` order.
#[derive(Clone, Debug, PartialEq, Eq)]
pub struct DemandSets {
    pub render: Vec<ChunkCoord>,
    pub dependency: Vec<ChunkCoord>,
    pub retention: Vec<ChunkCoord>,
}

/// The three sets a center and a configuration demand, or why they cannot.
pub open spec fn spec_around(center: ChunkCoord, config: StreamingConfig) -> Result<
    (Set<ChunkCoord>, Set<ChunkCoord>, Set<ChunkCoord>),
    DemandError,
> {
    let render = config.render_radius as int;
    let halo = config.dependency_halo as int;
    let retention = config.retention_radius as int;
    match spec_validate(config) {
        Err(error) => Err(error),
        Ok(_) => if render > i32::MAX {
            Err(DemandError::RadiusTooLarge)
        } else if !cube_fits(center, render) {
            Err(DemandError::CoordinateOverflow { center })
        } else if halo > 0 && !cube_fits(center, render + halo) {
            Err(DemandError::CoordinateOverflow { center })
        } else if retention > i32::MAX {
            Err(DemandError::RadiusTooLarge)
        } else if !cube_fits(center, retention) {
            Err(DemandError::CoordinateOverflow { center })
        } else {
            Ok(
                (
                    Set::new(|c: ChunkCoord| in_cube(c, center, render)),
                    Set::new(|c: ChunkCoord| in_dependency(c, center, render, halo)),
                    Set::new(|c: ChunkCoord| in_cube(c, center, retention)),
                ),
            )
        },
    }
}

/// Chunks in a cube of radius `r`: `(2r + 1)` on every axis.
pub open spec fn spec_cube_count(r: int) -> int {
    (2 * r + 1) * (2 * r + 1) * (2 * r + 1)
}

/// Coordinates in strictly ascending `(x, y, z)` order, the order a sorted
/// set of coordinates is walked in.
pub open spec fn spec_ascending(coords: Seq<ChunkCoord>) -> bool {
    forall|i: int, j: int| 0 <= i < j < coords.len() ==> coord_lt(coords[i], coords[j])
}

/// Which chunks of a box a walk has reached: those before `(dx, dy, dz)` in
/// `(x, y, z)` order.
pub open spec fn walked(coord: ChunkCoord, center: ChunkCoord, dx: int, dy: int, dz: int) -> bool {
    let ox = coord.x - center.x;
    let oy = coord.y - center.y;
    let oz = coord.z - center.z;
    ox < dx || (ox == dx && (oy < dy || (oy == dy && oz < dz)))
}

/// What a box walk keeps: every chunk of the cube, or only those straying
/// beyond `inner` on at most one axis.
pub open spec fn kept(coord: ChunkCoord, center: ChunkCoord, inner: int, restrict: bool) -> bool {
    !restrict || one_axis_beyond(coord, center, inner)
}

proof fn lemma_push_fresh(s: Seq<ChunkCoord>, c: ChunkCoord)
    requires
        s.no_duplicates(),
        !s.contains(c),
    ensures
        s.push(c).no_duplicates(),
        forall|d: ChunkCoord| s.push(c).contains(d) <==> (s.contains(d) || d == c),
{
    assert forall|d: ChunkCoord| s.push(c).contains(d) <==> (s.contains(d) || d == c) by {
        if s.contains(d) {
            let i = choose|i: int| 0 <= i < s.len() && s[i] == d;
            assert(s.push(c)[i] == d);
        }
        if d == c {
            assert(s.push(c)[s.len() as int] == d);
        }
    }
}

/// Every chunk of the cube of `extent` around a center, optionally only those
/// straying beyond `inner` on at most one axis.
fn collect_box(center: ChunkCoord, extent: u32, inner: u32, restrict: bool) -> (coords: Vec<ChunkCoord>)
    requires
        extent <= i32::MAX,
        cube_fits(center, extent as int),
    ensures
        coords@.no_duplicates(),
        spec_ascending(coords@),
        !restrict ==> coords@.len() == (2 * extent + 1) * (2 * extent + 1) * (2 * extent + 1),
        forall|c: ChunkCoord|
            coords@.contains(c) <==> (in_cube(c, center, extent as int) && kept(
                c,
                center,
                inner as int,
                restrict,
            )),
{
    let r = extent as i64;
    let mut coords: Vec<ChunkCoord> = Vec::new();
    let mut dx: i64 = -r;
    while dx <= r
        invariant
            r == extent,
            extent <= i32::MAX,
            cube_fits(center, extent as int),
            -r <= dx <= r + 1,
            !restrict ==> coords@.len() == (dx + r) * ((2 * r + 1) * (2 * r + 1)),
            coords@.no_duplicates(),
            spec_ascending(coords@),
            forall|c: ChunkCoord|
                coords@.contains(c) <==> (in_cube(c, center, r as int) && kept(
                    c,
                    center,
                    inner as int,
                    restrict,
                ) && walked(c, center, dx as int, -r - 1, 0)),
        decreases r + 1 - dx,
    {
        let mut dy: i64 = -r;
        proof {
            assert((dy + r) * (2 * r + 1) == 0) by (nonlinear_arith)
                requires
                    dy == -r,
            ;
        }
        while dy <= r
            invariant
                r == extent,
                extent <= i32::MAX,
                cube_fits(center, extent as int),
                -r <= dx <= r,
                -r <= dy <= r + 1,
                !restrict ==> coords@.len() == (dx + r) * ((2 * r + 1) * (2 * r + 1)) + (dy + r) * (2 * r + 1),
                coords@.no_duplicates(),
                spec_ascending(coords@),
                forall|c: ChunkCoord|
                    coords@.contains(c) <==> (in_cube(c, center, r as int) && kept(
                        c,
                        center,
                        inner as int,
                        restrict,
                    ) && walked(c, center, dx as int, dy as int, -r)),
            decreases r + 1 - dy,
        {
            let mut dz: i64 = -r;
            while dz <= r
                invariant
                    r == extent,
                    extent <= i32::MAX,
                    cube_fits(center, extent as int),
                    -r <= dx <= r,
                    -r <= dy <= r,
                    -r <= dz <= r + 1,
                    !restrict ==> coords@.len() == (dx + r) * ((2 * r + 1) * (2 * r + 1)) + (dy + r) * (2 * r
                        + 1) + (dz + r),
                    coords@.no_duplicates(),
                    spec_ascending(coords@),
                    forall|c: ChunkCoord|
                        coords@.contains(c) <==> (in_cube(c, center, r as int) && kept(
                            c,
                            center,
                            inner as int,
                            restrict,
                        ) && walked(c, center, dx as int, dy as int, dz as int)),
                decreases r + 1 - dz,
            {
                let coord = ChunkCoord {
                    x: (center.x as i64 + dx) as i32,
                    y: (center.y as i64 + dy) as i32,
                    z: (center.z as i64 + dz) as i32,
                };
                let i = inner as i64;
                let bx = dx < -i || dx > i;
                let by = dy < -i || dy > i;
                let bz = dz < -i || dz > i;
                let keep = !restrict || (!(bx && by) && !(bx && bz) && !(by && bz));
                let ghost before = coords@;
                proof {
                    assert(coord.x - center.x == dx && coord.y - center.y == dy && coord.z
                        - center.z == dz);
                    assert(in_cube(coord, center, r as int));
                    assert(keep == kept(coord, center, inner as int, restrict));
                    assert(!before.contains(coord));
                }
                if keep {
                    proof {
                        lemma_push_fresh(coords@, coord);
                        assert forall|k: int| 0 <= k < coords@.len() implies coord_lt(#[trigger] coords@[k], coord) by {
                            assert(coords@.contains(coords@[k]));
                        }
                    }
                    coords.push(coord);
                }
                proof {
                    assert forall|c: ChunkCoord|
                        walked(c, center, dx as int, dy as int, dz + 1) <==> (walked(
                            c,
                            center,
                            dx as int,
                            dy as int,
                            dz as int,
                        ) || c == coord) by {
                        if c.x - center.x == dx && c.y - center.y == dy && c.z - center.z == dz {
                            assert(c.x == coord.x && c.y == coord.y && c.z == coord.z);
                        }
                    }
                    assert forall|c: ChunkCoord|
                        coords@.contains(c) <==> (in_cube(c, center, r as int) && kept(
                            c,
                            center,
                            inner as int,
                            restrict,
                        ) && walked(c, center, dx as int, dy as int, dz + 1)) by {
                        assert(before.contains(c) <==> (in_cube(c, center, r as int) && kept(
                            c,
                            center,
                            inner as int,
                            restrict,
                        ) && walked(c, center, dx as int, dy as int, dz as int)));
                        assert(coords@.contains(c) <==> (before.contains(c) || (keep && c
                            == coord)));
                    }
                }
                dz = dz + 1;
            }
            proof {
                assert((dy + r) * (2 * r + 1) + (2 * r + 1) == (dy + 1 + r) * (2 * r + 1)) by (nonlinear_arith);
            }
            dy = dy + 1;
        }
        proof {
            assert((dx + r) * ((2 * r + 1) * (2 * r + 1)) + (2 * r + 1) * (2 * r + 1) == (dx + 1 + r) * ((2 * r
                + 1) * (2 * r + 1))) by (nonlinear_arith);
        }
        dx = dx + 1;
    }
    proof {
        assert((2 * r + 1) * ((2 * r + 1) * (2 * r + 1)) == (2 * r + 1) * (2 * r + 1) * (2 * r + 1)) by (nonlinear_arith);
    }
    coords
}

/// Whether the cube of a radius around a center fits the coordinate range.
fn cube_fits_exec(center: ChunkCoord, radius: u32) -> (fits: bool)
    ensures
        fits == cube_fits(center, radius as int),
{
    let r = radius as i64;
    let lo = i32::MIN as i64;
    let hi = i32::MAX as i64;
    let (x, y, z) = (center.x as i64, center.y as i64, center.z as i64);
    x - r >= lo && x + r <= hi && y - r >= lo && y + r <= hi && z - r >= lo && z + r <= hi
}

/// A duplicate-free sequence of coordinates has as many as its set.
pub proof fn lemma_coord_set_len(coords: Seq<ChunkCoord>)
    requires
        coords.no_duplicates(),
    ensures
        coord_set(coords).len() == coords.len(),
        coord_set(coords).finite(),
{
    assert(coord_set(coords) =~= coords.to_set());
    coords.unique_seq_to_set();
    vstd::seq_lib::seq_to_set_is_finite(coords);
}

/// The set a vector holds.
pub open spec fn coord_set(coords: Seq<ChunkCoord>) -> Set<ChunkCoord> {
    Set::new(|c: ChunkCoord| coords.contains(c))
}

impl DemandSets {
    /// The render cube, its dependency halo and the retention cube around a
    /// center, after validating the configuration.
    pub fn around(center: ChunkCoord, config: StreamingConfig) -> (result: Result<Self, DemandError>)
        ensures
            match result {
                Ok(sets) => {
                    &&& sets.render@.no_duplicates()
                    &&& sets.dependency@.no_duplicates()
                    &&& sets.retention@.no_duplicates()
                    &&& spec_ascending(sets.render@)
                    &&& spec_ascending(sets.dependency@)
                    &&& spec_ascending(sets.retention@)
                    &&& sets.render@.len() == spec_cube_count(config.render_radius as int)
                    &&& sets.retention@.len() == spec_cube_count(config.retention_radius as int)
                    &&& coord_set(sets.render@).len() == spec_cube_count(config.render_radius as int)
                    &&& coord_set(sets.retention@).len() == spec_cube_count(config.retention_radius as int)
                    &&& spec_around(center, config) == Ok::<_, DemandError>(
                        (
                            coord_set(sets.render@),
                            coord_set(sets.dependency@),
                            coord_set(sets.retention@),
                        ),
                    )
                },
                Err(error) => spec_around(center, config) == Err::<
                    (Set<ChunkCoord>, Set<ChunkCoord>, Set<ChunkCoord>),
                    DemandError,
                >(error),
            },
    {
        let config = match config.validate() {
            Ok(config) => config,
            Err(error) => return Err(error),
        };
        let render_radius = config.render_radius;
        let halo = config.dependency_halo;
        let retention_radius = config.retention_radius;
        if render_radius > 0x7fff_ffff {
            return Err(DemandError::RadiusTooLarge);
        }
        if !cube_fits_exec(center, render_radius) {
            return Err(DemandError::CoordinateOverflow { center });
        }
        let outer = render_radius + halo;
        if halo > 0 && !cube_fits_exec(center, outer) {
            return Err(DemandError::CoordinateOverflow { center });
        }
        if retention_radius > 0x7fff_ffff {
            return Err(DemandError::RadiusTooLarge);
        }
        if !cube_fits_exec(center, retention_radius) {
            return Err(DemandError::CoordinateOverflow { center });
        }
        let render = collect_box(center, render_radius, render_radius, false);
        let dependency = collect_box(center, outer, render_radius, true);
        let retention = collect_box(center, retention_radius, retention_radius, false);
        proof {
            assert(coord_set(render@) =~= Set::new(
                |c: ChunkCoord| in_cube(c, center, render_radius as int),
            ));
            assert(coord_set(dependency@) =~= Set::new(
                |c: ChunkCoord| in_dependency(c, center, render_radius as int, halo as int),
            ));
            assert(coord_set(retention@) =~= Set::new(
                |c: ChunkCoord| in_cube(c, center, retention_radius as int),
            ));
        }
        proof {
            lemma_coord_set_len(render@);
            lemma_coord_set_len(retention@);
        }
        Ok(DemandSets { render, dependency, retention })
    }
}

/// Whatever validated configuration and center produce demand sets, the
/// render set lies inside the dependency set and the dependency set inside
/// the retention set, so no dependency is ever marked for eviction by the
/// update that created it.
pub proof fn lemma_demand_sets_nest(center: ChunkCoord, config: StreamingConfig)
    requires
        spec_around(center, config) is Ok,
    ensures
        ({
            let (render, dependency, retention) = spec_around(center, config)->Ok_0;
            render.subset_of(dependency) && dependency.subset_of(retention)
        }),
{
}

} // verus!
