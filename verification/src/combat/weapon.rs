//! One weapon, validated from a descriptor into the voxel layout it occupies.
//!
//! A weapon is a physical object and nothing else: dimensions, the bands each
//! part occupies, and the cell the hand holds it by. It carries no timing, no
//! damage and no reach tuning.

use vstd::bytes::*;
use vstd::prelude::*;

use crate::bytes::{push_u32, push_u64};
use crate::hash::{fnv1a64, spec_fnv1a64};

verus! {

/// Version of the descriptor's shape.
pub const WEAPON_SCHEMA_VERSION: u32 = 1;
/// Version of how a descriptor becomes voxels.
pub const WEAPON_COMPILER_VERSION: u32 = 1;
/// Version of the combat style contract.
pub const COMBAT_STYLE_VERSION: u32 = 1;
/// Largest edge, in character voxels, a weapon may occupy on any axis: the
/// scratch grid's edge, so compilation reuses exactly one grid.
pub const MAX_WEAPON_EDGE: i32 = 32;
/// No weapon feature may be thinner than this on any axis.
pub const MIN_WEAPON_FEATURE: i32 = 2;

/// A weapon's seed.
#[derive(Clone, Copy, Debug, PartialEq, Eq, Hash, Structural)]
pub struct WeaponSeed(pub u64);

impl WeaponSeed {
    /// The seed every recorded weapon measurement refers to.
    pub fn golden() -> (seed: WeaponSeed)
        ensures
            seed == WeaponSeed(0x5645_4c44_5745_4150),
    {
        WeaponSeed(0x5645_4c44_5745_4150)
    }

    pub fn raw(self) -> (raw: u64)
        ensures
            raw == self.0,
    {
        self.0
    }
}

/// A half-open range of grid cells on one axis.
#[derive(Clone, Copy, Debug, PartialEq, Eq, Structural)]
pub struct Band {
    pub low: i32,
    pub high: i32,
}

impl Band {
    pub fn new(low: i32, high: i32) -> (band: Band)
        ensures
            band == (Band { low, high }),
    {
        Band { low, high }
    }

    pub fn contains(&self, value: i32) -> (inside: bool)
        ensures
            inside == (self.low <= value < self.high),
    {
        value >= self.low && value < self.high
    }

    pub fn extent(&self) -> (extent: i32)
        requires
            i32::MIN <= self.high - self.low <= i32::MAX,
        ensures
            extent == self.high - self.low,
    {
        self.high - self.low
    }
}

/// Which part of a weapon a cell belongs to, for the typed rejections.
#[derive(Clone, Copy, Debug, PartialEq, Eq, Structural)]
pub enum WeaponPart {
    Blade,
    Guard,
    Grip,
    Pommel,
}

impl WeaponPart {
    pub fn name(self) -> (name: &'static str)
        ensures
            self == WeaponPart::Blade ==> name@ == "blade"@,
            self == WeaponPart::Guard ==> name@ == "guard"@,
            self == WeaponPart::Grip ==> name@ == "grip"@,
            self == WeaponPart::Pommel ==> name@ == "pommel"@,
    {
        match self {
            WeaponPart::Blade => "blade",
            WeaponPart::Guard => "guard",
            WeaponPart::Grip => "grip",
            WeaponPart::Pommel => "pommel",
        }
    }
}

/// Why a descriptor cannot safely be compiled into a weapon.
#[derive(Clone, Copy, Debug, PartialEq, Eq, Structural)]
pub enum WeaponDescriptorError {
    SchemaMismatch { found: u32, expected: u32 },
    /// A feature is thinner than the minimum on some axis.
    FeatureTooThin { part: WeaponPart, axis: usize, extent: i32 },
    /// A feature does not fit the scratch grid.
    FeatureTooLarge { part: WeaponPart, axis: usize, extent: i32, maximum: i32 },
    /// A sub-box cannot be centred on the weapon's axis without landing on a
    /// half voxel.
    NotCentred { part: WeaponPart, axis: usize, extent: i32, bound: i32 },
    /// The guard must be at least as wide as the blade or it is not a guard.
    GuardNarrowerThanBlade { guard: i32, blade: i32 },
    /// The hand would sit outside the grip.
    HandOutsideGrip { grip_length: i32, grip_above_hand: i32 },
    /// The grip pitch is not a usable angle.
    GripPitchNotFinite,
    /// The weapon would be taller than the scratch grid.
    TooTall { height: i32, maximum: i32 },
}

/// What makes a weapon the object it is, every length in character voxels.
///
/// The grip pitch, an angle in radians, is held as the bit pattern of its
/// single-precision value: validation only asks whether it is finite.
#[derive(Clone, Copy, Debug, PartialEq, Eq, Structural)]
pub struct WeaponDescriptor {
    pub schema_version: u32,
    pub seed: WeaponSeed,
    pub blade_length: i32,
    /// Across the blade, in the plane the swing sweeps.
    pub blade_width: i32,
    /// Across the flat, perpendicular to the swing plane.
    pub blade_thickness: i32,
    pub guard_width: i32,
    pub guard_height: i32,
    pub grip_length: i32,
    pub grip_thickness: i32,
    pub pommel_width: i32,
    pub pommel_height: i32,
    /// How many voxels of grip sit above the hand bone's own origin.
    pub grip_above_hand: i32,
    /// Bit pattern of the pitch of the weapon in the hand.
    pub grip_pitch_bits: u32,
}

/// Whether a single-precision bit pattern is a finite number: its exponent
/// is not all ones.
pub open spec fn spec_finite_bits(bits: u32) -> bool {
    (bits >> 23u32) & 0xffu32 != 0xffu32
}

/// The part checked at a position of the extent scan, four parts in order.
pub open spec fn spec_part_at(k: int) -> WeaponPart {
    if k == 0 {
        WeaponPart::Blade
    } else if k == 1 {
        WeaponPart::Guard
    } else if k == 2 {
        WeaponPart::Grip
    } else {
        WeaponPart::Pommel
    }
}

/// A part's extents on the three axes.
pub open spec fn spec_part_extents(d: WeaponDescriptor, part: WeaponPart) -> (i32, i32, i32) {
    match part {
        WeaponPart::Blade => (d.blade_thickness, d.blade_length, d.blade_width),
        WeaponPart::Guard => (d.guard_width, d.guard_height, d.blade_width),
        WeaponPart::Grip => (d.grip_thickness, d.grip_length, d.grip_thickness),
        WeaponPart::Pommel => (d.pommel_width, d.pommel_height, d.pommel_width),
    }
}

pub open spec fn spec_axis_extent(extents: (i32, i32, i32), axis: int) -> i32 {
    if axis == 0 {
        extents.0
    } else if axis == 1 {
        extents.1
    } else {
        extents.2
    }
}

/// The first extent, part by part and axis by axis, that is too thin or too
/// large, from scan position `k` of twelve.
pub open spec fn spec_extent_error(d: WeaponDescriptor, k: int) -> Option<WeaponDescriptorError>
    decreases 12 - k,
{
    if k < 0 || k >= 12 {
        None
    } else {
        let part = spec_part_at(k / 3);
        let axis = k % 3;
        let extent = spec_axis_extent(spec_part_extents(d, part), axis);
        if extent < MIN_WEAPON_FEATURE {
            Some(WeaponDescriptorError::FeatureTooThin { part, axis: axis as usize, extent })
        } else if extent > MAX_WEAPON_EDGE {
            Some(
                WeaponDescriptorError::FeatureTooLarge {
                    part,
                    axis: axis as usize,
                    extent,
                    maximum: MAX_WEAPON_EDGE,
                },
            )
        } else {
            spec_extent_error(d, k + 1)
        }
    }
}

pub open spec fn spec_max(a: i32, b: i32) -> i32 {
    if a >= b {
        a
    } else {
        b
    }
}

/// Grid width: the widest part across the flat.
pub open spec fn spec_width(d: WeaponDescriptor) -> i32 {
    spec_max(spec_max(spec_max(d.blade_thickness, d.guard_width), d.grip_thickness), d.pommel_width)
}

/// Grid depth: the widest part across the blade.
pub open spec fn spec_depth(d: WeaponDescriptor) -> i32 {
    spec_max(spec_max(d.blade_width, d.grip_thickness), d.pommel_width)
}

/// The first part, from scan position `k` of eight, whose box cannot be
/// centred inside the width (axis 0) or the depth (axis 2).
pub open spec fn spec_centring_error(d: WeaponDescriptor, k: int) -> Option<WeaponDescriptorError>
    decreases 8 - k,
{
    if k < 0 || k >= 8 {
        None
    } else {
        let part = spec_part_at(k / 2);
        let axis: int = if k % 2 == 0 {
            0
        } else {
            2
        };
        let bound = if axis == 0 {
            spec_width(d)
        } else {
            spec_depth(d)
        };
        let extent = spec_axis_extent(spec_part_extents(d, part), axis);
        if (bound - extent) % 2 != 0 {
            Some(WeaponDescriptorError::NotCentred { part, axis: axis as usize, extent, bound })
        } else {
            spec_centring_error(d, k + 1)
        }
    }
}

/// The derived voxel layout of one weapon, in grid cells. Grid `y` counts up
/// from the blade tip.
#[derive(Clone, Copy, Debug, PartialEq, Eq)]
pub struct WeaponMetrics {
    /// Grid extent on each axis.
    pub dims: [i32; 3],
    /// Grid `y` of the hand bone's origin.
    pub hand_y: i32,
    pub blade_y: Band,
    pub guard_y: Band,
    pub grip_y: Band,
    pub pommel_y: Band,
    pub blade_x: Band,
    pub blade_z: Band,
    pub guard_x: Band,
    pub guard_z: Band,
    pub grip_x: Band,
    pub grip_z: Band,
    pub pommel_x: Band,
    pub pommel_z: Band,
}

/// A box of an extent centred inside a bound.
pub open spec fn spec_centred(extent: i32, bound: i32) -> Band {
    let low = ((bound - extent) / 2) as i32;
    Band { low, high: (low + extent) as i32 }
}

/// The layout a valid descriptor describes: the four parts stacked from the
/// tip up, every cross section centred.
pub open spec fn spec_metrics(d: WeaponDescriptor) -> WeaponMetrics {
    let width = spec_width(d);
    let depth = spec_depth(d);
    let blade = Band { low: 0, high: d.blade_length };
    let guard = Band { low: blade.high, high: (blade.high + d.guard_height) as i32 };
    let grip = Band { low: guard.high, high: (guard.high + d.grip_length) as i32 };
    let pommel = Band { low: grip.high, high: (grip.high + d.pommel_height) as i32 };
    WeaponMetrics {
        dims: [width, pommel.high, depth],
        hand_y: (grip.high - d.grip_above_hand) as i32,
        blade_y: blade,
        guard_y: guard,
        grip_y: grip,
        pommel_y: pommel,
        blade_x: spec_centred(d.blade_thickness, width),
        blade_z: spec_centred(d.blade_width, depth),
        guard_x: spec_centred(d.guard_width, width),
        guard_z: spec_centred(d.blade_width, depth),
        grip_x: spec_centred(d.grip_thickness, width),
        grip_z: spec_centred(d.grip_thickness, depth),
        pommel_x: spec_centred(d.pommel_width, width),
        pommel_z: spec_centred(d.pommel_width, depth),
    }
}

/// What validation answers, check by check in order.
pub open spec fn spec_validate_weapon(d: WeaponDescriptor) -> Result<WeaponMetrics, WeaponDescriptorError> {
    let height = d.pommel_height + d.grip_length + d.guard_height + d.blade_length;
    if d.schema_version != WEAPON_SCHEMA_VERSION {
        Err(WeaponDescriptorError::SchemaMismatch { found: d.schema_version, expected: WEAPON_SCHEMA_VERSION })
    } else if !spec_finite_bits(d.grip_pitch_bits) {
        Err(WeaponDescriptorError::GripPitchNotFinite)
    } else if spec_extent_error(d, 0) is Some {
        Err(spec_extent_error(d, 0)->0)
    } else if d.guard_width < d.blade_width {
        Err(WeaponDescriptorError::GuardNarrowerThanBlade { guard: d.guard_width, blade: d.blade_width })
    } else if d.grip_above_hand < 1 || d.grip_above_hand >= d.grip_length {
        Err(
            WeaponDescriptorError::HandOutsideGrip {
                grip_length: d.grip_length,
                grip_above_hand: d.grip_above_hand,
            },
        )
    } else if height > MAX_WEAPON_EDGE {
        Err(WeaponDescriptorError::TooTall { height: height as i32, maximum: MAX_WEAPON_EDGE })
    } else if spec_centring_error(d, 0) is Some {
        Err(spec_centring_error(d, 0)->0)
    } else {
        Ok(spec_metrics(d))
    }
}

impl WeaponMetrics {
    /// Total cells in the volume.
    pub fn cell_count(&self) -> (count: i32)
        requires
            i32::MIN <= self.dims[0] * self.dims[1] <= i32::MAX,
            i32::MIN <= self.dims[0] * self.dims[1] * self.dims[2] <= i32::MAX,
        ensures
            count == self.dims[0] * self.dims[1] * self.dims[2],
    {
        self.dims[0] * self.dims[1] * self.dims[2]
    }
}

/// A descriptor whose invariants have been checked, with its layout.
#[derive(Clone, Copy, Debug, PartialEq, Eq)]
pub struct ValidatedWeapon {
    descriptor: WeaponDescriptor,
    metrics: WeaponMetrics,
}

impl ValidatedWeapon {
    #[verifier::type_invariant]
    spec fn checked(self) -> bool {
        spec_validate_weapon(self.descriptor) == Ok::<WeaponMetrics, WeaponDescriptorError>(
            self.metrics,
        )
    }

    pub closed spec fn spec_descriptor(self) -> WeaponDescriptor {
        self.descriptor
    }

    pub fn descriptor(&self) -> (descriptor: &WeaponDescriptor)
        ensures
            *descriptor == self.spec_descriptor(),
    {
        &self.descriptor
    }

    pub closed spec fn spec_metrics(self) -> WeaponMetrics {
        self.metrics
    }

    pub fn metrics(&self) -> (metrics: &WeaponMetrics)
        ensures
            *metrics == self.spec_metrics(),
            spec_validate_weapon(self.spec_descriptor()) == Ok::<
                WeaponMetrics,
                WeaponDescriptorError,
            >(*metrics),
    {
        proof {
            use_type_invariant(self);
        }
        &self.metrics
    }
}

fn part_extents(d: &WeaponDescriptor, part: usize) -> (extents: [i32; 3])
    requires
        part < 4,
    ensures
        extents[0] == spec_part_extents(*d, spec_part_at(part as int)).0,
        extents[1] == spec_part_extents(*d, spec_part_at(part as int)).1,
        extents[2] == spec_part_extents(*d, spec_part_at(part as int)).2,
{
    if part == 0 {
        [d.blade_thickness, d.blade_length, d.blade_width]
    } else if part == 1 {
        [d.guard_width, d.guard_height, d.blade_width]
    } else if part == 2 {
        [d.grip_thickness, d.grip_length, d.grip_thickness]
    } else {
        [d.pommel_width, d.pommel_height, d.pommel_width]
    }
}

fn part_named(part: usize) -> (named: WeaponPart)
    requires
        part < 4,
    ensures
        named == spec_part_at(part as int),
{
    if part == 0 {
        WeaponPart::Blade
    } else if part == 1 {
        WeaponPart::Guard
    } else if part == 2 {
        WeaponPart::Grip
    } else {
        WeaponPart::Pommel
    }
}

fn max_i32(a: i32, b: i32) -> (larger: i32)
    ensures
        larger == spec_max(a, b),
{
    if a >= b {
        a
    } else {
        b
    }
}

fn centred(extent: i32, bound: i32) -> (band: Band)
    requires
        0 <= extent <= bound <= MAX_WEAPON_EDGE,
    ensures
        band == spec_centred(extent, bound),
{
    let low = (bound - extent) / 2;
    Band::new(low, low + extent)
}

impl WeaponDescriptor {
    /// The golden weapon every capture and every recorded number refers
    /// to: a longsword whose cross sections and bounds are even, so every
    /// sub-box centres exactly on the line the grip defines. It is held at a
    /// pitch of `0.90` radians.
    pub fn golden() -> (golden: WeaponDescriptor)
        ensures
            golden == (WeaponDescriptor {
                schema_version: WEAPON_SCHEMA_VERSION,
                seed: WeaponSeed(0x5645_4c44_5745_4150),
                blade_length: 14,
                blade_width: 4,
                blade_thickness: 2,
                guard_width: 6,
                guard_height: 2,
                grip_length: 5,
                grip_thickness: 2,
                pommel_width: 4,
                pommel_height: 2,
                grip_above_hand: 2,
                grip_pitch_bits: 0x3f66_6666,
            }),
    {
        WeaponDescriptor {
            schema_version: WEAPON_SCHEMA_VERSION,
            seed: WeaponSeed::golden(),
            blade_length: 14,
            blade_width: 4,
            blade_thickness: 2,
            guard_width: 6,
            guard_height: 2,
            grip_length: 5,
            grip_thickness: 2,
            pommel_width: 4,
            pommel_height: 2,
            grip_above_hand: 2,
            grip_pitch_bits: 0x3f66_6666,
        }
    }

    /// Validates the descriptor and derives the voxel layout.
    pub fn validate(&self) -> (result: Result<ValidatedWeapon, WeaponDescriptorError>)
        ensures
            match result {
                Ok(weapon) => weapon.spec_descriptor() == *self && spec_validate_weapon(*self) is Ok,
                Err(error) => spec_validate_weapon(*self) == Err::<
                    WeaponMetrics,
                    WeaponDescriptorError,
                >(error),
            },
    {
        let d = *self;
        if d.schema_version != WEAPON_SCHEMA_VERSION {
            return Err(
                WeaponDescriptorError::SchemaMismatch {
                    found: d.schema_version,
                    expected: WEAPON_SCHEMA_VERSION,
                },
            );
        }
        if (d.grip_pitch_bits >> 23u32) & 0xffu32 == 0xffu32 {
            return Err(WeaponDescriptorError::GripPitchNotFinite);
        }
        let mut k: usize = 0;
        while k < 12
            invariant
                k <= 12,
                d == *self,
                d.schema_version == WEAPON_SCHEMA_VERSION,
                spec_finite_bits(d.grip_pitch_bits),
                spec_extent_error(d, 0) == spec_extent_error(d, k as int),
            decreases 12 - k,
        {
            let part = k / 3;
            let axis = k % 3;
            let extent = part_extents(&d, part)[axis];
            proof {
                assert(extent == spec_axis_extent(
                    spec_part_extents(d, spec_part_at(part as int)),
                    axis as int,
                ));
            }
            if extent < MIN_WEAPON_FEATURE {
                return Err(
                    WeaponDescriptorError::FeatureTooThin { part: part_named(part), axis, extent },
                );
            }
            if extent > MAX_WEAPON_EDGE {
                return Err(
                    WeaponDescriptorError::FeatureTooLarge {
                        part: part_named(part),
                        axis,
                        extent,
                        maximum: MAX_WEAPON_EDGE,
                    },
                );
            }
            k = k + 1;
        }
        proof {
            assert(spec_extent_error(d, 12) is None);
            lemma_extent_scan(d, 0, 0);
            lemma_extent_scan(d, 0, 1);
            lemma_extent_scan(d, 0, 2);
            lemma_extent_scan(d, 0, 3);
            lemma_extent_scan(d, 0, 4);
            lemma_extent_scan(d, 0, 5);
            lemma_extent_scan(d, 0, 6);
            lemma_extent_scan(d, 0, 7);
            lemma_extent_scan(d, 0, 8);
            lemma_extent_scan(d, 0, 9);
            lemma_extent_scan(d, 0, 10);
            lemma_extent_scan(d, 0, 11);
        }
        if d.guard_width < d.blade_width {
            return Err(
                WeaponDescriptorError::GuardNarrowerThanBlade {
                    guard: d.guard_width,
                    blade: d.blade_width,
                },
            );
        }
        if d.grip_above_hand < 1 || d.grip_above_hand >= d.grip_length {
            return Err(
                WeaponDescriptorError::HandOutsideGrip {
                    grip_length: d.grip_length,
                    grip_above_hand: d.grip_above_hand,
                },
            );
        }
        let height = d.pommel_height + d.grip_length + d.guard_height + d.blade_length;
        if height > MAX_WEAPON_EDGE {
            return Err(WeaponDescriptorError::TooTall { height, maximum: MAX_WEAPON_EDGE });
        }
        let width = max_i32(
            max_i32(max_i32(d.blade_thickness, d.guard_width), d.grip_thickness),
            d.pommel_width,
        );
        let depth = max_i32(max_i32(d.blade_width, d.grip_thickness), d.pommel_width);
        let mut c: usize = 0;
        while c < 8
            invariant
                c <= 8,
                d == *self,
                d.schema_version == WEAPON_SCHEMA_VERSION,
                spec_finite_bits(d.grip_pitch_bits),
                spec_extent_error(d, 0) is None,
                d.guard_width >= d.blade_width,
                1 <= d.grip_above_hand < d.grip_length,
                d.pommel_height + d.grip_length + d.guard_height + d.blade_length <= MAX_WEAPON_EDGE,
                width == spec_width(d),
                depth == spec_depth(d),
                2 <= d.blade_thickness <= 32,
                2 <= d.blade_width <= 32,
                2 <= d.guard_width <= 32,
                2 <= d.grip_thickness <= 32,
                2 <= d.pommel_width <= 32,
                2 <= d.blade_length <= 32,
                2 <= d.guard_height <= 32,
                2 <= d.grip_length <= 32,
                2 <= d.pommel_height <= 32,
                spec_centring_error(d, 0) == spec_centring_error(d, c as int),
            decreases 8 - c,
        {
            let part = c / 2;
            let axis: usize = if c % 2 == 0 {
                0
            } else {
                2
            };
            let bound = if axis == 0 {
                width
            } else {
                depth
            };
            let extent = part_extents(&d, part)[axis];
            proof {
                assert(extent == spec_axis_extent(
                    spec_part_extents(d, spec_part_at(part as int)),
                    axis as int,
                ));
            }
            if (bound - extent) % 2 != 0 {
                return Err(
                    WeaponDescriptorError::NotCentred { part: part_named(part), axis, extent, bound },
                );
            }
            c = c + 1;
        }
        proof {
            assert(spec_centring_error(d, 8) is None);
        }
        let blade = Band::new(0, d.blade_length);
        let guard = Band::new(blade.high, blade.high + d.guard_height);
        let grip = Band::new(guard.high, guard.high + d.grip_length);
        let pommel = Band::new(grip.high, grip.high + d.pommel_height);
        let metrics = WeaponMetrics {
            dims: [width, pommel.high, depth],
            hand_y: grip.high - d.grip_above_hand,
            blade_y: blade,
            guard_y: guard,
            grip_y: grip,
            pommel_y: pommel,
            blade_x: centred(d.blade_thickness, width),
            blade_z: centred(d.blade_width, depth),
            guard_x: centred(d.guard_width, width),
            guard_z: centred(d.blade_width, depth),
            grip_x: centred(d.grip_thickness, width),
            grip_z: centred(d.grip_thickness, depth),
            pommel_x: centred(d.pommel_width, width),
            pommel_z: centred(d.pommel_width, depth),
        };
        proof {
            assert(metrics.dims =~= spec_metrics(d).dims);
            assert(metrics == spec_metrics(d));
        }
        Ok(ValidatedWeapon { descriptor: d, metrics })
    }
}

/// What a descriptor that validates guarantees of its extents: each is
/// between the feature minimum and the grid edge, the guard is no narrower
/// than the blade and the stack fits the grid.
pub(crate) proof fn lemma_valid_descriptor(d: WeaponDescriptor)
    requires
        spec_validate_weapon(d) is Ok,
    ensures
        MIN_WEAPON_FEATURE <= d.blade_thickness <= MAX_WEAPON_EDGE,
        MIN_WEAPON_FEATURE <= d.blade_length <= MAX_WEAPON_EDGE,
        MIN_WEAPON_FEATURE <= d.blade_width <= MAX_WEAPON_EDGE,
        MIN_WEAPON_FEATURE <= d.guard_width <= MAX_WEAPON_EDGE,
        MIN_WEAPON_FEATURE <= d.guard_height <= MAX_WEAPON_EDGE,
        MIN_WEAPON_FEATURE <= d.grip_thickness <= MAX_WEAPON_EDGE,
        MIN_WEAPON_FEATURE <= d.grip_length <= MAX_WEAPON_EDGE,
        MIN_WEAPON_FEATURE <= d.pommel_width <= MAX_WEAPON_EDGE,
        MIN_WEAPON_FEATURE <= d.pommel_height <= MAX_WEAPON_EDGE,
        d.guard_width >= d.blade_width,
        d.pommel_height + d.grip_length + d.guard_height + d.blade_length <= MAX_WEAPON_EDGE,
        spec_validate_weapon(d) == Ok::<WeaponMetrics, WeaponDescriptorError>(spec_metrics(d)),
{
    lemma_extent_scan(d, 0, 0);
    lemma_extent_scan(d, 0, 1);
    lemma_extent_scan(d, 0, 2);
    lemma_extent_scan(d, 0, 3);
    lemma_extent_scan(d, 0, 4);
    lemma_extent_scan(d, 0, 5);
    lemma_extent_scan(d, 0, 6);
    lemma_extent_scan(d, 0, 7);
    lemma_extent_scan(d, 0, 9);
    lemma_extent_scan(d, 0, 10);
}

/// When the scan from `from` finds nothing, every extent from there on lies
/// inside the allowed band.
proof fn lemma_extent_scan(d: WeaponDescriptor, from: int, j: int)
    requires
        0 <= from <= j < 12,
        spec_extent_error(d, from) is None,
    ensures
        MIN_WEAPON_FEATURE <= spec_axis_extent(spec_part_extents(d, spec_part_at(j / 3)), j % 3)
            <= MAX_WEAPON_EDGE,
    decreases j - from,
{
    if from < j {
        lemma_extent_scan(d, from + 1, j);
    }
}

/// A weapon's identity: the descriptor's fingerprint plus both contract
/// versions.
#[derive(Clone, Copy, Debug, PartialEq, Eq, Structural)]
pub struct WeaponIdentity {
    pub descriptor_fingerprint: u64,
    pub compiler_version: u32,
    pub style_version: u32,
}

/// One value covering the descriptor and both versions.
pub open spec fn spec_identity_fingerprint(identity: WeaponIdentity) -> u64 {
    spec_fnv1a64(
        spec_u64_to_le_bytes(identity.descriptor_fingerprint) + spec_u32_to_le_bytes(
            identity.compiler_version,
        ) + spec_u32_to_le_bytes(identity.style_version),
    )
}

impl WeaponIdentity {
    /// One cheap value covering the descriptor and both versions.
    pub fn fingerprint(&self) -> (fingerprint: u64)
        ensures
            fingerprint == spec_identity_fingerprint(*self),
    {
        let mut bytes: Vec<u8> = Vec::with_capacity(16);
        push_u64(&mut bytes, self.descriptor_fingerprint);
        push_u32(&mut bytes, self.compiler_version);
        push_u32(&mut bytes, self.style_version);
        proof {
            assert(bytes@ =~= spec_u64_to_le_bytes(self.descriptor_fingerprint)
                + spec_u32_to_le_bytes(self.compiler_version) + spec_u32_to_le_bytes(
                self.style_version,
            ));
        }
        fnv1a64(bytes.as_slice())
    }
}

/// Why a weapon could not be compiled.
#[derive(Clone, Copy, Debug, PartialEq, Eq, Structural)]
pub enum WeaponError {
    Descriptor(WeaponDescriptorError),
    /// The layout produced no solid cell at all.
    Empty,
    /// The layout produced no blade cell, so no collision segment exists.
    NoBlade,
    /// The mesher refused the volume.
    NotMeshable,
}

impl From<WeaponDescriptorError> for WeaponError {
    fn from(error: WeaponDescriptorError) -> (wrapped: Self) {
        WeaponError::Descriptor(error)
    }
}

impl vstd::std_specs::convert::FromSpecImpl<WeaponDescriptorError> for WeaponError {
    open spec fn obeys_from_spec() -> bool {
        true
    }

    open spec fn from_spec(error: WeaponDescriptorError) -> WeaponError {
        WeaponError::Descriptor(error)
    }
}

} // verus!
