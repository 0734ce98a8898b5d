//! The Monolith descriptor: everything about one landmark, before a voxel
//! exists.
//!
//! Canonicalisation rather than rejection: a descriptor drawn from a seed is
//! brought inside the style bands by construction. The typed
//! [`MonolithDescriptor::validate`] exists for authored input.

use vstd::bytes::*;
use vstd::prelude::*;

use crate::bytes::{push_i64, push_u32, push_u64};
use crate::hash::{fnv1a64, spec_fnv1a64};
use crate::procedural::landmark::{
    LANDMARK_COMPILER_VERSION, LANDMARK_SCHEMA_VERSION, LANDMARK_STYLE_VERSION,
};
use crate::tags::{spec_tag_landmark_descriptor, tag_landmark_descriptor};

verus! {

/// Which of the three silhouettes a landmark wears.
#[derive(Clone, Copy, Debug, PartialEq, Eq, Structural)]
pub enum SilhouetteClass {
    /// One tall tapering shaft ending in a point.
    Spire,
    /// Two shafts carrying a lintel, with an opening a body can walk through.
    Gate,
    /// A frame that fell: two shafts of very different height and rubble.
    Broken,
}

/// The style contract's height band of a class.
pub open spec fn spec_height_band(class: SilhouetteClass) -> (i64, i64) {
    match class {
        SilhouetteClass::Spire => (28, 34),
        SilhouetteClass::Gate => (22, 28),
        SilhouetteClass::Broken => (22, 26),
    }
}

impl SilhouetteClass {
    /// Every class, in declaration order.
    pub fn all() -> (classes: [SilhouetteClass; 3])
        ensures
            classes@ == seq![SilhouetteClass::Spire, SilhouetteClass::Gate, SilhouetteClass::Broken],
    {
        [SilhouetteClass::Spire, SilhouetteClass::Gate, SilhouetteClass::Broken]
    }

    pub fn name(self) -> (name: &'static str)
        ensures
            self == SilhouetteClass::Spire ==> name@ == "spire"@,
            self == SilhouetteClass::Gate ==> name@ == "gate"@,
            self == SilhouetteClass::Broken ==> name@ == "broken"@,
    {
        match self {
            SilhouetteClass::Spire => "spire",
            SilhouetteClass::Gate => "gate",
            SilhouetteClass::Broken => "broken",
        }
    }

    /// The style contract's height band for this class.
    pub fn height_band(self) -> (band: (i64, i64))
        ensures
            band == spec_height_band(self),
    {
        match self {
            SilhouetteClass::Spire => (28, 34),
            SilhouetteClass::Gate => (22, 28),
            SilhouetteClass::Broken => (22, 26),
        }
    }

    /// Whether this class is built from two shafts along a span axis.
    pub fn is_framed(self) -> (framed: bool)
        ensures
            framed == (self != SilhouetteClass::Spire),
    {
        match self {
            SilhouetteClass::Spire => false,
            _ => true,
        }
    }
}

/// Which horizontal axis a framed landmark spans.
#[derive(Clone, Copy, Debug, PartialEq, Eq, Structural)]
pub enum SpanAxis {
    X,
    Z,
}

impl SpanAxis {
    pub fn name(self) -> (name: &'static str)
        ensures
            self == SpanAxis::X ==> name@ == "x"@,
            self == SpanAxis::Z ==> name@ == "z"@,
    {
        match self {
            SpanAxis::X => "x",
            SpanAxis::Z => "z",
        }
    }
}

/// One landmark, described completely before any voxel is written.
#[derive(Clone, Copy, Debug, PartialEq, Eq, Structural)]
pub struct MonolithDescriptor {
    pub class: SilhouetteClass,
    /// Total height in courses, base course included.
    pub height: i64,
    /// Base width of a spire, or the width of each shaft of a frame.
    pub shaft_width: i64,
    /// Footprint depth across the span axis.
    pub depth: i64,
    /// Columns between the two shafts of a frame.
    pub opening: i64,
    /// Courses of lintel, for a gate.
    pub lintel_thickness: i64,
    /// Courses the taller shaft of a gate rises above its lintel.
    pub rise: i64,
    /// Percent of the standing shaft the broken stump keeps.
    pub broken_percent: i64,
    /// How many fallen blocks a broken frame scatters.
    pub rubble: i64,
    /// Courses between strata bands.
    pub band_period: i64,
    /// A spire's single column of lean, applied above half height.
    pub lean: i64,
    pub axis: SpanAxis,
    /// Stream for erosion and rubble, drawn by the plan.
    pub seed: u64,
}

/// Why an authored descriptor is not valid input.
///
/// Canonicalisation never produces any of these.
#[derive(Clone, Copy, Debug, PartialEq, Eq)]
pub enum DescriptorError {
    OutOfBand { field: &'static str, found: i64, low: i64, high: i64 },
    EvenShaftWidth { found: i64 },
    TotalWidth { found: i64, low: i64, high: i64 },
    LintelClearance { found: i64, minimum: i64 },
    /// A spire shorter than `minimum_ratio` times its base width.
    Proportion { height: i64, shaft_width: i64, minimum_ratio: i64 },
}

/// Total width band of a framed landmark, in columns.
pub const FRAME_WIDTH_LOW: i64 = 13;
pub const FRAME_WIDTH_HIGH: i64 = 19;
/// Shortest clear height a gate may leave under its lintel.
pub const MIN_LINTEL_CLEARANCE: i64 = 14;
/// How tall a spire is relative to its base width, at least.
pub const SPIRE_SLENDERNESS: i64 = 4;
/// Columns of rubble apron a broken frame reserves beyond its fallen shaft.
pub const RUBBLE_APRON: i64 = 2;

/// One deterministic draw from a descriptor seed: FNV-1a over the seed and
/// the draw index, both little-endian.
pub open spec fn spec_draw(seed: u64, index: u64) -> u64 {
    spec_fnv1a64(spec_u64_to_le_bytes(seed) + spec_u64_to_le_bytes(index))
}

/// One deterministic draw from a descriptor seed.
pub fn draw(seed: u64, index: u64) -> (value: u64)
    ensures
        value == spec_draw(seed, index),
{
    let mut bytes: Vec<u8> = Vec::new();
    push_u64(&mut bytes, seed);
    push_u64(&mut bytes, index);
    fnv1a64(bytes.as_slice())
}

/// A draw mapped into the inclusive band `low..=high`.
pub open spec fn spec_pick(seed: u64, index: u64, low: i64, high: i64) -> i64 {
    (low + (spec_draw(seed, index) as int % (high - low + 1))) as i64
}

fn pick(seed: u64, index: u64, low: i64, high: i64) -> (value: i64)
    requires
        low <= high,
        high - low < 1000,
        -1000 < low < 1000,
    ensures
        value == spec_pick(seed, index, low, high),
        low <= value <= high,
{
    let span = (high - low + 1) as u64;
    low + (draw(seed, index) % span) as i64
}

/// The opening a frame gets: the draw, pulled inside the total-width band.
pub open spec fn spec_frame_opening(drawn: int, shaft_width: int) -> int {
    let widened = if drawn < FRAME_WIDTH_LOW - 2 * shaft_width {
        FRAME_WIDTH_LOW - 2 * shaft_width
    } else {
        drawn
    };
    let narrowed = if widened > FRAME_WIDTH_HIGH - 2 * shaft_width {
        FRAME_WIDTH_HIGH - 2 * shaft_width
    } else {
        widened
    };
    if narrowed < 5 {
        5
    } else if narrowed > 9 {
        9
    } else {
        narrowed
    }
}

/// The canonical descriptor of a class drawn from a seed.
pub open spec fn spec_from_seed(class: SilhouetteClass, axis: SpanAxis, seed: u64) -> MonolithDescriptor {
    let (low_height, high_height) = spec_height_band(class);
    let height = spec_pick(seed, 0, low_height, high_height);
    let band_period = spec_pick(seed, 1, 3, 4);
    match class {
        SilhouetteClass::Spire => {
            let shaft_width = (5 + 2 * spec_pick(seed, 2, 0, 1)) as i64;
            MonolithDescriptor {
                class,
                height,
                shaft_width,
                depth: shaft_width,
                opening: 0,
                lintel_thickness: 0,
                rise: 0,
                broken_percent: 0,
                rubble: 0,
                band_period,
                lean: (1 - 2 * spec_pick(seed, 3, 0, 1)) as i64,
                axis,
                seed,
            }
        },
        _ => {
            let shaft_width = spec_pick(seed, 2, 3, 5);
            let is_gate = class == SilhouetteClass::Gate;
            MonolithDescriptor {
                class,
                height,
                shaft_width,
                depth: shaft_width,
                opening: spec_frame_opening(spec_pick(seed, 3, 5, 9) as int, shaft_width as int) as i64,
                lintel_thickness: if is_gate { spec_pick(seed, 4, 2, 3) } else { 0 },
                rise: if is_gate { spec_pick(seed, 5, 1, 3) } else { 0 },
                broken_percent: if is_gate { 0 } else { spec_pick(seed, 6, 35, 60) },
                rubble: if is_gate { 0 } else { spec_pick(seed, 7, 3, 8) },
                band_period,
                lean: 0,
                axis,
                seed,
            }
        },
    }
}

/// Clear height under a gate's lintel.
pub open spec fn spec_lintel_clearance(d: MonolithDescriptor) -> int {
    d.height - d.lintel_thickness - d.rise
}

/// The least clearance a gate of this height must leave: fourteen courses,
/// or three fifths of the height rounded up, whichever is more.
pub open spec fn spec_min_clearance(height: i64) -> i64 {
    let fraction = (3 * height + 4) / 5;
    if fraction > MIN_LINTEL_CLEARANCE {
        fraction as i64
    } else {
        MIN_LINTEL_CLEARANCE
    }
}

/// Whether `found` lies in the inclusive band.
pub open spec fn in_band(found: i64, low: i64, high: i64) -> bool {
    low <= found <= high
}

/// What validation answers, check by check in the order the style contract
/// lists them.
pub open spec fn spec_validate(d: MonolithDescriptor) -> Result<(), DescriptorError> {
    let (low, high) = spec_height_band(d.class);
    if !in_band(d.height, low, high) {
        Err(DescriptorError::OutOfBand { field: "height", found: d.height, low, high })
    } else if !in_band(d.band_period, 3, 4) {
        Err(DescriptorError::OutOfBand { field: "band_period", found: d.band_period, low: 3, high: 4 })
    } else if !in_band(d.depth, 3, 7) {
        Err(DescriptorError::OutOfBand { field: "depth", found: d.depth, low: 3, high: 7 })
    } else if d.class == SilhouetteClass::Spire {
        if !in_band(d.shaft_width, 5, 7) {
            Err(DescriptorError::OutOfBand { field: "shaft_width", found: d.shaft_width, low: 5, high: 7 })
        } else if d.shaft_width % 2 == 0 {
            Err(DescriptorError::EvenShaftWidth { found: d.shaft_width })
        } else if !in_band(d.lean, -1i64, 1) {
            Err(DescriptorError::OutOfBand { field: "lean", found: d.lean, low: -1i64, high: 1 })
        } else if d.lean == 0 {
            Err(DescriptorError::OutOfBand { field: "lean", found: 0, low: -1i64, high: 1 })
        } else if d.height < SPIRE_SLENDERNESS * d.shaft_width {
            Err(
                DescriptorError::Proportion {
                    height: d.height,
                    shaft_width: d.shaft_width,
                    minimum_ratio: SPIRE_SLENDERNESS,
                },
            )
        } else {
            Ok(())
        }
    } else if !in_band(d.shaft_width, 3, 5) {
        Err(DescriptorError::OutOfBand { field: "shaft_width", found: d.shaft_width, low: 3, high: 5 })
    } else if !in_band(d.opening, 5, 9) {
        Err(DescriptorError::OutOfBand { field: "opening", found: d.opening, low: 5, high: 9 })
    } else if !in_band((2 * d.shaft_width + d.opening) as i64, FRAME_WIDTH_LOW, FRAME_WIDTH_HIGH) {
        Err(
            DescriptorError::TotalWidth {
                found: (2 * d.shaft_width + d.opening) as i64,
                low: FRAME_WIDTH_LOW,
                high: FRAME_WIDTH_HIGH,
            },
        )
    } else if d.class == SilhouetteClass::Gate {
        if !in_band(d.lintel_thickness, 2, 3) {
            Err(DescriptorError::OutOfBand { field: "lintel_thickness", found: d.lintel_thickness, low: 2, high: 3 })
        } else if !in_band(d.rise, 1, 3) {
            Err(DescriptorError::OutOfBand { field: "rise", found: d.rise, low: 1, high: 3 })
        } else if spec_lintel_clearance(d) < spec_min_clearance(d.height) {
            Err(
                DescriptorError::LintelClearance {
                    found: spec_lintel_clearance(d) as i64,
                    minimum: spec_min_clearance(d.height),
                },
            )
        } else {
            Ok(())
        }
    } else if !in_band(d.broken_percent, 35, 60) {
        Err(DescriptorError::OutOfBand { field: "broken_percent", found: d.broken_percent, low: 35, high: 60 })
    } else if !in_band(d.rubble, 3, 8) {
        Err(DescriptorError::OutOfBand { field: "rubble", found: d.rubble, low: 3, high: 8 })
    } else {
        Ok(())
    }
}

/// Height of the shorter mass: a gate's flush shaft or a broken stump.
pub open spec fn spec_short_shaft_height(d: MonolithDescriptor) -> int {
    match d.class {
        SilhouetteClass::Spire => d.height as int,
        SilhouetteClass::Gate => d.height - d.rise,
        SilhouetteClass::Broken => {
            let stump = d.height * d.broken_percent / 100;
            if stump < 1 {
                1
            } else {
                stump
            }
        },
    }
}

/// Total width along the span axis, in columns.
pub open spec fn spec_span_width(d: MonolithDescriptor) -> int {
    match d.class {
        SilhouetteClass::Spire => d.shaft_width as int,
        SilhouetteClass::Gate => 2 * d.shaft_width + d.opening,
        SilhouetteClass::Broken => 2 * d.shaft_width + d.opening + RUBBLE_APRON,
    }
}

/// Whether the clear height under a lintel is computed without leaving `i64`.
pub open spec fn spec_clearance_fits(d: MonolithDescriptor) -> bool {
    &&& i64::MIN <= d.height - d.lintel_thickness <= i64::MAX
    &&& i64::MIN <= d.height - d.lintel_thickness - d.rise <= i64::MAX
}

/// Whether the shorter mass's height is computed without leaving `i64`.
pub open spec fn spec_short_shaft_fits(d: MonolithDescriptor) -> bool {
    match d.class {
        SilhouetteClass::Spire => true,
        SilhouetteClass::Gate => i64::MIN <= d.height - d.rise <= i64::MAX,
        SilhouetteClass::Broken => i64::MIN <= d.height * d.broken_percent <= i64::MAX,
    }
}

/// Whether the width along the span is computed without leaving `i64`.
pub open spec fn spec_span_fits(d: MonolithDescriptor) -> bool {
    match d.class {
        SilhouetteClass::Spire => true,
        SilhouetteClass::Gate => i64::MIN <= 2 * d.shaft_width <= i64::MAX && i64::MIN <= 2 * d.shaft_width
            + d.opening <= i64::MAX,
        SilhouetteClass::Broken => i64::MIN <= 2 * d.shaft_width <= i64::MAX && i64::MIN <= 2 * d.shaft_width
            + d.opening <= i64::MAX && i64::MIN <= 2 * d.shaft_width + d.opening + RUBBLE_APRON <= i64::MAX,
    }
}

/// Every field small enough that derived widths and heights cannot overflow.
pub open spec fn spec_bounded(d: MonolithDescriptor) -> bool {
    &&& -1_000_000 <= d.height <= 1_000_000
    &&& -1_000_000 <= d.shaft_width <= 1_000_000
    &&& -1_000_000 <= d.depth <= 1_000_000
    &&& -1_000_000 <= d.opening <= 1_000_000
    &&& -1_000_000 <= d.lintel_thickness <= 1_000_000
    &&& -1_000_000 <= d.rise <= 1_000_000
    &&& -1_000_000 <= d.broken_percent <= 1_000_000
}

/// The bytes a descriptor's identity is taken over, in a fixed order.
pub open spec fn spec_canonical_bytes(d: MonolithDescriptor) -> Seq<u8> {
    seq![
        match d.class {
            SilhouetteClass::Spire => 0u8,
            SilhouetteClass::Gate => 1u8,
            SilhouetteClass::Broken => 2u8,
        },
        match d.axis {
            SpanAxis::X => 0u8,
            SpanAxis::Z => 1u8,
        },
    ] + spec_u64_to_le_bytes(d.height as u64) + spec_u64_to_le_bytes(d.shaft_width as u64)
        + spec_u64_to_le_bytes(d.depth as u64) + spec_u64_to_le_bytes(d.opening as u64)
        + spec_u64_to_le_bytes(d.lintel_thickness as u64) + spec_u64_to_le_bytes(d.rise as u64)
        + spec_u64_to_le_bytes(d.broken_percent as u64) + spec_u64_to_le_bytes(d.rubble as u64)
        + spec_u64_to_le_bytes(d.band_period as u64) + spec_u64_to_le_bytes(d.lean as u64)
        + spec_u64_to_le_bytes(d.seed)
}

/// The identity of a descriptor under the current schema, compiler and
/// style versions.
pub open spec fn spec_descriptor_fingerprint(d: MonolithDescriptor) -> u64 {
    spec_fnv1a64(
        spec_tag_landmark_descriptor() + spec_u32_to_le_bytes(LANDMARK_SCHEMA_VERSION)
            + spec_u32_to_le_bytes(LANDMARK_COMPILER_VERSION) + spec_u32_to_le_bytes(
            LANDMARK_STYLE_VERSION,
        ) + spec_canonical_bytes(d),
    )
}

impl MonolithDescriptor {
    /// A canonical descriptor of a class, from one seeded draw.
    ///
    /// Every field is placed inside its band by construction, so the result
    /// always validates.
    pub fn from_seed(class: SilhouetteClass, axis: SpanAxis, seed: u64) -> (descriptor: Self)
        ensures
            descriptor == spec_from_seed(class, axis, seed),
    {
        let (low_height, high_height) = class.height_band();
        let height = pick(seed, 0, low_height, high_height);
        let band_period = pick(seed, 1, 3, 4);
        match class {
            SilhouetteClass::Spire => {
                let shaft_width = 5 + 2 * pick(seed, 2, 0, 1);
                MonolithDescriptor {
                    class,
                    height,
                    shaft_width,
                    depth: shaft_width,
                    opening: 0,
                    lintel_thickness: 0,
                    rise: 0,
                    broken_percent: 0,
                    rubble: 0,
                    band_period,
                    // Always one column, never none: a spire with no lean
                    // would be its own mirror image.
                    lean: 1 - 2 * pick(seed, 3, 0, 1),
                    axis,
                    seed,
                }
            },
            _ => {
                let shaft_width = pick(seed, 2, 3, 5);
                let drawn = pick(seed, 3, 5, 9);
                let mut opening = drawn;
                if opening < FRAME_WIDTH_LOW - 2 * shaft_width {
                    opening = FRAME_WIDTH_LOW - 2 * shaft_width;
                }
                if opening > FRAME_WIDTH_HIGH - 2 * shaft_width {
                    opening = FRAME_WIDTH_HIGH - 2 * shaft_width;
                }
                if opening < 5 {
                    opening = 5;
                } else if opening > 9 {
                    opening = 9;
                }
                let is_gate = class == SilhouetteClass::Gate;
                MonolithDescriptor {
                    class,
                    height,
                    shaft_width,
                    depth: shaft_width,
                    opening,
                    lintel_thickness: if is_gate { pick(seed, 4, 2, 3) } else { 0 },
                    rise: if is_gate { pick(seed, 5, 1, 3) } else { 0 },
                    broken_percent: if is_gate { 0 } else { pick(seed, 6, 35, 60) },
                    rubble: if is_gate { 0 } else { pick(seed, 7, 3, 8) },
                    band_period,
                    lean: 0,
                    axis,
                    seed,
                }
            },
        }
    }

    /// Clear height under a gate's lintel, derived so it cannot disagree with
    /// the height.
    pub fn lintel_clearance(&self) -> (clearance: i64)
        requires
            spec_clearance_fits(*self),
        ensures
            clearance == spec_lintel_clearance(*self),
    {
        self.height - self.lintel_thickness - self.rise
    }

    /// Height of the shorter mass: a gate's flush shaft or a broken stump.
    pub fn short_shaft_height(&self) -> (height: i64)
        requires
            spec_short_shaft_fits(*self),
        ensures
            height == spec_short_shaft_height(*self),
    {
        match self.class {
            SilhouetteClass::Spire => self.height,
            SilhouetteClass::Gate => self.height - self.rise,
            SilhouetteClass::Broken => {
                let stump = self.height * self.broken_percent / 100;
                if stump < 1 {
                    1
                } else {
                    stump
                }
            },
        }
    }

    /// Total width along the span axis, in columns.
    pub fn span_width(&self) -> (width: i64)
        requires
            spec_span_fits(*self),
        ensures
            width == spec_span_width(*self),
    {
        match self.class {
            SilhouetteClass::Spire => self.shaft_width,
            SilhouetteClass::Gate => 2 * self.shaft_width + self.opening,
            SilhouetteClass::Broken => 2 * self.shaft_width + self.opening + RUBBLE_APRON,
        }
    }

    /// Footprint in world columns: `(along x, along z)`.
    pub fn footprint(&self) -> (footprint: (i64, i64))
        requires
            spec_span_fits(*self),
        ensures
            footprint == match self.axis {
                SpanAxis::X => (spec_span_width(*self) as i64, self.depth),
                SpanAxis::Z => (self.depth, spec_span_width(*self) as i64),
            },
    {
        match self.axis {
            SpanAxis::X => (self.span_width(), self.depth),
            SpanAxis::Z => (self.depth, self.span_width()),
        }
    }

    /// Rejects anything outside the style contract.
    pub fn validate(&self) -> (result: Result<(), DescriptorError>)
        ensures
            result == spec_validate(*self),
    {
        let (low, high) = self.class.height_band();
        if !(low <= self.height && self.height <= high) {
            return Err(DescriptorError::OutOfBand { field: "height", found: self.height, low, high });
        }
        if !(3 <= self.band_period && self.band_period <= 4) {
            return Err(
                DescriptorError::OutOfBand { field: "band_period", found: self.band_period, low: 3, high: 4 },
            );
        }
        if !(3 <= self.depth && self.depth <= 7) {
            return Err(DescriptorError::OutOfBand { field: "depth", found: self.depth, low: 3, high: 7 });
        }
        match self.class {
            SilhouetteClass::Spire => {
                if !(5 <= self.shaft_width && self.shaft_width <= 7) {
                    return Err(
                        DescriptorError::OutOfBand {
                            field: "shaft_width",
                            found: self.shaft_width,
                            low: 5,
                            high: 7,
                        },
                    );
                }
                if self.shaft_width % 2 == 0 {
                    return Err(DescriptorError::EvenShaftWidth { found: self.shaft_width });
                }
                if !(-1 <= self.lean && self.lean <= 1) {
                    return Err(DescriptorError::OutOfBand { field: "lean", found: self.lean, low: -1, high: 1 });
                }
                if self.lean == 0 {
                    return Err(DescriptorError::OutOfBand { field: "lean", found: 0, low: -1, high: 1 });
                }
                if self.height < SPIRE_SLENDERNESS * self.shaft_width {
                    return Err(
                        DescriptorError::Proportion {
                            height: self.height,
                            shaft_width: self.shaft_width,
                            minimum_ratio: SPIRE_SLENDERNESS,
                        },
                    );
                }
            },
            SilhouetteClass::Gate | SilhouetteClass::Broken => {
                if !(3 <= self.shaft_width && self.shaft_width <= 5) {
                    return Err(
                        DescriptorError::OutOfBand {
                            field: "shaft_width",
                            found: self.shaft_width,
                            low: 3,
                            high: 5,
                        },
                    );
                }
                if !(5 <= self.opening && self.opening <= 9) {
                    return Err(DescriptorError::OutOfBand { field: "opening", found: self.opening, low: 5, high: 9 });
                }
                let frame = 2 * self.shaft_width + self.opening;
                if !(FRAME_WIDTH_LOW <= frame && frame <= FRAME_WIDTH_HIGH) {
                    return Err(
                        DescriptorError::TotalWidth {
                            found: frame,
                            low: FRAME_WIDTH_LOW,
                            high: FRAME_WIDTH_HIGH,
                        },
                    );
                }
                if self.class == SilhouetteClass::Gate {
                    if !(2 <= self.lintel_thickness && self.lintel_thickness <= 3) {
                        return Err(
                            DescriptorError::OutOfBand {
                                field: "lintel_thickness",
                                found: self.lintel_thickness,
                                low: 2,
                                high: 3,
                            },
                        );
                    }
                    if !(1 <= self.rise && self.rise <= 3) {
                        return Err(DescriptorError::OutOfBand { field: "rise", found: self.rise, low: 1, high: 3 });
                    }
                    let clearance = self.height - self.lintel_thickness - self.rise;
                    let fraction = (3 * self.height + 4) / 5;
                    let minimum = if fraction > MIN_LINTEL_CLEARANCE {
                        fraction
                    } else {
                        MIN_LINTEL_CLEARANCE
                    };
                    if clearance < minimum {
                        return Err(DescriptorError::LintelClearance { found: clearance, minimum });
                    }
                } else {
                    if !(35 <= self.broken_percent && self.broken_percent <= 60) {
                        return Err(
                            DescriptorError::OutOfBand {
                                field: "broken_percent",
                                found: self.broken_percent,
                                low: 35,
                                high: 60,
                            },
                        );
                    }
                    if !(3 <= self.rubble && self.rubble <= 8) {
                        return Err(DescriptorError::OutOfBand { field: "rubble", found: self.rubble, low: 3, high: 8 });
                    }
                }
            },
        }
        Ok(())
    }

    /// Canonical bytes, in a fixed order, for the identity fingerprint.
    pub fn canonical_bytes(&self) -> (bytes: Vec<u8>)
        ensures
            bytes@ == spec_canonical_bytes(*self),
    {
        let mut bytes: Vec<u8> = Vec::with_capacity(128);
        bytes.push(
            match self.class {
                SilhouetteClass::Spire => 0u8,
                SilhouetteClass::Gate => 1u8,
                SilhouetteClass::Broken => 2u8,
            },
        );
        bytes.push(
            match self.axis {
                SpanAxis::X => 0u8,
                SpanAxis::Z => 1u8,
            },
        );
        push_i64(&mut bytes, self.height);
        push_i64(&mut bytes, self.shaft_width);
        push_i64(&mut bytes, self.depth);
        push_i64(&mut bytes, self.opening);
        push_i64(&mut bytes, self.lintel_thickness);
        push_i64(&mut bytes, self.rise);
        push_i64(&mut bytes, self.broken_percent);
        push_i64(&mut bytes, self.rubble);
        push_i64(&mut bytes, self.band_period);
        push_i64(&mut bytes, self.lean);
        push_u64(&mut bytes, self.seed);
        proof {
            assert(bytes@ =~= spec_canonical_bytes(*self));
        }
        bytes
    }

    /// Identity of this descriptor under the current schema, compiler and
    /// style versions.
    pub fn fingerprint(&self) -> (fingerprint: u64)
        ensures
            fingerprint == spec_descriptor_fingerprint(*self),
    {
        let mut bytes = tag_landmark_descriptor();
        push_u32(&mut bytes, LANDMARK_SCHEMA_VERSION);
        push_u32(&mut bytes, LANDMARK_COMPILER_VERSION);
        push_u32(&mut bytes, LANDMARK_STYLE_VERSION);
        let mut canonical = self.canonical_bytes();
        bytes.append(&mut canonical);
        fnv1a64(bytes.as_slice())
    }
}

/// Every descriptor drawn from a seed, of every class and on either axis,
/// passes validation: canonicalisation cannot produce a rejected descriptor.
pub proof fn lemma_seeded_descriptors_validate(class: SilhouetteClass, axis: SpanAxis, seed: u64)
    ensures
        spec_validate(spec_from_seed(class, axis, seed)) == Ok::<(), DescriptorError>(()),
        spec_bounded(spec_from_seed(class, axis, seed)),
        -1 <= spec_from_seed(class, axis, seed).lean <= 1,
{
}

/// A valid gate leaves at least fourteen courses of clear height under its
/// lintel, and at least three fifths of its height.
pub proof fn lemma_valid_gates_leave_clearance(d: MonolithDescriptor)
    requires
        d.class == SilhouetteClass::Gate,
        spec_validate(d) is Ok,
    ensures
        spec_lintel_clearance(d) >= MIN_LINTEL_CLEARANCE,
        spec_lintel_clearance(d) >= spec_min_clearance(d.height),
{
}

/// However a frame is drawn, its total width stays inside the style band.
pub proof fn lemma_frames_stay_in_band(class: SilhouetteClass, axis: SpanAxis, seed: u64)
    requires
        class != SilhouetteClass::Spire,
    ensures
        ({
            let d = spec_from_seed(class, axis, seed);
            FRAME_WIDTH_LOW <= 2 * d.shaft_width + d.opening <= FRAME_WIDTH_HIGH
        }),
{
}

} // verus!
