use lib::combat::paint::{WeaponMaterial, WeaponPaint};
use lib::combat::weapon::{
    Band, WeaponDescriptor, WeaponDescriptorError, WeaponError, WeaponIdentity, WeaponMetrics,
    WeaponPart, WeaponSeed, COMBAT_STYLE_VERSION, MAX_WEAPON_EDGE, MIN_WEAPON_FEATURE,
    WEAPON_COMPILER_VERSION, WEAPON_SCHEMA_VERSION,
};

fn golden_metrics() -> WeaponMetrics {
    match WeaponDescriptor::golden().validate() {
        Ok(weapon) => *weapon.metrics(),
        Err(error) => panic!("the golden weapon must validate: {error:?}"),
    }
}

#[test]
fn every_descriptor_rejection_is_reachable_and_typed() {
    let golden = WeaponDescriptor::golden();
    let cases: [(WeaponDescriptor, WeaponDescriptorError); 8] = [
        (
            WeaponDescriptor { schema_version: 99, ..golden },
            WeaponDescriptorError::SchemaMismatch { found: 99, expected: WEAPON_SCHEMA_VERSION },
        ),
        (
            WeaponDescriptor { blade_thickness: 1, ..golden },
            WeaponDescriptorError::FeatureTooThin { part: WeaponPart::Blade, axis: 0, extent: 1 },
        ),
        (
            WeaponDescriptor { blade_length: 64, ..golden },
            WeaponDescriptorError::FeatureTooLarge {
                part: WeaponPart::Blade,
                axis: 1,
                extent: 64,
                maximum: MAX_WEAPON_EDGE,
            },
        ),
        (
            WeaponDescriptor { guard_width: 2, ..golden },
            WeaponDescriptorError::GuardNarrowerThanBlade { guard: 2, blade: 4 },
        ),
        (
            WeaponDescriptor { grip_above_hand: 5, ..golden },
            WeaponDescriptorError::HandOutsideGrip { grip_length: 5, grip_above_hand: 5 },
        ),
        (
            WeaponDescriptor { grip_pitch_bits: f32::NAN.to_bits(), ..golden },
            WeaponDescriptorError::GripPitchNotFinite,
        ),
        (
            WeaponDescriptor { blade_length: 26, ..golden },
            WeaponDescriptorError::TooTall { height: 35, maximum: MAX_WEAPON_EDGE },
        ),
        (
            WeaponDescriptor { guard_width: 7, ..golden },
            WeaponDescriptorError::NotCentred { part: WeaponPart::Blade, axis: 0, extent: 2, bound: 7 },
        ),
    ];
    for (descriptor, expected) in cases {
        match descriptor.validate() {
            Ok(_) => panic!("{expected:?} should have been rejected"),
            Err(error) => assert_eq!(error, expected, "wrong rejection"),
        }
    }
}

#[test]
fn the_golden_descriptor_validates_to_its_layout() {
    let descriptor = WeaponDescriptor::golden();
    let metrics = golden_metrics();
    assert_eq!(metrics.dims, [6, 23, 4]);
    assert_eq!(metrics.hand_y, 19);
    assert_eq!(metrics.blade_y, Band::new(0, descriptor.blade_length));
    assert_eq!(metrics.guard_y, Band::new(14, 16));
    assert_eq!(metrics.grip_y, Band::new(16, 21));
    assert_eq!(metrics.pommel_y, Band::new(21, 23));
    assert_eq!(metrics.blade_x, Band::new(2, 4));
    assert_eq!(metrics.guard_z, Band::new(0, 4));
    assert_eq!(metrics.pommel_x, Band::new(1, 5));
    assert_eq!(metrics.cell_count(), 6 * 23 * 4);
}

#[test]
fn the_weapon_is_one_connected_piece() {
    let metrics = golden_metrics();
    let touching = |lower: Band, upper: Band, low_x: Band, up_x: Band| {
        assert_eq!(lower.high, upper.low, "bands must meet without a gap");
        assert!(low_x.low < up_x.high && up_x.low < low_x.high, "bands must overlap across the weapon");
    };
    touching(metrics.blade_y, metrics.guard_y, metrics.blade_x, metrics.guard_x);
    touching(metrics.guard_y, metrics.grip_y, metrics.guard_x, metrics.grip_x);
    touching(metrics.grip_y, metrics.pommel_y, metrics.grip_x, metrics.pommel_x);
}

#[test]
fn the_hand_sits_inside_the_grip() {
    let metrics = golden_metrics();
    assert!(metrics.grip_y.contains(metrics.hand_y), "the hand's own origin must be a grip cell");
}

#[test]
fn no_feature_is_thinner_than_the_style_minimum() {
    let descriptor = WeaponDescriptor::golden();
    for extent in [
        descriptor.blade_length,
        descriptor.blade_width,
        descriptor.blade_thickness,
        descriptor.guard_width,
        descriptor.guard_height,
        descriptor.grip_length,
        descriptor.grip_thickness,
        descriptor.pommel_width,
        descriptor.pommel_height,
    ] {
        assert!(extent >= MIN_WEAPON_FEATURE, "{extent} is a one-voxel feature");
    }
}

#[test]
fn a_band_answers_what_it_contains() {
    let band = Band::new(2, 5);
    assert!(!band.contains(1));
    assert!(band.contains(2));
    assert!(band.contains(4));
    assert!(!band.contains(5));
    assert_eq!(band.extent(), 3);
    for part in [WeaponPart::Blade, WeaponPart::Guard, WeaponPart::Grip, WeaponPart::Pommel] {
        assert!(!part.name().is_empty());
    }
}

#[test]
fn identity_fingerprint_folds_the_descriptor_and_both_contract_versions() {
    let identity = WeaponIdentity {
        descriptor_fingerprint: 0x1122_3344_5566_7788,
        compiler_version: WEAPON_COMPILER_VERSION,
        style_version: COMBAT_STYLE_VERSION,
    };
    let mut bytes = Vec::new();
    bytes.extend_from_slice(&identity.descriptor_fingerprint.to_le_bytes());
    bytes.extend_from_slice(&WEAPON_COMPILER_VERSION.to_le_bytes());
    bytes.extend_from_slice(&COMBAT_STYLE_VERSION.to_le_bytes());
    assert_eq!(identity.fingerprint(), lib::hash::fnv1a64(&bytes));
    let restyled = WeaponIdentity { style_version: COMBAT_STYLE_VERSION + 1, ..identity };
    assert_ne!(restyled.fingerprint(), identity.fingerprint());
    assert_eq!(WeaponSeed::golden().raw(), 0x5645_4c44_5745_4150);
}

#[test]
fn a_descriptor_rejection_converts_into_a_weapon_error() {
    let error = WeaponError::from(WeaponDescriptorError::GripPitchNotFinite);
    assert_eq!(error, WeaponError::Descriptor(WeaponDescriptorError::GripPitchNotFinite));
    assert!(matches!(
        WeaponDescriptor { blade_thickness: 0, ..WeaponDescriptor::golden() }.validate(),
        Err(WeaponDescriptorError::FeatureTooThin { .. })
    ));
}

#[test]
fn every_cell_outside_the_four_bands_is_air() {
    let metrics = golden_metrics();
    // Beside the grip, at grip height but outside its cross section.
    assert!(metrics.material_at([0, 18, 0]).is_none());
    // Above the pommel and below the tip.
    assert!(metrics.material_at([3, 23, 2]).is_none());
    assert!(metrics.material_at([3, -1, 2]).is_none());
    for part in [WeaponPart::Blade, WeaponPart::Guard, WeaponPart::Grip, WeaponPart::Pommel] {
        assert!(!part.name().is_empty());
    }
}

#[test]
fn the_blade_paints_edge_body_and_spine_across_its_width() {
    let metrics = golden_metrics();
    // The blade is two cells thick (x 2..4) and four wide (z 0..4).
    assert_eq!(metrics.material_at([2, 0, 0]), Some(WeaponMaterial::BladeEdge));
    assert_eq!(metrics.material_at([3, 5, 1]), Some(WeaponMaterial::BladeBody));
    assert_eq!(metrics.material_at([2, 13, 3]), Some(WeaponMaterial::BladeShade));
    assert_eq!(metrics.material_at([0, 14, 0]), Some(WeaponMaterial::Guard));
    assert_eq!(metrics.material_at([2, 18, 1]), Some(WeaponMaterial::Grip));
    assert_eq!(metrics.material_at([1, 22, 1]), Some(WeaponMaterial::Pommel));
    assert!(WeaponMaterial::BladeShade.is_blade());
    assert!(!WeaponMaterial::Guard.is_blade());
    assert_eq!(metrics.material_at([1, 5, 1]), None);
}

#[test]
fn the_golden_weapon_paints_four_boxes_and_a_derived_blade() {
    let descriptor = WeaponDescriptor::golden();
    let weapon = match descriptor.validate() {
        Ok(weapon) => weapon,
        Err(error) => panic!("the golden weapon must validate: {error:?}"),
    };
    let paint = match WeaponPaint::of(&weapon) {
        Ok(paint) => paint,
        Err(error) => panic!("the golden weapon must paint: {error:?}"),
    };
    let blade = descriptor.blade_thickness * descriptor.blade_length * descriptor.blade_width;
    let guard = descriptor.guard_width * descriptor.guard_height * descriptor.blade_width;
    let grip = descriptor.grip_thickness * descriptor.grip_length * descriptor.grip_thickness;
    let pommel = descriptor.pommel_width * descriptor.pommel_height * descriptor.pommel_width;
    assert_eq!(paint.solid_voxels as i32, blade + guard + grip + pommel);
    assert_eq!(paint.blade_y, Band::new(0, descriptor.blade_length));
    assert_eq!(paint.blade_x, Band::new(2, 4));
    assert_eq!(paint.blade_z, Band::new(0, 4));
}

#[test]
fn a_longer_blade_moves_the_painted_extent() {
    let long = WeaponDescriptor { blade_length: 20, ..WeaponDescriptor::golden() };
    let weapon = match long.validate() {
        Ok(weapon) => weapon,
        Err(error) => panic!("a longer blade must validate: {error:?}"),
    };
    let paint = match WeaponPaint::of(&weapon) {
        Ok(paint) => paint,
        Err(error) => panic!("a longer blade must paint: {error:?}"),
    };
    assert_eq!(paint.blade_y, Band::new(0, 20));
}

#[test]
fn material_counts_add_up_to_the_solid_count() {
    let descriptor = WeaponDescriptor::golden();
    let weapon = match descriptor.validate() {
        Ok(weapon) => weapon,
        Err(error) => panic!("the golden weapon must validate: {error:?}"),
    };
    let paint = match WeaponPaint::of(&weapon) {
        Ok(paint) => paint,
        Err(error) => panic!("the golden weapon must paint: {error:?}"),
    };
    let total: u32 = paint.material_counts.iter().sum();
    assert_eq!(total, paint.solid_voxels);
    // Every declared material is used, or the palette describes colours
    // nothing wears.
    for (index, count) in paint.material_counts.iter().enumerate() {
        assert!(*count > 0, "material {index} appears on no cell");
    }
}

#[test]
fn each_material_covers_its_own_box() {
    let descriptor = WeaponDescriptor::golden();
    let weapon = match descriptor.validate() {
        Ok(weapon) => weapon,
        Err(error) => panic!("the golden weapon must validate: {error:?}"),
    };
    let paint = match WeaponPaint::of(&weapon) {
        Ok(paint) => paint,
        Err(error) => panic!("the golden weapon must paint: {error:?}"),
    };
    let face = (descriptor.blade_thickness * descriptor.blade_length) as u32;
    let count = |material: WeaponMaterial| paint.material_counts[material.index()];
    assert_eq!(count(WeaponMaterial::BladeEdge), face);
    assert_eq!(count(WeaponMaterial::BladeShade), face);
    assert_eq!(count(WeaponMaterial::BladeBody), face * (descriptor.blade_width as u32 - 2));
    assert_eq!(
        count(WeaponMaterial::Guard) as i32,
        descriptor.guard_width * descriptor.guard_height * descriptor.blade_width
    );
    assert_eq!(
        count(WeaponMaterial::Grip) as i32,
        descriptor.grip_thickness * descriptor.grip_length * descriptor.grip_thickness
    );
    assert_eq!(
        count(WeaponMaterial::Pommel) as i32,
        descriptor.pommel_width * descriptor.pommel_height * descriptor.pommel_width
    );
    assert_eq!(WeaponMaterial::Pommel.index(), 5);
}
