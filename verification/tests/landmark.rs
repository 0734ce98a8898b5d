use std::collections::BTreeSet;

use lib::procedural::landmark::compile::CompiledMonolith;
use lib::procedural::landmark::descriptor::{
    DescriptorError, MonolithDescriptor, SilhouetteClass, SpanAxis, FRAME_WIDTH_HIGH,
    FRAME_WIDTH_LOW,
};
use lib::procedural::landmark::material::{
    all_landmark_materials, LandmarkMaterial, LANDMARK_ID_END, LANDMARK_ID_FIRST,
};
use lib::procedural::material::{all_materials, TerrainMaterial};
use lib::voxel::VoxelId;

fn compiled(class: SilhouetteClass, seed: u64) -> CompiledMonolith {
    CompiledMonolith::new(MonolithDescriptor::from_seed(class, SpanAxis::X, seed))
}

#[test]
fn every_seeded_descriptor_of_every_class_validates() {
    for class in SilhouetteClass::all() {
        for axis in [SpanAxis::X, SpanAxis::Z] {
            for seed in 0..512_u64 {
                let descriptor = MonolithDescriptor::from_seed(class, axis, seed);
                if let Err(error) = descriptor.validate() {
                    panic!("{class:?} seed {seed} produced {error:?}: {descriptor:?}");
                }
            }
        }
    }
}

#[test]
fn canonical_draws_are_deterministic_and_the_fingerprint_reacts_to_every_field() {
    let base = MonolithDescriptor::from_seed(SilhouetteClass::Gate, SpanAxis::X, 7);
    assert_eq!(base, MonolithDescriptor::from_seed(SilhouetteClass::Gate, SpanAxis::X, 7));
    assert_eq!(base.fingerprint(), base.fingerprint());
    let mut seen = BTreeSet::new();
    seen.insert(base.fingerprint());
    for mutated in [
        MonolithDescriptor { height: base.height + 1, ..base },
        MonolithDescriptor { shaft_width: base.shaft_width + 1, ..base },
        MonolithDescriptor { depth: base.depth + 1, ..base },
        MonolithDescriptor { opening: base.opening + 1, ..base },
        MonolithDescriptor { lintel_thickness: base.lintel_thickness + 1, ..base },
        MonolithDescriptor { rise: base.rise + 1, ..base },
        MonolithDescriptor { broken_percent: base.broken_percent + 1, ..base },
        MonolithDescriptor { rubble: base.rubble + 1, ..base },
        MonolithDescriptor { band_period: base.band_period + 1, ..base },
        MonolithDescriptor { lean: base.lean + 1, ..base },
        MonolithDescriptor { axis: SpanAxis::Z, ..base },
        MonolithDescriptor { seed: base.seed + 1, ..base },
        MonolithDescriptor { class: SilhouetteClass::Broken, ..base },
    ] {
        assert!(seen.insert(mutated.fingerprint()), "the fingerprint ignored a field: {mutated:?}");
    }
}

#[test]
fn validation_rejects_what_canonicalisation_cannot_produce() {
    let spire = MonolithDescriptor::from_seed(SilhouetteClass::Spire, SpanAxis::X, 3);
    assert!(matches!(
        MonolithDescriptor { shaft_width: 6, ..spire }.validate(),
        Err(DescriptorError::EvenShaftWidth { found: 6 })
    ));
    assert!(matches!(
        MonolithDescriptor { height: 12, ..spire }.validate(),
        Err(DescriptorError::OutOfBand { field: "height", .. })
    ));
    let gate = MonolithDescriptor::from_seed(SilhouetteClass::Gate, SpanAxis::X, 5);
    assert!(matches!(
        MonolithDescriptor { rise: 12, ..gate }.validate(),
        Err(DescriptorError::OutOfBand { field: "rise", .. })
    ));
    assert!(matches!(
        MonolithDescriptor { opening: 5, shaft_width: 3, ..gate }.validate(),
        Err(DescriptorError::TotalWidth { found: 11, .. })
    ));
}

#[test]
fn a_frame_is_never_narrower_than_the_style_band_however_it_is_drawn() {
    for class in [SilhouetteClass::Gate, SilhouetteClass::Broken] {
        for seed in 0..512_u64 {
            let descriptor = MonolithDescriptor::from_seed(class, SpanAxis::X, seed);
            let frame = 2 * descriptor.shaft_width + descriptor.opening;
            assert!(
                (FRAME_WIDTH_LOW..=FRAME_WIDTH_HIGH).contains(&frame),
                "{class:?} seed {seed} is {frame} wide"
            );
        }
    }
}

#[test]
fn every_seeded_landmark_is_supported_asymmetric_and_does_not_overhang() {
    for class in SilhouetteClass::all() {
        for axis in [SpanAxis::X, SpanAxis::Z] {
            for seed in 0..96_u64 {
                let landmark =
                    CompiledMonolith::new(MonolithDescriptor::from_seed(class, axis, seed));
                assert!(landmark.voxel_count() > 40, "{class:?} {seed} is tiny");
                assert!(landmark.is_supported(), "{class:?} {seed} floats");
                assert!(landmark.respects_taper(), "{class:?} {seed} overhangs");
                assert!(landmark.is_asymmetric(), "{class:?} {seed} is a mirror");
            }
        }
    }
}

#[test]
fn compiling_is_deterministic_and_the_geometry_fingerprint_follows_the_shape() {
    let first = compiled(SilhouetteClass::Gate, 11);
    let second = compiled(SilhouetteClass::Gate, 11);
    assert_eq!(first, second);
    assert_eq!(first.geometry_fingerprint(), second.geometry_fingerprint());
    let other = compiled(SilhouetteClass::Gate, 12);
    assert_ne!(first.geometry_fingerprint(), other.geometry_fingerprint());
    // The same descriptor on the other axis is a different arrangement of
    // the same voxels, and the fingerprint sees it.
    let turned = CompiledMonolith::new(MonolithDescriptor { axis: SpanAxis::Z, ..*first.descriptor() });
    assert_ne!(first.geometry_fingerprint(), turned.geometry_fingerprint());
}

#[test]
fn a_landmark_is_banded_capped_and_mostly_stone() {
    for class in SilhouetteClass::all() {
        for seed in 0..32_u64 {
            let landmark = compiled(class, seed);
            let total = landmark.voxel_count();
            let cap = landmark.material_count(LandmarkMaterial::Cap);
            let band = landmark.material_count(LandmarkMaterial::Band);
            assert!(cap > 0, "{class:?} {seed} has no plinth");
            assert!(band > 0, "{class:?} {seed} has no strata");
            assert!(
                cap * 4 <= total,
                "{class:?} {seed} is {cap} of {total} plinth, over the quarter the style allows"
            );
        }
    }
}

#[test]
fn a_column_reports_the_lowest_and_highest_voxel_it_holds() {
    let gate = compiled(SilhouetteClass::Gate, 3);
    let descriptor = *gate.descriptor();
    let (size_x, size_y, size_z) = gate.size();
    for z in 0..size_z {
        for x in 0..size_x {
            let mut expected: Option<(i32, i32)> = None;
            for y in 0..size_y {
                if gate.material_at(x, y, z).is_some() {
                    let y = i32::try_from(y).unwrap_or(i32::MAX);
                    expected = Some(expected.map_or((y, y), |(low, _)| (low, y)));
                }
            }
            assert_eq!(gate.column(x, z), expected, "column ({x}, {z})");
        }
    }
    // The opening columns start at the lintel and nowhere lower.
    let clearance = i32::try_from(descriptor.lintel_clearance()).unwrap_or_default();
    for v in 0..descriptor.depth {
        let u = descriptor.shaft_width;
        let Some(column) = gate.column(
            usize::try_from(u).unwrap_or_default(),
            usize::try_from(v).unwrap_or_default(),
        ) else {
            panic!("a gate's opening column carries its lintel");
        };
        assert_eq!(column.0, clearance);
    }
}

#[test]
fn every_landmark_material_round_trips_through_its_identifier() {
    let mut seen = Vec::new();
    for material in all_landmark_materials() {
        let id = material.voxel_id();
        assert!(!id.is_air());
        assert!(
            (LANDMARK_ID_FIRST..LANDMARK_ID_END).contains(&id.0),
            "{} escaped the declared range",
            material.name()
        );
        assert_eq!(LandmarkMaterial::from_voxel_id(id), Some(material));
        assert!(!seen.contains(&id), "{} duplicates an id", material.name());
        seen.push(id);
    }
    assert_eq!(seen.len(), all_landmark_materials().len());
}

#[test]
fn the_landmark_range_is_disjoint_from_terrain() {
    for terrain in all_materials() {
        assert!(
            LandmarkMaterial::from_voxel_id(terrain.voxel_id()).is_none(),
            "terrain {} is also a landmark identifier",
            terrain.name()
        );
    }
    for raw in LANDMARK_ID_FIRST..LANDMARK_ID_END {
        assert!(TerrainMaterial::from_voxel_id(VoxelId(raw)).is_none());
    }
    // And nothing outside the declared block answers.
    assert!(LandmarkMaterial::from_voxel_id(VoxelId(LANDMARK_ID_FIRST - 1)).is_none());
    assert!(LandmarkMaterial::from_voxel_id(VoxelId(LANDMARK_ID_END)).is_none());
}

#[test]
fn a_compiled_landmark_has_the_grid_its_descriptor_describes() {
    let spire = MonolithDescriptor::from_seed(SilhouetteClass::Spire, SpanAxis::Z, 4);
    let landmark = CompiledMonolith::new(spire);
    let (size_x, size_y, size_z) = landmark.size();
    // A spire's span grows by its one column of lean.
    assert_eq!(size_x, usize::try_from(spire.depth).unwrap_or_default());
    assert_eq!(size_z, usize::try_from(spire.shaft_width + 1).unwrap_or_default());
    assert_eq!(size_y, usize::try_from(spire.height).unwrap_or_default());
    assert_eq!(landmark.material_at(size_x, 0, 0), None);
    assert_eq!(landmark.column(0, size_z), None);
    // The base course is the pale plinth wherever it is filled.
    for z in 0..size_z {
        for x in 0..size_x {
            if let Some(material) = landmark.material_at(x, 0, z) {
                assert_eq!(material, LandmarkMaterial::Cap);
            }
        }
    }
}

#[test]
fn a_broken_frame_scatters_rubble_beside_its_shafts() {
    let descriptor = MonolithDescriptor::from_seed(SilhouetteClass::Broken, SpanAxis::X, 9);
    let broken = CompiledMonolith::new(descriptor);
    let shaft = usize::try_from(descriptor.shaft_width).unwrap_or_default();
    let opening = usize::try_from(descriptor.opening).unwrap_or_default();
    let depth = usize::try_from(descriptor.depth).unwrap_or_default();
    let mut rubble = 0;
    for z in 0..depth {
        for x in (shaft..shaft + opening).chain(2 * shaft + opening..2 * shaft + opening + 2) {
            if broken.material_at(x, 0, z).is_some() {
                assert_eq!(broken.material_at(x, 0, z), Some(LandmarkMaterial::Stone));
                assert!(broken.material_at(x, 2, z).is_none(), "rubble is at most two high");
                rubble += 1;
            }
        }
    }
    assert!(rubble > 0, "a broken frame leaves fallen blocks");
    assert!(rubble <= usize::try_from(descriptor.rubble).unwrap_or_default());
}

/// The shorter of the two tallest masses over the tallest, or one where there
/// is a single mass.
fn mass_ratio(silhouette: &lib::procedural::landmark::compile::SilhouetteShape) -> f64 {
    let mut heights: Vec<i64> = silhouette.masses.iter().map(|mass| mass.height).collect();
    heights.sort_unstable_by(|a, b| b.cmp(a));
    match (heights.first(), heights.get(1)) {
        (Some(tallest), Some(second)) if *tallest > 0 => *second as f64 / *tallest as f64,
        _ => 1.0,
    }
}

#[test]
fn a_gate_leaves_an_opening_a_body_can_walk_under_and_nothing_else_does() {
    for seed in 0..64_u64 {
        let gate = compiled(SilhouetteClass::Gate, seed);
        let silhouette = gate.silhouette_shape();
        let descriptor = *gate.descriptor();
        assert_eq!(
            silhouette.opening_columns,
            descriptor.opening * descriptor.depth,
            "a gate's opening is its whole span between the shafts"
        );
        assert_eq!(silhouette.opening_clearance, descriptor.lintel_clearance());
        assert!(silhouette.opening_clearance >= 14, "a gate at seed {seed} is too low to walk under");
        for class in [SilhouetteClass::Spire, SilhouetteClass::Broken] {
            assert_eq!(
                compiled(class, seed).silhouette_shape().opening_columns,
                0,
                "{class:?} should have nothing to walk under"
            );
        }
    }
}

#[test]
fn the_three_classes_are_distinguishable_by_their_silhouettes() {
    for seed in 0..32_u64 {
        let spire = compiled(SilhouetteClass::Spire, seed).silhouette_shape();
        let gate = compiled(SilhouetteClass::Gate, seed).silhouette_shape();
        let broken = compiled(SilhouetteClass::Broken, seed).silhouette_shape();
        let slender = |value: &lib::procedural::landmark::compile::SilhouetteShape| {
            value.height as f64 / value.width as f64
        };
        assert!(slender(&spire) >= 4.0, "spire {seed}: {spire:?}");
        assert!(slender(&gate) <= 2.2, "gate {seed}: {gate:?}");
        assert!(slender(&broken) <= 2.2, "broken {seed}: {broken:?}");
        assert!(spire.opening_columns == 0 && gate.opening_columns > 0);
        assert!(mass_ratio(&gate) >= 0.80, "gate {seed}: {gate:?}");
        assert!(mass_ratio(&broken) <= 0.62, "broken {seed}: {broken:?}");
        assert!(spire.crown_width < gate.crown_width, "a spire's crown must be the narrowest");
    }
}

#[test]
fn a_spire_stands_as_one_mass_and_a_gate_on_two_feet() {
    for seed in 0..16_u64 {
        let spire = compiled(SilhouetteClass::Spire, seed);
        let masses = spire.grounded_masses();
        assert_eq!(masses.len(), 1, "spire {seed}");
        assert!(0 < masses[0].height && masses[0].height <= spire.descriptor().height);
        let gate = compiled(SilhouetteClass::Gate, seed).silhouette_shape();
        assert_eq!(gate.masses.len(), 2, "gate {seed}");
        for mass in &gate.masses {
            assert!(mass.columns.windows(2).all(|pair| pair[0] < pair[1]));
        }
        assert!(gate.masses[0].columns[0] < gate.masses[1].columns[0]);
    }
}
