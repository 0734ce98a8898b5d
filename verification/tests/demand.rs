use std::collections::BTreeSet;

use lib::streaming::demand::{DemandError, DemandSets, LodSelection, StreamingConfig};
use lib::streaming::types::LodLevel;
use lib::voxel::{ChunkCoord, CHUNK_EDGE};

fn set(coords: &[ChunkCoord]) -> BTreeSet<ChunkCoord> {
    coords.iter().copied().collect()
}

#[test]
fn the_m4_profile_is_wide_lod0_only_and_internally_consistent() -> Result<(), DemandError> {
    let config = StreamingConfig::m4_golden();
    assert_eq!(config.lod_selection, LodSelection::Lod0Only);
    assert!(
        config.render_radius > StreamingConfig::m3c_diagnostic().render_radius,
        "the golden slice must see further than the M3C diagnostic"
    );
    let sets = DemandSets::around(ChunkCoord::default(), config.validate()?)?;
    assert_eq!(sets.render.len(), 2_197);
    assert_eq!(sets.dependency.len(), 3_211);
    assert_eq!(sets.retention.len(), 3_375);
    // The visible radius has to reach across the valley the region builds.
    assert!(
        CHUNK_EDGE as u32 * config.render_radius >= 190,
        "the visible radius does not reach the far valley wall"
    );
    assert!(
        config.hard_resident_cap > sets.retention.len(),
        "the cap leaves no headroom for one chunk of movement"
    );
    let banded = StreamingConfig::m4_golden_banded().validate()?;
    assert_eq!(banded.lod_selection, LodSelection::Banded);
    assert_eq!(banded.render_radius, config.render_radius);
    Ok(())
}

#[test]
fn default_demand_counts_are_deterministic() -> Result<(), DemandError> {
    let sets = DemandSets::around(ChunkCoord::default(), StreamingConfig::default())?;
    assert_eq!(sets.render.len(), 27);
    assert_eq!(sets.dependency.len(), 81);
    assert_eq!(sets.retention.len(), 125);
    Ok(())
}

#[test]
fn demand_moves_identically_across_positive_and_negative_boundaries() -> Result<(), DemandError> {
    let config = StreamingConfig::default();
    let negative = DemandSets::around(ChunkCoord::new(-1, 0, 0), config)?;
    let positive = DemandSets::around(ChunkCoord::new(1, 0, 0), config)?;
    assert_eq!(negative.render.len(), positive.render.len());
    assert!(negative.render.contains(&ChunkCoord::new(-2, 0, 0)));
    assert!(positive.render.contains(&ChunkCoord::new(2, 0, 0)));
    Ok(())
}

#[test]
fn boundary_oscillation_has_symmetric_overlap() -> Result<(), DemandError> {
    let config = StreamingConfig::default();
    let left = DemandSets::around(ChunkCoord::new(-1, 0, 0), config)?;
    let right = DemandSets::around(ChunkCoord::new(0, 0, 0), config)?;
    assert_eq!(set(&left.retention).intersection(&set(&right.retention)).count(), 100);
    assert_eq!(set(&left.dependency).intersection(&set(&right.dependency)).count(), 60);
    Ok(())
}

#[test]
fn m3c_profile_sets_have_the_documented_sizes() -> Result<(), DemandError> {
    let config = StreamingConfig::m3c_diagnostic().validate()?;
    let sets = DemandSets::around(ChunkCoord::default(), config)?;
    assert_eq!(sets.render.len(), 343);
    assert_eq!(sets.dependency.len(), 637);
    assert_eq!(sets.retention.len(), 729);
    let shifted = DemandSets::around(ChunkCoord::new(1, 0, 0), config)?;
    assert_eq!(set(&sets.retention).union(&set(&shifted.retention)).count(), 810);
    assert!(config.hard_resident_cap >= 810);
    Ok(())
}

#[test]
fn baseline_profile_differs_from_banded_only_in_selection() -> Result<(), DemandError> {
    let baseline = StreamingConfig::m3c_baseline().validate()?;
    let banded = StreamingConfig::m3c_diagnostic().validate()?;
    assert_eq!(baseline.lod_selection, LodSelection::Lod0Only);
    assert_eq!(StreamingConfig { lod_selection: LodSelection::Banded, ..baseline }, banded);
    assert_ne!(baseline, StreamingConfig::default());
    Ok(())
}

#[test]
fn banded_selection_follows_the_transition_band() {
    let banded = LodSelection::Banded;
    assert_eq!(banded.select(0, None), LodLevel::Lod0);
    assert_eq!(banded.select(1, Some(LodLevel::Lod1)), LodLevel::Lod0);
    assert_eq!(banded.select(2, None), LodLevel::Lod1);
    assert_eq!(banded.select(2, Some(LodLevel::Lod0)), LodLevel::Lod0);
    assert_eq!(banded.select(2, Some(LodLevel::Lod1)), LodLevel::Lod1);
    assert_eq!(banded.select(3, Some(LodLevel::Lod0)), LodLevel::Lod1);
    assert_eq!(banded.select(7, None), LodLevel::Lod1);
    for distance in 0..5 {
        assert_eq!(LodSelection::Lod0Only.select(distance, Some(LodLevel::Lod1)), LodLevel::Lod0);
    }
}

#[test]
fn valid_configurations_are_accepted() -> Result<(), DemandError> {
    StreamingConfig::default().validate()?;
    StreamingConfig {
        render_radius: 0,
        dependency_halo: 1,
        retention_radius: 1,
        hard_resident_cap: 16,
        max_cpu_evictions_per_update: 1,
        ..StreamingConfig::default()
    }
    .validate()?;
    StreamingConfig {
        render_radius: 2,
        dependency_halo: 3,
        retention_radius: 9,
        hard_resident_cap: 1,
        max_cpu_evictions_per_update: 64,
        ..StreamingConfig::default()
    }
    .validate()?;
    Ok(())
}

#[test]
fn retention_must_cover_the_dependency_halo() {
    let config = StreamingConfig {
        render_radius: 2,
        dependency_halo: 1,
        retention_radius: 2,
        ..StreamingConfig::default()
    };
    assert_eq!(
        config.validate(),
        Err(DemandError::RetentionTooSmall {
            render_radius: 2,
            dependency_halo: 1,
            retention_radius: 2,
            required_retention: 3,
        })
    );
}

#[test]
fn radius_sum_uses_checked_addition() {
    let config = StreamingConfig {
        render_radius: u32::MAX,
        dependency_halo: 1,
        retention_radius: u32::MAX,
        ..StreamingConfig::default()
    };
    assert_eq!(
        config.validate(),
        Err(DemandError::RadiusOverflow { render_radius: u32::MAX, dependency_halo: 1 })
    );
}

#[test]
fn zero_budgets_are_rejected() {
    assert_eq!(
        StreamingConfig { hard_resident_cap: 0, ..StreamingConfig::default() }.validate(),
        Err(DemandError::ZeroResidentCap)
    );
    assert_eq!(
        StreamingConfig { max_cpu_evictions_per_update: 0, ..StreamingConfig::default() }.validate(),
        Err(DemandError::ZeroEvictionBudget)
    );
}

#[test]
fn oversized_radius_is_rejected_before_iteration() {
    let config = StreamingConfig {
        render_radius: u32::MAX,
        dependency_halo: 0,
        retention_radius: u32::MAX,
        ..StreamingConfig::default()
    };
    assert_eq!(DemandSets::around(ChunkCoord::default(), config), Err(DemandError::RadiusTooLarge));
}

#[test]
fn a_validated_dependency_set_is_always_inside_retention() -> Result<(), DemandError> {
    for (render_radius, dependency_halo, retention_radius) in [(0, 1, 1), (1, 1, 2), (1, 2, 3), (2, 1, 4)] {
        let config = StreamingConfig {
            render_radius,
            dependency_halo,
            retention_radius,
            ..StreamingConfig::default()
        };
        let sets = DemandSets::around(ChunkCoord::new(-3, 1, 2), config)?;
        assert!(
            set(&sets.dependency).is_subset(&set(&sets.retention)),
            "dependency escaped retention for {config:?}"
        );
        assert!(set(&sets.render).is_subset(&set(&sets.dependency)));
    }
    Ok(())
}

#[test]
fn demand_near_the_coordinate_limit_is_a_typed_error() {
    let edge = ChunkCoord::new(i32::MAX, 0, 0);
    assert_eq!(
        DemandSets::around(edge, StreamingConfig::default()),
        Err(DemandError::CoordinateOverflow { center: edge })
    );
    // The render cube fits one chunk in from the limit, but the halo does not.
    let inside = ChunkCoord::new(i32::MAX - 1, 0, 0);
    assert_eq!(
        DemandSets::around(inside, StreamingConfig::default()),
        Err(DemandError::CoordinateOverflow { center: inside })
    );
    let sets = DemandSets::around(ChunkCoord::new(i32::MAX - 2, 0, 0), StreamingConfig::default());
    assert!(sets.is_ok());
}

#[test]
fn every_demand_set_is_free_of_repeats() -> Result<(), DemandError> {
    let sets = DemandSets::around(ChunkCoord::new(5, -2, 7), StreamingConfig::m3c_diagnostic())?;
    assert_eq!(set(&sets.render).len(), sets.render.len());
    assert_eq!(set(&sets.dependency).len(), sets.dependency.len());
    assert_eq!(set(&sets.retention).len(), sets.retention.len());
    Ok(())
}

#[test]
fn demand_sets_list_their_chunks_in_ascending_coordinate_order() -> Result<(), DemandError> {
    let sets = DemandSets::around(ChunkCoord::new(4, -2, 7), StreamingConfig::default())?;
    for list in [&sets.render, &sets.dependency, &sets.retention] {
        for pair in list.windows(2) {
            let (a, b) = (pair[0], pair[1]);
            assert!((a.x, a.y, a.z) < (b.x, b.y, b.z), "{a:?} before {b:?}");
        }
    }
    assert_eq!(sets.render.first().copied(), Some(ChunkCoord::new(3, -3, 6)));
    Ok(())
}
