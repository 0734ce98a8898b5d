use lib::procedural::landmark::plan::{DiscoveryOverlook, LandmarkRole, PlanError, Reservation};
use lib::procedural::landmark::siting::{lattice_site, level_and_dry, overlook_ring, PadSurvey, PAD_MARGIN};

#[test]
fn a_clearing_suppresses_plants_anchored_inside_its_disc() {
    let clearing = Reservation::Clearing { centre: (10, -4), radius: 5 };
    assert!(clearing.suppresses(10, -4, 0, 0, 0, 0));
    assert!(clearing.suppresses(13, 0, 0, 0, 0, 0), "3-4-5 is on the rim");
    assert!(!clearing.suppresses(14, 0, 0, 0, 0, 0));
    assert!(!clearing.suppresses(10, 2, 9, 11, -5, -3), "bounds do not matter to a clearing");
}

#[test]
fn a_footprint_suppresses_plants_whose_bounds_touch_it() {
    let footprint = Reservation::Footprint { min_x: 0, max_x: 9, min_z: -3, max_z: 3 };
    assert!(footprint.suppresses(100, 100, 9, 12, 3, 8), "a shared corner touches");
    assert!(!footprint.suppresses(0, 0, 10, 12, 0, 1));
    assert!(!footprint.suppresses(0, 0, 2, 4, -9, -4));
    assert!(footprint.suppresses(50, 50, -5, 20, -20, 20), "a plant spanning it touches");
}

#[test]
fn any_reservation_of_a_set_suppresses() {
    let reservations = [
        Reservation::Clearing { centre: (0, 0), radius: 2 },
        Reservation::Footprint { min_x: 20, max_x: 24, min_z: 20, max_z: 24 },
    ];
    assert!(Reservation::any_suppresses(&reservations, 1, 1, 1, 1, 1, 1));
    assert!(Reservation::any_suppresses(&reservations, 50, 50, 23, 23, 19, 20));
    assert!(!Reservation::any_suppresses(&reservations, 10, 10, 10, 10, 10, 10));
    assert!(!Reservation::any_suppresses(&[], 0, 0, 0, 0, 0, 0));
}

#[test]
fn roles_and_plan_records_carry_their_values() {
    assert_eq!(LandmarkRole::FirstChoice.name(), "first-choice");
    assert_eq!(LandmarkRole::Revealed.name(), "revealed");
    let overlook = DiscoveryOverlook { column: (3, -7), ground_face: 40, clearing_radius: 6 };
    assert_eq!(overlook.column, (3, -7));
    assert_ne!(PlanError::NoFirstPair { candidates: 2 }, PlanError::NoRevealedSite { candidates: 2 });
}

#[test]
fn an_overlook_ring_lists_each_column_once_in_search_order() {
    assert_eq!(overlook_ring((5, -3), 0), vec![(5, -3)]);
    assert_eq!(
        overlook_ring((0, 0), 1),
        vec![(-1, -1), (0, -1), (1, -1), (-1, 0), (1, 0), (-1, 1), (0, 1), (1, 1)]
    );
    let ring = overlook_ring((10, 20), 3);
    assert_eq!(ring.len(), 24);
    for pair in ring.windows(2) {
        assert!((pair[0].1, pair[0].0) < (pair[1].1, pair[1].0));
    }
    for &(x, z) in &ring {
        assert_eq!((x - 10).abs().max((z - 20).abs()), 3);
    }
}

fn flat_survey(centre: (i64, i64), radius: i64) -> PadSurvey {
    let margin = radius + PAD_MARGIN;
    let side = (2 * margin + 1) as usize;
    PadSurvey { centre, margin, faces: vec![40; side * side], water: vec![false; side * side] }
}

#[test]
fn a_flat_dry_pad_inside_the_region_fits() {
    let region = (-100, 100, -100, 100);
    assert!(level_and_dry(2, region, &flat_survey((0, 0), 2)));
    // Too close to the region's edge once the margin is counted.
    assert!(!level_and_dry(2, region, &flat_survey((96, 0), 2)));
}

#[test]
fn a_step_in_the_disc_or_water_in_the_margin_spoils_a_pad() {
    let region = (-100, 100, -100, 100);
    let radius = 2;
    let margin = radius + PAD_MARGIN;
    let side = 2 * margin + 1;
    let index = |dx: i64, dz: i64| ((dz + margin) * side + (dx + margin)) as usize;

    let mut stepped = flat_survey((0, 0), radius);
    stepped.faces[index(1, 1)] = 42;
    assert!(!level_and_dry(radius, region, &stepped));
    // One voxel of difference is level.
    stepped.faces[index(1, 1)] = 41;
    assert!(level_and_dry(radius, region, &stepped));
    // Outside the disc the ground may do as it likes.
    stepped.faces[index(2, 2)] = 60;
    assert!(level_and_dry(radius, region, &stepped));

    let mut wet = flat_survey((0, 0), radius);
    wet.water[index(-margin + 2, margin)] = true;
    assert!(!level_and_dry(radius, region, &wet));
    // Water between the sampled columns of the margin is not seen.
    let mut between = flat_survey((0, 0), radius);
    between.water[index(-margin + 1, margin)] = true;
    assert!(level_and_dry(radius, region, &between));
}

#[test]
fn a_lattice_site_strays_at_most_two_columns_from_its_point() {
    let mut moved = false;
    for cell in -20..20_i64 {
        let site = lattice_site(cell, -cell, 8, 0xfeed, 7);
        assert!((site.0 - cell * 8).abs() <= 2);
        assert!((site.1 + cell * 8).abs() <= 2);
        assert_eq!(site, lattice_site(cell, -cell, 8, 0xfeed, 7));
        moved |= site != (cell * 8, -cell * 8);
    }
    assert!(moved, "the jitter moves some site");
}
