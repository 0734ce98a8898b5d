use lib::procedural::landmark::compile::CompiledMonolith;
use lib::procedural::landmark::descriptor::{MonolithDescriptor, SilhouetteClass, SpanAxis};
use lib::procedural::landmark::material::LandmarkMaterial;
use lib::procedural::landmark::plan::{
    settle, site_landmark, DiscoveryOverlook, LandmarkInstance, LandmarkPlan, LandmarkRole,
    PlanError, Reservation, Sited,
};
use lib::procedural::noise::{hash_2d, sub_hash};

const SEED: u64 = 0x5eed;
const STREAM: u64 = 0x1a4d;

fn flat(sited: &Sited, face: i32) -> Vec<i32> {
    let (sx, _, sz) = sited.compiled.size();
    vec![face; sx * sz]
}

fn placed(site: (i64, i64), class: SilhouetteClass, face: i32) -> LandmarkInstance {
    let sited = site_landmark(0, class, site, (0, 0), STREAM, SEED);
    let faces = flat(&sited, face);
    match settle(sited, 0, LandmarkRole::FirstChoice, site, 3, &faces, None, 10_000) {
        Ok(instance) => instance,
        Err(error) => panic!("a flat site under a high ceiling settles: {error:?}"),
    }
}

fn first_filled_column(compiled: &CompiledMonolith) -> (usize, usize, i32) {
    let (sx, _, sz) = compiled.size();
    for lz in 0..sz {
        for lx in 0..sx {
            if let Some((low, _)) = compiled.column(lx, lz) {
                return (lx, lz, low);
            }
        }
    }
    panic!("a compiled landmark fills some column");
}

#[test]
fn a_site_draws_its_descriptor_from_the_lattice_hash_and_faces_the_viewer() {
    let site = (120, 40);
    let sited = site_landmark(2, SilhouetteClass::Gate, site, (0, 0), STREAM, SEED);
    let expected = MonolithDescriptor::from_seed(
        SilhouetteClass::Gate,
        SpanAxis::Z,
        sub_hash(hash_2d(SEED, STREAM, site.0, site.1), 2),
    );
    assert_eq!(sited.descriptor, expected, "seen along x, a gate spans z");
    assert_eq!(sited.compiled, CompiledMonolith::new(expected));
    let (sx, _, sz) = sited.compiled.size();
    assert_eq!(sited.origin, (site.0 - (sx / 2) as i64, site.1 - (sz / 2) as i64));

    let across = site_landmark(2, SilhouetteClass::Gate, (10, 90), (0, 0), STREAM, SEED);
    assert_eq!(across.descriptor.axis, SpanAxis::X, "seen along z, a gate spans x");
}

#[test]
fn a_landmark_settles_on_the_highest_face_under_its_filled_columns() {
    let site = (64, -32);
    let sited = site_landmark(0, SilhouetteClass::Broken, site, (0, 0), STREAM, SEED);
    let (sx, sy, sz) = sited.compiled.size();
    let mut faces = flat(&sited, 30);
    let (lx, lz, _) = first_filled_column(&sited.compiled);
    faces[lz * sx + lx] = 35;
    let mut empty_column = None;
    for i in 0..sx * sz {
        if sited.compiled.column(i % sx, i / sx).is_none() {
            empty_column = Some(i);
            faces[i] = 90;
            break;
        }
    }
    let origin = sited.origin;
    let Ok(instance) = settle(sited, 4, LandmarkRole::Revealed, site, 2, &faces, Some(1), 1_000)
    else {
        panic!("a low landmark under a high ceiling settles");
    };
    assert_eq!(instance.base_y, 35, "a face under an empty column is not read");
    assert_eq!(instance.index, 4);
    assert_eq!(instance.role, LandmarkRole::Revealed);
    assert_eq!(instance.revealed_from, Some(1));
    assert_eq!(instance.crown_column, site);
    assert_eq!(instance.origin, origin);
    let bounds = (origin.0, origin.0 + sx as i64 - 1, origin.1, origin.1 + sz as i64 - 1);
    assert_eq!(instance.bounds, bounds);
    assert_eq!(
        instance.reservation,
        Reservation::Footprint {
            min_x: bounds.0 - 2,
            max_x: bounds.1 + 2,
            min_z: bounds.2 - 2,
            max_z: bounds.3 + 2,
        }
    );
    if let Some(i) = empty_column {
        assert_eq!(instance.ground[i], i32::MAX, "an empty column records no face");
    }
    assert_eq!(instance.ground[lz * sx + lx], 35);
    assert_eq!(instance.crown_top(), 35 + instance.descriptor.height);
    assert_eq!(instance.vertical_bounds(), (30, 35 + sy as i64 - 1));
}

#[test]
fn a_landmark_through_the_ceiling_is_refused_with_its_top() {
    let sited = site_landmark(0, SilhouetteClass::Spire, (0, 80), (0, 0), STREAM, SEED);
    let (_, sy, _) = sited.compiled.size();
    let faces = flat(&sited, 50);
    let ceiling = 50 + sy as i64;
    assert_eq!(
        settle(sited, 0, LandmarkRole::FirstChoice, (0, 80), 3, &faces, None, ceiling),
        Err(PlanError::AboveRegion { top: ceiling, ceiling })
    );
    let sited = site_landmark(0, SilhouetteClass::Spire, (0, 80), (0, 0), STREAM, SEED);
    assert!(settle(sited, 0, LandmarkRole::FirstChoice, (0, 80), 3, &faces, None, ceiling + 1).is_ok());
}

#[test]
fn a_placed_landmark_stands_on_a_foundation_down_to_its_ground() {
    let instance = placed((200, 200), SilhouetteClass::Spire, 12);
    let (lx, lz, low) = first_filled_column(&instance.compiled);
    let x = instance.origin.0 + lx as i64;
    let z = instance.origin.1 + lz as i64;
    assert_eq!(low, 0, "a spire stands on its base course");
    assert_eq!(
        instance.material_at(x, instance.base_y, z),
        instance.compiled.material_at(lx, 0, lz)
    );
    assert_eq!(instance.material_at(x, 12, z), instance.compiled.material_at(lx, 0, lz));
    assert_eq!(instance.material_at(x, 11, z), None, "nothing below the ground face");
    assert_eq!(instance.material_at(instance.origin.0 - 1, instance.base_y, z), None);
    let (_, sy, _) = instance.compiled.size();
    assert_eq!(instance.material_at(x, instance.base_y + sy as i64, z), None);
    let Some((bottom, top)) = instance.column(x, z) else {
        panic!("a filled column has a span");
    };
    assert_eq!(bottom, 12);
    assert!(top >= instance.base_y);
    assert_eq!(instance.column(instance.origin.0 - 1, z), None);
    assert!(instance.touches_columns(x, x, z, z));
    assert!(!instance.touches_columns(x - 1000, x - 999, z, z));
}

#[test]
fn a_sunken_column_gets_a_stone_foundation() {
    let site = (-300, 20);
    let sited = site_landmark(1, SilhouetteClass::Spire, site, (0, 0), STREAM, SEED);
    let (sx, _, _) = sited.compiled.size();
    let (lx, lz, _) = first_filled_column(&sited.compiled);
    let mut faces = flat(&sited, 20);
    faces[lz * sx + lx] = 16;
    let Ok(instance) = settle(sited, 1, LandmarkRole::FirstChoice, site, 0, &faces, None, 10_000)
    else {
        panic!("settles");
    };
    let x = instance.origin.0 + lx as i64;
    let z = instance.origin.1 + lz as i64;
    assert_eq!(instance.base_y, 20);
    assert_eq!(instance.material_at(x, 17, z), Some(LandmarkMaterial::Stone));
    assert_eq!(instance.material_at(x, 16, z), Some(LandmarkMaterial::Stone));
    assert_eq!(instance.material_at(x, 15, z), None);
    assert_eq!(instance.column(x, z).map(|(bottom, _)| bottom), Some(16));
}

fn overlook() -> DiscoveryOverlook {
    DiscoveryOverlook { column: (0, 0), ground_face: 40, clearing_radius: 6 }
}

#[test]
fn a_plan_reserves_the_overlook_clearing_and_every_footprint() {
    let first = placed((100, 0), SilhouetteClass::Spire, 10);
    let second = placed((-100, 50), SilhouetteClass::Gate, 10);
    let footprints = [first.reservation, second.reservation];
    let plan = LandmarkPlan::assemble(overlook(), vec![first, second]);
    assert_eq!(plan.overlook(), overlook());
    assert_eq!(plan.instances().len(), 2);
    assert_eq!(
        plan.reservations(),
        &[Reservation::Clearing { centre: (0, 0), radius: 6 }, footprints[0], footprints[1]]
    );
    assert!(plan.suppresses_plant(3, 4, 3, 3, 4, 4), "inside the clearing");
    assert!(!plan.suppresses_plant(30, 30, 30, 30, 30, 30));
    assert!(plan.suppresses_plant(1000, 1000, 99, 101, -1, 1), "touches the first footprint");

    let bare = LandmarkPlan::assemble(overlook(), Vec::new());
    assert_eq!(bare.reservations(), &[Reservation::Clearing { centre: (0, 0), radius: 6 }]);
    assert!(bare.instances().is_empty());
}

#[test]
fn a_plan_answers_with_its_first_landmark_in_order() {
    let first = placed((100, 0), SilhouetteClass::Spire, 10);
    let (lx, lz, _) = first_filled_column(&first.compiled);
    let x = first.origin.0 + lx as i64;
    let z = first.origin.1 + lz as i64;
    let expected = first.material_at(x, first.base_y, z);
    let span = first.column(x, z);
    let second = placed((-100, 50), SilhouetteClass::Gate, 10);
    let plan = LandmarkPlan::assemble(overlook(), vec![first, second]);
    assert_eq!(plan.material_at(x, plan.instances()[0].base_y, z), expected);
    assert_eq!(plan.column(x, z), span);
    assert_eq!(plan.material_at(5000, 10, 5000), None);
    assert_eq!(plan.column(5000, 5000), None);
    assert_eq!(plan.touching(x, x, z, z), vec![0]);
    assert_eq!(plan.touching(-1000, 1000, -1000, 1000), vec![0, 1]);
    assert_eq!(plan.touching(5000, 5001, 5000, 5001), Vec::<usize>::new());
}

#[test]
fn a_plan_fingerprint_follows_the_composition() {
    let plan = |face: i32| {
        LandmarkPlan::assemble(
            overlook(),
            vec![placed((100, 0), SilhouetteClass::Spire, face), placed((-100, 50), SilhouetteClass::Gate, 10)],
        )
    };
    assert_eq!(plan(10).fingerprint(), plan(10).fingerprint());
    assert_ne!(plan(10).fingerprint(), plan(11).fingerprint(), "the base course is identity");
    let moved = LandmarkPlan::assemble(
        DiscoveryOverlook { column: (0, 1), ground_face: 40, clearing_radius: 6 },
        Vec::new(),
    );
    let bare = LandmarkPlan::assemble(overlook(), Vec::new());
    assert_ne!(moved.fingerprint(), bare.fingerprint(), "the overlook is identity");
    assert_ne!(bare.fingerprint(), plan(10).fingerprint());
}
