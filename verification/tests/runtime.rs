use lib::streaming::runtime::{
    axis_distance, cause_is_presentation_only, chebyshev_distance, choose_dispatch, Dispatch,
    InvalidationCause, TimingStat, MESH_BURST_BEFORE_LOAD,
};
use lib::streaming::types::LodLevel;
use lib::voxel::ChunkCoord;

#[test]
fn dispatch_choice_orders_lod0_then_load_then_lod1() {
    assert_eq!(choose_dispatch(Some(LodLevel::Lod0), true, 0), Dispatch::Mesh);
    assert_eq!(choose_dispatch(Some(LodLevel::Lod0), false, 9), Dispatch::Mesh);
    assert_eq!(
        choose_dispatch(Some(LodLevel::Lod0), true, MESH_BURST_BEFORE_LOAD),
        Dispatch::Load,
        "fairness after four consecutive meshes"
    );
    assert_eq!(choose_dispatch(Some(LodLevel::Lod1), true, 0), Dispatch::Load);
    assert_eq!(choose_dispatch(Some(LodLevel::Lod1), false, 0), Dispatch::Mesh);
    assert_eq!(choose_dispatch(None, true, 0), Dispatch::Load);
    assert_eq!(choose_dispatch(None, false, 0), Dispatch::Idle);
}

#[test]
fn a_timing_stat_keeps_count_total_and_maximum() {
    let mut stat = TimingStat::default();
    assert_eq!(stat.mean_us(), 0);
    stat.record(30);
    stat.record(10);
    stat.record(20);
    assert_eq!(stat, TimingStat { count: 3, total_us: 60, max_us: 30 });
    assert_eq!(stat.mean_us(), 20);
    stat.record(u64::MAX);
    assert_eq!(stat.total_us, u64::MAX, "the total saturates");
    assert_eq!(stat.max_us, u64::MAX);
}

#[test]
fn distances_are_measured_per_axis() {
    let center = ChunkCoord::new(-2, 0, 5);
    assert_eq!(chebyshev_distance(ChunkCoord::new(1, -1, 5), center), 3);
    assert_eq!(chebyshev_distance(center, center), 0);
    assert_eq!(
        chebyshev_distance(ChunkCoord::new(i32::MIN, 0, 0), ChunkCoord::new(i32::MAX, 0, 0)),
        u32::MAX
    );
    assert_eq!(axis_distance(-3, 4), 49);
    assert_eq!(axis_distance(i32::MIN, i32::MAX), (u128::from(u32::MAX)).pow(2));
}

#[test]
fn only_changed_data_drops_a_committed_mesh() {
    assert!(cause_is_presentation_only(InvalidationCause::LodChange));
    assert!(cause_is_presentation_only(InvalidationCause::NeighborPresentation));
    assert!(cause_is_presentation_only(InvalidationCause::Membership));
    assert!(!cause_is_presentation_only(InvalidationCause::Data));
}
