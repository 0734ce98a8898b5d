use std::collections::BTreeSet;

use lib::procedural::identity::{
    RegionExtent, StreamLabel, WorldSeed, TERRAIN_GENERATOR_VERSION,
};

#[test]
fn named_streams_are_independent_and_stable() {
    let seed = WorldSeed::golden();
    let labels = [
        StreamLabel::ValleyMeander,
        StreamLabel::HighlandRidges,
        StreamLabel::MidDetail,
        StreamLabel::FineDetail,
        StreamLabel::DomainWarp,
        StreamLabel::Moisture,
        StreamLabel::ForestPockets,
        StreamLabel::TreePlacement,
        StreamLabel::TreeShape,
        StreamLabel::ShrubPlacement,
        StreamLabel::SurfaceVariation,
    ];
    let mut seen = BTreeSet::new();
    for label in labels {
        assert_eq!(seed.stream(label), seed.stream(label), "stable");
        assert!(seen.insert(seed.stream(label)), "streams must be distinct");
    }
    assert_ne!(
        seed.stream(StreamLabel::MidDetail),
        WorldSeed(1).stream(StreamLabel::MidDetail)
    );
}

#[test]
fn the_golden_region_is_finite_and_rejects_the_outside() {
    let extent = RegionExtent::golden();
    assert!(extent.contains(0, 0, 0));
    assert!(extent.contains(-12, 0, -12));
    assert!(extent.contains(12, 2, 12));
    assert!(!extent.contains(13, 0, 0));
    assert!(!extent.contains(-13, 0, 0));
    assert!(!extent.contains(0, 3, 0));
    assert!(!extent.contains(0, -1, 0));
    assert!(!extent.contains(0, 0, 13));
}

#[test]
fn a_stream_is_the_hash_of_seed_label_and_version() {
    let seed = WorldSeed(0x0102_0304_0506_0708);
    let mut bytes = Vec::new();
    bytes.extend_from_slice(&seed.raw().to_le_bytes());
    bytes.extend_from_slice(&3u64.to_le_bytes());
    bytes.extend_from_slice(&u64::from(TERRAIN_GENERATOR_VERSION).to_le_bytes());
    assert_eq!(seed.stream(StreamLabel::MidDetail), lib::hash::fnv1a64(&bytes));
    assert_eq!(StreamLabel::MidDetail.code(), 3);
    assert_eq!(StreamLabel::SurfaceVariation.code(), 11);
    assert_eq!(WorldSeed::golden().raw(), 0x5645_4c44_5741_4b45);
}
