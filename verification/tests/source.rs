use lib::streaming::source::{DiagnosticChunkSource, SourceChunk};
use lib::voxel::{ChunkCoord, CHUNK_EDGE};

#[test]
fn the_source_fingerprint_is_locked_and_moves_with_behavior() {
    assert_eq!(
        DiagnosticChunkSource.fingerprint(),
        0x7f8b_cb4e_fc24_b4f6,
        "the diagnostic source identity changed; update its revision/signature deliberately"
    );
    assert_eq!(
        DiagnosticChunkSource.fingerprint(),
        DiagnosticChunkSource.fingerprint(),
        "the identity must be deterministic"
    );
}

#[test]
fn source_is_finite_and_distinguishes_absence_from_empty_chunks() {
    assert!(matches!(DiagnosticChunkSource.load(ChunkCoord::new(5, 0, 0)), SourceChunk::KnownAbsent));
    let SourceChunk::Present(empty) = DiagnosticChunkSource.load(ChunkCoord::new(0, 1, 0)) else {
        panic!("coordinate inside source bounds must be present");
    };
    assert_eq!(empty.solid_count(), 0);
}

#[test]
fn negative_and_positive_chunks_share_a_continuous_seam() {
    let SourceChunk::Present(negative) = DiagnosticChunkSource.load(ChunkCoord::new(-1, 0, 0)) else {
        panic!("negative diagnostic chunk must exist");
    };
    let SourceChunk::Present(origin) = DiagnosticChunkSource.load(ChunkCoord::new(0, 0, 0)) else {
        panic!("origin diagnostic chunk must exist");
    };
    for z in 0..CHUNK_EDGE {
        assert!(!negative.read_local(CHUNK_EDGE - 1, 0, z).is_air());
        assert!(!origin.read_local(0, 0, z).is_air());
    }
}

#[test]
fn the_corridor_floor_is_a_checkerboard_with_one_landmark_column() {
    let SourceChunk::Present(origin) = DiagnosticChunkSource.load(ChunkCoord::new(0, 0, 0)) else {
        panic!("origin diagnostic chunk must exist");
    };
    assert_eq!(origin.read_local(0, 0, 0).0, 1);
    assert_eq!(origin.read_local(8, 0, 0).0, 2);
    assert_eq!(origin.read_local(8, 0, 8).0, 1);
    // The landmark column at x = 0, z = 3, six voxels tall.
    for y in 1..=6 {
        assert_eq!(origin.read_local(0, y, 3).0, 7);
    }
    assert!(origin.read_local(0, 7, 3).is_air());
    // Its other half stands on the far edge of the chunk to the west.
    let SourceChunk::Present(west) = DiagnosticChunkSource.load(ChunkCoord::new(-1, 0, 0)) else {
        panic!("negative diagnostic chunk must exist");
    };
    assert_eq!(west.read_local(CHUNK_EDGE - 1, 1, 3).0, 7);
    // 1024 floor voxels and the column.
    assert_eq!(origin.solid_count(), 1024 + 6);
    assert_eq!(
        DiagnosticChunkSource.load(ChunkCoord::new(1, 0, 0)),
        DiagnosticChunkSource.load(ChunkCoord::new(1, 0, 0))
    );
    assert_eq!(DiagnosticChunkSource.load(ChunkCoord::new(0, -2, 0)), SourceChunk::KnownAbsent);
}
