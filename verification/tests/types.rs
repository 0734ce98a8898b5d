use lib::streaming::types::{
    LodLevel, MeshStamp, NeighborPresentation, NeighborStamp, RequestToken, SeamContract,
};
use lib::voxel::{ChunkCoord, Face};

fn stamp(lod: LodLevel, seam: SeamContract) -> MeshStamp {
    let neighbor = NeighborStamp::Resident {
        coord: ChunkCoord::new(1, 0, 0),
        token: RequestToken(4),
        content_generation: 2,
        seam,
    };
    MeshStamp {
        coord: ChunkCoord::new(0, 0, 0),
        request_token: RequestToken(3),
        lod,
        mesh_generation: 5,
        center_content_generation: 1,
        neighbors: [neighbor; 6],
    }
}

#[test]
fn the_seam_rule_only_changes_across_levels() {
    assert_eq!(
        SeamContract::derive(LodLevel::Lod0, NeighborPresentation::Rendered(LodLevel::Lod1)),
        SeamContract::CoarseNeighbor
    );
    assert_eq!(
        SeamContract::derive(LodLevel::Lod1, NeighborPresentation::Rendered(LodLevel::Lod0)),
        SeamContract::FineNeighbor
    );
    assert_eq!(SeamContract::derive(LodLevel::Lod1, NeighborPresentation::ContentOnly), SeamContract::Same);
    assert_eq!(
        SeamContract::derive(LodLevel::Lod0, NeighborPresentation::Rendered(LodLevel::Lod0)),
        SeamContract::Same
    );
}

#[test]
fn a_presentation_change_keeps_the_data_identity() {
    let fine = stamp(LodLevel::Lod0, SeamContract::Same);
    let coarse = stamp(LodLevel::Lod1, SeamContract::FineNeighbor);
    assert!(fine.differs_only_by_presentation(&coarse));
    let reloaded = MeshStamp { center_content_generation: 2, ..fine };
    assert!(!fine.differs_only_by_presentation(&reloaded));
    assert_eq!(fine.geometry_key(), MeshStamp { mesh_generation: 0, ..fine });
    assert_eq!(*fine.neighbor(Face::PositiveX), fine.neighbors[0]);
    assert_eq!(RequestToken::first().get(), 1);
}
