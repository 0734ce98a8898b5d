use lib::streaming::cache::store::{entry_name, CacheFootprint};
use lib::streaming::cache::{format_dir_name, source_dir_name};
use lib::voxel::ChunkCoord;

#[test]
fn entry_names_are_fixed_width_and_traversal_free() {
    for coord in [
        ChunkCoord::new(0, 0, 0),
        ChunkCoord::new(-1, -1, -1),
        ChunkCoord::new(i32::MIN, i32::MAX, -4),
    ] {
        let name = entry_name(coord);
        assert_eq!(name.len(), "x00000000_y00000000_z00000000.vwc".len());
        assert!(!name.contains(".."));
        assert!(!name.contains('/') && !name.contains('\\'));
        assert!(
            name.chars().all(|c| c.is_ascii_lowercase() || c.is_ascii_digit() || matches!(c, '_' | '.')),
            "{name} has an unexpected character"
        );
    }
    assert_ne!(
        entry_name(ChunkCoord::new(-1, 0, 0)),
        entry_name(ChunkCoord::new(1, 0, 0)),
        "sign must survive the name"
    );
}

#[test]
fn an_entry_name_spells_each_coordinate_in_hexadecimal() {
    assert_eq!(entry_name(ChunkCoord::new(-3, 1, 26)), "xfffffffd_y00000001_z0000001a.vwc");
    assert_eq!(entry_name(ChunkCoord::new(i32::MIN, i32::MAX, 0)), "x80000000_y7fffffff_z00000000.vwc");
}

#[test]
fn directory_names_follow_the_format_and_the_source() {
    assert_eq!(format_dir_name(), "v1");
    assert_eq!(source_dir_name(0xabcd), "000000000000abcd");
    assert_eq!(source_dir_name(u64::MAX), "ffffffffffffffff");
}

#[test]
fn a_footprint_counts_entries_and_their_bytes() {
    let mut footprint = CacheFootprint::default();
    footprint.count(48);
    footprint.count(120);
    assert_eq!(footprint, CacheFootprint { entries: 2, bytes: 168 });
}
