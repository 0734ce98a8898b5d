use std::path::PathBuf;

use lib::streaming::cache::format::{encode, EntryIdentity, PayloadEncoding};
use lib::streaming::cache::{
    CacheConfig, CacheLoadOutcome, ChunkCache, EntryRead, Publication, ReadVerdict, Removal,
};
use lib::streaming::source::{DiagnosticChunkSource, SourceChunk};
use lib::voxel::ChunkCoord;

fn cache(encoding: PayloadEncoding) -> ChunkCache {
    let config = CacheConfig::new(PathBuf::from("cache-root")).with_payload_encoding(encoding);
    ChunkCache::for_source(&config, PathBuf::from("cache-root/v1/0000000000000042"), 0x42)
}

#[test]
fn a_config_defaults_to_raw_payloads_until_asked_otherwise() {
    let config = CacheConfig::new(PathBuf::from("somewhere"));
    assert_eq!(config.payload_encoding(), PayloadEncoding::Raw);
    assert_eq!(config.root(), &PathBuf::from("somewhere"));
    let config = config.with_payload_encoding(PayloadEncoding::Rle);
    assert_eq!(config.payload_encoding(), PayloadEncoding::Rle);
    assert_eq!(config.root(), &PathBuf::from("somewhere"));
}

#[test]
fn a_valid_entry_is_a_hit_and_never_consults_the_source() {
    let cache = cache(PayloadEncoding::Rle);
    let coord = ChunkCoord::new(0, 0, 0);
    let value = DiagnosticChunkSource.load(coord);
    let mut outcome = CacheLoadOutcome::default();
    let Some(bytes) = cache.prepare_publication(coord, &value, &mut outcome) else {
        panic!("a source result always encodes");
    };
    assert_eq!(outcome.write_attempts, 1);
    let (verdict, outcome) = cache.judge_read(coord, &EntryRead::Bytes(bytes.clone()));
    assert_eq!(verdict, ReadVerdict::Hit(value));
    assert_eq!(outcome.lookups, 1);
    assert_eq!(outcome.hits_present, 1);
    assert_eq!(outcome.source_fallbacks, 0);
    assert_eq!(outcome.bytes_read, bytes.len() as u64);
}

#[test]
fn known_absence_is_stored_and_replayed_as_a_distinct_hit() {
    let cache = cache(PayloadEncoding::Raw);
    let coord = ChunkCoord::new(9, 0, 0);
    let mut outcome = CacheLoadOutcome::default();
    let bytes = cache.prepare_publication(coord, &SourceChunk::KnownAbsent, &mut outcome);
    let Some(bytes) = bytes else {
        panic!("absence always encodes");
    };
    let (verdict, outcome) = cache.judge_read(coord, &EntryRead::Bytes(bytes));
    assert_eq!(verdict, ReadVerdict::Hit(SourceChunk::KnownAbsent));
    assert_eq!(outcome.hits_absent, 1);
    assert_eq!(outcome.hits_present, 0);
}

#[test]
fn a_missing_file_or_a_failed_read_is_a_miss_and_never_absence() {
    let cache = cache(PayloadEncoding::Raw);
    let coord = ChunkCoord::new(1, 0, 1);
    let (verdict, outcome) = cache.judge_read(coord, &EntryRead::Missing);
    assert_eq!(verdict, ReadVerdict::Miss);
    assert_eq!((outcome.misses, outcome.read_failures, outcome.source_fallbacks), (1, 0, 1));
    let (verdict, outcome) = cache.judge_read(coord, &EntryRead::Failed);
    assert_eq!(verdict, ReadVerdict::Miss);
    assert_eq!((outcome.misses, outcome.read_failures, outcome.source_fallbacks), (0, 1, 1));
}

#[test]
fn stale_and_corrupt_entries_are_rejected_and_classified() {
    let cache = cache(PayloadEncoding::Raw);
    let coord = ChunkCoord::new(-2, 0, 3);
    // Written for another source identity: stale.
    let foreign = match encode(
        EntryIdentity { coord, source_fingerprint: 0x99 },
        &SourceChunk::KnownAbsent,
        PayloadEncoding::Raw,
    ) {
        Ok(bytes) => bytes,
        Err(error) => panic!("{error:?}"),
    };
    let (verdict, outcome) = cache.judge_read(coord, &EntryRead::Bytes(foreign));
    assert_eq!(verdict, ReadVerdict::Rejected);
    assert_eq!((outcome.stale_rejects, outcome.corrupt_rejects, outcome.source_fallbacks), (1, 0, 1));
    // Garbage: corrupt.
    let (verdict, outcome) = cache.judge_read(coord, &EntryRead::Bytes(vec![7; 100]));
    assert_eq!(verdict, ReadVerdict::Rejected);
    assert_eq!((outcome.stale_rejects, outcome.corrupt_rejects), (0, 1));
    assert_eq!(outcome.bytes_read, 100);
}

#[test]
fn removal_and_publication_outcomes_are_counted() {
    let mut outcome = CacheLoadOutcome::default();
    ChunkCache::note_removal(&mut outcome, Removal::NotFound);
    assert_eq!(outcome, CacheLoadOutcome::default());
    ChunkCache::note_removal(&mut outcome, Removal::Failed);
    assert_eq!(outcome.rejected_entry_delete_failures, 1);
    ChunkCache::note_removal(&mut outcome, Removal::Removed);
    assert_eq!(outcome.rejected_entries_removed, 1);

    let mut written = CacheLoadOutcome::default();
    ChunkCache::note_publication(&mut written, Publication::Written, 64);
    assert_eq!((written.writes, written.bytes_written), (1, 64));
    let mut skipped = CacheLoadOutcome::default();
    ChunkCache::note_publication(&mut skipped, Publication::AlreadyPresent, 64);
    assert_eq!((skipped.writes_skipped, skipped.bytes_written), (1, 0));
    let mut failed = CacheLoadOutcome::default();
    ChunkCache::note_publication(&mut failed, Publication::Failed, 64);
    assert_eq!(failed.write_failures, 1);
}

#[test]
fn the_encoding_preference_only_changes_new_entries() {
    let coord = ChunkCoord::new(0, 0, 0);
    let value = DiagnosticChunkSource.load(coord);
    let mut outcome = CacheLoadOutcome::default();
    let raw = cache(PayloadEncoding::Raw).prepare_publication(coord, &value, &mut outcome);
    let rle = cache(PayloadEncoding::Rle).prepare_publication(coord, &value, &mut outcome);
    let (Some(raw), Some(rle)) = (raw, rle) else {
        panic!("both encodings encode");
    };
    assert!(rle.len() < raw.len());
    // Either entry is read back by a cache preferring the other encoding.
    for bytes in [raw, rle] {
        let (verdict, _) = cache(PayloadEncoding::Raw).judge_read(coord, &EntryRead::Bytes(bytes));
        assert_eq!(verdict, ReadVerdict::Hit(value.clone()));
    }
}
