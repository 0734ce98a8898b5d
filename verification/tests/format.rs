use lib::bytes::{put_i32, put_u16, put_u32, put_u64, read_i32, read_u16, read_u32};
use lib::streaming::cache::format::{
    checksum, decode, encode, encode_payload, magic_bytes, CacheFormatError, EntryIdentity,
    PayloadEncoding, FORMAT_VERSION, HEADER_BYTES, MAX_ENTRY_BYTES, OFFSET_CHECKSUM, OFFSET_COORD,
    OFFSET_EDGE, OFFSET_ENTRY_KIND, OFFSET_PAYLOAD_ENCODING, OFFSET_PAYLOAD_LEN, OFFSET_VERSION,
    OFFSET_VOXEL_ENCODING, RLE_RUN_BYTES, VOXEL_ENCODING_U16LE,
};
use lib::streaming::source::{DiagnosticChunkSource, SourceChunk};
use lib::voxel::{Chunk, ChunkCoord, VoxelId, CHUNK_BYTES, CHUNK_VOLUME};

fn identity(coord: ChunkCoord) -> EntryIdentity {
    EntryIdentity { coord, source_fingerprint: 0x0123_4567_89ab_cdef }
}

fn sample_chunk() -> Chunk {
    let mut chunk = Chunk::empty();
    for (index, id) in [(0_usize, 1_u16), (37, 2), (4095, 7), (32767, 9)] {
        chunk.write(index, VoxelId(id));
    }
    chunk
}

fn sealed(identity: EntryIdentity, source: &SourceChunk, encoding: PayloadEncoding) -> Vec<u8> {
    match encode(identity, source, encoding) {
        Ok(bytes) => bytes,
        Err(error) => panic!("encoding a valid chunk failed: {error:?}"),
    }
}

fn rejected(bytes: &[u8], expected: EntryIdentity, what: &str) -> CacheFormatError {
    match decode(bytes, expected) {
        Err(error) => error,
        Ok(value) => panic!("{what} was accepted: {value:?}"),
    }
}

/// Recomputes the checksum so a deliberately malformed body is tested for
/// the property under test rather than for its stale checksum.
fn reseal(bytes: &mut Vec<u8>) {
    let mut digest_input = Vec::new();
    digest_input.extend_from_slice(&bytes[..OFFSET_CHECKSUM]);
    digest_input.extend_from_slice(&bytes[HEADER_BYTES..]);
    let value = checksum(&digest_input);
    put_u64(bytes, OFFSET_CHECKSUM, value);
}

#[test]
fn the_header_layout_is_fixed_and_little_endian() {
    let coord = ChunkCoord::new(-3, 1, 2);
    let bytes = sealed(identity(coord), &SourceChunk::KnownAbsent, PayloadEncoding::Raw);
    assert_eq!(bytes.len(), HEADER_BYTES);
    assert_eq!(bytes[..8], magic_bytes()[..]);
    assert_eq!(read_u16(&bytes, OFFSET_VERSION), FORMAT_VERSION);
    assert_eq!(read_u16(&bytes, OFFSET_EDGE), 32);
    assert_eq!(read_u16(&bytes, OFFSET_VOXEL_ENCODING), VOXEL_ENCODING_U16LE);
    assert_eq!(bytes[OFFSET_ENTRY_KIND], 0);
    assert_eq!(bytes[OFFSET_PAYLOAD_ENCODING], 0);
    assert_eq!(read_i32(&bytes, OFFSET_COORD), -3);
    assert_eq!(read_i32(&bytes, OFFSET_COORD + 4), 1);
    assert_eq!(read_i32(&bytes, OFFSET_COORD + 8), 2);
    assert_eq!(read_u32(&bytes, OFFSET_PAYLOAD_LEN), 0);
    // The negative coordinate is two's complement little-endian.
    assert_eq!(&bytes[OFFSET_COORD..OFFSET_COORD + 4], &[0xfd, 0xff, 0xff, 0xff]);
}

#[test]
fn present_chunks_round_trip_byte_exactly_in_both_encodings() {
    let chunk = sample_chunk();
    for encoding in [PayloadEncoding::Raw, PayloadEncoding::Rle] {
        for coord in [
            ChunkCoord::new(0, 0, 0),
            ChunkCoord::new(-1, -1, -1),
            ChunkCoord::new(4, -1, -4),
            ChunkCoord::new(i32::MIN, i32::MAX, i32::MIN),
        ] {
            let bytes = sealed(identity(coord), &SourceChunk::Present(chunk.clone()), encoding);
            let decoded = match decode(&bytes, identity(coord)) {
                Ok(SourceChunk::Present(decoded)) => decoded,
                other => panic!("{encoding:?} at {coord:?} did not round trip: {other:?}"),
            };
            assert_eq!(decoded.solid_count(), chunk.solid_count());
            assert_eq!(decoded, chunk, "{encoding:?} at {coord:?}");
            for index in 0..CHUNK_VOLUME {
                assert_eq!(decoded.read(index), chunk.read(index));
            }
        }
    }
}

#[test]
fn an_empty_chunk_and_known_absence_are_different_entries() {
    let coord = ChunkCoord::new(2, 0, -2);
    let empty = sealed(identity(coord), &SourceChunk::Present(Chunk::empty()), PayloadEncoding::Raw);
    let absent = sealed(identity(coord), &SourceChunk::KnownAbsent, PayloadEncoding::Raw);
    assert_ne!(empty, absent);
    assert!(matches!(decode(&empty, identity(coord)), Ok(SourceChunk::Present(_))));
    assert_eq!(decode(&absent, identity(coord)), Ok(SourceChunk::KnownAbsent));
}

#[test]
fn every_short_header_and_truncated_payload_is_rejected() {
    let coord = ChunkCoord::default();
    let bytes = sealed(identity(coord), &SourceChunk::Present(sample_chunk()), PayloadEncoding::Rle);
    for len in 0..HEADER_BYTES {
        let error = rejected(&bytes[..len], identity(coord), "a truncated entry");
        assert!(matches!(error, CacheFormatError::Truncated { .. }));
    }
    for len in [HEADER_BYTES, bytes.len() - 1] {
        let error = rejected(&bytes[..len], identity(coord), "a truncated payload");
        assert!(matches!(error, CacheFormatError::PayloadLengthMismatch { .. }));
    }
}

#[test]
fn structural_mismatches_are_typed_and_classified() {
    let coord = ChunkCoord::new(1, 0, 1);
    let good = sealed(identity(coord), &SourceChunk::Present(sample_chunk()), PayloadEncoding::Raw);

    let mut bad_magic = good.clone();
    bad_magic[0] = b'X';
    assert_eq!(decode(&bad_magic, identity(coord)), Err(CacheFormatError::BadMagic));
    assert!(!CacheFormatError::BadMagic.is_stale());

    let mut bad_version = good.clone();
    put_u16(&mut bad_version, OFFSET_VERSION, FORMAT_VERSION + 1);
    reseal(&mut bad_version);
    let error = rejected(&bad_version, identity(coord), "an unknown version");
    assert_eq!(error, CacheFormatError::UnknownFormatVersion { found: 2 });
    assert!(error.is_stale());

    let mut bad_edge = good.clone();
    put_u16(&mut bad_edge, OFFSET_EDGE, 16);
    reseal(&mut bad_edge);
    let error = rejected(&bad_edge, identity(coord), "a foreign chunk edge");
    assert!(matches!(error, CacheFormatError::ChunkEdgeMismatch { found: 16, .. }));
    assert!(error.is_stale());

    let mut bad_cells = good.clone();
    put_u16(&mut bad_cells, OFFSET_VOXEL_ENCODING, 99);
    reseal(&mut bad_cells);
    let error = rejected(&bad_cells, identity(coord), "a foreign cell encoding");
    assert!(matches!(error, CacheFormatError::VoxelEncodingMismatch { found: 99, .. }));
    assert!(error.is_stale());

    let mut bad_kind = good.clone();
    bad_kind[OFFSET_ENTRY_KIND] = 7;
    reseal(&mut bad_kind);
    assert_eq!(decode(&bad_kind, identity(coord)), Err(CacheFormatError::UnknownEntryKind { code: 7 }));

    let mut bad_payload_encoding = good.clone();
    bad_payload_encoding[OFFSET_PAYLOAD_ENCODING] = 5;
    reseal(&mut bad_payload_encoding);
    let error = rejected(&bad_payload_encoding, identity(coord), "an unknown payload encoding");
    assert_eq!(error, CacheFormatError::UnknownPayloadEncoding { code: 5 });
    assert!(error.is_stale());
}

#[test]
fn damaged_structural_field_is_corrupt_not_stale() {
    let coord = ChunkCoord::new(1, 0, 1);
    let mut damaged = sealed(identity(coord), &SourceChunk::Present(sample_chunk()), PayloadEncoding::Raw);
    put_u16(&mut damaged, OFFSET_VERSION, FORMAT_VERSION + 1);
    let error = rejected(&damaged, identity(coord), "a damaged version field");
    assert!(matches!(error, CacheFormatError::ChecksumMismatch { .. }));
    assert!(!error.is_stale());
}

#[test]
fn length_checksum_and_identity_are_each_rejected_separately() {
    let coord = ChunkCoord::new(-2, 1, 3);
    let good = sealed(identity(coord), &SourceChunk::Present(sample_chunk()), PayloadEncoding::Rle);

    let mut impossible_len = good.clone();
    put_u32(&mut impossible_len, OFFSET_PAYLOAD_LEN, u32::MAX);
    assert!(matches!(
        decode(&impossible_len, identity(coord)),
        Err(CacheFormatError::PayloadLengthMismatch { .. })
    ));

    let mut trailing = good.clone();
    trailing.push(0);
    assert_eq!(decode(&trailing, identity(coord)), Err(CacheFormatError::TrailingBytes { extra: 1 }));

    let mut flipped = good.clone();
    let last = flipped.len() - 1;
    flipped[last] ^= 0xff;
    let error = rejected(&flipped, identity(coord), "a damaged payload");
    assert!(matches!(error, CacheFormatError::ChecksumMismatch { .. }));
    assert!(!error.is_stale());

    // A valid entry read under the wrong identity: the file is intact, so
    // the coordinate and the fingerprint are what reject it.
    let other_coord = ChunkCoord::new(9, 9, 9);
    let error = rejected(&good, identity(other_coord), "another chunk's entry");
    assert!(matches!(error, CacheFormatError::CoordMismatch { .. }));
    assert!(!error.is_stale());

    let other_identity = EntryIdentity { coord, source_fingerprint: 0xdead_beef_dead_beef };
    let error = rejected(&good, other_identity, "another source identity");
    assert!(matches!(error, CacheFormatError::FingerprintMismatch { .. }));
    assert!(error.is_stale());
}

#[test]
fn absence_must_not_carry_a_payload_and_runs_must_be_positive() {
    let coord = ChunkCoord::default();
    let mut absent_with_payload = vec![0_u8; HEADER_BYTES + 2];
    let header = sealed(identity(coord), &SourceChunk::KnownAbsent, PayloadEncoding::Raw);
    absent_with_payload[..HEADER_BYTES].copy_from_slice(&header);
    put_u32(&mut absent_with_payload, OFFSET_PAYLOAD_LEN, 2);
    reseal(&mut absent_with_payload);
    assert_eq!(
        decode(&absent_with_payload, identity(coord)),
        Err(CacheFormatError::AbsentWithPayload { len: 2 })
    );

    let mut zero_run = sealed(identity(coord), &SourceChunk::Present(Chunk::empty()), PayloadEncoding::Rle);
    put_u32(&mut zero_run, HEADER_BYTES, 0);
    reseal(&mut zero_run);
    assert_eq!(decode(&zero_run, identity(coord)), Err(CacheFormatError::EmptyRun));
}

#[test]
fn a_run_payload_that_does_not_fill_the_chunk_is_rejected() {
    let coord = ChunkCoord::default();
    let mut short_runs = sealed(identity(coord), &SourceChunk::Present(Chunk::empty()), PayloadEncoding::Rle);
    put_u32(&mut short_runs, HEADER_BYTES, 4);
    reseal(&mut short_runs);
    assert!(matches!(
        decode(&short_runs, identity(coord)),
        Err(CacheFormatError::PayloadCellCount { .. })
    ));
}

#[test]
fn malformed_raw_and_rle_lengths_are_bounded_typed_errors() {
    let coord = ChunkCoord::new(i32::MIN, i32::MAX, -17);

    let mut short_raw = sealed(identity(coord), &SourceChunk::Present(Chunk::empty()), PayloadEncoding::Raw);
    short_raw.pop();
    put_u32(&mut short_raw, OFFSET_PAYLOAD_LEN, (CHUNK_BYTES - 1) as u32);
    reseal(&mut short_raw);
    assert!(matches!(
        decode(&short_raw, identity(coord)),
        Err(CacheFormatError::PayloadCellCount { .. })
    ));

    let mut partial_run = sealed(identity(coord), &SourceChunk::Present(Chunk::empty()), PayloadEncoding::Rle);
    partial_run.push(0xaa);
    put_u32(&mut partial_run, OFFSET_PAYLOAD_LEN, 7);
    reseal(&mut partial_run);
    assert!(matches!(
        decode(&partial_run, identity(coord)),
        Err(CacheFormatError::PayloadCellCount { .. })
    ));

    for hostile_count in [CHUNK_VOLUME as u32 + 1, u32::MAX] {
        let mut overrun = sealed(identity(coord), &SourceChunk::Present(Chunk::empty()), PayloadEncoding::Rle);
        put_u32(&mut overrun, HEADER_BYTES, hostile_count);
        reseal(&mut overrun);
        assert!(matches!(
            decode(&overrun, identity(coord)),
            Err(CacheFormatError::PayloadCellCount { .. })
        ));
    }
}

#[test]
fn arbitrary_coordinate_bits_and_voxel_ids_have_defined_behavior() {
    let coord = ChunkCoord::new(-1, 2, -3);
    let mut other_coord = sealed(identity(coord), &SourceChunk::KnownAbsent, PayloadEncoding::Raw);
    put_i32(&mut other_coord, OFFSET_COORD, i32::MAX);
    put_i32(&mut other_coord, OFFSET_COORD + 4, i32::MIN);
    put_i32(&mut other_coord, OFFSET_COORD + 8, -1);
    reseal(&mut other_coord);
    assert!(matches!(
        decode(&other_coord, identity(coord)),
        Err(CacheFormatError::CoordMismatch { .. })
    ));

    let mut all_max = sealed(identity(coord), &SourceChunk::Present(Chunk::empty()), PayloadEncoding::Rle);
    all_max[HEADER_BYTES + 4..HEADER_BYTES + 6].copy_from_slice(&u16::MAX.to_le_bytes());
    reseal(&mut all_max);
    match decode(&all_max, identity(coord)) {
        Ok(SourceChunk::Present(chunk)) => {
            assert_eq!(chunk.solid_count(), CHUNK_VOLUME);
            assert_eq!(chunk.read(0), VoxelId(u16::MAX));
            assert_eq!(chunk.read(CHUNK_VOLUME - 1), VoxelId(u16::MAX));
        }
        other => panic!("valid arbitrary voxel id was not preserved: {other:?}"),
    }
}

#[test]
fn the_run_length_encoding_is_smaller_on_the_diagnostic_fixture() {
    let SourceChunk::Present(chunk) = DiagnosticChunkSource.load(ChunkCoord::new(0, 0, 0)) else {
        panic!("the diagnostic corridor has content at the origin");
    };
    let (raw, rle) = match (
        encode_payload(&chunk, PayloadEncoding::Raw),
        encode_payload(&chunk, PayloadEncoding::Rle),
    ) {
        (Ok(raw), Ok(rle)) => (raw, rle),
        other => panic!("encoding the corridor chunk failed: {other:?}"),
    };
    assert_eq!(raw.len(), CHUNK_BYTES);
    assert!(rle.len() < raw.len(), "rle {} is not smaller than raw {}", rle.len(), raw.len());
}

#[test]
fn run_length_worst_case_is_exact_and_bounded() {
    let mut alternating = Chunk::empty();
    for index in 0..CHUNK_VOLUME {
        let value = if index % 2 == 0 { VoxelId(1) } else { VoxelId(2) };
        alternating.write(index, value);
    }
    let raw = encode_payload(&alternating, PayloadEncoding::Raw);
    let rle = encode_payload(&alternating, PayloadEncoding::Rle);
    match (raw, rle) {
        (Ok(raw), Ok(rle)) => {
            assert_eq!(raw.len(), CHUNK_BYTES);
            assert_eq!(rle.len(), CHUNK_VOLUME * RLE_RUN_BYTES);
            assert_eq!(rle.len(), raw.len() * 3);
            assert_eq!(HEADER_BYTES + rle.len(), MAX_ENTRY_BYTES);
        }
        other => panic!("worst-case fixture did not encode: {other:?}"),
    }
}
