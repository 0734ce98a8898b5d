//! The on-disk chunk-cache entry format.
//!
//! A **cache** format, not a save format: every entry can be derived again
//! from the source that produced it, so a rejected entry is always
//! discardable. The layout is explicit and little-endian, field by field:
//!
//! ```text
//! offset size field
//!      0    8 magic                b"VWKCACHE"
//!      8    2 format_version       u16
//!     10    2 chunk_edge           u16   cells per chunk edge
//!     12    2 voxel_encoding       u16   cell encoding discriminant
//!     14    1 entry_kind           u8    0 KnownAbsent, 1 Present
//!     15    1 payload_encoding     u8    0 Raw, 1 Rle
//!     16   12 chunk coord          3 x i32
//!     28    8 source_fingerprint   u64
//!     36    4 payload_len          u32
//!     40    8 checksum             u64   FNV-1a over bytes 0..40 plus payload
//!     48    n payload
//! ```
//!
//! A file is exactly `HEADER_BYTES + payload_len` long.

use vstd::bytes::*;
use vstd::prelude::*;

use crate::bytes::{push_i32, push_u16, push_u32, push_u64, read_i32, read_u16, read_u32, read_u64};
use crate::hash::{fnv1a64, spec_fnv1a64};
use crate::streaming::source::{SourceChunk, source_cells, source_wf};
use crate::voxel::{CHUNK_BYTES, CHUNK_VOLUME, Chunk, ChunkCoord};

verus! {

/// Bumped whenever the byte layout or its meaning changes.
pub const FORMAT_VERSION: u16 = 1;
/// The chunk edge as it appears in the header.
pub const HEADER_CHUNK_EDGE: u16 = 32;
/// One `u16` little-endian cell per voxel, in the grid's linear order.
pub const VOXEL_ENCODING_U16LE: u16 = 1;
/// Fixed header size in bytes, checksum included.
pub const HEADER_BYTES: usize = 48;
/// Bytes covered by the checksum before the payload.
pub const CHECKSUMMED_HEADER_BYTES: usize = 40;

pub const OFFSET_VERSION: usize = 8;
pub const OFFSET_EDGE: usize = 10;
pub const OFFSET_VOXEL_ENCODING: usize = 12;
pub const OFFSET_ENTRY_KIND: usize = 14;
pub const OFFSET_PAYLOAD_ENCODING: usize = 15;
pub const OFFSET_COORD: usize = 16;
pub const OFFSET_FINGERPRINT: usize = 28;
pub const OFFSET_PAYLOAD_LEN: usize = 36;
pub const OFFSET_CHECKSUM: usize = 40;

/// Bytes per run in the run-length payload: `u32` count, `u16` value.
pub const RLE_RUN_BYTES: usize = 6;
/// Largest valid entry under either payload encoding.
pub const MAX_ENTRY_BYTES: usize = HEADER_BYTES + CHUNK_VOLUME * RLE_RUN_BYTES;

/// How the cell payload is stored.
#[derive(Clone, Copy, Debug, PartialEq, Eq, Structural)]
pub enum PayloadEncoding {
    /// Every cell as a `u16`, fixed size.
    Raw,
    /// Run-length pairs of `(count, value)`.
    Rle,
}

/// The header code of a payload encoding.
pub open spec fn payload_code(encoding: PayloadEncoding) -> u8 {
    match encoding {
        PayloadEncoding::Raw => 0,
        PayloadEncoding::Rle => 1,
    }
}

impl PayloadEncoding {
    pub fn code(self) -> (code: u8)
        ensures
            code == payload_code(self),
    {
        match self {
            PayloadEncoding::Raw => 0,
            PayloadEncoding::Rle => 1,
        }
    }

    pub fn from_code(code: u8) -> (encoding: Option<PayloadEncoding>)
        ensures
            code == 0 ==> encoding == Some(PayloadEncoding::Raw),
            code == 1 ==> encoding == Some(PayloadEncoding::Rle),
            code > 1 ==> encoding is None,
    {
        match code {
            0 => Some(PayloadEncoding::Raw),
            1 => Some(PayloadEncoding::Rle),
            _ => None,
        }
    }

    /// The encoding a new entry uses when nothing else is asked for.
    pub fn default_encoding() -> (encoding: PayloadEncoding)
        ensures
            encoding == PayloadEncoding::Raw,
    {
        PayloadEncoding::Raw
    }

    pub fn name(self) -> (name: &'static str)
        ensures
            self == PayloadEncoding::Raw ==> name@ == "raw"@,
            self == PayloadEncoding::Rle ==> name@ == "rle"@,
    {
        match self {
            PayloadEncoding::Raw => "raw",
            PayloadEncoding::Rle => "rle",
        }
    }
}

impl Default for PayloadEncoding {
    fn default() -> (encoding: PayloadEncoding)
        ensures
            encoding == PayloadEncoding::Raw,
    {
        PayloadEncoding::Raw
    }
}

/// Whether an entry carries chunk content or records authoritative absence.
#[derive(Clone, Copy, Debug, PartialEq, Eq, Structural)]
pub enum EntryKind {
    KnownAbsent,
    Present,
}

impl EntryKind {
    pub fn code(self) -> (code: u8)
        ensures
            self == EntryKind::KnownAbsent ==> code == 0,
            self == EntryKind::Present ==> code == 1,
    {
        match self {
            EntryKind::KnownAbsent => 0,
            EntryKind::Present => 1,
        }
    }

    pub fn from_code(code: u8) -> (kind: Option<EntryKind>)
        ensures
            code == 0 ==> kind == Some(EntryKind::KnownAbsent),
            code == 1 ==> kind == Some(EntryKind::Present),
            code > 1 ==> kind is None,
    {
        match code {
            0 => Some(EntryKind::KnownAbsent),
            1 => Some(EntryKind::Present),
            _ => None,
        }
    }
}

/// What a cache entry must agree with to be usable.
#[derive(Clone, Copy, Debug, PartialEq, Eq, Structural)]
pub struct EntryIdentity {
    pub coord: ChunkCoord,
    /// Identity of the source that produced the content.
    pub source_fingerprint: u64,
}

/// Why an entry could not be used. Every variant is a cache miss with a
/// reason, never a panic and never an interpretation of the content.
#[derive(Clone, Copy, Debug, PartialEq, Eq, Structural)]
pub enum CacheFormatError {
    Truncated { len: usize, needed: usize },
    BadMagic,
    UnknownFormatVersion { found: u16 },
    ChunkEdgeMismatch { expected: u16, found: u16 },
    VoxelEncodingMismatch { expected: u16, found: u16 },
    UnknownEntryKind { code: u8 },
    UnknownPayloadEncoding { code: u8 },
    PayloadLengthMismatch { declared: usize, actual: usize },
    PayloadTooLarge { len: usize },
    TrailingBytes { extra: usize },
    ChecksumMismatch { declared: u64, computed: u64 },
    CoordMismatch { expected: ChunkCoord, found: ChunkCoord },
    FingerprintMismatch { expected: u64, found: u64 },
    AbsentWithPayload { len: usize },
    PayloadCellCount { expected: usize, found: usize },
    EmptyRun,
}

/// Rejections that only mean "written by another version or source".
pub open spec fn spec_is_stale(error: CacheFormatError) -> bool {
    ||| error is UnknownFormatVersion
    ||| error is ChunkEdgeMismatch
    ||| error is VoxelEncodingMismatch
    ||| error is UnknownPayloadEncoding
    ||| error is FingerprintMismatch
}

impl CacheFormatError {
    /// Whether the entry is merely from another version or source identity,
    /// rather than damaged. Both are discarded; the distinction keeps a real
    /// corruption problem from hiding inside routine invalidation.
    pub fn is_stale(self) -> (stale: bool)
        ensures
            stale == spec_is_stale(self),
    {
        match self {
            CacheFormatError::UnknownFormatVersion { .. }
            | CacheFormatError::ChunkEdgeMismatch { .. }
            | CacheFormatError::VoxelEncodingMismatch { .. }
            | CacheFormatError::UnknownPayloadEncoding { .. }
            | CacheFormatError::FingerprintMismatch { .. } => true,
            _ => false,
        }
    }
}

// ------------------------------------------------------------------ layout

/// `b"VWKCACHE"`.
pub open spec fn spec_magic() -> Seq<u8> {
    seq![0x56u8, 0x57u8, 0x4bu8, 0x43u8, 0x41u8, 0x43u8, 0x48u8, 0x45u8]
}

/// The first 40 bytes of an entry: everything the checksum covers before
/// the payload.
pub open spec fn spec_header(
    kind: u8,
    encoding: u8,
    coord: ChunkCoord,
    fingerprint: u64,
    payload_len: u32,
) -> Seq<u8> {
    spec_magic() + spec_u16_to_le_bytes(FORMAT_VERSION) + spec_u16_to_le_bytes(HEADER_CHUNK_EDGE)
        + spec_u16_to_le_bytes(VOXEL_ENCODING_U16LE) + seq![kind] + seq![encoding]
        + spec_u32_to_le_bytes(coord.x as u32) + spec_u32_to_le_bytes(coord.y as u32)
        + spec_u32_to_le_bytes(coord.z as u32) + spec_u64_to_le_bytes(fingerprint)
        + spec_u32_to_le_bytes(payload_len)
}

/// A complete entry: header, checksum over header and payload, payload.
pub open spec fn spec_seal(header: Seq<u8>, payload: Seq<u8>) -> Seq<u8> {
    header + spec_u64_to_le_bytes(spec_fnv1a64(header + payload)) + payload
}

/// The raw payload: every cell as a little-endian `u16`, in order.
pub open spec fn spec_raw_payload(cells: Seq<u16>) -> Seq<u8>
    decreases cells.len(),
{
    if cells.len() == 0 {
        Seq::empty()
    } else {
        spec_raw_payload(cells.drop_last()) + spec_u16_to_le_bytes(cells.last())
    }
}

/// Maximal runs of equal cells, in order, as `(count, value)`.
pub open spec fn spec_runs(cells: Seq<u16>) -> Seq<(u32, u16)>
    decreases cells.len(),
{
    if cells.len() == 0 {
        Seq::empty()
    } else {
        let runs = spec_runs(cells.drop_last());
        if runs.len() > 0 && runs.last().1 == cells.last() {
            runs.update(runs.len() - 1, ((runs.last().0 + 1) as u32, runs.last().1))
        } else {
            runs.push((1u32, cells.last()))
        }
    }
}

/// The run-length payload: each run as a `u32` count then a `u16` value.
pub open spec fn spec_rle_payload(runs: Seq<(u32, u16)>) -> Seq<u8>
    decreases runs.len(),
{
    if runs.len() == 0 {
        Seq::empty()
    } else {
        spec_rle_payload(runs.drop_last()) + spec_u32_to_le_bytes(runs.last().0)
            + spec_u16_to_le_bytes(runs.last().1)
    }
}

/// The payload of a present chunk under an encoding.
pub open spec fn spec_payload(cells: Seq<u16>, encoding: PayloadEncoding) -> Seq<u8> {
    match encoding {
        PayloadEncoding::Raw => spec_raw_payload(cells),
        PayloadEncoding::Rle => spec_rle_payload(spec_runs(cells)),
    }
}

/// The entry `encode` writes for a source result (`None` is absence, which is
/// always stored raw and empty).
pub open spec fn spec_encode(
    identity: EntryIdentity,
    source: Option<Seq<u16>>,
    encoding: PayloadEncoding,
) -> Seq<u8> {
    match source {
        None => spec_seal(
            spec_header(0, 0, identity.coord, identity.source_fingerprint, 0),
            Seq::empty(),
        ),
        Some(cells) => {
            let payload = spec_payload(cells, encoding);
            spec_seal(
                spec_header(
                    1,
                    payload_code(encoding),
                    identity.coord,
                    identity.source_fingerprint,
                    payload.len() as u32,
                ),
                payload,
            )
        },
    }
}

// ------------------------------------------------------------ field reads

pub open spec fn u16_at(bytes: Seq<u8>, offset: int) -> u16 {
    spec_u16_from_le_bytes(bytes.subrange(offset, offset + 2))
}

pub open spec fn u32_at(bytes: Seq<u8>, offset: int) -> u32 {
    spec_u32_from_le_bytes(bytes.subrange(offset, offset + 4))
}

pub open spec fn u64_at(bytes: Seq<u8>, offset: int) -> u64 {
    spec_u64_from_le_bytes(bytes.subrange(offset, offset + 8))
}

/// The runs a run-length payload whose length is a multiple of six holds.
pub open spec fn spec_parse_runs(payload: Seq<u8>) -> Seq<(u32, u16)> {
    Seq::new(
        (payload.len() / 6) as nat,
        |run: int| (u32_at(payload, 6 * run), u16_at(payload, 6 * run + 4)),
    )
}

/// A count that saturates at `usize::MAX`, as a decoder's running end does.
pub open spec fn saturating_usize(value: int) -> usize {
    if value > usize::MAX {
        usize::MAX
    } else {
        value as usize
    }
}

/// Walks runs in order: the number of cells they cover, or the first
/// reason they cannot fill a chunk.
pub open spec fn spec_scan(runs: Seq<(u32, u16)>) -> Result<nat, CacheFormatError>
    decreases runs.len(),
{
    if runs.len() == 0 {
        Ok(0)
    } else {
        match spec_scan(runs.drop_last()) {
            Err(error) => Err(error),
            Ok(index) => {
                let count = runs.last().0;
                if count == 0 {
                    Err(CacheFormatError::EmptyRun)
                } else if index + count > CHUNK_VOLUME {
                    Err(
                        CacheFormatError::PayloadCellCount {
                            expected: CHUNK_VOLUME,
                            found: saturating_usize(index + count),
                        },
                    )
                } else {
                    Ok((index + count) as nat)
                }
            },
        }
    }
}

/// The cells a sequence of runs stands for.
pub open spec fn spec_expand(runs: Seq<(u32, u16)>) -> Seq<u16>
    decreases runs.len(),
{
    if runs.len() == 0 {
        Seq::empty()
    } else {
        spec_expand(runs.drop_last()) + Seq::new(runs.last().0 as nat, |i: int| runs.last().1)
    }
}

/// What a payload decodes to under an encoding.
pub open spec fn spec_decode_payload(
    payload: Seq<u8>,
    encoding: PayloadEncoding,
) -> Result<Seq<u16>, CacheFormatError> {
    match encoding {
        PayloadEncoding::Raw => if payload.len() != CHUNK_BYTES {
            Err(
                CacheFormatError::PayloadCellCount {
                    expected: CHUNK_VOLUME,
                    found: (payload.len() / 2) as usize,
                },
            )
        } else {
            Ok(Seq::new(CHUNK_VOLUME as nat, |i: int| u16_at(payload, 2 * i)))
        },
        PayloadEncoding::Rle => if payload.len() % 6 != 0 {
            Err(
                CacheFormatError::PayloadCellCount {
                    expected: CHUNK_VOLUME,
                    found: (payload.len() / 6) as usize,
                },
            )
        } else {
            let runs = spec_parse_runs(payload);
            match spec_scan(runs) {
                Err(error) => Err(error),
                Ok(count) => if count != CHUNK_VOLUME {
                    Err(
                        CacheFormatError::PayloadCellCount {
                            expected: CHUNK_VOLUME,
                            found: count as usize,
                        },
                    )
                } else {
                    Ok(spec_expand(runs))
                },
            }
        },
    }
}

/// The coordinate stored in a header.
pub open spec fn stored_coord(bytes: Seq<u8>) -> ChunkCoord {
    ChunkCoord {
        x: u32_at(bytes, 16) as i32,
        y: u32_at(bytes, 20) as i32,
        z: u32_at(bytes, 24) as i32,
    }
}

/// The checks after integrity: structure, identity, then content.
pub open spec fn spec_decode_fields(
    bytes: Seq<u8>,
    expected: EntryIdentity,
) -> Result<Option<Seq<u16>>, CacheFormatError> {
    let version = u16_at(bytes, 8);
    let edge = u16_at(bytes, 10);
    let voxel_encoding = u16_at(bytes, 12);
    let kind = bytes[14];
    let encoding = bytes[15];
    let payload = bytes.skip(48);
    if version != FORMAT_VERSION {
        Err(CacheFormatError::UnknownFormatVersion { found: version })
    } else if edge != HEADER_CHUNK_EDGE {
        Err(CacheFormatError::ChunkEdgeMismatch { expected: HEADER_CHUNK_EDGE, found: edge })
    } else if voxel_encoding != VOXEL_ENCODING_U16LE {
        Err(
            CacheFormatError::VoxelEncodingMismatch {
                expected: VOXEL_ENCODING_U16LE,
                found: voxel_encoding,
            },
        )
    } else if kind > 1 {
        Err(CacheFormatError::UnknownEntryKind { code: kind })
    } else if encoding > 1 {
        Err(CacheFormatError::UnknownPayloadEncoding { code: encoding })
    } else if stored_coord(bytes) != expected.coord {
        Err(CacheFormatError::CoordMismatch { expected: expected.coord, found: stored_coord(bytes) })
    } else if u64_at(bytes, 28) != expected.source_fingerprint {
        Err(
            CacheFormatError::FingerprintMismatch {
                expected: expected.source_fingerprint,
                found: u64_at(bytes, 28),
            },
        )
    } else if kind == 0 {
        if payload.len() == 0 {
            Ok(None)
        } else {
            Err(CacheFormatError::AbsentWithPayload { len: payload.len() as usize })
        }
    } else {
        let encoding = if encoding == 0 {
            PayloadEncoding::Raw
        } else {
            PayloadEncoding::Rle
        };
        match spec_decode_payload(payload, encoding) {
            Ok(cells) => Ok(Some(cells)),
            Err(error) => Err(error),
        }
    }
}

/// What `decode` answers for a byte string read under an identity.
///
/// Length, magic, declared length and checksum come first; structural fields
/// are interpreted only once integrity holds, so an intact entry of another
/// version is stale while a flipped version bit is corruption.
pub open spec fn spec_decode(
    bytes: Seq<u8>,
    expected: EntryIdentity,
) -> Result<Option<Seq<u16>>, CacheFormatError> {
    if bytes.len() < HEADER_BYTES {
        Err(CacheFormatError::Truncated { len: bytes.len() as usize, needed: HEADER_BYTES })
    } else if bytes.take(8) != spec_magic() {
        Err(CacheFormatError::BadMagic)
    } else {
        let declared = u32_at(bytes, 36) as int;
        let available = bytes.len() - HEADER_BYTES;
        if declared > available {
            Err(
                CacheFormatError::PayloadLengthMismatch {
                    declared: declared as usize,
                    actual: available as usize,
                },
            )
        } else if declared < available {
            Err(CacheFormatError::TrailingBytes { extra: (available - declared) as usize })
        } else {
            let computed = spec_fnv1a64(bytes.take(40) + bytes.skip(48));
            if u64_at(bytes, 40) != computed {
                Err(CacheFormatError::ChecksumMismatch { declared: u64_at(bytes, 40), computed })
            } else {
                spec_decode_fields(bytes, expected)
            }
        }
    }
}

// --------------------------------------------------------------- encoding

/// The eight magic bytes.
pub fn magic_bytes() -> (magic: Vec<u8>)
    ensures
        magic@ == spec_magic(),
{
    vec![0x56u8, 0x57u8, 0x4bu8, 0x43u8, 0x41u8, 0x43u8, 0x48u8, 0x45u8]
}

/// Integrity value over the header and payload.
pub fn checksum(bytes: &[u8]) -> (value: u64)
    ensures
        value == spec_fnv1a64(bytes@),
{
    fnv1a64(bytes)
}

/// A new vector holding `a` followed by `b`.
fn concat_bytes(a: &[u8], b: &[u8]) -> (joined: Vec<u8>)
    ensures
        joined@ == a@ + b@,
{
    let mut joined = vstd::slice::slice_to_vec(a);
    let mut tail = vstd::slice::slice_to_vec(b);
    joined.append(&mut tail);
    joined
}

/// The 40 checksummed header bytes.
fn header_bytes(
    kind: u8,
    encoding: u8,
    coord: ChunkCoord,
    fingerprint: u64,
    payload_len: u32,
) -> (header: Vec<u8>)
    ensures
        header@ == spec_header(kind, encoding, coord, fingerprint, payload_len),
{
    let mut header = magic_bytes();
    push_u16(&mut header, FORMAT_VERSION);
    push_u16(&mut header, HEADER_CHUNK_EDGE);
    push_u16(&mut header, VOXEL_ENCODING_U16LE);
    header.push(kind);
    header.push(encoding);
    push_i32(&mut header, coord.x);
    push_i32(&mut header, coord.y);
    push_i32(&mut header, coord.z);
    push_u64(&mut header, fingerprint);
    push_u32(&mut header, payload_len);
    proof {
        assert(header@ =~= spec_header(kind, encoding, coord, fingerprint, payload_len));
    }
    header
}

/// Appends one run: its count, then its value.
fn push_run(payload: &mut Vec<u8>, len: u32, value: u16)
    ensures
        final(payload)@ == old(payload)@ + spec_u32_to_le_bytes(len) + spec_u16_to_le_bytes(
            value,
        ),
{
    push_u32(payload, len);
    push_u16(payload, value);
}

/// The payload of a present chunk under an encoding. Never fails.
pub fn encode_payload(chunk: &Chunk, encoding: PayloadEncoding) -> (result: Result<
    Vec<u8>,
    CacheFormatError,
>)
    requires
        chunk.wf(),
    ensures
        result matches Ok(payload) && payload@ == spec_payload(chunk@, encoding),
{
    match encoding {
        PayloadEncoding::Raw => {
            let mut payload: Vec<u8> = Vec::with_capacity(CHUNK_BYTES);
            let mut index: usize = 0;
            while index < CHUNK_VOLUME
                invariant
                    chunk.wf(),
                    index <= CHUNK_VOLUME,
                    payload@ == spec_raw_payload(chunk@.take(index as int)),
                decreases CHUNK_VOLUME - index,
            {
                proof {
                    assert(chunk@.take(index as int + 1).drop_last() =~= chunk@.take(
                        index as int,
                    ));
                }
                push_u16(&mut payload, chunk.read(index).0);
                index = index + 1;
            }
            proof {
                assert(chunk@.take(index as int) =~= chunk@);
            }
            Ok(payload)
        },
        PayloadEncoding::Rle => {
            let mut payload: Vec<u8> = Vec::new();
            let mut run_value: u16 = chunk.read(0).0;
            let mut run_len: u32 = 0;
            let ghost mut closed: Seq<(u32, u16)> = Seq::empty();
            let mut index: usize = 0;
            while index < CHUNK_VOLUME
                invariant
                    chunk.wf(),
                    index <= CHUNK_VOLUME,
                    payload@ == spec_rle_payload(closed),
                    index == 0 ==> run_len == 0 && run_value == chunk@[0] && closed.len() == 0,
                    index > 0 ==> spec_runs(chunk@.take(index as int)) == closed.push(
                        (run_len, run_value),
                    ),
                    index > 0 ==> 1 <= run_len <= index,
                decreases CHUNK_VOLUME - index,
            {
                proof {
                    assert(chunk@.take(index as int + 1).drop_last() =~= chunk@.take(
                        index as int,
                    ));
                    assert(chunk@.take(index as int + 1).last() == chunk@[index as int]);
                }
                let value = chunk.read(index).0;
                if value == run_value && run_len < u32::MAX {
                    proof {
                        if index == 0 {
                            assert(chunk@.take(0) =~= Seq::<u16>::empty());
                            assert(spec_runs(chunk@.take(0)).len() == 0);
                            assert(chunk@.take(1).last() == run_value);
                            assert(spec_runs(chunk@.take(1)) =~= closed.push(
                                ((run_len + 1) as u32, run_value),
                            ));
                        } else {
                            let runs = closed.push((run_len, run_value));
                            assert(runs.update(runs.len() - 1, ((run_len + 1) as u32, run_value))
                                =~= closed.push(((run_len + 1) as u32, run_value)));
                        }
                    }
                    run_len = run_len + 1;
                    index = index + 1;
                    continue;
                }
                push_run(&mut payload, run_len, run_value);
                proof {
                    let pushed = closed.push((run_len, run_value));
                    assert(pushed.drop_last() =~= closed);
                    closed = pushed;
                }
                run_value = value;
                run_len = 1;
                index = index + 1;
            }
            push_run(&mut payload, run_len, run_value);
            proof {
                let pushed = closed.push((run_len, run_value));
                assert(pushed.drop_last() =~= closed);
                assert(chunk@.take(index as int) =~= chunk@);
            }
            Ok(payload)
        },
    }
}

/// Encodes one source result as a complete cache entry.
///
/// Absence has no cells, so it is always stored raw and empty.
pub fn encode(identity: EntryIdentity, source: &SourceChunk, encoding: PayloadEncoding) -> (result:
    Result<Vec<u8>, CacheFormatError>)
    requires
        source_wf(*source),
    ensures
        result matches Ok(bytes) && bytes@ == spec_encode(identity, source_cells(*source), encoding),
{
    let (kind, mut payload, payload_encoding): (u8, Vec<u8>, PayloadEncoding) = match source {
        SourceChunk::KnownAbsent => (0, Vec::new(), PayloadEncoding::Raw),
        SourceChunk::Present(chunk) => {
            let payload = match encode_payload(chunk, encoding) {
                Ok(payload) => payload,
                Err(error) => return Err(error),
            };
            proof {
                lemma_payload_len(chunk@, encoding);
            }
            (1, payload, encoding)
        },
    };
    if payload.len() > 0xffff_ffff {
        return Err(CacheFormatError::PayloadTooLarge { len: payload.len() });
    }
    let payload_len = payload.len() as u32;
    let header = header_bytes(
        kind,
        payload_encoding.code(),
        identity.coord,
        identity.source_fingerprint,
        payload_len,
    );
    let digest_input = concat_bytes(header.as_slice(), payload.as_slice());
    let sum = checksum(digest_input.as_slice());
    let mut bytes = header;
    push_u64(&mut bytes, sum);
    bytes.append(&mut payload);
    Ok(bytes)
}

// --------------------------------------------------------------- decoding

/// Whether a byte string starts with the magic.
fn starts_with_magic(bytes: &[u8]) -> (starts: bool)
    requires
        bytes@.len() >= 8,
    ensures
        starts == (bytes@.take(8) == spec_magic()),
{
    let magic = magic_bytes();
    let mut index: usize = 0;
    while index < 8
        invariant
            bytes@.len() >= 8,
            magic@ == spec_magic(),
            index <= 8,
            forall|i: int| 0 <= i < index ==> bytes@[i] == magic@[i],
        decreases 8 - index,
    {
        if bytes[index] != magic[index] {
            proof {
                assert(bytes@.take(8)[index as int] != spec_magic()[index as int]);
            }
            return false;
        }
        index = index + 1;
    }
    proof {
        assert(bytes@.take(8) =~= spec_magic());
    }
    true
}

/// An error met at some prefix of the runs is the answer for all of them.
proof fn lemma_scan_error_persists(runs: Seq<(u32, u16)>, k: int)
    requires
        0 <= k <= runs.len(),
        spec_scan(runs.take(k)) is Err,
    ensures
        spec_scan(runs) == spec_scan(runs.take(k)),
    decreases runs.len() - k,
{
    if k < runs.len() {
        assert(runs.take(k + 1).drop_last() =~= runs.take(k));
        lemma_scan_error_persists(runs, k + 1);
    } else {
        assert(runs.take(k) =~= runs);
    }
}

/// Decodes a payload into a chunk.
pub fn decode_payload(payload: &[u8], encoding: PayloadEncoding) -> (result: Result<
    Chunk,
    CacheFormatError,
>)
    ensures
        match result {
            Ok(chunk) => chunk.wf() && spec_decode_payload(payload@, encoding) == Ok::<
                Seq<u16>,
                CacheFormatError,
            >(chunk@),
            Err(error) => spec_decode_payload(payload@, encoding) == Err::<
                Seq<u16>,
                CacheFormatError,
            >(error),
        },
{
    match encoding {
        PayloadEncoding::Raw => {
            if payload.len() != CHUNK_BYTES {
                return Err(
                    CacheFormatError::PayloadCellCount {
                        expected: CHUNK_VOLUME,
                        found: payload.len() / 2,
                    },
                );
            }
            let mut cells: Vec<u16> = Vec::with_capacity(CHUNK_VOLUME);
            let mut index: usize = 0;
            while index < CHUNK_VOLUME
                invariant
                    payload@.len() == CHUNK_BYTES,
                    index <= CHUNK_VOLUME,
                    cells@ =~= Seq::new(index as nat, |i: int| u16_at(payload@, 2 * i)),
                decreases CHUNK_VOLUME - index,
            {
                let value = read_u16(payload, 2 * index);
                cells.push(value);
                index = index + 1;
            }
            Ok(Chunk::from_cells(cells))
        },
        PayloadEncoding::Rle => {
            if payload.len() % RLE_RUN_BYTES != 0 {
                return Err(
                    CacheFormatError::PayloadCellCount {
                        expected: CHUNK_VOLUME,
                        found: payload.len() / RLE_RUN_BYTES,
                    },
                );
            }
            let ghost runs = spec_parse_runs(payload@);
            let run_count = payload.len() / RLE_RUN_BYTES;
            let mut cells: Vec<u16> = Vec::with_capacity(CHUNK_VOLUME);
            let mut index: usize = 0;
            let mut run: usize = 0;
            while run < run_count
                invariant
                    encoding == PayloadEncoding::Rle,
                    payload@.len() % 6 == 0,
                    run_count == payload@.len() / 6,
                    payload.len() == 6 * run_count,
                    cells@.len() == index,
                    runs == spec_parse_runs(payload@),
                    runs.len() == run_count,
                    run <= run_count,
                    index <= CHUNK_VOLUME,
                    spec_scan(runs.take(run as int)) == Ok::<nat, CacheFormatError>(index as nat),
                    cells@ == spec_expand(runs.take(run as int)),
                decreases run_count - run,
            {
                proof {
                    assert(runs.take(run as int + 1).drop_last() =~= runs.take(run as int));
                    assert(runs.take(run as int + 1).last() == runs[run as int]);
                }
                let count = read_u32(payload, 6 * run) as usize;
                proof {
                    assert(runs[run as int].0 == count);
                }
                if count == 0 {
                    proof {
                        assert(spec_scan(runs.take(run as int + 1)) == Err::<nat, CacheFormatError>(
                            CacheFormatError::EmptyRun,
                        ));
                        lemma_scan_error_persists(runs, run as int + 1);
                    }
                    return Err(CacheFormatError::EmptyRun);
                }
                let value = read_u16(payload, 6 * run + 4);
                let end = index.saturating_add(count);
                if end > CHUNK_VOLUME {
                    proof {
                        lemma_scan_error_persists(runs, run as int + 1);
                    }
                    return Err(
                        CacheFormatError::PayloadCellCount { expected: CHUNK_VOLUME, found: end },
                    );
                }
                proof {
                    assert(runs[run as int].1 == value);
                }
                let ghost before = cells@;
                let mut written: usize = 0;
                while written < count
                    invariant
                        written <= count,
                        index + count <= CHUNK_VOLUME,
                        before.len() == index,
                        cells@ == before + Seq::new(written as nat, |i: int| value),
                    decreases count - written,
                {
                    cells.push(value);
                    proof {
                        assert(before + Seq::new((written + 1) as nat, |i: int| value) =~= (before
                            + Seq::new(written as nat, |i: int| value)).push(value));
                    }
                    written = written + 1;
                }
                index = end;
                run = run + 1;
            }
            proof {
                assert(runs.take(run as int) =~= runs);
            }
            if index != CHUNK_VOLUME {
                return Err(
                    CacheFormatError::PayloadCellCount { expected: CHUNK_VOLUME, found: index },
                );
            }
            Ok(Chunk::from_cells(cells))
        },
    }
}

/// The view of a decode result, for stating what `decode` answers.
pub open spec fn decoded_view(result: Result<SourceChunk, CacheFormatError>) -> Result<
    Option<Seq<u16>>,
    CacheFormatError,
> {
    match result {
        Ok(source) => Ok(source_cells(source)),
        Err(error) => Err(error),
    }
}

/// Decodes a cache entry, proving it belongs to `expected` before trusting a
/// single cell. Malformed input is a typed error, never a panic, and never
/// becomes absence by accident.
pub fn decode(bytes: &[u8], expected: EntryIdentity) -> (result: Result<
    SourceChunk,
    CacheFormatError,
>)
    ensures
        decoded_view(result) == spec_decode(bytes@, expected),
        result matches Ok(source) ==> source_wf(source),
{
    if bytes.len() < HEADER_BYTES {
        return Err(CacheFormatError::Truncated { len: bytes.len(), needed: HEADER_BYTES });
    }
    if !starts_with_magic(bytes) {
        return Err(CacheFormatError::BadMagic);
    }
    let declared = read_u32(bytes, OFFSET_PAYLOAD_LEN) as usize;
    let available = bytes.len() - HEADER_BYTES;
    if declared > available {
        return Err(CacheFormatError::PayloadLengthMismatch { declared, actual: available });
    }
    if declared < available {
        return Err(CacheFormatError::TrailingBytes { extra: available - declared });
    }
    let payload = vstd::slice::slice_subrange(bytes, HEADER_BYTES, bytes.len());
    let declared_checksum = read_u64(bytes, OFFSET_CHECKSUM);
    let digest_input = concat_bytes(
        vstd::slice::slice_subrange(bytes, 0, OFFSET_CHECKSUM),
        payload,
    );
    let computed = checksum(digest_input.as_slice());
    proof {
        assert(bytes@.subrange(0, 40) =~= bytes@.take(40));
        assert(bytes@.subrange(48, bytes@.len() as int) =~= bytes@.skip(48));
    }
    if declared_checksum != computed {
        return Err(CacheFormatError::ChecksumMismatch { declared: declared_checksum, computed });
    }
    let version = read_u16(bytes, OFFSET_VERSION);
    if version != FORMAT_VERSION {
        return Err(CacheFormatError::UnknownFormatVersion { found: version });
    }
    let edge = read_u16(bytes, OFFSET_EDGE);
    if edge != HEADER_CHUNK_EDGE {
        return Err(CacheFormatError::ChunkEdgeMismatch { expected: HEADER_CHUNK_EDGE, found: edge });
    }
    let voxel_encoding = read_u16(bytes, OFFSET_VOXEL_ENCODING);
    if voxel_encoding != VOXEL_ENCODING_U16LE {
        return Err(
            CacheFormatError::VoxelEncodingMismatch {
                expected: VOXEL_ENCODING_U16LE,
                found: voxel_encoding,
            },
        );
    }
    let kind = match EntryKind::from_code(bytes[OFFSET_ENTRY_KIND]) {
        Some(kind) => kind,
        None => return Err(CacheFormatError::UnknownEntryKind { code: bytes[OFFSET_ENTRY_KIND] }),
    };
    let payload_encoding = match PayloadEncoding::from_code(bytes[OFFSET_PAYLOAD_ENCODING]) {
        Some(encoding) => encoding,
        None => return Err(
            CacheFormatError::UnknownPayloadEncoding { code: bytes[OFFSET_PAYLOAD_ENCODING] },
        ),
    };
    let found = ChunkCoord {
        x: read_i32(bytes, OFFSET_COORD),
        y: read_i32(bytes, OFFSET_COORD + 4),
        z: read_i32(bytes, OFFSET_COORD + 8),
    };
    if found != expected.coord {
        return Err(CacheFormatError::CoordMismatch { expected: expected.coord, found });
    }
    let fingerprint = read_u64(bytes, OFFSET_FINGERPRINT);
    if fingerprint != expected.source_fingerprint {
        return Err(
            CacheFormatError::FingerprintMismatch {
                expected: expected.source_fingerprint,
                found: fingerprint,
            },
        );
    }
    match kind {
        EntryKind::KnownAbsent => {
            if payload.len() == 0 {
                Ok(SourceChunk::KnownAbsent)
            } else {
                Err(CacheFormatError::AbsentWithPayload { len: payload.len() })
            }
        },
        EntryKind::Present => match decode_payload(payload, payload_encoding) {
            Ok(chunk) => Ok(SourceChunk::Present(chunk)),
            Err(error) => Err(error),
        },
    }
}

// ------------------------------------------------------------------ laws

proof fn lemma_raw_payload_len(cells: Seq<u16>)
    ensures
        spec_raw_payload(cells).len() == 2 * cells.len(),
    decreases cells.len(),
{
    lemma_auto_spec_u16_to_from_le_bytes();
    if cells.len() > 0 {
        lemma_raw_payload_len(cells.drop_last());
    }
}

proof fn lemma_rle_payload_len(runs: Seq<(u32, u16)>)
    ensures
        spec_rle_payload(runs).len() == 6 * runs.len(),
    decreases runs.len(),
{
    lemma_auto_spec_u16_to_from_le_bytes();
    lemma_auto_spec_u32_to_from_le_bytes();
    if runs.len() > 0 {
        lemma_rle_payload_len(runs.drop_last());
    }
}

proof fn lemma_runs_len(cells: Seq<u16>)
    ensures
        spec_runs(cells).len() <= cells.len(),
    decreases cells.len(),
{
    if cells.len() > 0 {
        lemma_runs_len(cells.drop_last());
    }
}

/// A present chunk's payload is at most six bytes a cell.
proof fn lemma_payload_len(cells: Seq<u16>, encoding: PayloadEncoding)
    requires
        cells.len() == CHUNK_VOLUME,
    ensures
        spec_payload(cells, encoding).len() <= 6 * CHUNK_VOLUME,
{
    match encoding {
        PayloadEncoding::Raw => lemma_raw_payload_len(cells),
        PayloadEncoding::Rle => {
            lemma_runs_len(cells);
            lemma_rle_payload_len(spec_runs(cells));
        },
    }
}

/// Where each cell of a raw payload lives.
proof fn lemma_raw_payload_cell(cells: Seq<u16>, i: int)
    requires
        0 <= i < cells.len(),
    ensures
        spec_raw_payload(cells).subrange(2 * i, 2 * i + 2) == spec_u16_to_le_bytes(cells[i]),
    decreases cells.len(),
{
    lemma_auto_spec_u16_to_from_le_bytes();
    lemma_raw_payload_len(cells.drop_last());
    let head = spec_raw_payload(cells.drop_last());
    if i < cells.len() - 1 {
        lemma_raw_payload_cell(cells.drop_last(), i);
        assert(spec_raw_payload(cells).subrange(2 * i, 2 * i + 2) =~= head.subrange(
            2 * i,
            2 * i + 2,
        ));
    } else {
        assert(spec_raw_payload(cells).subrange(2 * i, 2 * i + 2) =~= spec_u16_to_le_bytes(
            cells.last(),
        ));
    }
}

/// Where each run of a run-length payload lives.
proof fn lemma_rle_payload_run(runs: Seq<(u32, u16)>, r: int)
    requires
        0 <= r < runs.len(),
    ensures
        spec_rle_payload(runs).subrange(6 * r, 6 * r + 4) == spec_u32_to_le_bytes(runs[r].0),
        spec_rle_payload(runs).subrange(6 * r + 4, 6 * r + 6) == spec_u16_to_le_bytes(runs[r].1),
    decreases runs.len(),
{
    lemma_auto_spec_u16_to_from_le_bytes();
    lemma_auto_spec_u32_to_from_le_bytes();
    lemma_rle_payload_len(runs.drop_last());
    let head = spec_rle_payload(runs.drop_last());
    if r < runs.len() - 1 {
        lemma_rle_payload_run(runs.drop_last(), r);
        assert(spec_rle_payload(runs).subrange(6 * r, 6 * r + 4) =~= head.subrange(
            6 * r,
            6 * r + 4,
        ));
        assert(spec_rle_payload(runs).subrange(6 * r + 4, 6 * r + 6) =~= head.subrange(
            6 * r + 4,
            6 * r + 6,
        ));
    } else {
        assert(spec_rle_payload(runs).subrange(6 * r, 6 * r + 4) =~= spec_u32_to_le_bytes(
            runs.last().0,
        ));
        assert(spec_rle_payload(runs).subrange(6 * r + 4, 6 * r + 6) =~= spec_u16_to_le_bytes(
            runs.last().1,
        ));
    }
}

/// The runs of a sequence cover it exactly, each at least one cell long.
proof fn lemma_runs_cover(cells: Seq<u16>)
    requires
        cells.len() <= CHUNK_VOLUME,
    ensures
        spec_expand(spec_runs(cells)) == cells,
        spec_scan(spec_runs(cells)) == Ok::<nat, CacheFormatError>(cells.len()),
        forall|r: int|
            0 <= r < spec_runs(cells).len() ==> 1 <= #[trigger] spec_runs(cells)[r].0 <= cells.len(),
    decreases cells.len(),
{
    if cells.len() > 0 {
        let prefix = cells.drop_last();
        lemma_runs_cover(prefix);
        let runs = spec_runs(prefix);
        let value = cells.last();
        if runs.len() > 0 && runs.last().1 == value {
            let last = runs.last();
            let grown = runs.update(runs.len() - 1, ((last.0 + 1) as u32, last.1));
            assert(grown.drop_last() =~= runs.drop_last());
            assert(runs.drop_last().push(last) =~= runs);
            // The prefix before the last run scans to its start.
            assert(spec_scan(runs) == Ok::<nat, CacheFormatError>(prefix.len()));
            assert(spec_expand(grown) =~= spec_expand(runs.drop_last()) + Seq::new(
                (last.0 + 1) as nat,
                |i: int| last.1,
            ));
            assert(spec_expand(runs) =~= spec_expand(runs.drop_last()) + Seq::new(
                last.0 as nat,
                |i: int| last.1,
            ));
            assert(Seq::new((last.0 + 1) as nat, |i: int| last.1) =~= Seq::new(
                last.0 as nat,
                |i: int| last.1,
            ).push(value));
            assert(cells =~= prefix.push(value));
            assert(spec_expand(grown) =~= cells);
            assert forall|r: int| 0 <= r < grown.len() implies 1 <= #[trigger] grown[r].0
                <= cells.len() by {
                if r < grown.len() - 1 {
                    assert(grown[r] == runs[r]);
                }
            }
        } else {
            let pushed = runs.push((1u32, value));
            assert(pushed.drop_last() =~= runs);
            assert(spec_expand(pushed) =~= cells);
            assert forall|r: int| 0 <= r < pushed.len() implies 1 <= #[trigger] pushed[r].0
                <= cells.len() by {
                if r < pushed.len() - 1 {
                    assert(pushed[r] == runs[r]);
                }
            }
        }
    }
}

/// Reading the runs back from their bytes gives the runs.
proof fn lemma_parse_rle_payload(runs: Seq<(u32, u16)>)
    ensures
        spec_parse_runs(spec_rle_payload(runs)) == runs,
{
    lemma_auto_spec_u16_to_from_le_bytes();
    lemma_auto_spec_u32_to_from_le_bytes();
    lemma_rle_payload_len(runs);
    let parsed = spec_parse_runs(spec_rle_payload(runs));
    assert(parsed.len() == runs.len());
    assert forall|r: int| 0 <= r < runs.len() implies #[trigger] parsed[r] == runs[r] by {
        lemma_rle_payload_run(runs, r);
        assert(spec_u32_to_le_bytes(runs[r].0).len() == 4);
        assert(spec_u16_to_le_bytes(runs[r].1).len() == 2);
    }
    assert(parsed =~= runs);
}

/// A present chunk's payload decodes to its cells under either encoding.
proof fn lemma_payload_round_trip(cells: Seq<u16>, encoding: PayloadEncoding)
    requires
        cells.len() == CHUNK_VOLUME,
    ensures
        spec_decode_payload(spec_payload(cells, encoding), encoding) == Ok::<
            Seq<u16>,
            CacheFormatError,
        >(cells),
{
    lemma_auto_spec_u16_to_from_le_bytes();
    match encoding {
        PayloadEncoding::Raw => {
            let payload = spec_raw_payload(cells);
            lemma_raw_payload_len(cells);
            let decoded = Seq::new(CHUNK_VOLUME as nat, |i: int| u16_at(payload, 2 * i));
            assert forall|i: int| 0 <= i < CHUNK_VOLUME implies #[trigger] decoded[i]
                == cells[i] by {
                lemma_raw_payload_cell(cells, i);
                assert(spec_u16_to_le_bytes(cells[i]).len() == 2);
            }
            assert(decoded =~= cells);
        },
        PayloadEncoding::Rle => {
            let runs = spec_runs(cells);
            lemma_rle_payload_len(runs);
            lemma_parse_rle_payload(runs);
            lemma_runs_cover(cells);
        },
    }
}

/// The fields of a sealed entry read back as written.
proof fn lemma_entry_layout(
    kind: u8,
    encoding: u8,
    coord: ChunkCoord,
    fingerprint: u64,
    payload: Seq<u8>,
)
    requires
        payload.len() <= u32::MAX,
    ensures
        ({
            let header = spec_header(kind, encoding, coord, fingerprint, payload.len() as u32);
            let bytes = spec_seal(header, payload);
            &&& bytes.len() == HEADER_BYTES + payload.len()
            &&& bytes.take(8) == spec_magic()
            &&& u32_at(bytes, 36) == payload.len()
            &&& bytes.take(40) == header
            &&& bytes.skip(48) == payload
            &&& u64_at(bytes, 40) == spec_fnv1a64(header + payload)
            &&& u16_at(bytes, 8) == FORMAT_VERSION
            &&& u16_at(bytes, 10) == HEADER_CHUNK_EDGE
            &&& u16_at(bytes, 12) == VOXEL_ENCODING_U16LE
            &&& bytes[14] == kind
            &&& bytes[15] == encoding
            &&& stored_coord(bytes) == coord
            &&& u64_at(bytes, 28) == fingerprint
        }),
{
    lemma_auto_spec_u16_to_from_le_bytes();
    lemma_auto_spec_u32_to_from_le_bytes();
    lemma_auto_spec_u64_to_from_le_bytes();
    let len = payload.len() as u32;
    let header = spec_header(kind, encoding, coord, fingerprint, len);
    let bytes = spec_seal(header, payload);
    assert(bytes.take(8) =~= spec_magic());
    assert(bytes.subrange(8, 10) =~= spec_u16_to_le_bytes(FORMAT_VERSION));
    assert(bytes.subrange(10, 12) =~= spec_u16_to_le_bytes(HEADER_CHUNK_EDGE));
    assert(bytes.subrange(12, 14) =~= spec_u16_to_le_bytes(VOXEL_ENCODING_U16LE));
    assert(bytes.subrange(16, 20) =~= spec_u32_to_le_bytes(coord.x as u32));
    assert(bytes.subrange(20, 24) =~= spec_u32_to_le_bytes(coord.y as u32));
    assert(bytes.subrange(24, 28) =~= spec_u32_to_le_bytes(coord.z as u32));
    assert(bytes.subrange(28, 36) =~= spec_u64_to_le_bytes(fingerprint));
    assert(bytes.subrange(36, 40) =~= spec_u32_to_le_bytes(len));
    assert(bytes.subrange(40, 48) =~= spec_u64_to_le_bytes(spec_fnv1a64(header + payload)));
    assert(bytes.take(40) =~= header);
    assert(bytes.skip(48) =~= payload);
    let (x, y, z) = (coord.x, coord.y, coord.z);
    assert((x as u32) as i32 == x) by (bit_vector);
    assert((y as u32) as i32 == y) by (bit_vector);
    assert((z as u32) as i32 == z) by (bit_vector);
}

/// Decoding an entry under the identity it was written for gives back
/// exactly what was encoded: the cells of a present chunk under either
/// payload encoding, or authoritative absence.
pub proof fn lemma_decode_inverts_encode(
    identity: EntryIdentity,
    source: Option<Seq<u16>>,
    encoding: PayloadEncoding,
)
    requires
        source matches Some(cells) ==> cells.len() == CHUNK_VOLUME,
    ensures
        spec_decode(spec_encode(identity, source, encoding), identity) == Ok::<
            Option<Seq<u16>>,
            CacheFormatError,
        >(source),
{
    match source {
        None => {
            lemma_entry_layout(0, 0, identity.coord, identity.source_fingerprint, Seq::empty());
        },
        Some(cells) => {
            let payload = spec_payload(cells, encoding);
            lemma_payload_len(cells, encoding);
            lemma_entry_layout(
                1,
                payload_code(encoding),
                identity.coord,
                identity.source_fingerprint,
                payload,
            );
            lemma_payload_round_trip(cells, encoding);
        },
    }
}

} // verus!
