//! Experimental disk cache for chunk source results.
//!
//! A cache, not a save: every entry is reproducible by asking the source
//! again, so any entry may be discarded without losing information. The
//! policy lives here; the file system is touched by the caller, who hands the
//! outcome of each operation back:
//!
//! - a missing file is a miss, never authoritative absence;
//! - an entry that fails any check is discarded and the source answers;
//! - a rejected entry is deleted so the source result can republish it;
//! - a failed write never prevents a valid source result from reaching the
//!   runtime;
//! - known absence is stored explicitly as a typed entry with no payload.

pub mod format;
pub mod store;

use std::path::PathBuf;

use vstd::prelude::*;
use vstd::string::StringExecFns;

use crate::streaming::cache::format::{
    decode, encode, spec_decode, spec_encode, spec_is_stale, EntryIdentity, PayloadEncoding,
    FORMAT_VERSION,
};
use crate::streaming::cache::store::{spec_hex, CacheFootprint};
use crate::streaming::source::{source_cells, source_wf, SourceChunk};
use crate::voxel::ChunkCoord;

verus! {

#[verifier::external_type_specification]
#[verifier::external_body]
pub struct ExPathBuf(PathBuf);

/// Where the cache stores entries and how it encodes payloads.
#[derive(Debug, PartialEq, Eq)]
pub struct CacheConfig {
    /// Root directory: never the repository working tree, the caller passes a
    /// diagnostic or temporary directory explicitly.
    root: PathBuf,
    payload_encoding: PayloadEncoding,
}

impl CacheConfig {
    pub closed spec fn spec_root(self) -> PathBuf {
        self.root
    }

    pub closed spec fn spec_payload_encoding(self) -> PayloadEncoding {
        self.payload_encoding
    }

    /// A cache under `root` with the default payload encoding.
    pub fn new(root: PathBuf) -> (config: Self)
        ensures
            config.spec_root() == root,
            config.spec_payload_encoding() == PayloadEncoding::Raw,
    {
        CacheConfig { root, payload_encoding: PayloadEncoding::default_encoding() }
    }

    /// The same cache with another encoding for new entries.
    pub fn with_payload_encoding(self, encoding: PayloadEncoding) -> (config: Self)
        ensures
            config.spec_root() == self.spec_root(),
            config.spec_payload_encoding() == encoding,
    {
        CacheConfig { root: self.root, payload_encoding: encoding }
    }

    pub fn root(&self) -> (root: &PathBuf)
        ensures
            *root == self.spec_root(),
    {
        &self.root
    }

    pub fn payload_encoding(&self) -> (encoding: PayloadEncoding)
        ensures
            encoding == self.spec_payload_encoding(),
    {
        self.payload_encoding
    }
}

/// What opening the cache found and cleaned up.
#[derive(Debug, PartialEq, Eq)]
pub struct CacheOpenReport {
    pub entries_dir: PathBuf,
    /// Unpublished temporary files left by an earlier crash, now removed.
    pub temporaries_removed: u64,
    pub footprint: CacheFootprint,
}

/// Per-load cache accounting. Every field counts at most one event, so the
/// runtime only ever adds.
#[derive(Clone, Copy, Debug, Default, PartialEq, Eq, Structural)]
pub struct CacheLoadOutcome {
    pub lookups: u64,
    pub hits_present: u64,
    pub hits_absent: u64,
    pub misses: u64,
    pub stale_rejects: u64,
    pub corrupt_rejects: u64,
    pub read_failures: u64,
    /// Rejected files successfully removed before best-effort publication.
    pub rejected_entries_removed: u64,
    /// Rejected files that could not be removed.
    pub rejected_entry_delete_failures: u64,
    pub source_fallbacks: u64,
    pub write_attempts: u64,
    pub writes: u64,
    pub writes_skipped: u64,
    pub write_failures: u64,
    pub bytes_read: u64,
    pub bytes_written: u64,
    pub decode_nanos: u64,
    pub encode_nanos: u64,
}

/// An outcome that has counted nothing yet.
pub open spec fn spec_no_events() -> CacheLoadOutcome {
    CacheLoadOutcome {
        lookups: 0,
        hits_present: 0,
        hits_absent: 0,
        misses: 0,
        stale_rejects: 0,
        corrupt_rejects: 0,
        read_failures: 0,
        rejected_entries_removed: 0,
        rejected_entry_delete_failures: 0,
        source_fallbacks: 0,
        write_attempts: 0,
        writes: 0,
        writes_skipped: 0,
        write_failures: 0,
        bytes_read: 0,
        bytes_written: 0,
        decode_nanos: 0,
        encode_nanos: 0,
    }
}

/// What reading an entry's file gave.
#[derive(Clone, Debug, PartialEq, Eq)]
pub enum EntryRead {
    /// The file's bytes, read up to one byte past the largest legal entry.
    Bytes(Vec<u8>),
    /// No file: a miss, never authoritative absence.
    Missing,
    /// The read failed.
    Failed,
}

/// What removing a rejected entry did.
#[derive(Clone, Copy, Debug, PartialEq, Eq, Structural)]
pub enum Removal {
    Removed,
    NotFound,
    Failed,
}

/// What publishing an entry did.
#[derive(Clone, Copy, Debug, PartialEq, Eq, Structural)]
pub enum Publication {
    Written,
    AlreadyPresent,
    Failed,
}

/// The cache's answer to a read.
#[derive(Clone, Debug, PartialEq, Eq)]
pub enum ReadVerdict {
    /// The entry answers: the source is not consulted.
    Hit(SourceChunk),
    /// The entry was rejected: remove it, then ask the source.
    Rejected,
    /// Nothing usable was read: ask the source.
    Miss,
}

/// One source identity's cache.
#[derive(Debug, PartialEq, Eq)]
pub struct ChunkCache {
    entries_dir: PathBuf,
    source_fingerprint: u64,
    payload_encoding: PayloadEncoding,
}

/// The name of the directory entries of the current format live under.
pub open spec fn spec_format_dir_name() -> Seq<char> {
    seq!['v', '1']
}

/// The name of the directory one source identity's entries live under: its
/// fingerprint in sixteen hexadecimal digits.
pub open spec fn spec_source_dir_name(source_fingerprint: u64) -> Seq<char> {
    spec_hex(source_fingerprint as nat, 16)
}

/// The directory name of the current format version.
pub fn format_dir_name() -> (name: String)
    ensures
        name@ == spec_format_dir_name(),
{
    proof {
        reveal_strlit("v1");
    }
    let mut name = String::new();
    if FORMAT_VERSION == 1 {
        name.append("v1");
    }
    name
}

/// The directory name of one source identity.
pub fn source_dir_name(source_fingerprint: u64) -> (name: String)
    ensures
        name@ == spec_source_dir_name(source_fingerprint),
{
    let mut name = String::new();
    push_hex64(&mut name, source_fingerprint, 16);
    name
}

fn push_hex64(name: &mut String, value: u64, digits: u32)
    requires
        digits <= 16,
    ensures
        final(name)@ == old(name)@ + spec_hex(value as nat, digits as nat),
    decreases digits,
{
    if digits > 0 {
        push_hex64(name, value / 16, digits - 1);
        let digit = crate::streaming::cache::store::hex_digit_of((value % 16) as u32);
        name.append(digit);
    } else {
        proof {
            assert(old(name)@ + spec_hex(value as nat, 0) =~= old(name)@);
        }
    }
}

impl ChunkCache {
    pub closed spec fn spec_source_fingerprint(self) -> u64 {
        self.source_fingerprint
    }

    pub closed spec fn spec_entries_dir(self) -> PathBuf {
        self.entries_dir
    }

    pub closed spec fn spec_payload_encoding(self) -> PayloadEncoding {
        self.payload_encoding
    }

    /// The cache of one source identity, whose entries live in `entries_dir`.
    pub fn for_source(config: &CacheConfig, entries_dir: PathBuf, source_fingerprint: u64) -> (cache: Self)
        ensures
            cache.spec_source_fingerprint() == source_fingerprint,
            cache.spec_payload_encoding() == config.spec_payload_encoding(),
            cache.spec_entries_dir() == entries_dir,
    {
        ChunkCache { entries_dir, source_fingerprint, payload_encoding: config.payload_encoding }
    }

    /// The directory this cache's entries live in, as it was given.
    pub fn entries_dir(&self) -> (dir: &PathBuf)
        ensures
            *dir == self.spec_entries_dir(),
    {
        &self.entries_dir
    }

    /// What an entry of a chunk must agree with.
    pub fn identity(&self, coord: ChunkCoord) -> (identity: EntryIdentity)
        ensures
            identity == (EntryIdentity { coord, source_fingerprint: self.spec_source_fingerprint() }),
    {
        EntryIdentity { coord, source_fingerprint: self.source_fingerprint }
    }

    /// Judges what a read of a chunk's entry answers, and counts it: a valid
    /// entry is a hit, a rejected one is stale or corrupt and must be
    /// removed, and a missing file or a failed read is a miss. Anything but a
    /// hit falls back to the source.
    pub fn judge_read(&self, coord: ChunkCoord, read: &EntryRead) -> (judged: (
        ReadVerdict,
        CacheLoadOutcome,
    ))
        ensures
            judged.1.lookups == 1,
            match *read {
                EntryRead::Bytes(bytes) => {
                    let expected = EntryIdentity {
                        coord,
                        source_fingerprint: self.spec_source_fingerprint(),
                    };
                    let base = CacheLoadOutcome {
                        lookups: 1,
                        bytes_read: bytes@.len() as u64,
                        ..spec_no_events()
                    };
                    match spec_decode(bytes@, expected) {
                        Ok(Some(cells)) => judged.0 matches ReadVerdict::Hit(
                            SourceChunk::Present(chunk),
                        ) && chunk@ == cells && chunk.wf() && judged.1 == (CacheLoadOutcome {
                            hits_present: 1,
                            ..base
                        }),
                        Ok(None) => judged.0 == ReadVerdict::Hit(SourceChunk::KnownAbsent)
                            && judged.1 == (CacheLoadOutcome { hits_absent: 1, ..base }),
                        Err(error) => judged.0 == ReadVerdict::Rejected && judged.1 == (
                        CacheLoadOutcome {
                            stale_rejects: if spec_is_stale(error) {
                                1
                            } else {
                                0
                            },
                            corrupt_rejects: if spec_is_stale(error) {
                                0
                            } else {
                                1
                            },
                            source_fallbacks: 1,
                            ..base
                        }),
                    }
                },
                EntryRead::Missing => judged.0 == ReadVerdict::Miss && judged.1 == (
                CacheLoadOutcome { lookups: 1, misses: 1, source_fallbacks: 1, ..spec_no_events() }),
                EntryRead::Failed => judged.0 == ReadVerdict::Miss && judged.1 == (
                CacheLoadOutcome {
                    lookups: 1,
                    read_failures: 1,
                    source_fallbacks: 1,
                    ..spec_no_events()
                }),
            },
    {
        let mut outcome = CacheLoadOutcome {
            lookups: 1,
            hits_present: 0,
            hits_absent: 0,
            misses: 0,
            stale_rejects: 0,
            corrupt_rejects: 0,
            read_failures: 0,
            rejected_entries_removed: 0,
            rejected_entry_delete_failures: 0,
            source_fallbacks: 0,
            write_attempts: 0,
            writes: 0,
            writes_skipped: 0,
            write_failures: 0,
            bytes_read: 0,
            bytes_written: 0,
            decode_nanos: 0,
            encode_nanos: 0,
        };
        match read {
            EntryRead::Bytes(bytes) => {
                outcome.bytes_read = bytes.len() as u64;
                match decode(bytes.as_slice(), self.identity(coord)) {
                    Ok(SourceChunk::Present(chunk)) => {
                        outcome.hits_present = 1;
                        return (ReadVerdict::Hit(SourceChunk::Present(chunk)), outcome);
                    },
                    Ok(SourceChunk::KnownAbsent) => {
                        outcome.hits_absent = 1;
                        return (ReadVerdict::Hit(SourceChunk::KnownAbsent), outcome);
                    },
                    Err(error) => {
                        if error.is_stale() {
                            outcome.stale_rejects = 1;
                        } else {
                            outcome.corrupt_rejects = 1;
                        }
                        outcome.source_fallbacks = 1;
                        return (ReadVerdict::Rejected, outcome);
                    },
                }
            },
            EntryRead::Missing => {
                outcome.misses = 1;
            },
            EntryRead::Failed => {
                outcome.read_failures = 1;
            },
        }
        outcome.source_fallbacks = 1;
        (ReadVerdict::Miss, outcome)
    }

    /// Counts the removal of a rejected entry: a failure must be visible, or
    /// one poisoned entry could trigger a silent fallback forever.
    pub fn note_removal(outcome: &mut CacheLoadOutcome, removal: Removal)
        ensures
            *final(outcome) == match removal {
                Removal::Removed => CacheLoadOutcome { rejected_entries_removed: 1, ..*old(outcome) },
                Removal::NotFound => *old(outcome),
                Removal::Failed => CacheLoadOutcome {
                    rejected_entry_delete_failures: 1,
                    ..*old(outcome)
                },
            },
    {
        match removal {
            Removal::Removed => {
                outcome.rejected_entries_removed = 1;
            },
            Removal::NotFound => {},
            Removal::Failed => {
                outcome.rejected_entry_delete_failures = 1;
            },
        }
    }

    /// The entry to publish for a source result, counting the attempt.
    /// Encoding a chunk the runtime holds cannot fail, so there is always an
    /// entry.
    pub fn prepare_publication(
        &self,
        coord: ChunkCoord,
        value: &SourceChunk,
        outcome: &mut CacheLoadOutcome,
    ) -> (entry: Option<Vec<u8>>)
        requires
            source_wf(*value),
        ensures
            *final(outcome) == (CacheLoadOutcome { write_attempts: 1, ..*old(outcome) }),
            entry matches Some(bytes) && bytes@ == spec_encode(
                EntryIdentity { coord, source_fingerprint: self.spec_source_fingerprint() },
                source_cells(*value),
                self.spec_payload_encoding(),
            ),
    {
        outcome.write_attempts = 1;
        match encode(self.identity(coord), value, self.payload_encoding) {
            Ok(bytes) => Some(bytes),
            Err(_) => {
                outcome.write_failures = 1;
                None
            },
        }
    }

    /// Counts what publishing did.
    pub fn note_publication(outcome: &mut CacheLoadOutcome, publication: Publication, len: u64)
        ensures
            *final(outcome) == match publication {
                Publication::Written => CacheLoadOutcome {
                    writes: 1,
                    bytes_written: len,
                    ..*old(outcome)
                },
                Publication::AlreadyPresent => CacheLoadOutcome {
                    writes_skipped: 1,
                    ..*old(outcome)
                },
                Publication::Failed => CacheLoadOutcome { write_failures: 1, ..*old(outcome) },
            },
    {
        match publication {
            Publication::Written => {
                outcome.writes = 1;
                outcome.bytes_written = len;
            },
            Publication::AlreadyPresent => {
                outcome.writes_skipped = 1;
            },
            Publication::Failed => {
                outcome.write_failures = 1;
            },
        }
    }
}

} // verus!
