//! Core logic of a signed-trigger mirror synchronizer for Debian-style APT
//! repositories.
//!
//! The library holds everything that can be stated and proved over plain
//! values: parsing of `Release`, `Packages` and `Sources` indices, the
//! cleartext-signature splitter, the delta scanner, the work partitioner,
//! the garbage-collection decisions and the process state machine with its
//! single-flight gate.  Network and filesystem access, the PGP primitives
//! and the external transfer program live outside, in the binary that wraps
//! this crate; they exchange plain values (byte strings, integers, the
//! types below) with the verified core.
//!
//! Paths and other repository text are held as byte strings (`Vec<u8>`):
//! repository paths are POSIX byte sequences, and the indices are parsed
//! byte by byte.

use vstd::prelude::*;

pub mod bytes;
pub mod delta;
pub mod packages;
pub mod pgp;
pub mod plan;
pub mod reader;
pub mod release;
pub mod sources;
pub mod state;
pub mod sweep;
pub mod topics;
pub mod universe;

verus! {

/// One file that the remote repository declares: a repository-relative
/// POSIX path, no leading slash, and its size in bytes.
///
/// Equality of entries is by `path`; a universe (the full enumerated set
/// for one sync) holds each path at most once.
#[derive(Clone, Debug, PartialEq, Eq)]
pub struct FileEntry {
    pub path: Vec<u8>,
    pub size: u64,
}

/// The mathematical value of a [`FileEntry`].
pub ghost struct EntryModel {
    pub path: Seq<u8>,
    pub size: u64,
}

impl View for FileEntry {
    type V = EntryModel;

    open spec fn view(&self) -> EntryModel {
        EntryModel { path: self.path@, size: self.size }
    }
}

impl DeepView for FileEntry {
    type V = EntryModel;

    open spec fn deep_view(&self) -> EntryModel {
        self@
    }
}

impl FileEntry {
    /// An entry with the same value, without consuming this one.
    pub fn duplicate(&self) -> (r: FileEntry)
        ensures
            r@ == self@,
    {
        FileEntry { path: crate::bytes::clone_bytes(&self.path), size: self.size }
    }
}

/// Repository flavour: AOSC with its dynamic topic suites, or plain Debian.
#[derive(Clone, Copy, Debug, PartialEq, Eq, Structural)]
pub enum OperationMode {
    Aosc,
    Debian,
}

/// Outcome of the last finished sync, as `GET /status` reports it.
#[derive(Clone, Copy, Debug, PartialEq, Eq, Structural)]
pub enum SyncStatus {
    Success,
    Failed,
}

/// The errors the verified core itself decides; each variant says exactly
/// which check failed.
#[derive(Clone, Copy, Debug, PartialEq, Eq, Structural)]
pub enum SyncError {
    /// Two index entries declare the same path with different sizes.
    InconsistentIndex,
    /// A `Sources` file row or another index line cannot be parsed.
    IndexMalformed,
    /// An index file name carries an extension that no decoder handles.
    UnsupportedExtension,
    /// A gzip or xz stream did not decode.
    DecodeFailed,
    /// The suite named by a parsed `Release` matches neither the requested
    /// suite nor its codename.
    SuiteMismatch,
    /// A cleartext-signed document is missing its framing lines.
    MalformedSignedDocument,
    /// A downloaded file's digest does not match the declared hash.
    ChecksumMismatch,
    /// The declared hash algorithm is not available from the digest
    /// backend.
    DigestUnavailable,
}

/// One sync run, described by plain values: where the repository is,
/// what to take from it, how wide to fan out, and the timestamp that
/// names the snapshot.  The binary builds one per admitted request and
/// drives the pipeline with it.
pub struct SyncJob {
    pub rsync_url: Vec<u8>,
    pub http_url: Vec<u8>,
    pub mode: OperationMode,
    pub mirror_sources: bool,
    pub suites: Vec<Vec<u8>>,
    pub archs: Vec<Vec<u8>>,
    pub threads: u8,
    pub dst: Vec<u8>,
    pub timestamp: i64,
}

impl SyncJob {
    /// Source indices are fetched only for a Debian repository that
    /// mirrors sources; the flag means nothing in the AOSC mode.
    pub fn wants_sources(&self) -> (r: bool)
        ensures
            r == (self.mode is Debian && self.mirror_sources),
    {
        matches!(self.mode, OperationMode::Debian) && self.mirror_sources
    }
}

} // verus!
