//! The error taxonomy of the library.
//!
//! Every filesystem- or parse-level failure is reported as a typed value to
//! the immediate caller; no parse error may abort the process. Remote-fetch
//! failures are isolated per remote and carried inside a batch result.

use vstd::prelude::*;

verus! {

/// Why reading or initialising a repository failed.
///
/// Paths are carried as plain text so that contracts can speak of them.
#[derive(Debug, Clone)]
pub enum RepoErrorReason {
    CantCreateFile(String, String),
    CantReadFile(String, String),
    PathNotFound(String),
    DirIsNotAFursionRepo(String),
    RepoAlreadyExists(String),
    FailedToReadFileMetadata(String),
    CantInitAtRootDiskLocation,
}

/// Why a host serving repository snapshots refused a request.
#[derive(Debug, Clone, PartialEq, Eq, Structural)]
pub enum HostErrorKind {
    RepoNotFound,
    StateMutexThreadLocked,
}

/// Why parsing a persisted commit failed.
#[derive(Debug, Clone, PartialEq, Eq, Structural)]
pub enum CommitParseFailedReason {
    CommitIdParseFailed,
    FileChangeDataNotFound,
    FileChangeDataMalformed,
}

/// The library's error type.
#[derive(Debug, Clone)]
pub enum Error {
    RepoReadFailed(RepoErrorReason),
    RepoInitFailed(RepoErrorReason),
    RepoFetchFailed(String),
    HostError(HostErrorKind),
    CommitParseFailed(CommitParseFailedReason),
    SerdeError(String),
    Unknown(String),
}

} // verus!
