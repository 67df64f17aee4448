//! The error kinds that store, resolver and merge operations report.

use vstd::prelude::*;

verus! {

/// Why a store, resolver or merge operation failed.
#[derive(Debug)]
pub enum StoreError {
    /// A checkpoint directory with this id already exists; the payload
    /// names the conflicting id.
    AlreadyExists(String),
    /// The requested record, directory or prefix matches nothing.
    NotFound,
    /// A prefix matches two or more checkpoints; the payload lists every
    /// matching id.
    Ambiguous(Vec<String>),
    /// A record file is present but cannot be parsed.
    Corrupt,
    /// A prefix is too short to be a useful filter.
    InvalidPrefix,
    /// The merge filter matched no records.
    NothingToMerge,
    /// An underlying filesystem operation failed.
    IOError,
}

} // verus!
