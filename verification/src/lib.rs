//! Checkpoint metadata management: content-addressed checkpoint records,
//! a human-readable on-disk record format with a verified round-trip,
//! short-id prefix resolution, and a retention engine that decides which
//! checkpoints of a tagged family survive a merge.

use vstd::prelude::*;

pub mod codec;
pub mod errors;
pub mod list;
pub mod merge;
pub mod num;
pub mod record;
pub mod resolve;
pub mod retention;
pub mod text;

verus! {

/// Sort key for listing checkpoints.
#[derive(Clone, Copy, Debug)]
pub enum Sort {
    Time,
    Pid,
}

} // verus!
