//! Failure kinds surfaced by the library. Per-domain resolution failures are
//! not here: they are collected, not propagated (see `resolver`).

use vstd::prelude::*;
use crate::addr::Address;

verus! {

/// A fatal failure of a block or unblock run.
#[derive(Debug)]
pub enum SyncError {
    /// The external routing command could not be spawned.
    ProcessLaunch,
    /// The routing command ran but exited non-zero; carries the captured
    /// output and, for an add or delete, the implicated address (a failed
    /// listing implicates none).
    ProcessExit { address: Option<Address>, stdout: Vec<u8>, stderr: Vec<u8> },
    /// A routing-table line's first field is not a valid address literal.
    Parse { line: Vec<u8> },
    /// The cache file holds a line that is not a valid address literal.
    CacheParse { line: Vec<u8> },
    /// The cache file could not be read or written, for a reason other
    /// than absence.
    CacheIo,
}

} // verus!
