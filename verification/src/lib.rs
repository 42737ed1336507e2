//! Pruning of stale data from a directory tree: files older than a
//! threshold are deleted, directories emptied thereby are deleted after
//! them, and directories that hold a marker are left alone.
use vstd::prelude::*;

pub mod clock;
pub mod correctness;
pub mod filesystem;
pub mod tracking;
pub mod progress;
pub mod protocol;
pub mod pruner;
pub mod tree;

pub use protocol::{Action, Entry, Event, PruneError, Request};
pub use pruner::{cleanup_stale_data, Pruner};
pub use tree::marker_name;

verus! {

} // verus!
