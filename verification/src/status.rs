//! The figures that an engine reports about itself.

use vstd::prelude::*;

verus! {

/// The state of an engine in figures.
#[derive(Clone, Debug, PartialEq)]
pub struct Status {
    /// The name of the engine.
    pub name: String,
    /// The number of live keys.
    pub keys: u64,
    /// The bytes of the live keys and values, all together.
    pub size: u64,
    /// The length of the log.
    pub total_disk_size: u64,
    /// The bytes of the log that hold live records: the live keys and
    /// values, and one header for each.
    pub live_disk_size: u64,
    /// The bytes of the log that hold records which are no longer live.
    pub garbage_disk_size: u64,
}

} // verus!
