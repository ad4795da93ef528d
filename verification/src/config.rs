//! Configuration supplied once at log creation.

use vstd::prelude::*;

verus! {

/// Size limits and starting offset for the segments of one log.
#[derive(Clone, Copy, Debug, PartialEq, Eq, Structural)]
pub struct Segment {
    /// A segment stops accepting appends once its store holds at
    /// least this many bytes.  Zero means "use 1024".
    pub max_store_bytes: u64,
    /// Capacity in bytes of each segment's index.  Zero means "use
    /// 1024".
    pub max_index_bytes: u64,
    /// Base offset of the first segment of a fresh log.
    pub initial_offset: u64,
}

/// The configuration surface of a log.
#[derive(Clone, Copy, Debug, PartialEq, Eq, Structural)]
pub struct Config {
    pub segment: Segment,
}

} // verus!
