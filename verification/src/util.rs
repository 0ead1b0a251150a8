//! Small shared value types.

use vstd::prelude::*;

verus! {

/// A byte count, as carried across the instrumentation boundary.
#[derive(Debug, Clone, Copy, Eq, PartialEq, Structural)]
pub struct Size {
    pub bytes: usize,
}

impl Size {
    /// Wraps a raw byte count.
    pub fn from_bytes(bytes: usize) -> (r: Self)
        ensures
            r.bytes == bytes,
    {
        Self { bytes }
    }
}

} // verus!
