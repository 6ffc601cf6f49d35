//! Errors raised while loading the location graph.
//!
//! Edge weights are unsigned integers, so a negative weight cannot be
//! expressed at all; the remaining load-time failures are an edge naming a
//! location that was never declared, a location identifier declared twice,
//! and identifier space running out when virtual source nodes are numbered
//! beyond the largest real identifier.

use vstd::prelude::*;

verus! {

/// A failure while building the graph or running the computation.  Any such
/// failure aborts the whole run: no partial result is produced.
#[derive(Debug, Clone, Copy, PartialEq, Eq, Structural)]
pub enum BuildError {
    /// An edge referenced this location identifier, but no location record
    /// declared it.
    UnknownLocation(u64),
    /// Two location records declared this identifier.
    DuplicateLocation(u64),
    /// The run cannot be set up on this machine: virtual source
    /// identifiers past the largest real identifier would not fit in the
    /// identifier type, or the reach table would not fit in the address
    /// space.
    IdSpaceExhausted,
}

} // verus!
