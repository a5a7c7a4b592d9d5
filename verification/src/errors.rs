//! The library's error taxonomy.  Every failure is reported to the
//! caller as a value; mutating operations leave their structure
//! unchanged whenever they return an error.

use vstd::prelude::*;

verus! {

/// Why a timeline or track operation was refused.
#[derive(Clone, Copy, Debug, PartialEq, Eq, Structural)]
pub enum TimelineError {
    /// The reserved time-0 slot was targeted: adding a second node at
    /// time 0, deleting the time-0 node, or moving a node onto or off
    /// the time-0 slot.
    ZeroTimeForbidden,
    /// A node already exists at the requested time.
    DuplicateTime,
    /// No node exists at the referenced time.
    NotFound,
    /// A timeline could not be rendered into its textual form.
    SerializationFailed,
    /// A text was not a well-formed encoding of a timeline.
    DeserializationFailed,
}

} // verus!
