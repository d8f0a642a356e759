//! Errors reported by the editing core.

use vstd::prelude::*;

verus! {

/// Why an edit or a packet was refused.
#[derive(Copy, Clone, Debug, PartialEq, Eq, Structural)]
pub enum Error {
    /// The operation addresses an offset or a line that the buffer does not
    /// contain, or an offset that falls inside a multi-byte character.
    OutOfRange,
    /// A packet arrived that does not fit the state of the session.
    DecodeError,
}

} // verus!
