//! What can go wrong when a segment is read back.

use vstd::prelude::*;

verus! {

/// A failed lookup. A key that is simply absent is no error: lookups report
/// it as `None`.
#[derive(Clone, Copy, Debug, PartialEq, Eq, Structural)]
pub enum TableError {
    /// The segment could not be written or read, or what was read is not
    /// text.
    IoFailure,
    /// A line of the segment holds no delimiter.
    MalformedLine,
}

} // verus!
