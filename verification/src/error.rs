//! Errors surfaced while rebuilding an offset-index section.

use vstd::prelude::*;

verus! {

/// Why a rebuild aborted.  Each failure is non-recoverable for the object
/// being processed and carries the offending index or offset.
#[derive(Clone, Copy, Debug, PartialEq, Eq, Structural)]
pub enum Error {
    /// Entry `i` of the local offset-index section lies out of bounds.
    OffsetAtIndex(u64),
    /// The byte offset read does not locate a validly terminated, validly
    /// encoded string in the local string table.
    StrAtOffset(u64),
    /// A computed size or offset does not fit the declared field width.
    FieldOverflow,
}

} // verus!
