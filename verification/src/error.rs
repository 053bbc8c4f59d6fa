//! The ways in which the recovery of a cross-reference table can fail.

use vstd::prelude::*;

verus! {

/// Why a cross-reference table could not be recovered from a stream.
#[derive(Clone, Copy, Debug, PartialEq, Eq)]
pub enum XrefError {
    /// A read found no byte at the cursor, or a seek aimed before byte 0.
    IoFailure,
    /// No line starting with `%%EOF` was seen within the allowed number of lines.
    MarkerNotFound,
    /// The line before the marker is not an unsigned decimal number that fits `u64`.
    InvalidOffset,
    /// The bytes at the table's offset are not the keyword `xref`.
    MalformedHeader,
    /// The subsection header has no second token, or that token is no `u64`.
    MissingCount,
    /// A record line is not `offset generation type`.
    MalformedRecord,
}

} // verus!
