//! The failures that decoding a file can report.

use vstd::prelude::*;

verus! {

/// Why a page, a record or a traversal could not be decoded.
#[derive(Debug, Clone, Copy, PartialEq, Eq, Structural)]
pub enum BdbError {
    /// A buffer, a frame or the file is shorter than the field or page being read.
    Truncated,
    /// The type byte of a B-tree page is none of metadata-style, internal or leaf.
    BadMagicOrType,
    /// The record marker of a key/data record is not `1`.
    BadRecordMarker,
    /// The bytes of the file could not be obtained.
    IoFailure,
    /// Page links were followed more often than a file of this size allows
    /// without visiting a page twice.
    Cycle,
}

} // verus!
