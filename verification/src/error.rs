//! The error taxonomy of the archive core.
//!
//! Parsing and decoding errors are local and recoverable: a caller may retry
//! with a different buffer. Builder failures are terminal for that build; no
//! partial output is valid.

use vstd::prelude::*;

verus! {

/// Everything the archive core can report.
#[derive(Debug, PartialEq, Eq)]
pub enum LarchError {
    /// A control word slice was not exactly eight bytes, or declared a bit
    /// width above 64.
    MalformedControlWord,
    /// A buffer was shorter than its declared contents, or did not match the
    /// size its control word demands.
    TruncatedBuffer,
    /// A random access asked for an element at or past the array's length.
    IndexOutOfRange,
    /// A segment was addressed that the archive does not contain. `range_for`
    /// reports absence as `None`; this variant is for callers that insist.
    SegmentNotPresent,
    /// The archive directory itself is inconsistent: its offsets are not
    /// non-decreasing, or their number does not match the presence bitmap.
    MalformedHeader,
    /// A dictionary segment failed to decode; the payload is the 1-based
    /// ordinal of the first entry that could not be produced.
    DictionaryCorrupt(u64),
    /// An underlying file operation failed; the payload names the operation
    /// and path. Only callers that drive real I/O construct this.
    IoError(String),
    /// The scratch space for an external sort spill was exhausted. Only
    /// callers that drive real I/O construct this.
    InsufficientSpace,
}

} // verus!
