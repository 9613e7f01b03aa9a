//! The ways in which the library's operations fail.

use vstd::prelude::*;

verus! {

/// Why an operation was refused.
#[derive(Debug, Clone, Copy, PartialEq, Eq, Structural)]
pub enum StoreError {
    /// A file reference does not split into its six fields.
    MalformedReference,
    /// A file id is not base64 of UTF-8 text with five `_`-separated fields.
    MalformedId,
    /// A numeric field of a file id is not a number of its type.
    InvalidField,
    /// No volume can take a write.
    NoWritableVolume,
    /// The selector has no candidates at all.
    NoCandidates,
    /// A reference names a volume that this node does not have.
    UnknownVolume,
    /// A journal descriptor does not fit in its fixed width.
    RecordOverflow,
    /// A byte count would exceed the range of `u64`.
    SizeOverflow,
}

} // verus!
