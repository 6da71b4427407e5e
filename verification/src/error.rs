//! Failure taxonomy of the dataset codec.
//!
//! I/O failures carry the offending path for diagnostics; structural
//! failures describe what the codec or the merge engine rejected.

use vstd::prelude::*;

verus! {

/// Everything a codec or merge operation can fail with.
///
/// I/O variants are produced by callers that drive file handles; the
/// in-memory codec itself only ever produces `CorruptFile`, and the
/// mutation operations `IncompatibleDimensions` and `PastLabelLimit`.
#[derive(Clone, Debug, PartialEq, Eq)]
pub enum Error {
    /// A file could not be opened; carries the path.
    OpenFile(String),
    /// A file could not be closed; carries the path.
    CloseFile(String),
    /// A read from an open file failed; carries the path.
    ReadFile(String),
    /// A write to an open file failed; carries the path.
    WriteFile(String),
    /// The header or body is structurally invalid; carries the path
    /// where one is known, and an empty string otherwise.
    CorruptFile(String),
    /// Two datasets with differing geometry were combined, or an image
    /// of the wrong byte length was pushed.
    IncompatibleDimensions,
    /// A merge would have grown the label vocabulary past the 16-bit
    /// index ceiling.
    PastLabelLimit,
}

} // verus!
