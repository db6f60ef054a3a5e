//! The failures that reading, decoding and building can report.

use vstd::prelude::*;

verus! {

/// Why an operation on the object store failed.
#[derive(Clone, Copy, Debug, PartialEq, Eq, Structural)]
pub enum Error {
    /// No object is stored under the fingerprint.
    ObjectNotFound,
    /// The stored bytes are not a valid zlib stream.
    CorruptObject,
    /// The object does not start with a known kind tag.
    UnknownObjectKind,
    /// The length in the header is not the length of what follows it.
    LengthMismatch,
    /// A tree body ends in the middle of an entry.
    TruncatedEntry,
    /// A tree entry carries a mode that is not one of the four known ones.
    InvalidMode,
    /// A snapshot holds something that is neither file, link nor directory.
    UnsupportedEntryKind,
    /// The object is of another kind than the operation works on.
    KindMismatch,
}

} // verus!
