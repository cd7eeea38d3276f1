//! What can go wrong while an archive is built or read.

use vstd::prelude::*;

verus! {

/// The ways in which building or reading an archive fails.
#[derive(Debug, Clone, Copy, PartialEq, Eq, Structural)]
pub enum ArchiveError {
    /// There is no symbol to build a tree from.
    Tree,
    /// The header is missing, cut short or malformed, or does not fit the
    /// payload.
    Format,
    /// The text of a file is no valid transcoding of bytes.
    Decode,
}

} // verus!
