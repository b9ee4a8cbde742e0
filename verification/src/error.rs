//! The error taxonomy: every stage either returns its value or one of
//! these errors; there is no local recovery anywhere in the core.

use vstd::prelude::*;

verus! {

/// What can go wrong while building, aggregating, or (de)coding a snapshot.
#[derive(Debug, Clone, PartialEq, Eq)]
pub enum Error {
    /// A file's size could not be read while its record was built.
    Metadata(String),
    /// A file's or directory's parent path is absent from the mapping.
    MissingParent(String),
    /// A referenced directory is absent from the mapping during aggregation.
    MissingDir(String),
    /// A child-reference cycle was met during aggregation.
    Cycle(String),
    /// A size sum does not fit in 64 bits.
    SizeOverflow,
    /// The compressed or serialized bytes are malformed or truncated.
    Corrupt,
    /// The compressor itself failed.
    Compress,
}

} // verus!
