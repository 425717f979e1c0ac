use vstd::prelude::*;

verus! {

/// The failures that decoding or encoding a binary resource can meet.
#[derive(Debug, Clone, Copy, PartialEq, Eq, Structural)]
pub enum Error {
    /// A chunk header is missing, has an unexpected token, or declares more
    /// bytes than remain.
    MalformedHeader,
    /// A string pool is inconsistent: an offset or a string leaves its data
    /// region.
    MalformedStringPool,
    /// A string value refers to an index past the end of the string pool.
    StringIndexOutOfBounds,
    /// A dimension value names a unit index outside the known units.
    InvalidUnit,
    /// The input ends before a complete item could be read.
    UnexpectedEndOfStream,
}

} // verus!
