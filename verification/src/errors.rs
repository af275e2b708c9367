use vstd::prelude::*;

verus! {

/// The failure cases of the library's operations.
#[derive(Clone, Copy, Debug, PartialEq, Eq, Structural)]
pub enum Error {
    /// An input vector's length differs from the index dimension.
    DimensionMismatch,
    /// The requested scalar-type/dimension pair is absent from the dispatch menu.
    UnsupportedConfiguration,
    /// An element lookup lies beyond the current element count.
    OutOfRange,
    /// A filesystem failure, reported by the I/O shell around the library.
    IOError,
    /// Serialized bytes are inconsistent with their own header.
    CorruptData,
    /// Serialized bytes carry an incompatible format version.
    VersionMismatch,
}

} // verus!
