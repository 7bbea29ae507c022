use vstd::prelude::*;

verus! {

/// Why an embedding or extraction call was rejected.  Precondition
/// violations are validated up front and reported, never discovered
/// through out-of-bounds access.
#[derive(Clone, Copy, PartialEq, Eq, Structural, Debug)]
pub enum StegoError {
    /// The secret's approximation blocks exceed the combined capacity of
    /// the cover's three detail bands.
    CapacityExceeded { needed: usize, available: usize },
    /// A grid dimension is odd where the inverse transform needs both
    /// dimensions even.
    IncompatibleDimensions,
    /// A key entry points outside the decomposition or the reconstruction
    /// buffers it must index.
    InvalidKey,
}

} // verus!
