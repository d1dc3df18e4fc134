use vstd::prelude::*;

verus! {

/// The ways in which a caller can hand the library inputs it cannot work on.
#[derive(Clone, Copy, Debug, PartialEq, Eq, Structural)]
pub enum HeatError {
    /// A grid or image of zero width or height, or one too large to address.
    InvalidDimensions,
    /// Two images that were to be blended differ in width or height.
    DimensionMismatch,
    /// A colour table without a single entry.
    EmptyGradient,
    /// A weight table that is not a kernel: see `Kernel::wf`.
    InvalidKernel,
}

} // verus!
