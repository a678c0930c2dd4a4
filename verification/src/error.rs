use vstd::prelude::*;

verus! {

/// Why a table could not be built, or a query not answered.
#[derive(Clone, Copy, Debug, PartialEq, Eq, Structural)]
pub enum ModelError {
    /// The total weight over all symbols is zero or negative, so no share
    /// of it can be computed.
    DegenerateDistribution,
    /// A symbol's weight, or the total, is infinite or not a number.
    InvalidDensity,
    /// The weights add up to more than the total they came with, so the
    /// counts would not fit the coder's 32-bit range.
    CapacityExceeded,
    /// A symbol outside `0..=255` was asked for.
    IndexOutOfRange,
    /// A residual at or above the table's total was handed in: the decoder
    /// that computed it has lost its place in the stream.
    ProtocolViolation,
}

} // verus!
