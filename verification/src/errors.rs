//! The error taxonomy of the queuing core.

use vstd::prelude::*;

verus! {

/// Typed failure values for the queuing core.
///
/// Configuration errors are detected eagerly when a system is constructed,
/// shape errors when an integration is started, and domain errors when a
/// closed-form metric is mathematically undefined for the given parameters.
/// `Overflow` reports that an exact rational value left the representable
/// range of the fixed-width arithmetic; it never stands for a rounded result.
#[derive(Clone, Copy, Debug, PartialEq, Eq, Structural)]
pub enum Error {
    /// The arrival rate lambda is not strictly positive.
    NonPositiveArrivalRate,
    /// The service rate mu is not strictly positive.
    NonPositiveServiceRate,
    /// The channel count c is zero.
    NonPositiveChannelCount,
    /// The simulation horizon T is not strictly positive.
    NonPositiveHorizon,
    /// The integration step size h is not strictly positive.
    NonPositiveStepSize,
    /// The initial occupancy vector has a negative entry or sums to zero.
    InvalidInitialState,
    /// The initial vector length does not match the matrix dimension.
    ShapeMismatch,
    /// A closed-form result is mathematically undefined (rho equal to c).
    UndefinedResult,
    /// An exact rational value does not fit the fixed-width representation.
    Overflow,
}

} // verus!
