use vstd::prelude::*;

verus! {

/// Biquad filter topology.
#[derive(Clone, Copy, Debug, PartialEq, Eq, Structural)]
pub enum FilterType {
    /// Peaking EQ (bell) filter.
    PK,
    /// Low-shelf filter.
    LSQ,
    /// High-shelf filter.
    HSQ,
}

/// Errors returned by the public API.
#[derive(Clone, Debug)]
pub enum BiquadError {
    /// A filter spec is internally inconsistent (e.g. no fc given while fc is locked).
    InvalidFilterSpec(String),
    /// The frequency response has too few points or contains NaN.
    InvalidFrequencyResponse(String),
    /// The optimiser failed.
    OptimizerFailed(String),
}

} // verus!
