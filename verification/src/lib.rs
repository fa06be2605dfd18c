//! Order-level and index-level logic of a parametric-EQ fitting pipeline.
//!
//! The pipeline works on dB curves sampled on log-spaced frequency grids.  Every
//! decision it takes that depends on the *order* of sample values (peak search,
//! prominence bases, protection zones around dips, slope-limiting bookkeeping,
//! bracketing segments for interpolation, initialisation order of filters) and
//! every decision that is plain index or flag logic (parameter layout for the
//! optimiser, validation of filter specs) lives here and is verified.
//!
//! Sample values enter the library as order keys (see [`order`]): integers that
//! compare exactly as the IEEE-754 binary64 values they stand for, NaN excepted.

pub mod types;
pub mod order;
pub mod search;
pub mod peak_finding;
pub mod equalize;
pub mod validate;
pub mod params;
pub mod interpolate;
pub mod init;
pub mod smooth;
