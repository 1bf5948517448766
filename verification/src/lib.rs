//! Token-allocation schedules on a geometric price lattice, as used by
//! discrete liquidity market makers: the price grid, the geometric and the
//! logistic allocation curve, the capped fee schedule, the launch surcharge,
//! the compensated sum that the totals are accumulated with, and the
//! verification of a curve against its closed form.
//!
//! The numbers of a schedule are IEEE-754 binary64 values. The crate
//! carries them by their encoding ([`scalar::Scalar`]) and computes on the
//! encodings in integer arithmetic, every operation proved to round as the
//! standard asks ([`arith`]). So every result is stated exactly, bit for
//! bit. Two functions are left to the caller, who hands their values in: the
//! power with a fractional exponent and the natural logarithm.
pub mod scalar;
pub mod rounding;
pub mod arith;
pub mod order;
pub mod recovery;
pub mod error;
pub mod curves;
pub mod setup;
pub mod checks;
pub mod dlmm;
pub mod schedule;
pub mod chart;
