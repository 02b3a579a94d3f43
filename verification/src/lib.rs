//! Statistical chart builders for target/decoy score analysis.
//!
//! The crate computes the transforms behind a set of report charts (class
//! partition, empirical distribution functions and their step
//! interpolation, the null-proportion estimate) and assembles the charts as
//! plain [`chart::PlotSpec`] values that any rendering layer can draw.
//!
//! Every number is held exactly. A score is an `i64` that orders as the
//! measured value does; callers with real-valued data supply such integers
//! (a fixed-point value or any order-preserving encoding) and map results
//! back through the same encoding. A cumulative fraction is a
//! [`fraction::Fraction`] of two counts. Where a ratio is written out in
//! decimals, the digits are those of double-precision arithmetic, which
//! [`rounding`] states and computes in whole numbers.

pub mod chart;
pub mod ecdf;
pub mod error;
pub mod fraction;
pub mod label;
pub mod order;
pub mod pi0;
pub mod plots;
pub mod rounding;
