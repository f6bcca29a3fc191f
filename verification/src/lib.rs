//! Chi-square goodness-of-fit analysis of daily log-returns.
//!
//! The pipeline works on fixed-point values: a real quantity is carried as a
//! signed integer count of billionths (nine decimal places). Closing prices,
//! log-returns, cumulative-distribution values and chi-square statistics are
//! all stated and proved in that representation; conversion from and to
//! machine floating point happens outside this library.

pub mod analysis;
pub mod bins;
pub mod chi;
pub mod errors;
pub mod interval;
pub mod loader;
pub mod stats;
