//! Sampling, quantile binning and per-bin statistics for real-estate sale
//! records.
//!
//! Every quantity is a fixed-point integer: the caller picks the unit (for
//! example cents for amounts, millionths for ratios) and the library only
//! orders, counts and adds. Averages are returned as an exact total and a
//! divisor, so nothing is rounded here.

pub mod data_cleaner;
pub mod error;
pub mod graph;
pub mod order;
pub mod record;
pub mod sampler;
pub mod summary;
