//! A missing-value-aware time-series engine for technical analysis.
//!
//! Values are integers in a unit chosen by the caller (price ticks, or a
//! fixed-point scale); `None` marks a missing value.

pub mod indicators;
pub mod rolling;
pub mod series;
pub mod signal;
pub mod smooth;
pub mod strategy;
