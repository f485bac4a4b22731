//! Dense daily download series from sparse cumulative samples.
//!
//! Sparse, irregularly sampled cumulative counters (one per tracked gem) are
//! expanded into dense per-day series with day-over-day deltas, merged into
//! per-date groups for persistence, and queried for the top growers over a
//! trailing window.

pub mod arith;
pub mod group;
pub mod paths;
pub mod rank;
pub mod series;
