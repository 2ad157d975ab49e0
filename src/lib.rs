//! Route finding over a multi-floor building graph, optionally biased by weather.
//!
//! All quantities are integers: distances are whole units, temperatures are
//! millikelvin, and cost multipliers are expressed in thousandths.

pub mod weather;
pub mod graph;
pub mod frontier;
pub mod search;
pub mod route;
pub mod fixtures;
