//! Per-stream tracking of which byte ranges of an outbound stream have been
//! sent and which have been acknowledged.

pub mod laws;
pub mod model;
pub mod range_map;
pub mod tracker;

pub use range_map::{RangeMap, RangeState};
pub use tracker::RangeTracker;
