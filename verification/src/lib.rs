//! Plane geometry and selection algorithms with machine-checked contracts:
//! 2D integer points, an incremental grid-based closest-pair search, and
//! randomized quickselect.

pub mod closest_pair;
pub mod kth_largest;
pub mod point;
