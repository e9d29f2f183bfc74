//! Growth-maximal systems of non-overlapping balls in the unit cube.
//!
//! Coordinates are fixed-point integers: a coordinate `c` stands for
//! `c / UNIT`. Radii are given in half units, `r / (2 * UNIT)`, so that the
//! point where two growing balls meet is always representable exactly.
pub mod geometry;
pub mod growth;
pub mod sample;

pub use geometry::{Point, Points, UNIT};
pub use growth::{growth_maximal_system_of_non_overlapping_balls, Radii};
pub use sample::random_points;
