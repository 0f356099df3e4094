//! A two-layer polygonal surface that folds under simulated annealing.
//!
//! All geometry lives on an integer lattice: a coordinate is a signed
//! fixed-point number with [`fixed::UNIT`] lattice steps per unit of
//! length, so every predicate (orientation, crossing, nearest vertex) is exact.

pub mod fixed;
pub mod graph;
pub mod linalg_helpers;
pub mod maintenance;
pub mod renderer;
pub mod simulated_annealing;
pub mod stitcher;
pub mod types;
