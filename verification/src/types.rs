//! The parameters of a run.

use crate::graph::effects::FACTOR_MAX;
use crate::linalg_helpers::{is_offset, OFFSET_MAX};
use vstd::prelude::*;

verus! {

/// The largest magnitude of an area that the energy is computed from: the
/// area of a square twice as wide as the window.
pub const AREA_MAX: i128 = 1_152_921_504_606_846_976;

/// What a run is started with. Lengths and factors are fixed-point numbers in
/// units of the lattice, areas are counted in squares of the lattice.
#[derive(Debug)]
pub struct Params {
    pub initial_thickness: i64,
    pub initial_radius: i64,
    pub initial_num_points: usize,
    pub initial_temperature: i128,
    pub initial_gray_matter_area: i128,
    pub compression_factor: i64,
    /// How much the closeness of vertices on different boundaries weighs on a
    /// push. No operator reads it.
    pub softness_factor: i64,
    pub how_smooth: usize,
    pub max_merge_steps_away: usize,
    pub node_addition_threshold: i64,
    pub node_deletion_threshold: i64,
    pub low_high: (i64, i64),
    pub recorders: Vec<String>,
    pub temperature_param: i64,
    pub output_file_path: String,
}

impl Clone for Params {
    fn clone(&self) -> (r: Self)
        ensures
            r.wf() == self.wf(),
            r.initial_thickness == self.initial_thickness,
            r.initial_radius == self.initial_radius,
            r.initial_num_points == self.initial_num_points,
            r.initial_temperature == self.initial_temperature,
            r.softness_factor == self.softness_factor,
            r.initial_gray_matter_area == self.initial_gray_matter_area,
            r.compression_factor == self.compression_factor,
            r.how_smooth == self.how_smooth,
            r.max_merge_steps_away == self.max_merge_steps_away,
            r.node_addition_threshold == self.node_addition_threshold,
            r.node_deletion_threshold == self.node_deletion_threshold,
            r.low_high == self.low_high,
            r.temperature_param == self.temperature_param,
    {
        Params {
            initial_thickness: self.initial_thickness,
            initial_radius: self.initial_radius,
            initial_num_points: self.initial_num_points,
            initial_temperature: self.initial_temperature,
            initial_gray_matter_area: self.initial_gray_matter_area,
            compression_factor: self.compression_factor,
            softness_factor: self.softness_factor,
            how_smooth: self.how_smooth,
            max_merge_steps_away: self.max_merge_steps_away,
            node_addition_threshold: self.node_addition_threshold,
            node_deletion_threshold: self.node_deletion_threshold,
            low_high: (self.low_high.0, self.low_high.1),
            recorders: self.recorders.clone(),
            temperature_param: self.temperature_param,
            output_file_path: self.output_file_path.clone(),
        }
    }
}

impl Params {
    /// The parameters are such that a step can be computed: the magnitudes
    /// of a move form a range inside the window, the compression factor is at
    /// most `FACTOR_MAX`, and the target area at most `AREA_MAX`.
    pub open spec fn wf(self) -> bool {
        &&& self.low_high.0 < self.low_high.1
        &&& is_offset(self.low_high.0 as int)
        &&& is_offset(self.low_high.1 as int)
        &&& -FACTOR_MAX <= self.compression_factor <= FACTOR_MAX
        &&& -AREA_MAX <= self.initial_gray_matter_area <= AREA_MAX
    }

    /// Whether a step can be computed with these parameters.
    pub fn is_valid(&self) -> (b: bool)
        ensures
            b == self.wf(),
    {
        self.low_high.0 < self.low_high.1 && self.low_high.0 >= -OFFSET_MAX
            && self.low_high.0 <= OFFSET_MAX && self.low_high.1
            >= -OFFSET_MAX && self.low_high.1
            <= OFFSET_MAX && self.compression_factor >= -FACTOR_MAX
            && self.compression_factor <= FACTOR_MAX && self.initial_gray_matter_area >= -AREA_MAX
            && self.initial_gray_matter_area <= AREA_MAX
    }
}

} // verus!
