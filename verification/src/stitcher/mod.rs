//! The correspondence between the vertices of the two boundaries, and the
//! choice of the strategy that builds it.

pub mod greedy;
pub mod smart;
pub mod types;

use crate::graph::types::{ThickSurface, INNER, OUTER};
use crate::stitcher::greedy::{covers_all, is_greedy_stitching};
use crate::stitcher::smart::{is_dijkstra_stitching, GRID_MAX};
use crate::stitcher::types::{Stitching, Strategy};
use vstd::prelude::*;

verus! {

/// The two boundaries together are small enough for the grid of costs.
pub open spec fn can_be_stitched(ts: ThickSurface) -> bool {
    ts.outer().len() + ts.inner().len() <= GRID_MAX
}

/// Whether the two boundaries together are small enough to be aligned.
pub fn fits_stitching(ts: &ThickSurface) -> (b: bool)
    requires
        ts.wf(),
    ensures
        b == can_be_stitched(*ts),
{
    let outer_count: usize = ts.layers[OUTER].nodes.len();
    let inner_count: usize = ts.layers[INNER].nodes.len();
    outer_count <= GRID_MAX && inner_count <= GRID_MAX - outer_count
}

/// Aligns the two boundaries of the surface by the strategy chosen. Whatever
/// the strategy, every vertex of either boundary gets at least one
/// correspondent, and the two tables count the same number of pairs.
pub fn stitch_choice(ts: &ThickSurface, strategy: Strategy) -> (s: Stitching)
    requires
        ts.wf(),
        can_be_stitched(*ts),
    ensures
        s.wf(),
        covers_all(s, ts.outer().len(), ts.inner().len()),
        s.count_from_outer() == s.count_from_inner(),
        match strategy {
            Strategy::Dijkstra => is_dijkstra_stitching(s, ts.outer(), ts.inner()),
            Strategy::Greedy => is_greedy_stitching(s, ts.outer(), ts.inner()),
        },
{
    match strategy {
        Strategy::Dijkstra => smart::stitch(&ts.layers[OUTER], &ts.layers[INNER]),
        Strategy::Greedy => greedy::stitch(&ts.layers[OUTER], &ts.layers[INNER]),
    }
}

/// Aligns the two boundaries along a cheapest path.
pub fn stitch_default(ts: &ThickSurface) -> (s: Stitching)
    requires
        ts.wf(),
        can_be_stitched(*ts),
    ensures
        s.wf(),
        covers_all(s, ts.outer().len(), ts.inner().len()),
        s.count_from_outer() == s.count_from_inner(),
        is_dijkstra_stitching(s, ts.outer(), ts.inner()),
{
    stitch_choice(ts, Strategy::Dijkstra)
}

} // verus!
