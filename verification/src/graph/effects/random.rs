//! Random moves, drawn from the random source of the thread.

use crate::fixed::{lemma_part_bound, quotient, quotient_of};
use crate::graph::effects::fields::{field_is_bounded, field_is_keyed, lemma_with_change_bounded};
use crate::graph::types::{Graph, Node, NodeChange, NodeChangeMap};
use crate::linalg_helpers::{floor_sqrt, is_offset, isqrt, norm_sq_spec};
use rand::Rng;
use rand::rngs::ThreadRng;
use vstd::prelude::*;

verus! {

/// `rand::rngs::ThreadRng`, the random source of a thread. Nothing is known
/// of its state.
#[verifier::external_type_specification]
#[verifier::external_body]
pub struct ExThreadRng(rand::rngs::ThreadRng);

/// `Rng::gen_range` on `usize`, from 0: some index below `high`.
#[verifier::external_body]
fn draw_index(rng: &mut ThreadRng, high: usize) -> (r: usize)
    requires
        high > 0,
    ensures
        r < high,
{
    rng.gen_range(0, high)
}

/// `Rng::gen_range` on `i64`: some number from `low` up to, not including,
/// `high`.
#[verifier::external_body]
fn draw_between(rng: &mut ThreadRng, low: i64, high: i64) -> (r: i64)
    requires
        low < high,
    ensures
        low <= r < high,
{
    rng.gen_range(low, high)
}

/// The largest component of a vector drawn for a direction.
pub const DIRECTION_REACH: i64 = 32_768;

/// How often a vector is drawn for a direction before a fixed one is taken.
pub const DIRECTION_TRIES: usize = 64;

/// `(a, b)` can give a direction: it lies in the ring between half the reach
/// and the reach, where every direction is as likely as any other and the
/// length is large enough for its rounding not to matter.
pub open spec fn is_direction(a: int, b: int) -> bool {
    &&& -DIRECTION_REACH <= a <= DIRECTION_REACH
    &&& -DIRECTION_REACH <= b <= DIRECTION_REACH
    &&& 268_435_456 <= norm_sq_spec(a, b) <= 1_073_741_824
}

/// The component of a vector of length `magnitude` along a direction vector
/// of component `a` and length `len`, rounded towards zero.
pub open spec fn along(magnitude: int, a: int, len: int) -> int {
    if a >= 0 {
        quotient(magnitude * a, len)
    } else {
        -quotient(magnitude * (-a), len)
    }
}

/// The move of vertex `id` by `magnitude` in the direction of `(a, b)`.
pub open spec fn drawn_change(
    nodes: Seq<Node>,
    id: usize,
    magnitude: int,
    a: int,
    b: int,
) -> NodeChange {
    let len = floor_sqrt(norm_sq_spec(a, b));
    NodeChange {
        id: id,
        cur_x: nodes[id as int].x,
        cur_y: nodes[id as int].y,
        delta_x: along(magnitude, a, len) as i64,
        delta_y: along(magnitude, b, len) as i64,
    }
}

/// The component of a vector of length `magnitude` along a direction.
fn component(magnitude: i64, a: i64, len: i64) -> (r: i64)
    requires
        is_offset(magnitude as int),
        0 < len,
        -len <= a <= len,
    ensures
        r == along(magnitude as int, a as int, len as int),
        is_offset(r as int),
{
    let part: i64 = if a >= 0 {
        a
    } else {
        -a
    };
    proof {
        lemma_part_bound(magnitude as int, part as int, len as int);
        let m = magnitude as int;
        let p = part as int;
        assert(-0x4000_0000 * 0x7fff_ffff_ffff_ffff <= m * p <= 0x4000_0000
            * 0x7fff_ffff_ffff_ffff) by (nonlinear_arith)
            requires
                -0x4000_0000 <= m <= 0x4000_0000,
                0 <= p <= 0x7fff_ffff_ffff_ffff,
        ;
    }
    let q: i128 = quotient_of((magnitude as i128) * (part as i128), len as i128);
    if a >= 0 {
        q as i64
    } else {
        (-q) as i64
    }
}

/// The move of vertex `id` by `magnitude` in the direction of `(a, b)`.
pub fn change_from_draws(g: &Graph, id: usize, magnitude: i64, a: i64, b: i64) -> (change:
    NodeChange)
    requires
        id < g.nodes@.len(),
        is_offset(magnitude as int),
        is_direction(a as int, b as int),
    ensures
        change == drawn_change(g.nodes@, id, magnitude as int, a as int, b as int),
        is_offset(change.delta_x as int),
        is_offset(change.delta_y as int),
{
    proof {
        let x = a as int;
        let y = b as int;
        assert(0 <= x * x <= 1_073_741_824 && 0 <= y * y <= 1_073_741_824) by (nonlinear_arith)
            requires
                -32_768 <= x <= 32_768,
                -32_768 <= y <= 32_768,
        ;
    }
    let square: u64 = ((a as i128) * (a as i128) + (b as i128) * (b as i128)) as u64;
    let len: i64 = isqrt(square) as i64;
    proof {
        let x = a as int;
        let y = b as int;
        let l = len as int;
        assert(l > 0 && -l <= x <= l && -l <= y <= l) by (nonlinear_arith)
            requires
                0 <= l,
                l * l <= x * x + y * y < (l + 1) * (l + 1),
                268_435_456 <= x * x + y * y,
        ;
    }
    NodeChange {
        id: id,
        cur_x: g.nodes[id].x,
        cur_y: g.nodes[id].y,
        delta_x: component(magnitude, a, len),
        delta_y: component(magnitude, b, len),
    }
}

/// Draws a vector that gives a direction. Vectors are drawn from the square
/// of the reach until one lies in the ring of directions; after
/// `DIRECTION_TRIES` failures the vector that points along the first axis is
/// taken.
fn draw_direction(rng: &mut ThreadRng) -> (d: (i64, i64))
    ensures
        is_direction(d.0 as int, d.1 as int),
{
    let mut tries: usize = 0;
    while tries < DIRECTION_TRIES
        invariant
            tries <= DIRECTION_TRIES,
        decreases DIRECTION_TRIES - tries,
    {
        let a: i64 = draw_between(rng, -DIRECTION_REACH, DIRECTION_REACH + 1);
        let b: i64 = draw_between(rng, -DIRECTION_REACH, DIRECTION_REACH + 1);
        proof {
            let x = a as int;
            let y = b as int;
            assert(0 <= x * x <= 1_073_741_824 && 0 <= y * y <= 1_073_741_824) by (nonlinear_arith)
                requires
                    -32_768 <= x <= 32_768,
                    -32_768 <= y <= 32_768,
            ;
        }
        let square: i64 = a * a + b * b;
        if 268_435_456 <= square && square <= 1_073_741_824 {
            return (a, b);
        }
        tries += 1;
    }
    assert(norm_sq_spec(32_768, 0) == 1_073_741_824) by (nonlinear_arith);
    (DIRECTION_REACH, 0)
}

/// `change` moves one vertex of the ring, by a magnitude from `low` up to
/// `high` in some direction.
pub open spec fn is_random_move(change: NodeChange, nodes: Seq<Node>, low: int, high: int) -> bool {
    exists|id: usize, magnitude: int, a: int, b: int|
        #![trigger drawn_change(nodes, id, magnitude, a, b)]
        id < nodes.len() && low <= magnitude < high && is_direction(a, b) && change
            == drawn_change(nodes, id, magnitude, a, b)
}

/// Draws a random move of one vertex: the vertex from all vertices alike, the
/// magnitude from `low_high.0` up to `low_high.1`, and the direction from all
/// directions alike.
pub fn random_move(g: &Graph, low_high: (i64, i64), rng: &mut ThreadRng) -> (change: NodeChange)
    requires
        g.nodes@.len() > 0,
        low_high.0 < low_high.1,
        is_offset(low_high.0 as int),
        is_offset(low_high.1 as int),
    ensures
        is_random_move(change, g.nodes@, low_high.0 as int, low_high.1 as int),
        change.id < g.nodes@.len(),
        is_offset(change.delta_x as int),
        is_offset(change.delta_y as int),
{
    let id: usize = draw_index(rng, g.nodes.len());
    let magnitude: i64 = draw_between(rng, low_high.0, low_high.1);
    let (a, b) = draw_direction(rng);
    let change: NodeChange = change_from_draws(g, id, magnitude, a, b);
    assert(change == drawn_change(g.nodes@, id, magnitude as int, a as int, b as int));
    change
}

/// Proposes a random move of one vertex, as a field that holds that move and
/// no other.
pub fn random_change(g: &Graph, low_high: (i64, i64), rng: &mut ThreadRng) -> (ret: NodeChangeMap)
    requires
        g.nodes@.len() > 0,
        low_high.0 < low_high.1,
        is_offset(low_high.0 as int),
        is_offset(low_high.1 as int),
    ensures
        exists|change: NodeChange|
            #![trigger change.id]
            is_random_move(change, g.nodes@, low_high.0 as int, low_high.1 as int) && ret@
                == Map::<usize, NodeChange>::empty().insert(change.id, change),
        field_is_bounded(ret@, g.nodes@.len()),
        field_is_keyed(ret@),
{
    let change: NodeChange = random_move(g, low_high, rng);
    let mut ret: NodeChangeMap = NodeChangeMap::new();
    proof {
        lemma_with_change_bounded(ret@, change.id, change, g.nodes@.len());
    }
    let _known: Option<NodeChange> = ret.insert(change.id, change);
    assert(ret@ =~= Map::<usize, NodeChange>::empty().insert(change.id, change));
    ret
}

} // verus!
