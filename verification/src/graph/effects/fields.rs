//! Displacement fields: applying them, smoothing a move out along a
//! boundary, and carrying moves over to the other boundary.

use crate::fixed::{
    in_window, lemma_part_bound, magnitude, mean, quotient, quotient_of, COORD_MAX, UNIT,
};
use crate::graph::{distance_between_nodes, node_dist_sq, node_in_window};
use crate::graph::types::{
    lemma_same_links_wf, links_agree, nodes_in_window, ring_wf, with_change, Graph, Node,
    NodeChange, NodeChangeMap, Smooth,
};
use crate::linalg_helpers::{floor_sqrt, is_offset};
use crate::stitcher::types::{Correspondent, Stitching};
use vstd::prelude::*;

verus! {

/// Vertex `i` after the field has moved it: by its offset taken `sign`
/// times, where the field holds a move for it, and not at all where it does
/// not.
pub open spec fn displaced_node(
    nodes: Seq<Node>,
    field: Map<usize, NodeChange>,
    sign: int,
    i: int,
) -> Node {
    if field.contains_key(i as usize) {
        Node {
            x: (nodes[i].x + sign * field[i as usize].delta_x) as i64,
            y: (nodes[i].y + sign * field[i as usize].delta_y) as i64,
            ..nodes[i]
        }
    } else {
        nodes[i]
    }
}

/// The ring after the field has moved its vertices.
pub open spec fn displaced(nodes: Seq<Node>, field: Map<usize, NodeChange>, sign: int) -> Seq<
    Node,
> {
    Seq::new(nodes.len(), |i: int| displaced_node(nodes, field, sign, i))
}

/// The field moves vertex `i` to a point of the window, or not at all.
pub open spec fn move_fits(
    nodes: Seq<Node>,
    field: Map<usize, NodeChange>,
    sign: int,
    i: int,
) -> bool {
    field.contains_key(i as usize) ==> in_window(nodes[i].x + sign * field[i as usize].delta_x)
        && in_window(nodes[i].y + sign * field[i as usize].delta_y)
}

/// The field moves no vertex out of the window.
pub open spec fn displacement_fits(
    nodes: Seq<Node>,
    field: Map<usize, NodeChange>,
    sign: int,
) -> bool {
    forall|i: int| 0 <= i < nodes.len() ==> #[trigger] move_fits(nodes, field, sign, i)
}

/// Moving the vertices of a ring inside the window leaves a ring.
pub proof fn lemma_displaced_wf(nodes: Seq<Node>, field: Map<usize, NodeChange>, sign: int)
    requires
        ring_wf(nodes),
        displacement_fits(nodes, field, sign),
    ensures
        ring_wf(displaced(nodes, field, sign)),
{
    let moved = displaced(nodes, field, sign);
    assert forall|i: int| 0 <= i < nodes.len() implies #[trigger] links_agree(nodes, moved, i) by {}
    assert forall|i: int| 0 <= i < moved.len() implies in_window((#[trigger] moved[i]).x as int)
        && in_window(moved[i].y as int) by {
        assert(move_fits(nodes, field, sign, i));
    }
    lemma_same_links_wf(nodes, moved);
}

/// Taking the moves of a field back restores every vertex.
pub proof fn lemma_revert_undoes_apply(nodes: Seq<Node>, field: Map<usize, NodeChange>)
    requires
        displacement_fits(nodes, field, 1),
        nodes_in_window(nodes),
    ensures
        displacement_fits(displaced(nodes, field, 1), field, -1),
        displaced(displaced(nodes, field, 1), field, -1) == nodes,
{
    let moved = displaced(nodes, field, 1);
    assert forall|i: int| 0 <= i < moved.len() implies #[trigger] move_fits(
        moved,
        field,
        -1,
        i,
    ) by {
        assert(move_fits(nodes, field, 1, i));
    }
    assert forall|i: int| 0 <= i < nodes.len() implies displaced(moved, field, -1)[i]
        == nodes[i] by {
        assert(move_fits(nodes, field, 1, i));
    }
    assert(displaced(moved, field, -1) =~= nodes);
}

/// Whether the field, taken `forward` or backward, moves no vertex of the
/// mesh out of the window.
pub fn changes_fit(g: &Graph, changes: &NodeChangeMap, forward: bool) -> (b: bool)
    requires
        g.wf(),
    ensures
        b == displacement_fits(
            g.nodes@,
            changes@,
            if forward {
                1
            } else {
                -1
            },
        ),
{
    let ghost sign: int = if forward {
        1
    } else {
        -1
    };
    let mut i: usize = 0;
    while i < g.nodes.len()
        invariant
            g.wf(),
            i <= g.nodes@.len(),
            sign == if forward {
                1int
            } else {
                -1int
            },
            forall|k: int| 0 <= k < i ==> #[trigger] move_fits(g.nodes@, changes@, sign, k),
        decreases g.nodes@.len() - i,
    {
        match changes.get(&i) {
            Some(c) => {
                let x: i128 = if forward {
                    g.nodes[i].x as i128 + c.delta_x as i128
                } else {
                    g.nodes[i].x as i128 - c.delta_x as i128
                };
                let y: i128 = if forward {
                    g.nodes[i].y as i128 + c.delta_y as i128
                } else {
                    g.nodes[i].y as i128 - c.delta_y as i128
                };
                if x < -(COORD_MAX as i128) || x > COORD_MAX as i128 || y < -(COORD_MAX as i128)
                    || y > COORD_MAX as i128 {
                    assert(!move_fits(g.nodes@, changes@, sign, i as int));
                    return false;
                }
            },
            None => {},
        }
        i += 1;
    }
    true
}

/// Moves every vertex for which the field holds a move by the offset of that
/// move.
pub fn apply_changes(g: &mut Graph, changes: &NodeChangeMap)
    requires
        old(g).wf(),
        displacement_fits(old(g).nodes@, changes@, 1),
    ensures
        final(g).nodes@ == displaced(old(g).nodes@, changes@, 1),
        final(g).wf(),
{
    let mut i: usize = 0;
    let count: usize = g.nodes.len();
    while i < count
        invariant
            count == old(g).nodes@.len(),
            g.nodes@.len() == count,
            i <= count,
            displacement_fits(old(g).nodes@, changes@, 1),
            nodes_in_window(old(g).nodes@),
            forall|k: int|
                0 <= k < i ==> g.nodes@[k] == displaced_node(old(g).nodes@, changes@, 1, k),
            forall|k: int| i <= k < count ==> g.nodes@[k] == old(g).nodes@[k],
        decreases count - i,
    {
        match changes.get(&i) {
            Some(c) => {
                assert(move_fits(old(g).nodes@, changes@, 1, i as int));
                g.nodes[i].x = g.nodes[i].x + c.delta_x;
                g.nodes[i].y = g.nodes[i].y + c.delta_y;
            },
            None => {},
        }
        i += 1;
    }
    proof {
        assert(g.nodes@ =~= displaced(old(g).nodes@, changes@, 1));
        lemma_displaced_wf(old(g).nodes@, changes@, 1);
    }
}

/// Takes the moves of the field back: every vertex for which the field holds
/// a move goes back by the offset of that move.
pub fn revert_changes(g: &mut Graph, changes: &NodeChangeMap)
    requires
        old(g).wf(),
        displacement_fits(old(g).nodes@, changes@, -1),
    ensures
        final(g).nodes@ == displaced(old(g).nodes@, changes@, -1),
        final(g).wf(),
{
    let mut i: usize = 0;
    let count: usize = g.nodes.len();
    while i < count
        invariant
            count == old(g).nodes@.len(),
            g.nodes@.len() == count,
            i <= count,
            displacement_fits(old(g).nodes@, changes@, -1),
            nodes_in_window(old(g).nodes@),
            forall|k: int|
                0 <= k < i ==> g.nodes@[k] == displaced_node(old(g).nodes@, changes@, -1, k),
            forall|k: int| i <= k < count ==> g.nodes@[k] == old(g).nodes@[k],
        decreases count - i,
    {
        match changes.get(&i) {
            Some(c) => {
                assert(move_fits(old(g).nodes@, changes@, -1, i as int));
                g.nodes[i].x = g.nodes[i].x - c.delta_x;
                g.nodes[i].y = g.nodes[i].y - c.delta_y;
            },
            None => {},
        }
        i += 1;
    }
    proof {
        assert(g.nodes@ =~= displaced(old(g).nodes@, changes@, -1));
        lemma_displaced_wf(old(g).nodes@, changes@, -1);
    }
}

/// Every offset of the field is the difference of two coordinates of the
/// window, and every move belongs to a vertex id below `count`.
pub open spec fn field_is_bounded(field: Map<usize, NodeChange>, count: nat) -> bool {
    forall|k: usize| #[trigger]
        field.contains_key(k) ==> k < count && is_offset(field[k].delta_x as int) && is_offset(
            field[k].delta_y as int,
        )
}

/// Every move of the field is kept under the id of its vertex.
pub open spec fn field_is_keyed(field: Map<usize, NodeChange>) -> bool {
    forall|k: usize| #[trigger] field.contains_key(k) ==> field[k].id == k
}

/// A field whose moves are kept under the ids of their vertices stays so when
/// a move arrives under the id of its vertex.
pub proof fn lemma_with_change_keyed(field: Map<usize, NodeChange>, k: usize, v: NodeChange)
    requires
        field_is_keyed(field),
        v.id == k,
    ensures
        field_is_keyed(with_change(field, k, v)),
{
    let after = with_change(field, k, v);
    assert forall|j: usize| #[trigger] after.contains_key(j) implies after[j].id == j by {
        if j != k {
            assert(field.contains_key(j));
        }
    }
}

/// The reach at which the spread has faded to nothing: one vertex beyond the
/// count, or the length itself.
pub open spec fn full_reach(how: Smooth<usize, i64>) -> int {
    match how {
        Smooth::Count(count) => count + 1,
        Smooth::Continuous(length) => length as int,
    }
}

/// The offset `delta` as it arrives at the reach `traveled`: it fades in
/// proportion to the reach, from all of it at the seed to nothing at the full
/// reach.
pub open spec fn attenuated(delta: int, how: Smooth<usize, i64>, traveled: int) -> int {
    quotient(delta * (full_reach(how) - traveled), full_reach(how))
}

/// A move fades as it spreads: all of it arrives at the seed and nothing at
/// the full reach; of two reaches, no more arrives at the farther than at the
/// nearer; and less arrives at the farther where the move is at least as
/// large as the full reach, so that rounding cannot hide the difference.
pub proof fn lemma_attenuation_fades(delta: int, how: Smooth<usize, i64>, near: int, far: int)
    requires
        0 <= near < far <= full_reach(how),
    ensures
        attenuated(delta, how, 0) == delta,
        attenuated(delta, how, full_reach(how)) == 0,
        magnitude(attenuated(delta, how, far)) <= magnitude(attenuated(delta, how, near)),
        magnitude(delta) >= full_reach(how) ==> magnitude(attenuated(delta, how, far)) < magnitude(
            attenuated(delta, how, near),
        ),
{
    let full = full_reach(how);
    let size = magnitude(delta);
    assert(delta * (full - 0) == delta * full && delta * (full - full) == 0) by (nonlinear_arith);
    assert(size * full == full * size) by (nonlinear_arith);
    vstd::arithmetic::div_mod::lemma_div_multiples_vanish(size, full);
    if delta < 0 {
        assert(-(delta * full) == size * full) by (nonlinear_arith)
            requires
                size == -delta,
        ;
    }
    let at_near = size * (full - near);
    let at_far = size * (full - far);
    assert(0 <= at_far <= at_near && at_near - at_far == size * (far - near)) by (nonlinear_arith)
        requires
            at_near == size * (full - near),
            at_far == size * (full - far),
            0 <= size,
            0 <= near < far <= full,
    ;
    assert(magnitude(attenuated(delta, how, near)) == at_near / full) by {
        lemma_quotient_magnitude(delta, full - near, full);
    }
    assert(magnitude(attenuated(delta, how, far)) == at_far / full) by {
        lemma_quotient_magnitude(delta, full - far, full);
    }
    vstd::arithmetic::div_mod::lemma_div_is_ordered(at_far, at_near, full);
    if size >= full {
        assert(at_far + full <= at_near) by (nonlinear_arith)
            requires
                at_near - at_far == size * (far - near),
                size >= full,
                far - near >= 1,
                full > 0,
        ;
        vstd::arithmetic::div_mod::lemma_div_plus_one(at_far, full);
        vstd::arithmetic::div_mod::lemma_div_is_ordered(at_far + full, at_near, full);
    }
}

/// The magnitude of the part `num / den` of `v` is that part of the
/// magnitude of `v`.
pub proof fn lemma_quotient_magnitude(v: int, num: int, den: int)
    requires
        0 <= num,
        0 < den,
    ensures
        magnitude(quotient(v * num, den)) == (magnitude(v) * num) / den,
{
    let size = magnitude(v);
    if v >= 0 {
        assert(v * num >= 0) by (nonlinear_arith)
            requires
                v >= 0,
                num >= 0,
        ;
        vstd::arithmetic::div_mod::lemma_div_pos_is_pos(v * num, den);
    } else {
        assert(-(v * num) == size * num && size * num >= 0) by (nonlinear_arith)
            requires
                size == -v,
                v < 0,
                num >= 0,
        ;
        vstd::arithmetic::div_mod::lemma_div_pos_is_pos(size * num, den);
        if v * num == 0 {
            assert(size * num == 0);
        }
    }
}

/// The neighbour of `cur` on the side towards which the spread runs.
pub open spec fn side_neighbour(nodes: Seq<Node>, cur: int, forward: bool) -> int {
    if forward {
        nodes[cur].next_id as int
    } else {
        nodes[cur].prev_id as int
    }
}

/// The reach after the step from `cur` to `nxt`: one vertex more, or the
/// length of the edge more.
pub open spec fn reach_after(
    nodes: Seq<Node>,
    how: Smooth<usize, i64>,
    cur: int,
    nxt: int,
    traveled: int,
) -> int {
    match how {
        Smooth::Count(_) => traveled + 1,
        Smooth::Continuous(_) => traveled + floor_sqrt(node_dist_sq(nodes[cur], nodes[nxt])),
    }
}

/// The spread takes one more step after `steps` steps: a count is not used
/// up; a length is not reached by the step, and the step does not go round
/// the whole ring.
pub open spec fn spreads_on(
    nodes: Seq<Node>,
    how: Smooth<usize, i64>,
    steps: nat,
    after: int,
) -> bool {
    match how {
        Smooth::Count(count) => steps < count,
        Smooth::Continuous(length) => steps + 1 < nodes.len() && after < length,
    }
}

/// The most steps that the spread can take to one side.
pub open spec fn most_steps(nodes: Seq<Node>, how: Smooth<usize, i64>) -> nat {
    match how {
        Smooth::Count(count) => count as nat,
        Smooth::Continuous(_) => nodes.len(),
    }
}

/// The move that the spread proposes for vertex `at`, reached at `traveled`.
pub open spec fn faded_change(
    nodes: Seq<Node>,
    seed: NodeChange,
    how: Smooth<usize, i64>,
    at: int,
    traveled: int,
) -> NodeChange {
    NodeChange {
        id: at as usize,
        cur_x: nodes[at].x,
        cur_y: nodes[at].y,
        delta_x: attenuated(seed.delta_x as int, how, traveled) as i64,
        delta_y: attenuated(seed.delta_y as int, how, traveled) as i64,
    }
}

/// The field after the spread has run on from vertex `cur` to one side:
/// vertex after vertex receives the faded move, combined with what the field
/// already holds for it.
pub open spec fn spread(
    nodes: Seq<Node>,
    seed: NodeChange,
    how: Smooth<usize, i64>,
    forward: bool,
    cur: int,
    traveled: int,
    steps: nat,
    field: Map<usize, NodeChange>,
) -> Map<usize, NodeChange>
    decreases most_steps(nodes, how) - steps,
{
    let nxt = side_neighbour(nodes, cur, forward);
    let after = reach_after(nodes, how, cur, nxt, traveled);
    if steps < most_steps(nodes, how) && spreads_on(nodes, how, steps, after) {
        spread(
            nodes,
            seed,
            how,
            forward,
            nxt,
            after,
            steps + 1,
            with_change_at(field, nxt, faded_change(nodes, seed, how, nxt, after)),
        )
    } else {
        field
    }
}

/// The field with the change `v` added for vertex `at`.
pub open spec fn with_change_at(
    field: Map<usize, NodeChange>,
    at: int,
    v: NodeChange,
) -> Map<usize, NodeChange> {
    with_change(field, at as usize, v)
}

/// The field that smooths the move `seed` out: the seed itself, then the
/// spread towards the successors of its vertex, then the spread towards the
/// predecessors.
pub open spec fn smoothed(nodes: Seq<Node>, seed: NodeChange, how: Smooth<usize, i64>) -> Map<
    usize,
    NodeChange,
> {
    let start = Map::<usize, NodeChange>::empty().insert(seed.id, seed);
    let onward = spread(nodes, seed, how, true, seed.id as int, 0, 0, start);
    spread(nodes, seed, how, false, seed.id as int, 0, 0, onward)
}

/// The mean of two offsets is an offset.
pub proof fn lemma_mean_is_offset(a: int, b: int)
    requires
        is_offset(a),
        is_offset(b),
    ensures
        is_offset(mean(a, b)),
{
}

/// Adding a bounded change to a bounded field leaves a bounded field.
pub proof fn lemma_with_change_bounded(
    field: Map<usize, NodeChange>,
    k: usize,
    v: NodeChange,
    count: nat,
)
    requires
        field_is_bounded(field, count),
        k < count,
        is_offset(v.delta_x as int),
        is_offset(v.delta_y as int),
    ensures
        field_is_bounded(with_change(field, k, v), count),
{
    let after = with_change(field, k, v);
    assert forall|j: usize| #[trigger] after.contains_key(j) implies j < count && is_offset(
        after[j].delta_x as int,
    ) && is_offset(after[j].delta_y as int) by {
        if j == k {
            if field.contains_key(k) {
                lemma_mean_is_offset(field[k].delta_x as int, v.delta_x as int);
                lemma_mean_is_offset(field[k].delta_y as int, v.delta_y as int);
            }
        } else {
            assert(field.contains_key(j));
        }
    }
}

/// The offset `delta` as it arrives at the reach `traveled`.
fn attenuate(delta: i64, how: Smooth<usize, i64>, traveled: i128) -> (r: i64)
    requires
        is_offset(delta as int),
        0 <= traveled <= full_reach(how),
        0 < full_reach(how),
    ensures
        r == attenuated(delta as int, how, traveled as int),
        is_offset(r as int),
{
    let full: i128 = match how {
        Smooth::Count(count) => count as i128 + 1,
        Smooth::Continuous(length) => length as i128,
    };
    proof {
        lemma_part_bound(delta as int, full - traveled, full as int);
        let d = delta as int;
        let w = full - traveled;
        assert(-0x4000_0000 * 0x1_0000_0000_0000_0001 <= d * w <= 0x4000_0000
            * 0x1_0000_0000_0000_0001) by (nonlinear_arith)
            requires
                -0x4000_0000 <= d <= 0x4000_0000,
                0 <= w <= 0x1_0000_0000_0000_0001,
        ;
    }
    quotient_of((delta as i128) * (full - traveled), full) as i64
}

/// Runs the spread of `seed` from its vertex to one side and adds the faded
/// moves to `field`.
fn spread_side(
    g: &Graph,
    seed: NodeChange,
    how: Smooth<usize, i64>,
    forward: bool,
    field: &mut NodeChangeMap,
)
    requires
        g.wf(),
        seed.id < g.nodes@.len(),
        is_offset(seed.delta_x as int),
        is_offset(seed.delta_y as int),
        field_is_bounded(old(field)@, g.nodes@.len()),
        field_is_keyed(old(field)@),
    ensures
        final(field)@ == spread(g.nodes@, seed, how, forward, seed.id as int, 0, 0, old(field)@),
        field_is_bounded(final(field)@, g.nodes@.len()),
        field_is_keyed(final(field)@),
{
    let count: usize = g.nodes.len();
    let mut cur: usize = seed.id;
    let mut traveled: i128 = 0;
    let mut steps: usize = 0;
    loop
        invariant_except_break
            g.wf(),
            count == g.nodes@.len(),
            cur < count,
            is_offset(seed.delta_x as int),
            is_offset(seed.delta_y as int),
            field_is_bounded(field@, count as nat),
            field_is_keyed(field@),
            0 <= traveled <= 0xffff_ffff_ffff_ffff,
            steps <= most_steps(g.nodes@, how),
            match how {
                Smooth::Count(_) => traveled == steps,
                Smooth::Continuous(length) => steps == 0 || traveled < length,
            },
            spread(g.nodes@, seed, how, forward, seed.id as int, 0, 0, old(field)@) == spread(
                g.nodes@,
                seed,
                how,
                forward,
                cur as int,
                traveled as int,
                steps as nat,
                field@,
            ),
        ensures
            field@ == spread(g.nodes@, seed, how, forward, seed.id as int, 0, 0, old(field)@),
            field_is_bounded(field@, count as nat),
            field_is_keyed(field@),
        decreases most_steps(g.nodes@, how) - steps,
    {
        let here: &Node = &g.nodes[cur];
        let nxt: &Node = if forward {
            g.next(cur)
        } else {
            g.prev(cur)
        };
        assert(node_in_window(*here) && node_in_window(*nxt));
        let after: i128 = match how {
            Smooth::Count(_) => traveled + 1,
            Smooth::Continuous(_) => traveled + distance_between_nodes(here, nxt) as i128,
        };
        let goes_on: bool = match how {
            Smooth::Count(limit) => steps < limit,
            Smooth::Continuous(length) => steps < count - 1 && after < length as i128,
        };
        assert(goes_on == (steps < most_steps(g.nodes@, how) && spreads_on(
            g.nodes@,
            how,
            steps as nat,
            after as int,
        )));
        if !goes_on {
            break ;
        }
        let change = NodeChange {
            id: nxt.id,
            cur_x: nxt.x,
            cur_y: nxt.y,
            delta_x: attenuate(seed.delta_x, how, after),
            delta_y: attenuate(seed.delta_y, how, after),
        };
        assert(change == faded_change(g.nodes@, seed, how, nxt.id as int, after as int));
        proof {
            lemma_with_change_bounded(field@, nxt.id, change, count as nat);
            lemma_with_change_keyed(field@, nxt.id, change);
        }
        let _known: Option<NodeChange> = field.insert(nxt.id, change);
        cur = nxt.id;
        traveled = after;
        steps += 1;
    }
}

/// Smooths the move `change` out over the neighbourhood of its vertex: the
/// neighbours to each side, as far as `how` reaches, receive the same move
/// faded in proportion to their reach. Where two moves meet on one vertex,
/// the field combines them.
pub fn smooth_change_out(g: &Graph, change: NodeChange, how: Smooth<usize, i64>) -> (ret:
    NodeChangeMap)
    requires
        g.wf(),
        change.id < g.nodes@.len(),
        is_offset(change.delta_x as int),
        is_offset(change.delta_y as int),
    ensures
        ret@ == smoothed(g.nodes@, change, how),
        field_is_bounded(ret@, g.nodes@.len()),
        field_is_keyed(ret@),
{
    let mut ret: NodeChangeMap = NodeChangeMap::new();
    proof {
        lemma_with_change_bounded(ret@, change.id, change, g.nodes@.len());
        lemma_with_change_keyed(ret@, change.id, change);
    }
    let _known: Option<NodeChange> = ret.insert(change.id, change);
    assert(ret@ =~= Map::<usize, NodeChange>::empty().insert(change.id, change));
    spread_side(g, change, how, true, &mut ret);
    spread_side(g, change, how, false, &mut ret);
    ret
}

/// The largest magnitude of a compression factor: 1024 units.
pub const FACTOR_MAX: i64 = 1_073_741_824;

/// The largest magnitude of an offset that has been scaled by a compression
/// factor.
pub const PUSHED_MAX: i64 = 1_099_511_627_776;

/// The offset `delta` scaled by the fixed-point number `factor`, rounded
/// towards zero.
pub open spec fn scaled(delta: int, factor: int) -> int {
    quotient(delta * factor, UNIT as int)
}

/// The move that target vertex `t` receives from the move `change` of one of
/// its correspondents: the same offset, scaled by `factor`.
pub open spec fn pushed_change(
    target: Seq<Node>,
    t: int,
    change: NodeChange,
    factor: int,
) -> NodeChange {
    NodeChange {
        id: t as usize,
        cur_x: target[t].x,
        cur_y: target[t].y,
        delta_x: scaled(change.delta_x as int, factor) as i64,
        delta_y: scaled(change.delta_y as int, factor) as i64,
    }
}

/// The field after the first `k` correspondents of `items` have received the
/// scaled move. A correspondent that the target no longer has receives
/// nothing.
pub open spec fn pushed_onto(
    target: Seq<Node>,
    items: Seq<Correspondent>,
    k: nat,
    change: NodeChange,
    factor: int,
    field: Map<usize, NodeChange>,
) -> Map<usize, NodeChange>
    decreases k,
{
    if k == 0 {
        field
    } else {
        let before = pushed_onto(target, items, (k - 1) as nat, change, factor, field);
        let t = items[k - 1].0;
        if t < target.len() {
            with_change(
                before,
                t,
                pushed_change(target, t as int, change, factor),
            )
        } else {
            before
        }
    }
}

/// The field that the moves of the first `s` source vertices leave on the
/// target, taken in the order of their ids. A source vertex without a move, or
/// without correspondents, leaves nothing.
pub open spec fn propagated(
    target: Seq<Node>,
    source_changes: Map<usize, NodeChange>,
    table: Map<usize, Seq<Correspondent>>,
    factor: int,
    s: nat,
) -> Map<usize, NodeChange>
    decreases s,
{
    if s == 0 {
        Map::empty()
    } else {
        let before = propagated(target, source_changes, table, factor, (s - 1) as nat);
        let v = (s - 1) as usize;
        if source_changes.contains_key(v) && table.contains_key(v) {
            pushed_onto(target, table[v], table[v].len(), source_changes[v], factor, before)
        } else {
            before
        }
    }
}

/// Every move of the field belongs to a vertex id below `count`, and no
/// offset is larger than a scaled offset can be.
pub open spec fn field_is_pushed(field: Map<usize, NodeChange>, count: nat) -> bool {
    forall|k: usize| #[trigger]
        field.contains_key(k) ==> k < count && -PUSHED_MAX <= field[k].delta_x <= PUSHED_MAX
            && -PUSHED_MAX <= field[k].delta_y <= PUSHED_MAX
}

/// The offset `delta` scaled by the fixed-point number `factor`.
pub fn scale(delta: i64, factor: i64) -> (r: i64)
    requires
        is_offset(delta as int),
        -FACTOR_MAX <= factor <= FACTOR_MAX,
    ensures
        r == scaled(delta as int, factor as int),
        -PUSHED_MAX <= r <= PUSHED_MAX,
{
    let ghost d = delta as int;
    let ghost f = factor as int;
    assert(-0x1000_0000_0000_0000 <= d * f <= 0x1000_0000_0000_0000) by (nonlinear_arith)
        requires
            -0x4000_0000 <= d <= 0x4000_0000,
            -0x4000_0000 <= f <= 0x4000_0000,
    ;
    let product: i128 = (delta as i128) * (factor as i128);
    let r: i128 = quotient_of(product, UNIT as i128);
    r as i64
}

/// Adding a scaled change to a field of scaled changes leaves such a field.
proof fn lemma_with_change_pushed(
    field: Map<usize, NodeChange>,
    k: usize,
    v: NodeChange,
    count: nat,
)
    requires
        field_is_pushed(field, count),
        k < count,
        -PUSHED_MAX <= v.delta_x <= PUSHED_MAX,
        -PUSHED_MAX <= v.delta_y <= PUSHED_MAX,
    ensures
        field_is_pushed(with_change(field, k, v), count),
{
    let after = with_change(field, k, v);
    assert forall|j: usize| #[trigger] after.contains_key(j) implies j < count && -PUSHED_MAX
        <= after[j].delta_x <= PUSHED_MAX && -PUSHED_MAX <= after[j].delta_y <= PUSHED_MAX by {
        if j != k {
            assert(field.contains_key(j));
        }
    }
}

/// Carries the moves of the source boundary over to the target boundary:
/// every correspondent of a moved source vertex receives the move of that
/// vertex, scaled by `compression_factor`. The moved source vertices are taken
/// in the order of their ids, the correspondents of each in the order of the
/// table, and moves that meet on one target vertex are combined by the field.
/// `source_layer` says which of the two boundaries the source is.
pub fn changer_of_choice(
    target: &Graph,
    source: &Graph,
    source_changes: &NodeChangeMap,
    compression_factor: i64,
    correspondence: &Stitching,
    source_layer: usize,
) -> (ret: NodeChangeMap)
    requires
        source_layer < 2,
        correspondence->0@.len() == 2,
        field_is_bounded(source_changes@, source.nodes@.len()),
        -FACTOR_MAX <= compression_factor <= FACTOR_MAX,
    ensures
        ret@ == propagated(
            target.nodes@,
            source_changes@,
            correspondence.table_of(source_layer as int),
            compression_factor as int,
            source.nodes@.len(),
        ),
        field_is_pushed(ret@, target.nodes@.len()),
{
    let mut ret: NodeChangeMap = NodeChangeMap::new();
    let ghost table = correspondence.table_of(source_layer as int);
    let mut s: usize = 0;
    while s < source.nodes.len()
        invariant
            source_layer < 2,
            correspondence->0@.len() == 2,
            table == correspondence.table_of(source_layer as int),
            field_is_bounded(source_changes@, source.nodes@.len()),
            -FACTOR_MAX <= compression_factor <= FACTOR_MAX,
            s <= source.nodes@.len(),
            ret@ == propagated(
                target.nodes@,
                source_changes@,
                table,
                compression_factor as int,
                s as nat,
            ),
            field_is_pushed(ret@, target.nodes@.len()),
        decreases source.nodes@.len() - s,
    {
        match (source_changes.get(&s), correspondence.find(source_layer, s)) {
            (Some(change), Some(items)) => {
                let dx: i64 = scale(change.delta_x, compression_factor);
                let dy: i64 = scale(change.delta_y, compression_factor);
                let ghost before = ret@;
                let mut k: usize = 0;
                while k < items.len()
                    invariant
                        k <= items@.len(),
                        dx == scaled(change.delta_x as int, compression_factor as int),
                        dy == scaled(change.delta_y as int, compression_factor as int),
                        -PUSHED_MAX <= dx <= PUSHED_MAX,
                        -PUSHED_MAX <= dy <= PUSHED_MAX,
                        ret@ == pushed_onto(
                            target.nodes@,
                            items@,
                            k as nat,
                            *change,
                            compression_factor as int,
                            before,
                        ),
                        field_is_pushed(ret@, target.nodes@.len()),
                    decreases items@.len() - k,
                {
                    let t: usize = items[k].0;
                    if t < target.nodes.len() {
                        let pushed = NodeChange {
                            id: t,
                            cur_x: target.nodes[t].x,
                            cur_y: target.nodes[t].y,
                            delta_x: dx,
                            delta_y: dy,
                        };
                        proof {
                            lemma_with_change_pushed(ret@, t, pushed, target.nodes@.len());
                        }
                        let _known: Option<NodeChange> = ret.insert(t, pushed);
                    }
                    k += 1;
                }
            },
            _ => {},
        }
        s += 1;
    }
    ret
}

} // verus!
