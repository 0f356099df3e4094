//! Another way to carry the moves of the outer boundary over to the inner
//! one: by nearness, without the correspondence. The stretch of the inner
//! boundary that faces the moved stretch of the outer one receives, vertex by
//! vertex, the mean of the nearest outer moves.

use crate::fixed::{quotient, quotient_of};
use crate::graph::{
    closest_node_to_some_point, is_closest, is_vertex, lemma_nth_next_follows_order,
    lemma_nth_next_in_range, lemma_ring_reaches, node_in_window, nth_next, point_dist_sq,
};
use crate::graph::effects::fields::{
    field_is_bounded, field_is_keyed, lemma_with_change_bounded, side_neighbour,
};
use crate::graph::types::{
    link_ok, rank_ok, ring_wf, ring_witness, with_change, Graph, Node, NodeChange, NodeChangeMap,
};
use crate::linalg_helpers::{dist_sq, is_offset};
use crate::stitcher::types::Stitching;
use vstd::prelude::*;

verus! {

/// Vertex `v` has a move, and its neighbour on the side named has none: a run
/// of moved vertices ends in `v`.
pub open spec fn ends_run(
    nodes: Seq<Node>,
    field: Map<usize, NodeChange>,
    v: int,
    forward: bool,
) -> bool {
    &&& 0 <= v < nodes.len()
    &&& field.contains_key(v as usize)
    &&& !field.contains_key(side_neighbour(nodes, v, forward) as usize)
}

/// `v` is the vertex of smallest id in which a run of moved vertices ends on
/// the side named.
pub open spec fn is_first_end(
    nodes: Seq<Node>,
    field: Map<usize, NodeChange>,
    v: int,
    forward: bool,
) -> bool {
    &&& ends_run(nodes, field, v, forward)
    &&& forall|o: int| 0 <= o < v ==> !#[trigger] ends_run(nodes, field, o, forward)
}

/// No run of moved vertices ends on the side named: no vertex has a move, or
/// all have.
pub open spec fn no_end(nodes: Seq<Node>, field: Map<usize, NodeChange>, forward: bool) -> bool {
    forall|o: int| 0 <= o < nodes.len() ==> !#[trigger] ends_run(nodes, field, o, forward)
}

/// The vertex of smallest id in which a run of moved vertices ends on the side
/// named.
fn first_end(ncm: &NodeChangeMap, g: &Graph, forward: bool) -> (r: Option<usize>)
    requires
        g.wf(),
    ensures
        r is Some ==> is_first_end(g.nodes@, ncm@, r.unwrap() as int, forward),
        r is None ==> no_end(g.nodes@, ncm@, forward),
{
    let mut v: usize = 0;
    while v < g.nodes.len()
        invariant
            g.wf(),
            v <= g.nodes@.len(),
            forall|o: int| 0 <= o < v ==> !#[trigger] ends_run(g.nodes@, ncm@, o, forward),
        decreases g.nodes@.len() - v,
    {
        let beside: usize = if forward {
            g.next(v).id
        } else {
            g.prev(v).id
        };
        if ncm.get(&v).is_some() && ncm.get(&beside).is_none() {
            return Some(v);
        }
        v += 1;
    }
    None
}

/// The two ends of the moved stretch: the vertex whose predecessor has no
/// move and the vertex whose successor has none, each the one of smallest id
/// where there are several. There are none where no vertex has a move, or all
/// have.
pub fn most_prev_next<'a>(ncm: &NodeChangeMap, g: &'a Graph) -> (r: Option<(&'a Node, &'a Node)>)
    requires
        g.wf(),
    ensures
        r is None <==> no_end(g.nodes@, ncm@, false) || no_end(g.nodes@, ncm@, true),
        r is Some ==> {
            let (most_prev, most_next) = r.unwrap();
            &&& is_vertex(g.nodes@, *most_prev)
            &&& is_vertex(g.nodes@, *most_next)
            &&& is_first_end(g.nodes@, ncm@, most_prev.id as int, false)
            &&& is_first_end(g.nodes@, ncm@, most_next.id as int, true)
        },
{
    match (first_end(ncm, g, false), first_end(ncm, g, true)) {
        (Some(most_prev), Some(most_next)) => {
            assert(link_ok(g.nodes@, most_prev as int));
            assert(link_ok(g.nodes@, most_next as int));
            assert(ends_run(g.nodes@, ncm@, most_prev as int, false));
            assert(ends_run(g.nodes@, ncm@, most_next as int, true));
            Some((&g.nodes[most_prev], &g.nodes[most_next]))
        },
        (None, _) => None,
        (_, None) => None,
    }
}

/// The vertices of the inner boundary nearest to the two ends of the moved
/// stretch of the outer one.
pub fn closest_internal_nodes<'a>(
    most_outer_prev: &Node,
    most_outer_next: &Node,
    ig: &'a Graph,
) -> (r: (&'a Node, &'a Node))
    requires
        ig.wf(),
        node_in_window(*most_outer_prev),
        node_in_window(*most_outer_next),
    ensures
        is_vertex(ig.nodes@, *r.0),
        is_vertex(ig.nodes@, *r.1),
        is_closest(ig.nodes@, r.0.id as int, most_outer_prev.x as int, most_outer_prev.y as int),
        is_closest(ig.nodes@, r.1.id as int, most_outer_next.x as int, most_outer_next.y as int),
{
    (
        closest_node_to_some_point(ig, most_outer_prev.x, most_outer_prev.y),
        closest_node_to_some_point(ig, most_outer_next.x, most_outer_next.y),
    )
}

/// The id of the vertex `k` steps before vertex `start` on the ring.
pub open spec fn nth_prev(nodes: Seq<Node>, start: int, k: nat) -> int
    decreases k,
{
    if k == 0 {
        start
    } else {
        let at = nth_prev(nodes, start, (k - 1) as nat);
        if 0 <= at < nodes.len() {
            nodes[at].prev_id as int
        } else {
            0
        }
    }
}

/// The id of the vertex `k` steps from `start`, along the ring or against it.
pub open spec fn nth_step(nodes: Seq<Node>, start: int, k: nat, forward: bool) -> int {
    if forward {
        nth_next(nodes, start, k)
    } else {
        nth_prev(nodes, start, k)
    }
}

/// Walking against the ring never leaves the mesh.
pub proof fn lemma_nth_prev_in_range(nodes: Seq<Node>, start: int, k: nat)
    requires
        ring_wf(nodes),
        0 <= start < nodes.len(),
    ensures
        0 <= nth_prev(nodes, start, k) < nodes.len(),
    decreases k,
{
    if k > 0 {
        lemma_nth_prev_in_range(nodes, start, (k - 1) as nat);
        assert(link_ok(nodes, nth_prev(nodes, start, (k - 1) as nat)));
    }
}

/// `k` steps from `start` are one step and then `k - 1` steps from there.
proof fn lemma_nth_next_shift(nodes: Seq<Node>, start: int, k: nat)
    requires
        ring_wf(nodes),
        0 <= start < nodes.len(),
        k >= 1,
    ensures
        nth_next(nodes, start, k) == nth_next(nodes, nodes[start].next_id as int, (k - 1) as nat),
    decreases k,
{
    assert(link_ok(nodes, start));
    let beside = nodes[start].next_id as int;
    if k > 1 {
        lemma_nth_next_shift(nodes, start, (k - 1) as nat);
        lemma_nth_next_in_range(nodes, start, (k - 1) as nat);
        lemma_nth_next_in_range(nodes, beside, (k - 2) as nat);
        assert(nth_next(nodes, beside, (k - 1) as nat) == nodes[nth_next(
            nodes,
            beside,
            (k - 2) as nat,
        )].next_id);
    } else {
        assert(nth_next(nodes, start, 0) == start);
        assert(nth_next(nodes, beside, 0) == beside);
    }
}

/// A vertex that is reached from `from` in `k` steps along the ring reaches
/// `from` in `k` steps against it.
proof fn lemma_way_back(nodes: Seq<Node>, from: int, to: int, k: nat)
    requires
        ring_wf(nodes),
        0 <= from < nodes.len(),
        nth_next(nodes, from, k) == to,
    ensures
        nth_prev(nodes, to, k) == from,
    decreases k,
{
    if k > 0 {
        assert(link_ok(nodes, from));
        lemma_nth_next_shift(nodes, from, k);
        lemma_way_back(nodes, nodes[from].next_id as int, to, (k - 1) as nat);
    }
}

/// From any vertex the walk, along the ring or against it, reaches any vertex
/// in at least one step and at most as many steps as the ring has vertices.
pub proof fn lemma_reach(nodes: Seq<Node>, from: int, to: int, forward: bool) -> (k: nat)
    requires
        ring_wf(nodes),
        0 <= from < nodes.len(),
        0 <= to < nodes.len(),
    ensures
        1 <= k <= nodes.len(),
        nth_step(nodes, from, k, forward) == to,
{
    let (order, rank) = ring_witness(nodes);
    if forward {
        let k = lemma_ring_reaches(nodes, from, to);
        if k == 0 {
            assert(rank_ok(nodes, order, rank, from));
            lemma_nth_next_follows_order(nodes, order, rank, rank[from], nodes.len());
            nodes.len()
        } else {
            k
        }
    } else {
        let k = lemma_ring_reaches(nodes, to, from);
        if k == 0 {
            assert(rank_ok(nodes, order, rank, from));
            lemma_nth_next_follows_order(nodes, order, rank, rank[from], nodes.len());
            lemma_way_back(nodes, to, from, nodes.len());
            nodes.len()
        } else {
            lemma_way_back(nodes, to, from, k);
            k
        }
    }
}

/// The walk from `from` meets `to` for the first time after `len` steps.
pub open spec fn is_run(nodes: Seq<Node>, from: int, to: int, len: nat, forward: bool) -> bool {
    &&& len >= 1
    &&& nth_step(nodes, from, len, forward) == to
    &&& forall|j: nat| 1 <= j < len ==> #[trigger] nth_step(nodes, from, j, forward) != to
}

/// The ids of the first `len` vertices of the walk from `from`, `from` itself
/// the first of them.
pub open spec fn run_ids(nodes: Seq<Node>, from: int, len: nat, forward: bool) -> Seq<usize> {
    Seq::new(len, |j: int| nth_step(nodes, from, j as nat, forward) as usize)
}

/// The ids of the vertices from `from` up to, not including, the next
/// meeting with `to`.
fn run_between(ig: &Graph, from: usize, to: usize, forward: bool) -> (r: Vec<usize>)
    requires
        ig.wf(),
        from < ig.nodes@.len(),
        to < ig.nodes@.len(),
    ensures
        is_run(ig.nodes@, from as int, to as int, r@.len(), forward),
        r@ == run_ids(ig.nodes@, from as int, r@.len(), forward),
        forall|j: int| 0 <= j < r@.len() ==> #[trigger] r@[j] < ig.nodes@.len(),
{
    let ghost nodes = ig.nodes@;
    let ghost bound = lemma_reach(nodes, from as int, to as int, forward);
    let mut r: Vec<usize> = Vec::new();
    let mut n: usize = from;
    loop
        invariant_except_break
            ig.wf(),
            nodes == ig.nodes@,
            r@.len() < bound <= nodes.len(),
            nth_step(nodes, from as int, bound, forward) == to,
            n == nth_step(nodes, from as int, r@.len(), forward),
            n < nodes.len(),
            r@ == run_ids(nodes, from as int, r@.len(), forward),
            forall|j: int| 0 <= j < r@.len() ==> #[trigger] r@[j] < nodes.len(),
            forall|j: nat|
                1 <= j <= r@.len() ==> #[trigger] nth_step(nodes, from as int, j, forward) != to,
        ensures
            is_run(nodes, from as int, to as int, r@.len(), forward),
            r@ == run_ids(nodes, from as int, r@.len(), forward),
            forall|j: int| 0 <= j < r@.len() ==> #[trigger] r@[j] < nodes.len(),
        decreases bound - r@.len(),
    {
        let ghost before = r@;
        r.push(n);
        assert(r@ =~= run_ids(nodes, from as int, r@.len(), forward));
        n = if forward {
            ig.next(n).id
        } else {
            ig.prev(n).id
        };
        if n == to {
            break ;
        }
    }
    r
}

/// `ids` is the stretch from vertex `from` up to, not including, the next
/// meeting with vertex `to`: along the ring where that way is shorter, and
/// against it where it is not.
pub open spec fn is_stretch(nodes: Seq<Node>, from: int, to: int, ids: Seq<usize>) -> bool {
    exists|along: nat, against: nat|
        #![trigger is_run(nodes, from, to, along, true), is_run(nodes, from, to, against, false)]
        is_run(nodes, from, to, along, true) && is_run(nodes, from, to, against, false) && ids
            == if along < against {
            run_ids(nodes, from, along, true)
        } else {
            run_ids(nodes, from, against, false)
        }
}

/// The stretch of the inner boundary between two of its vertices: the ids
/// from `closest_inner_1` up to, not including, `closest_inner_2`, along the
/// ring where that way is shorter, and against it where it is not.
pub fn modified_inners(closest_inner_1: &Node, closest_inner_2: &Node, ig: &Graph) -> (r: Vec<
    usize,
>)
    requires
        ig.wf(),
        closest_inner_1.id < ig.nodes@.len(),
        closest_inner_2.id < ig.nodes@.len(),
    ensures
        forall|j: int| 0 <= j < r@.len() ==> #[trigger] r@[j] < ig.nodes@.len(),
        is_stretch(ig.nodes@, closest_inner_1.id as int, closest_inner_2.id as int, r@),
{
    let ctr_clkwise: Vec<usize> = run_between(ig, closest_inner_1.id, closest_inner_2.id, true);
    let clkwise: Vec<usize> = run_between(ig, closest_inner_1.id, closest_inner_2.id, false);
    assert(is_run(
        ig.nodes@,
        closest_inner_1.id as int,
        closest_inner_2.id as int,
        ctr_clkwise@.len(),
        true,
    ));
    assert(is_run(
        ig.nodes@,
        closest_inner_1.id as int,
        closest_inner_2.id as int,
        clkwise@.len(),
        false,
    ));
    if ctr_clkwise.len() < clkwise.len() {
        return ctr_clkwise;
    } else {
        return clkwise;
    }
}

/// The sum of the offsets of the first `k` moves of `v`.
pub open spec fn sum_of_deltas(v: Seq<NodeChange>, k: nat) -> (int, int)
    decreases k,
{
    if k == 0 {
        (0, 0)
    } else {
        let before = sum_of_deltas(v, (k - 1) as nat);
        (before.0 + v[k - 1].delta_x, before.1 + v[k - 1].delta_y)
    }
}

/// The move of `tgt` by the mean of the offsets of `v`, rounded towards zero.
pub open spec fn avg_change(tgt: Node, v: Seq<NodeChange>) -> NodeChange {
    let sum = sum_of_deltas(v, v.len());
    NodeChange {
        id: tgt.id,
        cur_x: tgt.x,
        cur_y: tgt.y,
        delta_x: quotient(sum.0, v.len() as int) as i64,
        delta_y: quotient(sum.1, v.len() as int) as i64,
    }
}

/// Every offset of `v` is the difference of two coordinates of the window.
pub open spec fn deltas_are_offsets(v: Seq<NodeChange>) -> bool {
    forall|j: int|
        0 <= j < v.len() ==> is_offset((#[trigger] v[j]).delta_x as int) && is_offset(
            v[j].delta_y as int,
        )
}

/// The mean of bounded numbers is bounded as they are.
proof fn lemma_mean_of_sum(sum: int, count: int)
    requires
        count > 0,
        -0x4000_0000 * count <= sum <= 0x4000_0000 * count,
    ensures
        is_offset(quotient(sum, count)),
{
    if sum >= 0 {
        vstd::arithmetic::div_mod::lemma_div_is_ordered(sum, 0x4000_0000 * count, count);
        vstd::arithmetic::div_mod::lemma_div_is_ordered(0, sum, count);
        vstd::arithmetic::div_mod::lemma_div_multiples_vanish(0x4000_0000, count);
        assert(0x4000_0000 * count == count * 0x4000_0000) by (nonlinear_arith);
    } else {
        vstd::arithmetic::div_mod::lemma_div_is_ordered(-sum, 0x4000_0000 * count, count);
        vstd::arithmetic::div_mod::lemma_div_is_ordered(0, -sum, count);
        vstd::arithmetic::div_mod::lemma_div_multiples_vanish(0x4000_0000, count);
        assert(0x4000_0000 * count == count * 0x4000_0000) by (nonlinear_arith);
    }
}

/// The move of `tgt` by the mean of the offsets of the moves in `v`.
pub fn avg_change_dumb(tgt: &Node, v: &Vec<NodeChange>) -> (nc: NodeChange)
    requires
        v@.len() > 0,
        deltas_are_offsets(v@),
    ensures
        nc == avg_change(*tgt, v@),
        is_offset(nc.delta_x as int),
        is_offset(nc.delta_y as int),
{
    let mut sum_x: i128 = 0;
    let mut sum_y: i128 = 0;
    let mut k: usize = 0;
    while k < v.len()
        invariant
            k <= v@.len(),
            deltas_are_offsets(v@),
            (sum_x as int, sum_y as int) == sum_of_deltas(v@, k as nat),
            -0x4000_0000 * k <= sum_x <= 0x4000_0000 * k,
            -0x4000_0000 * k <= sum_y <= 0x4000_0000 * k,
        decreases v@.len() - k,
    {
        assert(is_offset(v@[k as int].delta_x as int));
        sum_x = sum_x + v[k].delta_x as i128;
        sum_y = sum_y + v[k].delta_y as i128;
        k += 1;
    }
    proof {
        lemma_mean_of_sum(sum_x as int, v@.len() as int);
        lemma_mean_of_sum(sum_y as int, v@.len() as int);
    }
    NodeChange {
        id: tgt.id,
        cur_x: tgt.x,
        cur_y: tgt.y,
        delta_x: quotient_of(sum_x, v.len() as i128) as i64,
        delta_y: quotient_of(sum_y, v.len() as i128) as i64,
    }
}

/// Vertex `a` is nearer to `p` than vertex `b`; of two that are as near, the
/// one of smaller id counts as nearer.
pub open spec fn nearer(nodes: Seq<Node>, p: (int, int), a: int, b: int) -> bool {
    let to_a = point_dist_sq(nodes, a, p.0, p.1);
    let to_b = point_dist_sq(nodes, b, p.0, p.1);
    to_a < to_b || (to_a == to_b && a < b)
}

/// Vertex `id` has a move and comes after vertex `after` in nearness to `p`.
/// With -1 for `after`, every vertex with a move comes after.
pub open spec fn comes_after(
    nodes: Seq<Node>,
    field: Map<usize, NodeChange>,
    p: (int, int),
    after: int,
    id: int,
) -> bool {
    &&& 0 <= id < nodes.len()
    &&& field.contains_key(id as usize)
    &&& after >= 0 ==> nearer(nodes, p, after, id)
}

/// Of the vertices with a move that come after `after`, vertex `id` is the
/// nearest to `p`.
pub open spec fn is_next_closest(
    nodes: Seq<Node>,
    field: Map<usize, NodeChange>,
    p: (int, int),
    after: int,
    id: int,
) -> bool {
    &&& comes_after(nodes, field, p, after, id)
    &&& forall|o: int|
        #[trigger] comes_after(nodes, field, p, after, o) ==> !nearer(nodes, p, o, id)
}

/// No vertex with a move comes after `after`.
pub open spec fn none_after(
    nodes: Seq<Node>,
    field: Map<usize, NodeChange>,
    p: (int, int),
    after: int,
) -> bool {
    forall|o: int| !#[trigger] comes_after(nodes, field, p, after, o)
}

/// The id of the vertex whose move stands before place `j` of `r`, and -1
/// before the first place.
pub open spec fn place_before(r: Seq<NodeChange>, j: int) -> int {
    if j <= 0 {
        -1
    } else {
        r[j - 1].id as int
    }
}

/// Place `j` of `r` holds the move of the vertex that is the nearest after
/// the one before it.
pub open spec fn place_is_next(
    r: Seq<NodeChange>,
    nodes: Seq<Node>,
    field: Map<usize, NodeChange>,
    p: (int, int),
    j: int,
) -> bool {
    &&& is_next_closest(nodes, field, p, place_before(r, j), r[j].id as int)
    &&& r[j] == field[r[j].id]
}

/// `r` holds the moves of the `n` vertices nearest to `p` among those with a
/// move, from the nearest on; or the moves of all of them, where they are
/// fewer than `n`.
pub open spec fn is_closest_run(
    r: Seq<NodeChange>,
    n: nat,
    nodes: Seq<Node>,
    field: Map<usize, NodeChange>,
    p: (int, int),
) -> bool {
    &&& r.len() <= n
    &&& forall|j: int| 0 <= j < r.len() ==> #[trigger] place_is_next(r, nodes, field, p, j)
    &&& r.len() < n ==> none_after(nodes, field, p, place_before(r, r.len() as int))
}

/// The moves of the `n` vertices nearest to `p` among those with a move.
pub open spec fn closest_changes(
    n: nat,
    nodes: Seq<Node>,
    field: Map<usize, NodeChange>,
    p: (int, int),
) -> Seq<NodeChange> {
    choose|r: Seq<NodeChange>| is_closest_run(r, n, nodes, field, p)
}

proof fn lemma_same_place(
    a: Seq<NodeChange>,
    b: Seq<NodeChange>,
    n: nat,
    nodes: Seq<Node>,
    field: Map<usize, NodeChange>,
    p: (int, int),
    j: int,
)
    requires
        is_closest_run(a, n, nodes, field, p),
        is_closest_run(b, n, nodes, field, p),
        0 <= j < a.len(),
        j < b.len(),
    ensures
        a[j] == b[j],
    decreases j,
{
    if j > 0 {
        lemma_same_place(a, b, n, nodes, field, p, j - 1);
    }
    assert(place_is_next(a, nodes, field, p, j));
    assert(place_is_next(b, nodes, field, p, j));
    let after = place_before(a, j);
    assert(comes_after(nodes, field, p, after, a[j].id as int));
    assert(comes_after(nodes, field, p, after, b[j].id as int));
}

/// Only one run holds the nearest moves.
pub proof fn lemma_closest_run_unique(
    a: Seq<NodeChange>,
    b: Seq<NodeChange>,
    n: nat,
    nodes: Seq<Node>,
    field: Map<usize, NodeChange>,
    p: (int, int),
)
    requires
        is_closest_run(a, n, nodes, field, p),
        is_closest_run(b, n, nodes, field, p),
    ensures
        a == b,
{
    if a.len() < b.len() {
        let j = a.len() as int;
        if j > 0 {
            lemma_same_place(a, b, n, nodes, field, p, j - 1);
        }
        assert(place_is_next(b, nodes, field, p, j));
        assert(comes_after(nodes, field, p, place_before(a, j), b[j].id as int));
    }
    if b.len() < a.len() {
        let j = b.len() as int;
        if j > 0 {
            lemma_same_place(a, b, n, nodes, field, p, j - 1);
        }
        assert(place_is_next(a, nodes, field, p, j));
        assert(comes_after(nodes, field, p, place_before(b, j), a[j].id as int));
    }
    assert forall|j: int| 0 <= j < a.len() implies a[j] == b[j] by {
        lemma_same_place(a, b, n, nodes, field, p, j);
    }
    assert(a =~= b);
}

/// The moves of the `n` outer vertices that are nearest to `inner_node` among
/// those with a move, from the nearest on; of two as near, the one of smaller
/// id first. Where fewer than `n` vertices have a move, the moves of all of
/// them.
pub fn n_closest_outers(
    n: usize,
    inner_node: &Node,
    outer_changes: &NodeChangeMap,
    g: &Graph,
) -> (ret: Vec<NodeChange>)
    requires
        g.wf(),
        node_in_window(*inner_node),
        field_is_keyed(outer_changes@),
    ensures
        is_closest_run(
            ret@,
            n as nat,
            g.nodes@,
            outer_changes@,
            (inner_node.x as int, inner_node.y as int),
        ),
        ret@ == closest_changes(
            n as nat,
            g.nodes@,
            outer_changes@,
            (inner_node.x as int, inner_node.y as int),
        ),
{
    let ghost nodes = g.nodes@;
    let ghost field = outer_changes@;
    let ghost p = (inner_node.x as int, inner_node.y as int);
    let mut ret: Vec<NodeChange> = Vec::new();
    let mut done: bool = false;
    let mut has_last: bool = false;
    let mut last_id: usize = 0;
    let mut last_dist: u64 = 0;
    while ret.len() < n && !done
        invariant
            g.wf(),
            nodes == g.nodes@,
            field == outer_changes@,
            p == (inner_node.x as int, inner_node.y as int),
            node_in_window(*inner_node),
            field_is_keyed(field),
            ret@.len() <= n,
            forall|j: int|
                0 <= j < ret@.len() ==> #[trigger] place_is_next(ret@, nodes, field, p, j),
            done ==> none_after(nodes, field, p, place_before(ret@, ret@.len() as int)),
            has_last == (ret@.len() > 0),
            has_last ==> last_id == ret@[ret@.len() - 1].id && last_id < nodes.len() && last_dist
                == point_dist_sq(nodes, last_id as int, p.0, p.1),
        decreases n - ret@.len() + (if done { 0int } else { 1int }),
    {
        let ghost after = place_before(ret@, ret@.len() as int);
        let mut best: Option<usize> = None;
        let mut best_dist: u64 = 0;
        let mut i: usize = 0;
        while i < g.nodes.len()
            invariant
                g.wf(),
                nodes == g.nodes@,
                field == outer_changes@,
                p == (inner_node.x as int, inner_node.y as int),
                node_in_window(*inner_node),
                i <= nodes.len(),
                after == if has_last { last_id as int } else { -1 },
                has_last ==> last_id < nodes.len() && last_dist == point_dist_sq(
                    nodes,
                    last_id as int,
                    p.0,
                    p.1,
                ),
                best is None ==> forall|o: int|
                    0 <= o < i ==> !#[trigger] comes_after(nodes, field, p, after, o),
                best is Some ==> {
                    &&& best.unwrap() < i
                    &&& comes_after(nodes, field, p, after, best.unwrap() as int)
                    &&& best_dist == point_dist_sq(nodes, best.unwrap() as int, p.0, p.1)
                    &&& forall|o: int|
                        0 <= o < i && #[trigger] comes_after(nodes, field, p, after, o) ==> !nearer(
                            nodes,
                            p,
                            o,
                            best.unwrap() as int,
                        )
                },
            decreases nodes.len() - i,
        {
            if outer_changes.get(&i).is_some() {
                assert(node_in_window(nodes[i as int]));
                let d: u64 = dist_sq(g.nodes[i].x, g.nodes[i].y, inner_node.x, inner_node.y);
                let is_after: bool = !has_last || last_dist < d || (last_dist == d && last_id < i);
                assert(is_after == comes_after(nodes, field, p, after, i as int));
                if is_after {
                    let better: bool = match best {
                        None => true,
                        Some(_) => d < best_dist,
                    };
                    if better {
                        best = Some(i);
                        best_dist = d;
                    }
                }
            }
            i += 1;
        }
        match best {
            None => {
                done = true;
            },
            Some(b) => {
                let ghost before = ret@;
                let found: NodeChange = *outer_changes.get(&b).unwrap();
                ret.push(found);
                proof {
                    assert(is_next_closest(nodes, field, p, after, b as int));
                    assert forall|j: int| 0 <= j < ret@.len() implies #[trigger] place_is_next(
                        ret@,
                        nodes,
                        field,
                        p,
                        j,
                    ) by {
                        if j < before.len() {
                            assert(place_is_next(before, nodes, field, p, j));
                            assert(ret@[j] == before[j]);
                            assert(place_before(ret@, j) == place_before(before, j));
                        }
                    }
                }
                has_last = true;
                last_id = b;
                last_dist = best_dist;
            },
        }
    }
    proof {
        lemma_closest_run_unique(
            ret@,
            closest_changes(n as nat, nodes, field, p),
            n as nat,
            nodes,
            field,
            p,
        );
    }
    ret
}

/// How many of the nearest outer moves a moved inner vertex takes the mean
/// of.
pub const NEAREST_TAKEN: usize = 7;

/// The field after the first `k` vertices of `ids` have received their moves:
/// each the mean of the moves of the outer vertices nearest to it.
pub open spec fn inner_mods_field(
    ids: Seq<usize>,
    k: nat,
    field: Map<usize, NodeChange>,
    nodes: Seq<Node>,
    inner: Seq<Node>,
) -> Map<usize, NodeChange>
    decreases k,
{
    if k == 0 {
        Map::empty()
    } else {
        let i = ids[k - 1];
        with_change(
            inner_mods_field(ids, (k - 1) as nat, field, nodes, inner),
            i,
            avg_change(
                inner[i as int],
                closest_changes(
                    NEAREST_TAKEN as nat,
                    nodes,
                    field,
                    (inner[i as int].x as int, inner[i as int].y as int),
                ),
            ),
        )
    }
}

/// Some vertex of the ring has a move.
pub open spec fn has_move(nodes: Seq<Node>, field: Map<usize, NodeChange>) -> bool {
    exists|k: int| #[trigger] comes_after(nodes, field, (0, 0), -1, k)
}

/// The moves of the inner vertices in `modified_inners`: each the mean of the
/// moves of the outer vertices nearest to it.
pub fn inner_mods(
    modified_inners: &Vec<usize>,
    outer_changes: &NodeChangeMap,
    g: &Graph,
    ig: &Graph,
) -> (ret: NodeChangeMap)
    requires
        g.wf(),
        ig.wf(),
        forall|j: int|
            0 <= j < modified_inners@.len() ==> #[trigger] modified_inners@[j] < ig.nodes@.len(),
        field_is_keyed(outer_changes@),
        field_is_bounded(outer_changes@, g.nodes@.len()),
        has_move(g.nodes@, outer_changes@),
    ensures
        ret@ == inner_mods_field(
            modified_inners@,
            modified_inners@.len(),
            outer_changes@,
            g.nodes@,
            ig.nodes@,
        ),
        field_is_bounded(ret@, ig.nodes@.len()),
{
    let mut ret: NodeChangeMap = NodeChangeMap::new();
    let mut k: usize = 0;
    while k < modified_inners.len()
        invariant
            g.wf(),
            ig.wf(),
            forall|j: int|
                0 <= j < modified_inners@.len() ==> #[trigger] modified_inners@[j]
                    < ig.nodes@.len(),
            field_is_keyed(outer_changes@),
            field_is_bounded(outer_changes@, g.nodes@.len()),
            has_move(g.nodes@, outer_changes@),
            k <= modified_inners@.len(),
            ret@ == inner_mods_field(
                modified_inners@,
                k as nat,
                outer_changes@,
                g.nodes@,
                ig.nodes@,
            ),
            field_is_bounded(ret@, ig.nodes@.len()),
        decreases modified_inners@.len() - k,
    {
        let i: usize = modified_inners[k];
        assert(modified_inners@[k as int] < ig.nodes@.len());
        let tgt: &Node = &ig.nodes[i];
        assert(node_in_window(*tgt));
        let closest: Vec<NodeChange> = n_closest_outers(NEAREST_TAKEN, tgt, outer_changes, g);
        proof {
            let p = (tgt.x as int, tgt.y as int);
            let some = choose|o: int| #[trigger]
                comes_after(g.nodes@, outer_changes@, (0, 0), -1, o);
            assert(comes_after(g.nodes@, outer_changes@, p, -1, some));
            assert forall|j: int| 0 <= j < closest@.len() implies is_offset(
                (#[trigger] closest@[j]).delta_x as int,
            ) && is_offset(closest@[j].delta_y as int) by {
                assert(place_is_next(closest@, g.nodes@, outer_changes@, p, j));
                assert(outer_changes@.contains_key(closest@[j].id));
            }
        }
        let avg_change: NodeChange = avg_change_dumb(tgt, &closest);
        proof {
            lemma_with_change_bounded(
                ret@,
                i,
                avg_change,
                ig.nodes@.len(),
            );
        }
        let _known: Option<NodeChange> = ret.insert(i, avg_change);
        k += 1;
    }
    ret
}

/// `result` is what the moved stretch of the outer boundary pushes onto the
/// inner one by way of the ends `p` and `n` of the stretch, of the inner
/// vertices `c1` and `c2` that are nearest to those ends, and of the stretch
/// `ids` of the inner boundary between the two.
pub open spec fn leads_to_push(
    result: Map<usize, NodeChange>,
    inner: Seq<Node>,
    outer: Seq<Node>,
    field: Map<usize, NodeChange>,
    p: int,
    n: int,
    c1: int,
    c2: int,
    ids: Seq<usize>,
) -> bool {
    &&& is_first_end(outer, field, p, false)
    &&& is_first_end(outer, field, n, true)
    &&& is_closest(inner, c1, outer[p].x as int, outer[p].y as int)
    &&& is_closest(inner, c2, outer[n].x as int, outer[n].y as int)
    &&& is_stretch(inner, c1, c2, ids)
    &&& result == inner_mods_field(ids, ids.len(), field, outer, inner)
}

/// `result` is what the moved stretch of the outer boundary pushes onto the
/// inner one.
pub open spec fn is_push(
    result: Map<usize, NodeChange>,
    inner: Seq<Node>,
    outer: Seq<Node>,
    field: Map<usize, NodeChange>,
) -> bool {
    exists|p: int, n: int, c1: int, c2: int, ids: Seq<usize>| #[trigger]
        leads_to_push(result, inner, outer, field, p, n, c1, c2, ids)
}

/// Pushes the inner boundary after the outer one, by nearness: the inner
/// vertices nearest to the two ends of the moved stretch of the outer boundary
/// are looked up, and every inner vertex of the stretch between them receives
/// the mean of the moves of the outer vertices nearest to it. The
/// correspondence is not consulted. Nothing is pushed where the moved stretch
/// has no ends, which is where no outer vertex has a move, or all have.
pub fn push_inners(
    inner: &Graph,
    outer: &Graph,
    outer_changes: &NodeChangeMap,
    _s: &Stitching,
) -> (r: Option<NodeChangeMap>)
    requires
        inner.wf(),
        outer.wf(),
        field_is_keyed(outer_changes@),
        field_is_bounded(outer_changes@, outer.nodes@.len()),
    ensures
        r is None <==> no_end(outer.nodes@, outer_changes@, false) || no_end(
            outer.nodes@,
            outer_changes@,
            true,
        ),
        r is Some ==> is_push(r.unwrap()@, inner.nodes@, outer.nodes@, outer_changes@)
            && field_is_bounded(r.unwrap()@, inner.nodes@.len()),
{
    match most_prev_next(outer_changes, outer) {
        None => None,
        Some((most_outer, most_inner)) => {
            assert(node_in_window(*most_outer) && node_in_window(*most_inner));
            let (closest_inner_1, closest_inner_2) = closest_internal_nodes(
                most_outer,
                most_inner,
                inner,
            );
            let modi: Vec<usize> = modified_inners(closest_inner_1, closest_inner_2, inner);
            proof {
                assert(ends_run(outer.nodes@, outer_changes@, most_outer.id as int, false));
                assert(comes_after(
                    outer.nodes@,
                    outer_changes@,
                    (0, 0),
                    -1,
                    most_outer.id as int,
                ));
            }
            let ret: NodeChangeMap = inner_mods(&modi, outer_changes, outer, inner);
            assert(leads_to_push(
                ret@,
                inner.nodes@,
                outer.nodes@,
                outer_changes@,
                most_outer.id as int,
                most_inner.id as int,
                closest_inner_1.id as int,
                closest_inner_2.id as int,
                modi@,
            ));
            Some(ret)
        },
    }
}

} // verus!
