//! The maintenance passes: one insertion and one merge at most for each
//! boundary and pass.

use crate::fixed::in_window;
use crate::graph::{
    closer_than, farther_than, lemma_nth_next_in_range, merge_in_reach, merge_is_safe,
    merge_qualifies, merging_of, node_dist_sq, node_to_add, nodes_to_merge, nth_next, split_node,
    NodeMerging,
};
use crate::graph::effects::{
    add_node_, fits_edge, lemma_merged_ring_wf, lemma_merged_wf, lemma_with_node_wf, merge_nodes_,
    merged_layer, merging_fits, with_node, NodeAddition,
};
use crate::graph::types::{
    lemma_order_is_walk, lemma_walk_in_range, link_ok, place_ok, rank_ok, ring_order, ring_witness,
    walk, Graph, Node, ThickSurface,
};
use vstd::prelude::*;

verus! {

/// A pass over layer `layer` has left the other layer with as many vertices
/// as it had, and the layer itself with at most `fewer` vertices less and at
/// most `more` vertices more.
pub open spec fn counts_differ_by(
    before: ThickSurface,
    after: ThickSurface,
    layer: int,
    fewer: int,
    more: int,
) -> bool {
    &&& before.layer(layer).len() - fewer <= after.layer(layer).len() <= before.layer(layer).len()
        + more
    &&& after.layer(1 - layer).len() == before.layer(1 - layer).len()
}

/// The edge that leaves vertex `i` is longer than `threshold`.
pub open spec fn long_edge(nodes: Seq<Node>, i: int, threshold: int) -> bool {
    farther_than(node_dist_sq(nodes[i], nodes[nodes[i].next_id as int]), threshold)
}

/// No edge of the ring is longer than `threshold`.
pub open spec fn no_long_edge(nodes: Seq<Node>, threshold: int) -> bool {
    forall|i: int| 0 <= i < nodes.len() ==> !#[trigger] long_edge(nodes, i, threshold)
}

/// Step `k` of the walk from vertex 0 is the first to meet an edge longer than
/// `threshold`.
pub open spec fn is_first_long_step(nodes: Seq<Node>, threshold: int, k: nat) -> bool {
    &&& k < nodes.len()
    &&& long_edge(nodes, walk(nodes, k), threshold)
    &&& forall|j: nat| j < k ==> !long_edge(nodes, #[trigger] walk(nodes, j), threshold)
}

/// The vertex that splits the edge that leaves vertex `i` at its midpoint.
pub open spec fn split_at(nodes: Seq<Node>, i: int) -> Node {
    split_node(nodes, nodes[i], nodes[nodes[i].next_id as int])
}

/// `after` is `before` after one insertion pass over layer `layer`: the first
/// edge in ring order that is longer than `threshold` has been split at its
/// midpoint, and nothing else has changed. Without such an edge nothing has
/// changed at all.
pub open spec fn is_insertion_pass(
    before: ThickSurface,
    after: ThickSurface,
    layer: int,
    threshold: int,
) -> bool {
    let nodes = before.layer(layer);
    &&& no_long_edge(nodes, threshold) ==> after.same_as(before)
    &&& forall|k: nat| #[trigger]
        is_first_long_step(nodes, threshold, k) ==> after.is_update_of(
            before,
            layer,
            with_node(nodes, split_at(nodes, walk(nodes, k))),
        )
}

/// Looks along the ring from vertex 0 for the first edge longer than
/// `threshold` and proposes the vertex that splits it.
pub fn first_node_to_add(g: &Graph, addition_threshold: i64) -> (r: Option<NodeAddition>)
    requires
        g.wf(),
    ensures
        r is None ==> no_long_edge(g.nodes@, addition_threshold as int),
        r is Some ==> exists|k: nat| #[trigger]
            is_first_long_step(g.nodes@, addition_threshold as int, k) && r.unwrap().n
                == split_at(g.nodes@, walk(g.nodes@, k)),
        r is Some ==> fits_edge(g.nodes@, r.unwrap().n),
{
    let ghost (order, rank) = ring_witness(g.nodes@);
    let ghost nodes = g.nodes@;
    let count: usize = g.nodes.len();
    let mut cur: usize = 0;
    let mut steps: usize = 0;
    loop
        invariant_except_break
            g.wf(),
            nodes == g.nodes@,
            count == nodes.len(),
            ring_order(nodes, order, rank),
            steps < count,
            cur == order[steps as int],
            cur == walk(nodes, steps as nat),
            forall|j: nat|
                j < steps ==> !long_edge(
                    nodes,
                    #[trigger] walk(nodes, j),
                    addition_threshold as int,
                ),
        ensures
            forall|j: nat|
                j < count ==> !long_edge(
                    nodes,
                    #[trigger] walk(nodes, j),
                    addition_threshold as int,
                ),
        decreases count - steps,
    {
        proof {
            assert(place_ok(nodes, order, rank, steps as int));
            assert(link_ok(nodes, cur as int));
            lemma_order_is_walk(nodes, order, rank, (steps + 1) as nat);
        }
        let here: &Node = &g.nodes[cur];
        let next: &Node = g.next(cur);
        match node_to_add(g, here, next, addition_threshold) {
            Some(addition) => {
                assert(is_first_long_step(nodes, addition_threshold as int, steps as nat));
                return Some(addition);
            },
            None => {},
        }
        cur = next.id;
        if cur == 0 {
            proof {
                assert(place_ok(nodes, order, rank, 0));
                if steps + 1 < count {
                    assert(place_ok(nodes, order, rank, steps + 1));
                }
            }
            break ;
        }
        steps += 1;
    }
    proof {
        assert forall|i: int| 0 <= i < nodes.len() implies !#[trigger] long_edge(
            nodes,
            i,
            addition_threshold as int,
        ) by {
            assert(rank_ok(nodes, order, rank, i));
            lemma_order_is_walk(nodes, order, rank, rank[i] as nat);
            assert(!long_edge(nodes, walk(nodes, rank[i] as nat), addition_threshold as int));
        }
    }
    None
}

/// Only one step of the walk is the first to meet a long edge.
pub proof fn lemma_first_long_step_unique(nodes: Seq<Node>, threshold: int, a: nat, b: nat)
    requires
        is_first_long_step(nodes, threshold, a),
        is_first_long_step(nodes, threshold, b),
    ensures
        a == b,
{
    if a < b {
        assert(!long_edge(nodes, walk(nodes, a), threshold));
    }
    if b < a {
        assert(!long_edge(nodes, walk(nodes, b), threshold));
    }
}

/// One insertion pass over a layer: the first edge in ring order that is
/// longer than the threshold receives a new vertex at its midpoint. At most
/// one vertex is added in a pass.
pub fn add_single_node_effects(ts: &mut ThickSurface, layer_to_add: usize, addition_threshold: i64)
    requires
        old(ts).wf(),
        layer_to_add < 2,
    ensures
        final(ts).wf(),
        is_insertion_pass(*old(ts), *final(ts), layer_to_add as int, addition_threshold as int),
        counts_differ_by(*old(ts), *final(ts), layer_to_add as int, 0, 1),
{
    let ghost nodes = ts.layer(layer_to_add as int);
    match first_node_to_add(&ts.layers[layer_to_add], addition_threshold) {
        Some(addition) => {
            add_node_(ts, layer_to_add, &addition);
            proof {
                let k0 = choose|k: nat| #[trigger]
                    is_first_long_step(nodes, addition_threshold as int, k) && addition.n
                        == split_at(nodes, walk(nodes, k));
                assert(long_edge(nodes, walk(nodes, k0), addition_threshold as int));
                lemma_walk_in_range(nodes, k0);
                assert forall|k: nat| #[trigger]
                    is_first_long_step(nodes, addition_threshold as int, k) implies ts.is_update_of(
                    *old(ts),
                    layer_to_add as int,
                    with_node(nodes, split_at(nodes, walk(nodes, k))),
                ) by {
                    lemma_first_long_step_unique(nodes, addition_threshold as int, k, k0);
                }
            }
        },
        None => {
            proof {
                assert forall|k: nat| #[trigger]
                    is_first_long_step(nodes, addition_threshold as int, k) implies false by {
                    lemma_walk_in_range(nodes, k);
                }
            }
        },
    }
}

/// Where exactly one edge of a layer is longer than the threshold, an
/// insertion pass adds exactly one vertex: it takes the next free id, sits at
/// the midpoint of that edge, and the edge from `i` to its successor has
/// become the two edges from `i` to the new vertex and from the new vertex to
/// that successor.
pub proof fn lemma_insertion_splits_the_long_edge(
    before: ThickSurface,
    after: ThickSurface,
    layer: int,
    threshold: int,
    i: int,
)
    requires
        before.wf(),
        0 <= layer < 2,
        is_insertion_pass(before, after, layer, threshold),
        0 <= i < before.layer(layer).len() <= usize::MAX,
        long_edge(before.layer(layer), i, threshold),
        forall|j: int|
            0 <= j < before.layer(layer).len() && j != i ==> !#[trigger] long_edge(
                before.layer(layer),
                j,
                threshold,
            ),
    ensures
        after.layer(layer) == with_node(before.layer(layer), split_at(before.layer(layer), i)),
        after.layer(layer).len() == before.layer(layer).len() + 1,
        after.layer(layer).last() == split_at(before.layer(layer), i),
        after.layer(layer).last().prev_id == i,
        after.layer(layer).last().next_id == before.layer(layer)[i].next_id,
        after.layer(layer)[i].next_id == before.layer(layer).len(),
        after.layer(layer)[before.layer(layer)[i].next_id as int].prev_id == before.layer(
            layer,
        ).len(),
{
    let nodes = before.layer(layer);
    let (order, rank) = ring_witness(nodes);
    assert(rank_ok(nodes, order, rank, i));
    let k = rank[i] as nat;
    lemma_order_is_walk(nodes, order, rank, k);
    assert forall|j: nat| j < k implies !long_edge(nodes, #[trigger] walk(nodes, j), threshold) by {
        lemma_order_is_walk(nodes, order, rank, j);
        assert(place_ok(nodes, order, rank, j as int));
        assert(place_ok(nodes, order, rank, k as int));
    }
    assert(is_first_long_step(nodes, threshold, k));
    assert(link_ok(nodes, i));
    assert(link_ok(nodes, nodes[i].next_id as int));
    let n = split_at(nodes, i);
    let q = nodes[i].next_id as int;
    let linked = nodes.update(i, Node { next_id: n.id, ..nodes[i] });
    let relinked = linked.update(q, Node { prev_id: n.id, ..linked[q] });
    assert(with_node(nodes, n) == relinked.push(n));
    assert(relinked.push(n)[i] == relinked[i]);
    assert(relinked.push(n)[q] == relinked[q]);
}

/// The merge of vertex `i` with the vertex `d` steps after it is a candidate
/// that qualifies.
pub open spec fn qualifies_at(
    ts: ThickSurface,
    layer_id: usize,
    i: int,
    d: int,
    deletion_threshold: int,
    max_merge_steps_away: int,
    check_ints: bool,
) -> bool {
    let nodes = ts.layer(layer_id as int);
    &&& merge_in_reach(nodes, d, max_merge_steps_away)
    &&& merge_qualifies(
        ts,
        merging_of(nodes, layer_id, nodes[i], d as nat),
        deletion_threshold,
        check_ints,
    )
}

/// Vertex `i` has a vertex to merge with.
pub open spec fn has_merge(
    ts: ThickSurface,
    layer_id: usize,
    i: int,
    deletion_threshold: int,
    max_merge_steps_away: int,
    check_ints: bool,
) -> bool {
    exists|d: int| #[trigger]
        qualifies_at(ts, layer_id, i, d, deletion_threshold, max_merge_steps_away, check_ints)
}

/// The merge of vertex `i` with the vertex `d` steps after it is the one that
/// a deletion pass carries out: `i` is the vertex of smallest id that has a
/// vertex to merge with, and `d` the smallest distance that qualifies for it.
pub open spec fn is_chosen_merge(
    ts: ThickSurface,
    layer_id: usize,
    i: int,
    d: int,
    deletion_threshold: int,
    max_merge_steps_away: int,
    check_ints: bool,
) -> bool {
    &&& 0 <= i < ts.layer(layer_id as int).len()
    &&& qualifies_at(ts, layer_id, i, d, deletion_threshold, max_merge_steps_away, check_ints)
    &&& forall|e: int|
        1 <= e < d ==> !#[trigger] qualifies_at(
            ts,
            layer_id,
            i,
            e,
            deletion_threshold,
            max_merge_steps_away,
            check_ints,
        )
    &&& forall|j: int|
        0 <= j < i ==> !#[trigger] has_merge(
            ts,
            layer_id,
            j,
            deletion_threshold,
            max_merge_steps_away,
            check_ints,
        )
}

/// No vertex of the layer has a vertex to merge with.
pub open spec fn no_merge(
    ts: ThickSurface,
    layer_id: usize,
    deletion_threshold: int,
    max_merge_steps_away: int,
    check_ints: bool,
) -> bool {
    forall|i: int|
        0 <= i < ts.layer(layer_id as int).len() ==> !#[trigger] has_merge(
            ts,
            layer_id,
            i,
            deletion_threshold,
            max_merge_steps_away,
            check_ints,
        )
}

/// `after` is `before` after one deletion pass over layer `layer_id`: the
/// chosen merge has been carried out and nothing else has changed. Without a
/// vertex that has one to merge with, nothing has changed at all.
pub open spec fn is_deletion_pass(
    before: ThickSurface,
    after: ThickSurface,
    layer_id: usize,
    deletion_threshold: int,
    max_merge_steps_away: int,
    check_ints: bool,
) -> bool {
    let nodes = before.layer(layer_id as int);
    &&& no_merge(before, layer_id, deletion_threshold, max_merge_steps_away, check_ints)
        ==> after.same_as(before)
    &&& forall|i: int, d: int| #[trigger]
        is_chosen_merge(
            before,
            layer_id,
            i,
            d,
            deletion_threshold,
            max_merge_steps_away,
            check_ints,
        ) ==> after.is_update_of(
            before,
            layer_id as int,
            merged_layer(before, merging_of(nodes, layer_id, nodes[i], d as nat)),
        )
}

/// Looks through the vertices of a layer, in the order of their ids, for the
/// first that has a vertex to merge with.
pub fn first_nodes_to_merge(
    ts: &ThickSurface,
    layer_id: usize,
    deletion_threshold: i64,
    max_merge_steps_away: usize,
    check_ints: bool,
) -> (r: Option<NodeMerging>)
    requires
        ts.wf(),
        layer_id < 2,
    ensures
        r is None ==> no_merge(
            *ts,
            layer_id,
            deletion_threshold as int,
            max_merge_steps_away as int,
            check_ints,
        ),
        r is Some ==> merging_fits(*ts, r.unwrap()) && r.unwrap().layer_id == layer_id
            && r.unwrap().dist <= max_merge_steps_away && exists|i: int, d: int| #[trigger]
            is_chosen_merge(
                *ts,
                layer_id,
                i,
                d,
                deletion_threshold as int,
                max_merge_steps_away as int,
                check_ints,
            ) && r.unwrap() == merging_of(
                ts.layer(layer_id as int),
                layer_id,
                ts.layer(layer_id as int)[i],
                d as nat,
            ),
{
    let ghost nodes = ts.layer(layer_id as int);
    let count: usize = ts.layers[layer_id].nodes.len();
    let mut i: usize = 0;
    while i < count
        invariant
            ts.wf(),
            layer_id < 2,
            nodes == ts.layer(layer_id as int),
            count == nodes.len(),
            i <= count,
            forall|j: int|
                0 <= j < i ==> !#[trigger] has_merge(
                    *ts,
                    layer_id,
                    j,
                    deletion_threshold as int,
                    max_merge_steps_away as int,
                    check_ints,
                ),
        decreases count - i,
    {
        let n: Node = ts.layers[layer_id].nodes[i];
        assert(link_ok(nodes, i as int));
        match nodes_to_merge(
            ts,
            layer_id,
            &n,
            deletion_threshold,
            max_merge_steps_away,
            check_ints,
        ) {
            Some(deletion) => {
                proof {
                    let d = deletion.dist as int;
                    assert forall|e: int| 1 <= e < d implies !#[trigger] qualifies_at(
                        *ts,
                        layer_id,
                        i as int,
                        e,
                        deletion_threshold as int,
                        max_merge_steps_away as int,
                        check_ints,
                    ) by {
                        assert(!merge_qualifies(
                            *ts,
                            merging_of(nodes, layer_id, n, e as nat),
                            deletion_threshold as int,
                            check_ints,
                        ));
                    }
                    assert(is_chosen_merge(
                        *ts,
                        layer_id,
                        i as int,
                        d,
                        deletion_threshold as int,
                        max_merge_steps_away as int,
                        check_ints,
                    ));
                }
                return Some(deletion);
            },
            None => {
                proof {
                    assert forall|d: int|
                        !#[trigger] qualifies_at(
                            *ts,
                            layer_id,
                            i as int,
                            d,
                            deletion_threshold as int,
                            max_merge_steps_away as int,
                            check_ints,
                        ) by {
                        if merge_in_reach(nodes, d, max_merge_steps_away as int) {
                            assert(!merge_qualifies(
                                *ts,
                                merging_of(nodes, layer_id, n, d as nat),
                                deletion_threshold as int,
                                check_ints,
                            ));
                        }
                    }
                }
            },
        }
        i += 1;
    }
    None
}

/// Only one merge is the chosen one.
pub proof fn lemma_chosen_merge_unique(
    ts: ThickSurface,
    layer_id: usize,
    i: int,
    d: int,
    j: int,
    e: int,
    deletion_threshold: int,
    max_merge_steps_away: int,
    check_ints: bool,
)
    requires
        is_chosen_merge(ts, layer_id, i, d, deletion_threshold, max_merge_steps_away, check_ints),
        is_chosen_merge(ts, layer_id, j, e, deletion_threshold, max_merge_steps_away, check_ints),
    ensures
        i == j,
        d == e,
{
    if i < j {
        assert(has_merge(
            ts,
            layer_id,
            i,
            deletion_threshold,
            max_merge_steps_away,
            check_ints,
        ));
    }
    if j < i {
        assert(has_merge(
            ts,
            layer_id,
            j,
            deletion_threshold,
            max_merge_steps_away,
            check_ints,
        ));
    }
}

/// The vertex `e` steps after vertex `i` is nearer to it than the threshold.
pub open spec fn near_at(nodes: Seq<Node>, i: int, e: nat, deletion_threshold: int) -> bool {
    closer_than(
        node_dist_sq(nodes[i], nodes[nth_next(nodes, i, e)]),
        deletion_threshold,
    )
}

/// What a deletion pass chooses. The vertex merged with is near enough. With
/// the check for crossings its merge leaves no crossing edges, and every
/// vertex fewer steps away that is near enough was passed over because its
/// merge would leave crossing edges. Without the check no vertex fewer steps
/// away is near enough: the first near vertex is merged, whatever crossings
/// result.
pub proof fn lemma_chosen_merge_is_first_valid(
    ts: ThickSurface,
    layer_id: usize,
    i: int,
    d: int,
    deletion_threshold: int,
    max_merge_steps_away: int,
    check_ints: bool,
)
    requires
        ts.wf(),
        layer_id < 2,
        is_chosen_merge(ts, layer_id, i, d, deletion_threshold, max_merge_steps_away, check_ints),
    ensures
        1 <= d <= max_merge_steps_away,
        near_at(ts.layer(layer_id as int), i, d as nat, deletion_threshold),
        check_ints ==> merge_is_safe(
            ts,
            merging_of(ts.layer(layer_id as int), layer_id, ts.layer(layer_id as int)[i], d as nat),
        ),
        forall|e: int|
            1 <= e < d && #[trigger] near_at(
                ts.layer(layer_id as int),
                i,
                e as nat,
                deletion_threshold,
            ) ==> check_ints && !merge_is_safe(
                ts,
                merging_of(
                    ts.layer(layer_id as int),
                    layer_id,
                    ts.layer(layer_id as int)[i],
                    e as nat,
                ),
            ),
{
    let nodes = ts.layer(layer_id as int);
    assert(link_ok(nodes, i));
    assert forall|e: int|
        1 <= e < d && #[trigger] near_at(nodes, i, e as nat, deletion_threshold) implies check_ints
        && !merge_is_safe(ts, merging_of(nodes, layer_id, nodes[i], e as nat)) by {
        assert(!qualifies_at(
            ts,
            layer_id,
            i,
            e,
            deletion_threshold,
            max_merge_steps_away,
            check_ints,
        ));
    }
}

/// One deletion pass over a layer: the first vertex, in the order of ids,
/// that has a vertex to merge with is merged with the nearest such vertex in
/// ring steps. With `check_ints` a merge that would leave crossing edges does
/// not qualify, and the next farther vertex is tried; without it the first
/// vertex that is near enough is merged whatever crossings result. At most one
/// merge is carried out in a pass.
pub fn delete_single_node_effects(
    ts: &mut ThickSurface,
    layer_from_which_delete: usize,
    deletion_threshold: i64,
    max_merge_steps_away: usize,
    check_ints: bool,
)
    requires
        old(ts).wf(),
        layer_from_which_delete < 2,
    ensures
        final(ts).wf(),
        is_deletion_pass(
            *old(ts),
            *final(ts),
            layer_from_which_delete,
            deletion_threshold as int,
            max_merge_steps_away as int,
            check_ints,
        ),
        counts_differ_by(
            *old(ts),
            *final(ts),
            layer_from_which_delete as int,
            max_merge_steps_away as int,
            0,
        ),
{
    let ghost nodes = ts.layer(layer_from_which_delete as int);
    match first_nodes_to_merge(
        ts,
        layer_from_which_delete,
        deletion_threshold,
        max_merge_steps_away,
        check_ints,
    ) {
        Some(deletion) => {
            merge_nodes_(ts, &deletion);
            proof {
                let (i0, d0) = choose|i: int, d: int| #[trigger]
                    is_chosen_merge(
                        *old(ts),
                        layer_from_which_delete,
                        i,
                        d,
                        deletion_threshold as int,
                        max_merge_steps_away as int,
                        check_ints,
                    ) && deletion == merging_of(nodes, layer_from_which_delete, nodes[i], d as nat);
                assert(has_merge(
                    *old(ts),
                    layer_from_which_delete,
                    i0,
                    deletion_threshold as int,
                    max_merge_steps_away as int,
                    check_ints,
                ));
                assert forall|i: int, d: int| #[trigger]
                    is_chosen_merge(
                        *old(ts),
                        layer_from_which_delete,
                        i,
                        d,
                        deletion_threshold as int,
                        max_merge_steps_away as int,
                        check_ints,
                    ) implies ts.is_update_of(
                    *old(ts),
                    layer_from_which_delete as int,
                    merged_layer(
                        *old(ts),
                        merging_of(nodes, layer_from_which_delete, nodes[i], d as nat),
                    ),
                ) by {
                    lemma_chosen_merge_unique(
                        *old(ts),
                        layer_from_which_delete,
                        i,
                        d,
                        i0,
                        d0,
                        deletion_threshold as int,
                        max_merge_steps_away as int,
                        check_ints,
                    );
                }
            }
        },
        None => {
            proof {
                assert forall|i: int, d: int| #[trigger]
                    is_chosen_merge(
                        *old(ts),
                        layer_from_which_delete,
                        i,
                        d,
                        deletion_threshold as int,
                        max_merge_steps_away as int,
                        check_ints,
                    ) implies false by {
                    assert(has_merge(
                        *old(ts),
                        layer_from_which_delete,
                        i,
                        deletion_threshold as int,
                        max_merge_steps_away as int,
                        check_ints,
                    ));
                }
            }
        },
    }
}

/// Where the walk meets a long edge at step `k`, some step is the first to
/// meet one.
proof fn lemma_some_long_step_is_first(nodes: Seq<Node>, threshold: int, k: nat)
    requires
        k < nodes.len(),
        long_edge(nodes, walk(nodes, k), threshold),
    ensures
        exists|f: nat| #[trigger] is_first_long_step(nodes, threshold, f),
    decreases k,
{
    if exists|j: nat| j < k && long_edge(nodes, #[trigger] walk(nodes, j), threshold) {
        let j = choose|j: nat| j < k && long_edge(nodes, #[trigger] walk(nodes, j), threshold);
        lemma_some_long_step_is_first(nodes, threshold, j);
    } else {
        assert(is_first_long_step(nodes, threshold, k));
    }
}

/// Whatever the surface: an insertion pass adds one vertex to its layer or
/// none, and leaves the other layer as it was.
pub proof fn lemma_insertion_pass_counts(
    before: ThickSurface,
    after: ThickSurface,
    layer: int,
    threshold: int,
)
    requires
        before.wf(),
        0 <= layer < 2,
        before.layer(layer).len() <= usize::MAX,
        is_insertion_pass(before, after, layer, threshold),
    ensures
        after.wf(),
        counts_differ_by(before, after, layer, 0, 1),
{
    let nodes = before.layer(layer);
    if !no_long_edge(nodes, threshold) {
        let i = choose|i: int| 0 <= i < nodes.len() && #[trigger] long_edge(nodes, i, threshold);
        let (order, rank) = ring_witness(nodes);
        assert(rank_ok(nodes, order, rank, i));
        lemma_order_is_walk(nodes, order, rank, rank[i] as nat);
        lemma_some_long_step_is_first(nodes, threshold, rank[i] as nat);
        let f = choose|f: nat| #[trigger] is_first_long_step(nodes, threshold, f);
        let grown = with_node(nodes, split_at(nodes, walk(nodes, f)));
        lemma_walk_in_range(nodes, f);
        assert(link_ok(nodes, walk(nodes, f)));
        assert(link_ok(nodes, nodes[walk(nodes, f)].next_id as int));
        assert(after.is_update_of(before, layer, grown));
        assert(grown.len() == nodes.len() + 1);
        assert(after.layer(layer).len() == nodes.len() + 1);
        let at = walk(nodes, f);
        assert(in_window(nodes[at].x as int));
        assert(in_window(nodes[nodes[at].next_id as int].x as int));
        lemma_with_node_wf(nodes, split_at(nodes, at));
    } else {
        assert(after.same_as(before));
        assert(after.layers@[layer].nodes@ == before.layers@[layer].nodes@);
    }
    assert(after.layers@[1 - layer].nodes@ == before.layers@[1 - layer].nodes@);
    assert(after.layer(1 - layer) == before.layer(1 - layer));
}

/// Where the merge over `d` steps qualifies for vertex `i`, some merge is the
/// first to qualify for it.
proof fn lemma_some_distance_is_first(
    ts: ThickSurface,
    layer_id: usize,
    i: int,
    d: int,
    deletion_threshold: int,
    max_merge_steps_away: int,
    check_ints: bool,
) -> (f: int)
    requires
        qualifies_at(ts, layer_id, i, d, deletion_threshold, max_merge_steps_away, check_ints),
    ensures
        1 <= f <= d,
        qualifies_at(ts, layer_id, i, f, deletion_threshold, max_merge_steps_away, check_ints),
        forall|e: int|
            1 <= e < f ==> !#[trigger] qualifies_at(
                ts,
                layer_id,
                i,
                e,
                deletion_threshold,
                max_merge_steps_away,
                check_ints,
            ),
    decreases d,
{
    if exists|e: int|
        1 <= e < d && #[trigger] qualifies_at(
            ts,
            layer_id,
            i,
            e,
            deletion_threshold,
            max_merge_steps_away,
            check_ints,
        ) {
        let e = choose|e: int|
            1 <= e < d && #[trigger] qualifies_at(
                ts,
                layer_id,
                i,
                e,
                deletion_threshold,
                max_merge_steps_away,
                check_ints,
            );
        lemma_some_distance_is_first(
            ts,
            layer_id,
            i,
            e,
            deletion_threshold,
            max_merge_steps_away,
            check_ints,
        )
    } else {
        d
    }
}

/// Where vertex `i` has a vertex to merge with, some vertex is the one of
/// smallest id that has.
proof fn lemma_some_vertex_is_first(
    ts: ThickSurface,
    layer_id: usize,
    i: int,
    deletion_threshold: int,
    max_merge_steps_away: int,
    check_ints: bool,
) -> (f: int)
    requires
        0 <= i,
        has_merge(ts, layer_id, i, deletion_threshold, max_merge_steps_away, check_ints),
    ensures
        0 <= f <= i,
        has_merge(ts, layer_id, f, deletion_threshold, max_merge_steps_away, check_ints),
        forall|j: int|
            0 <= j < f ==> !#[trigger] has_merge(
                ts,
                layer_id,
                j,
                deletion_threshold,
                max_merge_steps_away,
                check_ints,
            ),
    decreases i,
{
    if exists|j: int|
        0 <= j < i && #[trigger] has_merge(
            ts,
            layer_id,
            j,
            deletion_threshold,
            max_merge_steps_away,
            check_ints,
        ) {
        let j = choose|j: int|
            0 <= j < i && #[trigger] has_merge(
                ts,
                layer_id,
                j,
                deletion_threshold,
                max_merge_steps_away,
                check_ints,
            );
        lemma_some_vertex_is_first(
            ts,
            layer_id,
            j,
            deletion_threshold,
            max_merge_steps_away,
            check_ints,
        )
    } else {
        i
    }
}

/// Whatever the surface: a deletion pass takes from its layer no more
/// vertices than its search reaches, adds none, and leaves the other layer as
/// it was.
pub proof fn lemma_deletion_pass_counts(
    before: ThickSurface,
    after: ThickSurface,
    layer_id: usize,
    deletion_threshold: int,
    reach: usize,
    check_ints: bool,
)
    requires
        before.wf(),
        layer_id < 2,
        is_deletion_pass(before, after, layer_id, deletion_threshold, reach as int, check_ints),
    ensures
        after.wf(),
        counts_differ_by(before, after, layer_id as int, reach as int, 0),
{
    let max_merge_steps_away = reach as int;
    let nodes = before.layer(layer_id as int);
    if !no_merge(before, layer_id, deletion_threshold, max_merge_steps_away, check_ints) {
        let some = choose|i: int|
            0 <= i < nodes.len() && #[trigger] has_merge(
                before,
                layer_id,
                i,
                deletion_threshold,
                max_merge_steps_away,
                check_ints,
            );
        let i = lemma_some_vertex_is_first(
            before,
            layer_id,
            some,
            deletion_threshold,
            max_merge_steps_away,
            check_ints,
        );
        let any = choose|d: int| #[trigger]
            qualifies_at(
                before,
                layer_id,
                i,
                d,
                deletion_threshold,
                max_merge_steps_away,
                check_ints,
            );
        let d = lemma_some_distance_is_first(
            before,
            layer_id,
            i,
            any,
            deletion_threshold,
            max_merge_steps_away,
            check_ints,
        );
        assert(is_chosen_merge(
            before,
            layer_id,
            i,
            d,
            deletion_threshold,
            max_merge_steps_away,
            check_ints,
        ));
        assert(link_ok(nodes, i));
        lemma_merged_ring_wf(nodes, i, d as nat);
        let m = merging_of(nodes, layer_id, nodes[i], d as nat);
        assert(after.is_update_of(before, layer_id as int, merged_layer(before, m)));
        assert(m.one_end.id == i && m.dist == d && m.layer_id == layer_id);
        assert(merged_layer(before, m).len() == nodes.len() - d);
        assert(after.layer(layer_id as int).len() == nodes.len() - d);
        let far = nth_next(nodes, i, d as nat);
        lemma_nth_next_in_range(nodes, i, d as nat);
        assert(in_window(nodes[i].x as int));
        assert(in_window(nodes[far].x as int));
        lemma_merged_wf(nodes, i, d as nat, m.survivor_x, m.survivor_y);
    } else {
        assert(after.same_as(before));
        assert(after.layers@[layer_id as int].nodes@ == before.layers@[layer_id as int].nodes@);
    }
    let other = 1 - layer_id as int;
    assert(after.layers@[other].nodes@ == before.layers@[other].nodes@);
    assert(after.layer(other) == before.layer(other));
}

} // verus!
