//! Insertion, removal and merging of vertices, each with the proof that it
//! leaves a ring a ring.

use crate::fixed::in_window;
use crate::graph::NodeMerging;
use crate::graph::types::{
    lemma_order_is_walk, lemma_same_links_wf, link_ok, links_agree, links_ok, nodes_in_window,
    place_after, place_ok, rank_ok, ring_order, ring_wf, ring_witness, walk, Graph, Node,
    ThickSurface,
};
use vstd::prelude::*;

verus! {

/// A vertex about to be inserted between its two future neighbours.
#[derive(Debug, Clone, Copy, PartialEq, Eq, Structural)]
pub struct NodeAddition {
    pub n: Node,
}

/// `n` can be inserted into `nodes`: it takes the next free id, lies in the
/// window, and its two neighbours are the ends of one edge of the ring.
pub open spec fn fits_edge(nodes: Seq<Node>, n: Node) -> bool {
    &&& n.id == nodes.len()
    &&& n.prev_id < nodes.len()
    &&& n.next_id < nodes.len()
    &&& nodes[n.prev_id as int].next_id == n.next_id
    &&& in_window(n.x as int)
    &&& in_window(n.y as int)
}

/// The ring after `n` has replaced the edge between its neighbours by two
/// edges through itself.
pub open spec fn with_node(nodes: Seq<Node>, n: Node) -> Seq<Node> {
    let p = n.prev_id as int;
    let q = n.next_id as int;
    let linked = nodes.update(p, Node { next_id: n.id, ..nodes[p] });
    linked.update(q, Node { prev_id: n.id, ..linked[q] }).push(n)
}

/// The places of the ring after a vertex has been inserted right after
/// place `at`.
pub open spec fn order_with(order: Seq<int>, at: int) -> Seq<int> {
    order.insert(at + 1, order.len() as int)
}

/// The ranks of the ring after a vertex has been inserted right after place
/// `at`.
pub open spec fn rank_with(rank: Seq<int>, at: int) -> Seq<int> {
    Seq::new(
        (rank.len() + 1) as nat,
        |i: int|
            if i == rank.len() {
                at + 1
            } else if rank[i] <= at {
                rank[i]
            } else {
                rank[i] + 1
            },
    )
}

/// After an insertion the ring visits the old vertices in the old order, and
/// the new vertex right after its predecessor.
pub proof fn lemma_with_node_order(nodes: Seq<Node>, n: Node, order: Seq<int>, rank: Seq<int>)
    requires
        links_ok(nodes),
        ring_order(nodes, order, rank),
        fits_edge(nodes, n),
    ensures
        links_ok(with_node(nodes, n)),
        ring_order(
            with_node(nodes, n),
            order_with(order, rank[n.prev_id as int]),
            rank_with(rank, rank[n.prev_id as int]),
        ),
{
    let after = with_node(nodes, n);
    let len = nodes.len() as int;
    let p = n.prev_id as int;
    let q = n.next_id as int;
    let at = rank[p];
    assert(rank_ok(nodes, order, rank, p));
    assert(place_ok(nodes, order, rank, at));
    assert(link_ok(nodes, p));
    assert(link_ok(nodes, q));
    let new_order = order_with(order, at);
    let new_rank = rank_with(rank, at);
    assert forall|i: int| 0 <= i < after.len() implies #[trigger] link_ok(after, i) by {
        if i < len {
            assert(link_ok(nodes, i));
            assert(link_ok(nodes, nodes[i].next_id as int));
            assert(link_ok(nodes, nodes[i].prev_id as int));
        }
    }
    assert forall|k: int| 0 <= k < after.len() implies #[trigger] place_ok(
        after,
        new_order,
        new_rank,
        k,
    ) by {
        if k <= at {
            assert(place_ok(nodes, order, rank, k));
            if k < at {
                assert(place_ok(nodes, order, rank, k + 1));
            }
        } else if k == at + 1 {
            if at + 1 < len {
                assert(place_ok(nodes, order, rank, at + 1));
            }
        } else {
            assert(place_ok(nodes, order, rank, k - 1));
            if k < len {
                assert(place_ok(nodes, order, rank, k));
            }
            assert(place_ok(nodes, order, rank, 0));
        }
    }
    assert forall|i: int| 0 <= i < after.len() implies #[trigger] rank_ok(
        after,
        new_order,
        new_rank,
        i,
    ) by {
        if i < len {
            assert(rank_ok(nodes, order, rank, i));
        }
    }
    assert(new_order[0] == 0) by {
        assert(place_ok(nodes, order, rank, 0));
    }
}

/// Inserting a vertex into an edge of a ring leaves a ring.
pub proof fn lemma_with_node_wf(nodes: Seq<Node>, n: Node)
    requires
        ring_wf(nodes),
        fits_edge(nodes, n),
    ensures
        ring_wf(with_node(nodes, n)),
{
    let (order, rank) = ring_witness(nodes);
    lemma_with_node_order(nodes, n, order, rank);
    assert(nodes_in_window(with_node(nodes, n)));
}

/// What an insertion does to the walk of the ring: where the predecessor of
/// the new vertex is met at step `t`, the walk goes as before up to that
/// step, meets the new vertex next, and then goes on as before, one step
/// late.
pub proof fn lemma_with_node_walk(nodes: Seq<Node>, n: Node, t: nat, k: nat)
    requires
        ring_wf(nodes),
        fits_edge(nodes, n),
        t < nodes.len(),
        walk(nodes, t) == n.prev_id,
        k <= nodes.len(),
    ensures
        walk(with_node(nodes, n), k) == if k <= t {
            walk(nodes, k)
        } else if k == t + 1 {
            nodes.len() as int
        } else {
            walk(nodes, (k - 1) as nat)
        },
{
    let (order, rank) = ring_witness(nodes);
    lemma_with_node_order(nodes, n, order, rank);
    lemma_order_is_walk(nodes, order, rank, t);
    assert(place_ok(nodes, order, rank, t as int));
    let at = rank[n.prev_id as int];
    assert(at == t);
    lemma_order_is_walk(with_node(nodes, n), order_with(order, at), rank_with(rank, at), k);
    if k <= t {
        lemma_order_is_walk(nodes, order, rank, k);
    } else if k > t + 1 {
        lemma_order_is_walk(nodes, order, rank, (k - 1) as nat);
    }
}

impl Graph {
    /// Inserts the vertex of `addition` into the edge between its neighbours.
    pub fn add_node(&mut self, addition: &NodeAddition)
        requires
            old(self).wf(),
            fits_edge(old(self).nodes@, addition.n),
        ensures
            final(self).nodes@ == with_node(old(self).nodes@, addition.n),
            final(self).wf(),
    {
        let n: Node = addition.n;
        proof {
            lemma_with_node_wf(self.nodes@, n);
        }
        self.nodes[n.prev_id].next_id = n.id;
        self.nodes[n.next_id].prev_id = n.id;
        self.nodes.push(n);
        assert(self.nodes@ =~= with_node(old(self).nodes@, addition.n));
    }
}

/// The id that vertex `j` carries once vertex `r` has left the array: ids
/// above `r` move down by one.
pub open spec fn shifted(j: int, r: int) -> int {
    if j > r {
        j - 1
    } else {
        j
    }
}

/// The id that vertex `i` carried before vertex `r` left the array.
pub open spec fn unshifted(i: int, r: int) -> int {
    if i >= r {
        i + 1
    } else {
        i
    }
}

/// The ring without vertex `r`: the neighbours of `r` are joined to each
/// other, and the ids above `r` move down by one.
pub open spec fn without_node(nodes: Seq<Node>, r: int) -> Seq<Node> {
    Seq::new(
        (nodes.len() - 1) as nat,
        |i: int|
            {
                let node = nodes[unshifted(i, r)];
                let nx = if node.next_id == r {
                    nodes[r].next_id as int
                } else {
                    node.next_id as int
                };
                let pv = if node.prev_id == r {
                    nodes[r].prev_id as int
                } else {
                    node.prev_id as int
                };
                Node {
                    id: i as usize,
                    x: node.x,
                    y: node.y,
                    next_id: shifted(nx, r) as usize,
                    prev_id: shifted(pv, r) as usize,
                }
            },
    )
}

/// The places of the ring without vertex `r`, which held place `t`.
pub open spec fn order_without(order: Seq<int>, r: int, t: int) -> Seq<int> {
    Seq::new(
        (order.len() - 1) as nat,
        |k: int|
            if k < t {
                shifted(order[k], r)
            } else {
                shifted(order[k + 1], r)
            },
    )
}

/// The ranks of the ring without vertex `r`, which held place `t`.
pub open spec fn rank_without(rank: Seq<int>, r: int, t: int) -> Seq<int> {
    Seq::new(
        (rank.len() - 1) as nat,
        |i: int|
            if rank[unshifted(i, r)] < t {
                rank[unshifted(i, r)]
            } else {
                rank[unshifted(i, r)] - 1
            },
    )
}

proof fn lemma_without_node_links(nodes: Seq<Node>, r: int)
    requires
        links_ok(nodes),
        nodes.len() >= 2,
        0 <= r < nodes.len(),
        nodes[r].next_id != r,
    ensures
        links_ok(without_node(nodes, r)),
{
    let after = without_node(nodes, r);
    assert(link_ok(nodes, r));
    assert(link_ok(nodes, nodes[r].next_id as int));
    assert(link_ok(nodes, nodes[r].prev_id as int));
    assert forall|i: int| 0 <= i < after.len() implies #[trigger] link_ok(after, i) by {
        let src = unshifted(i, r);
        assert(link_ok(nodes, src));
        assert(link_ok(nodes, nodes[src].next_id as int));
        assert(link_ok(nodes, nodes[src].prev_id as int));
    }
}

proof fn lemma_without_node_place(
    nodes: Seq<Node>,
    order: Seq<int>,
    rank: Seq<int>,
    r: int,
    k: int,
)
    requires
        ring_order(nodes, order, rank),
        0 < r < nodes.len(),
        0 <= k < nodes.len() - 1,
    ensures
        place_ok(
            without_node(nodes, r),
            order_without(order, r, rank[r]),
            rank_without(rank, r, rank[r]),
            k,
        ),
{
    let len = nodes.len() as int;
    let t = rank[r];
    assert(rank_ok(nodes, order, rank, r));
    assert(place_ok(nodes, order, rank, t));
    assert(place_ok(nodes, order, rank, 0));
    let old_k = if k < t {
        k
    } else {
        k + 1
    };
    let v = order[old_k];
    assert(place_ok(nodes, order, rank, old_k));
    assert(v != r);
    let succ = place_after(old_k, len);
    assert(place_ok(nodes, order, rank, succ));
    let succ_t = place_after(t, len);
    assert(place_ok(nodes, order, rank, succ_t));
    assert(unshifted(shifted(v, r), r) == v);
    if succ == t {
        assert(nodes[v].next_id == r);
        assert(order[succ_t] != r);
    } else {
        assert(nodes[v].next_id != r);
    }
}

/// After a vertex other than vertex 0 has left, the ring visits the vertices
/// that stay in the old order.
pub proof fn lemma_without_node_order(nodes: Seq<Node>, r: int, order: Seq<int>, rank: Seq<int>)
    requires
        links_ok(nodes),
        ring_order(nodes, order, rank),
        0 < r < nodes.len(),
    ensures
        links_ok(without_node(nodes, r)),
        ring_order(
            without_node(nodes, r),
            order_without(order, r, rank[r]),
            rank_without(rank, r, rank[r]),
        ),
{
    let after = without_node(nodes, r);
    let len = nodes.len() as int;
    let t = rank[r];
    assert(rank_ok(nodes, order, rank, r));
    assert(place_ok(nodes, order, rank, t));
    assert(place_ok(nodes, order, rank, 0));
    assert(place_ok(nodes, order, rank, place_after(t, len)));
    assert(t > 0);
    let new_order = order_without(order, r, t);
    let new_rank = rank_without(rank, r, t);
    lemma_without_node_links(nodes, r);
    assert forall|k: int| 0 <= k < after.len() implies #[trigger] place_ok(
        after,
        new_order,
        new_rank,
        k,
    ) by {
        lemma_without_node_place(nodes, order, rank, r, k);
    }
    assert forall|i: int| 0 <= i < after.len() implies #[trigger] rank_ok(
        after,
        new_order,
        new_rank,
        i,
    ) by {
        assert(rank_ok(nodes, order, rank, unshifted(i, r)));
    }
    assert(ring_order(after, new_order, new_rank));
}

/// Taking a vertex other than vertex 0 out of a ring leaves a ring.
pub proof fn lemma_without_node_wf(nodes: Seq<Node>, r: int)
    requires
        ring_wf(nodes),
        0 < r < nodes.len(),
    ensures
        ring_wf(without_node(nodes, r)),
{
    let (order, rank) = ring_witness(nodes);
    lemma_without_node_order(nodes, r, order, rank);
    assert(nodes_in_window(without_node(nodes, r)));
}

/// What the removal of vertex `r` does to the walk of the ring: where `r` is
/// met at step `t`, the walk meets the vertices that stay as before, with
/// their positions, up to that step, and from there on one step early.
pub proof fn lemma_without_node_walk(nodes: Seq<Node>, r: int, t: nat, k: nat)
    requires
        ring_wf(nodes),
        0 < r < nodes.len(),
        t < nodes.len(),
        walk(nodes, t) == r,
        k < nodes.len() - 1,
    ensures
        walk(without_node(nodes, r), k) == shifted(
            walk(
                nodes,
                if k < t {
                    k
                } else {
                    k + 1
                },
            ),
            r,
        ),
        without_node(nodes, r)[walk(without_node(nodes, r), k)].position() == nodes[walk(
            nodes,
            if k < t {
                k
            } else {
                k + 1
            },
        )].position(),
{
    let (order, rank) = ring_witness(nodes);
    lemma_without_node_order(nodes, r, order, rank);
    lemma_order_is_walk(nodes, order, rank, t);
    assert(place_ok(nodes, order, rank, t as int));
    assert(rank[r] == t);
    let old_k: nat = if k < t {
        k
    } else {
        k + 1
    };
    lemma_order_is_walk(
        without_node(nodes, r),
        order_without(order, r, rank[r]),
        rank_without(rank, r, rank[r]),
        k,
    );
    lemma_order_is_walk(nodes, order, rank, old_k);
    assert(place_ok(nodes, order, rank, old_k as int));
    assert(order[old_k as int] != r);
}

impl Graph {
    /// Takes vertex `r` out of the ring and closes the ring over the gap.
    /// Vertex 0 stays, so that the walk of the ring keeps its start.
    pub fn remove_node(&mut self, r: usize)
        requires
            old(self).wf(),
            0 < r < old(self).nodes@.len(),
        ensures
            final(self).nodes@ == without_node(old(self).nodes@, r as int),
            final(self).wf(),
    {
        let count: usize = self.nodes.len();
        let gone: Node = self.nodes[r];
        let mut kept: Vec<Node> = Vec::new();
        let mut i: usize = 0;
        while i < count - 1
            invariant
                count == self.nodes@.len(),
                self.wf(),
                0 < r < count,
                gone == self.nodes@[r as int],
                i <= count - 1,
                kept@ == without_node(self.nodes@, r as int).take(i as int),
            decreases count - i,
        {
            let node: Node = if i >= r {
                self.nodes[i + 1]
            } else {
                self.nodes[i]
            };
            proof {
                assert(link_ok(self.nodes@, unshifted(i as int, r as int)));
                assert(link_ok(self.nodes@, r as int));
            }
            let nx: usize = if node.next_id == r {
                gone.next_id
            } else {
                node.next_id
            };
            let pv: usize = if node.prev_id == r {
                gone.prev_id
            } else {
                node.prev_id
            };
            kept.push(
                Node {
                    id: i,
                    x: node.x,
                    y: node.y,
                    next_id: if nx > r {
                        nx - 1
                    } else {
                        nx
                    },
                    prev_id: if pv > r {
                        pv - 1
                    } else {
                        pv
                    },
                },
            );
            assert(kept@ =~= without_node(self.nodes@, r as int).take(i + 1));
            i += 1;
        }
        proof {
            assert(kept@ =~= without_node(self.nodes@, r as int));
            lemma_without_node_wf(self.nodes@, r as int);
        }
        self.nodes = kept;
    }
}

/// One step of a merge: the successor of the survivor `s` leaves the ring.
/// Where that successor is vertex 0, the survivor leaves instead and vertex 0
/// survives in its place. Gives the ring and the survivor's id after the step.
pub open spec fn merge_step(nodes: Seq<Node>, s: int) -> (Seq<Node>, int) {
    let r = nodes[s].next_id as int;
    if r != 0 {
        (without_node(nodes, r), shifted(s, r))
    } else {
        (without_node(nodes, s), 0)
    }
}

/// The ring and the survivor after `d` merge steps from survivor `s`.
pub open spec fn merged_ring(nodes: Seq<Node>, s: int, d: nat) -> (Seq<Node>, int)
    decreases d,
{
    if d == 0 {
        (nodes, s)
    } else {
        let step = merge_step(nodes, s);
        merged_ring(step.0, step.1, (d - 1) as nat)
    }
}

/// The ring in which vertex `s` and the `d` vertices after it have become one
/// vertex at `(x, y)`.
pub open spec fn merged(nodes: Seq<Node>, s: int, d: nat, x: i64, y: i64) -> Seq<Node> {
    let ring = merged_ring(nodes, s, d);
    ring.0.update(ring.1, Node { x: x, y: y, ..ring.0[ring.1] })
}

/// A merge step on a ring of at least two vertices leaves a ring with one
/// vertex less, and the survivor in it.
pub proof fn lemma_merge_step_wf(nodes: Seq<Node>, s: int)
    requires
        ring_wf(nodes),
        nodes.len() >= 2,
        0 <= s < nodes.len(),
    ensures
        ring_wf(merge_step(nodes, s).0),
        merge_step(nodes, s).0.len() == nodes.len() - 1,
        0 <= merge_step(nodes, s).1 < nodes.len() - 1,
        nodes[s].next_id != s,
        nodes[s].next_id == 0 ==> s != 0,
{
    let (order, rank) = ring_witness(nodes);
    let r = nodes[s].next_id as int;
    assert(link_ok(nodes, s));
    if r != 0 {
        assert(r != s) by {
            assert(rank_ok(nodes, order, rank, s));
            assert(place_ok(nodes, order, rank, rank[s]));
            assert(place_ok(nodes, order, rank, place_after(rank[s], nodes.len() as int)));
        }
        lemma_without_node_wf(nodes, r);
    } else {
        assert(s != 0) by {
            assert(rank_ok(nodes, order, rank, s));
            assert(place_ok(nodes, order, rank, rank[s]));
            assert(place_ok(nodes, order, rank, place_after(rank[s], nodes.len() as int)));
            assert(place_ok(nodes, order, rank, 0));
        }
        lemma_without_node_wf(nodes, s);
    }
}

/// Merging fewer vertices than the ring has leaves a ring.
pub proof fn lemma_merged_ring_wf(nodes: Seq<Node>, s: int, d: nat)
    requires
        ring_wf(nodes),
        0 <= s < nodes.len(),
        d < nodes.len(),
    ensures
        ring_wf(merged_ring(nodes, s, d).0),
        merged_ring(nodes, s, d).0.len() == nodes.len() - d,
        0 <= merged_ring(nodes, s, d).1 < nodes.len() - d,
    decreases d,
{
    if d > 0 {
        lemma_merge_step_wf(nodes, s);
        let step = merge_step(nodes, s);
        lemma_merged_ring_wf(step.0, step.1, (d - 1) as nat);
    }
}

/// A ring stays a ring when one of its vertices moves inside the window.
pub proof fn lemma_moved_wf(nodes: Seq<Node>, i: int, x: i64, y: i64)
    requires
        ring_wf(nodes),
        0 <= i < nodes.len(),
        in_window(x as int),
        in_window(y as int),
    ensures
        ring_wf(nodes.update(i, Node { x: x, y: y, ..nodes[i] })),
{
    let moved = nodes.update(i, Node { x: x, y: y, ..nodes[i] });
    assert forall|k: int| 0 <= k < nodes.len() implies #[trigger] links_agree(nodes, moved, k) by {}
    lemma_same_links_wf(nodes, moved);
}

/// Merging fewer vertices than the ring has, into a point of the window,
/// leaves a ring that is shorter by the number of merged vertices.
pub proof fn lemma_merged_wf(nodes: Seq<Node>, s: int, d: nat, x: i64, y: i64)
    requires
        ring_wf(nodes),
        0 <= s < nodes.len(),
        d < nodes.len(),
        in_window(x as int),
        in_window(y as int),
    ensures
        ring_wf(merged(nodes, s, d, x, y)),
        merged(nodes, s, d, x, y).len() == nodes.len() - d,
{
    lemma_merged_ring_wf(nodes, s, d);
    let ring = merged_ring(nodes, s, d);
    lemma_moved_wf(ring.0, ring.1, x, y);
}

impl Graph {
    /// Merges vertex `start` and the `dist` vertices after it into one vertex
    /// at `(x, y)`, and returns the id of that vertex.
    pub fn merge_chain(&mut self, start: usize, dist: usize, x: i64, y: i64) -> (survivor: usize)
        requires
            old(self).wf(),
            start < old(self).nodes@.len(),
            dist < old(self).nodes@.len(),
            in_window(x as int),
            in_window(y as int),
        ensures
            final(self).nodes@ == merged(old(self).nodes@, start as int, dist as nat, x, y),
            final(self).wf(),
            final(self).nodes@.len() == old(self).nodes@.len() - dist,
            survivor == merged_ring(old(self).nodes@, start as int, dist as nat).1,
            survivor < final(self).nodes@.len(),
    {
        let mut s: usize = start;
        let mut done: usize = 0;
        while done < dist
            invariant
                self.wf(),
                done <= dist,
                s < self.nodes@.len(),
                self.nodes@.len() == old(self).nodes@.len() - done,
                dist < old(self).nodes@.len(),
                merged_ring(old(self).nodes@, start as int, dist as nat) == merged_ring(
                    self.nodes@,
                    s as int,
                    (dist - done) as nat,
                ),
            decreases dist - done,
        {
            proof {
                lemma_merge_step_wf(self.nodes@, s as int);
                assert(link_ok(self.nodes@, s as int));
            }
            let r: usize = self.nodes[s].next_id;
            if r != 0 {
                self.remove_node(r);
                if s > r {
                    s = s - 1;
                }
            } else {
                self.remove_node(s);
                s = 0;
            }
            done += 1;
        }
        proof {
            lemma_moved_wf(self.nodes@, s as int, x, y);
        }
        self.nodes[s].x = x;
        self.nodes[s].y = y;
        assert(self.nodes@ =~= merged(old(self).nodes@, start as int, dist as nat, x, y));
        s
    }
}

/// The surface with the vertex of `addition` inserted into layer `layer_id`.
pub fn add_node_(ts: &mut ThickSurface, layer_id: usize, addition: &NodeAddition)
    requires
        old(ts).wf(),
        layer_id < 2,
        fits_edge(old(ts).layer(layer_id as int), addition.n),
    ensures
        final(ts).wf(),
        final(ts).is_update_of(
            *old(ts),
            layer_id as int,
            with_node(old(ts).layer(layer_id as int), addition.n),
        ),
{
    ts.layers[layer_id].add_node(addition);
}

/// `m` names a survivor and a run of vertices of one layer of `ts` that can
/// be merged: the layer exists, the survivor is one of its vertices, fewer
/// vertices are merged than the layer has, and the new position lies in the
/// window.
pub open spec fn merging_fits(ts: ThickSurface, m: NodeMerging) -> bool {
    &&& m.layer_id < 2
    &&& m.one_end.id < ts.layer(m.layer_id as int).len()
    &&& m.dist < ts.layer(m.layer_id as int).len()
    &&& in_window(m.survivor_x as int)
    &&& in_window(m.survivor_y as int)
}

/// The vertices of the merged layer after the merge `m`.
pub open spec fn merged_layer(ts: ThickSurface, m: NodeMerging) -> Seq<Node> {
    merged(
        ts.layer(m.layer_id as int),
        m.one_end.id as int,
        m.dist as nat,
        m.survivor_x,
        m.survivor_y,
    )
}

/// Carries out the merge `m` on its layer of the surface.
pub fn merge_nodes_(ts: &mut ThickSurface, m: &NodeMerging)
    requires
        old(ts).wf(),
        merging_fits(*old(ts), *m),
    ensures
        final(ts).wf(),
        final(ts).is_update_of(*old(ts), m.layer_id as int, merged_layer(*old(ts), *m)),
        final(ts).layer(m.layer_id as int).len() == old(ts).layer(m.layer_id as int).len()
            - m.dist,
{
    let _survivor: usize = ts.layers[m.layer_id].merge_chain(
        m.one_end.id,
        m.dist,
        m.survivor_x,
        m.survivor_y,
    );
}

} // verus!
