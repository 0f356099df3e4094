//! The polygon mesh and the surface made of two of them: construction,
//! measures and nearest-vertex queries.

pub mod effects;
pub mod types;

use crate::fixed::{half, in_window, COORD_MAX};
use crate::graph::effects::{
    add_node_, fits_edge, merge_nodes_, merged_layer, merging_fits, with_node, NodeAddition,
};
use crate::graph::types::{
    lemma_order_is_walk, link_ok, nodes_in_window, place_ok, rank_ok, ring_order, ring_wf,
    ring_witness, walk, Graph, Node, ThickSurface, INNER, OUTER,
};
use crate::linalg_helpers::{
    crossing_free, dist, dist_sq, dist_sq_spec, floor_sqrt, is_first_crossing_point,
    lines_in_window, lines_intersection, norm, segment_in_window, Segment,
};
use vstd::prelude::*;

verus! {

/// Every point of `coords` lies in the window of the lattice.
pub open spec fn points_in_window(coords: Seq<(i64, i64)>) -> bool {
    forall|i: int|
        0 <= i < coords.len() ==> in_window((#[trigger] coords[i]).0 as int) && in_window(
            coords[i].1 as int,
        )
}

/// The ring that joins `coords` in the order given: vertex `i` sits at
/// `coords[i]`, between vertex `i - 1` and vertex `i + 1`, and the last vertex
/// is joined to the first.
pub open spec fn ring_of_points(coords: Seq<(i64, i64)>) -> Seq<Node> {
    Seq::new(
        coords.len(),
        |i: int|
            Node {
                id: i as usize,
                x: coords[i].0,
                y: coords[i].1,
                next_id: (if i + 1 < coords.len() {
                    i + 1
                } else {
                    0
                }) as usize,
                prev_id: (if i > 0 {
                    i - 1
                } else {
                    coords.len() - 1
                }) as usize,
            },
    )
}

/// The ring of points is a well-formed mesh.
pub proof fn lemma_ring_of_points_wf(coords: Seq<(i64, i64)>)
    requires
        coords.len() >= 1,
        coords.len() <= usize::MAX,
        points_in_window(coords),
    ensures
        ring_wf(ring_of_points(coords)),
{
    let nodes = ring_of_points(coords);
    let order = Seq::new(coords.len(), |i: int| i);
    assert forall|k: int| 0 <= k < nodes.len() implies #[trigger] place_ok(
        nodes,
        order,
        order,
        k,
    ) by {}
    assert forall|k: int| 0 <= k < nodes.len() implies #[trigger] rank_ok(
        nodes,
        order,
        order,
        k,
    ) by {}
    assert(ring_order(nodes, order, order));
    assert forall|k: int| 0 <= k < nodes.len() implies #[trigger] link_ok(nodes, k) by {}
    assert(nodes_in_window(nodes)) by {
        assert forall|i: int| 0 <= i < nodes.len() implies in_window(
            (#[trigger] nodes[i]).x as int,
        ) && in_window(nodes[i].y as int) by {
            assert(in_window(coords[i].0 as int));
        }
    }
}

/// Whether every point of `coords` lies in the window of the lattice.
pub fn coords_fit(coords: &Vec<(i64, i64)>) -> (b: bool)
    ensures
        b == points_in_window(coords@),
{
    let mut i: usize = 0;
    while i < coords.len()
        invariant
            i <= coords@.len(),
            points_in_window(coords@.take(i as int)),
        decreases coords@.len() - i,
    {
        let (x, y) = coords[i];
        if x < -COORD_MAX || x > COORD_MAX || y
            < -COORD_MAX || y > COORD_MAX {
            return false;
        }
        assert forall|k: int| 0 <= k < i + 1 implies in_window(
            (#[trigger] coords@.take(i + 1)[k]).0 as int,
        ) && in_window(coords@.take(i + 1)[k].1 as int) by {
            if k < i {
                assert(coords@.take(i as int)[k] == coords@[k]);
            }
        }
        i += 1;
    }
    assert(coords@.take(i as int) =~= coords@);
    true
}

/// Builds the closed polygon that joins `node_coordinates` in the order given.
pub fn cyclic_graph_from_coords(node_coordinates: &Vec<(i64, i64)>) -> (g: Graph)
    requires
        node_coordinates@.len() >= 1,
        points_in_window(node_coordinates@),
    ensures
        g.nodes@ == ring_of_points(node_coordinates@),
        g.wf(),
{
    let mut to_return: Graph = Graph { nodes: Vec::new() };
    let num_points: usize = node_coordinates.len();
    let mut i: usize = 0;
    while i < num_points
        invariant
            num_points == node_coordinates@.len(),
            i <= num_points,
            to_return.nodes@ == ring_of_points(node_coordinates@).take(i as int),
        decreases num_points - i,
    {
        let new_node = Node {
            id: i,
            x: node_coordinates[i].0,
            y: node_coordinates[i].1,
            next_id: if i + 1 < num_points {
                i + 1
            } else {
                0
            },
            prev_id: if i > 0 {
                i - 1
            } else {
                num_points - 1
            },
        };
        to_return.nodes.push(new_node);
        assert(to_return.nodes@ =~= ring_of_points(node_coordinates@).take(i + 1));
        i += 1;
    }
    proof {
        assert(to_return.nodes@ =~= ring_of_points(node_coordinates@));
        lemma_ring_of_points_wf(node_coordinates@);
    }
    to_return
}

/// The term of vertex `i` in the area sum: its abscissa times the difference
/// in ordinate between its successor and its predecessor.
pub open spec fn shoelace_term(nodes: Seq<Node>, i: int) -> int {
    nodes[i].x * (nodes[nodes[i].next_id as int].y - nodes[nodes[i].prev_id as int].y)
}

/// The sum of the area terms of the first `k` vertices.
pub open spec fn shoelace(nodes: Seq<Node>, k: nat) -> int
    decreases k,
{
    if k == 0 {
        0
    } else {
        shoelace(nodes, (k - 1) as nat) + shoelace_term(nodes, k - 1)
    }
}

/// The signed area that the ring encloses, positive when it runs
/// counter-clockwise, in squares of the lattice.
pub open spec fn area_spec(nodes: Seq<Node>) -> int {
    half(shoelace(nodes, nodes.len()))
}

/// No area term exceeds the product of the largest coordinate and the largest
/// offset.
pub proof fn lemma_shoelace_term_bound(nodes: Seq<Node>, i: int)
    requires
        ring_wf(nodes),
        0 <= i < nodes.len(),
    ensures
        -576_460_752_303_423_488 <= shoelace_term(nodes, i) <= 576_460_752_303_423_488,
{
    let x = nodes[i].x as int;
    let d = nodes[nodes[i].next_id as int].y - nodes[nodes[i].prev_id as int].y;
    assert(link_ok(nodes, i));
    assert(in_window(nodes[nodes[i].next_id as int].y as int));
    assert(in_window(nodes[nodes[i].prev_id as int].y as int));
    assert(-576_460_752_303_423_488 <= x * d <= 576_460_752_303_423_488) by (nonlinear_arith)
        requires
            -536_870_912 <= x <= 536_870_912,
            -1_073_741_824 <= d <= 1_073_741_824,
    ;
}

/// The signed area enclosed by the mesh.
pub fn area(g: &Graph) -> (r: i128)
    requires
        g.wf(),
    ensures
        r == area_spec(g.nodes@),
        -0x2000_0000_0000_0000_0000_0000_0000_0000 <= r
            <= 0x2000_0000_0000_0000_0000_0000_0000_0000,
{
    let mut ret: i128 = 0;
    let mut i: usize = 0;
    while i < g.nodes.len()
        invariant
            g.wf(),
            i <= g.nodes@.len(),
            ret == shoelace(g.nodes@, i as nat),
            -576_460_752_303_423_488 * i <= ret <= 576_460_752_303_423_488 * i,
        decreases g.nodes@.len() - i,
    {
        let n: &Node = &g.nodes[i];
        let prev: &Node = g.prev(i);
        let next: &Node = g.next(i);
        proof {
            lemma_shoelace_term_bound(g.nodes@, i as int);
            assert(in_window(next.y as int));
            assert(in_window(prev.y as int));
        }
        ret = ret + (n.x as i128) * ((next.y - prev.y) as i128);
        i += 1;
    }
    if ret >= 0 {
        ret / 2
    } else {
        -((-ret) / 2)
    }
}

/// The area of the band between the two boundaries: outer minus inner.
pub open spec fn gray_matter_area_spec(ts: ThickSurface) -> int {
    area_spec(ts.outer()) - area_spec(ts.inner())
}

/// The area of the band between the two boundaries.
pub fn gray_matter_area(ts: &ThickSurface) -> (r: i128)
    requires
        ts.wf(),
    ensures
        r == gray_matter_area_spec(*ts),
{
    let outer: i128 = area(&ts.layers[OUTER]);
    let inner: i128 = area(&ts.layers[INNER]);
    outer - inner
}

/// The length of the edge that leaves vertex `i`, rounded down to the lattice.
pub open spec fn edge_length(nodes: Seq<Node>, i: int) -> int {
    let a = nodes[i];
    let b = nodes[a.next_id as int];
    floor_sqrt(dist_sq_spec(a.x as int, a.y as int, b.x as int, b.y as int))
}

/// The length of the first `k` edges met when walking the ring from vertex 0.
pub open spec fn walked_length(nodes: Seq<Node>, k: nat) -> int
    decreases k,
{
    if k == 0 {
        0
    } else {
        walked_length(nodes, (k - 1) as nat) + edge_length(nodes, walk(nodes, (k - 1) as nat))
    }
}

/// The length of the whole ring.
pub open spec fn perimeter_spec(nodes: Seq<Node>) -> int {
    walked_length(nodes, nodes.len())
}

/// The length of the boundary: the sum of its edge lengths, walking the ring
/// once from vertex 0.
pub fn perimeter(g: &Graph) -> (r: i128)
    requires
        g.wf(),
    ensures
        r == perimeter_spec(g.nodes@),
{
    let ghost (order, rank) = ring_witness(g.nodes@);
    let count: usize = g.nodes.len();
    let mut ret: i128 = 0;
    let mut cur: usize = 0;
    let mut steps: usize = 0;
    loop
        invariant_except_break
            g.wf(),
            count == g.nodes@.len(),
            ring_order(g.nodes@, order, rank),
            steps < g.nodes@.len(),
            cur == order[steps as int],
            ret == walked_length(g.nodes@, steps as nat),
            0 <= ret <= 4_294_967_296 * steps,
        ensures
            ret == walked_length(g.nodes@, g.nodes@.len()),
        decreases g.nodes@.len() - steps,
    {
        proof {
            lemma_order_is_walk(g.nodes@, order, rank, steps as nat);
            assert(place_ok(g.nodes@, order, rank, steps as int));
        }
        let next: &Node = g.next(cur);
        let here: &Node = &g.nodes[cur];
        assert(in_window(here.x as int) && in_window(here.y as int));
        assert(in_window(next.x as int) && in_window(next.y as int));
        ret = ret + norm(here.x - next.x, here.y - next.y) as i128;
        cur = next.id;
        if cur == 0 {
            proof {
                assert(place_ok(g.nodes@, order, rank, 0));
                if steps + 1 < g.nodes@.len() {
                    assert(place_ok(g.nodes@, order, rank, steps + 1));
                }
            }
            break ;
        }
        steps += 1;
    }
    ret
}

/// The position of the vertex met after `k` steps from vertex 0.
pub open spec fn walked_point(nodes: Seq<Node>, k: int) -> (i64, i64) {
    nodes[walk(nodes, k as nat)].position()
}

impl Graph {
    /// The positions of the vertices in ring order from vertex 0, closed by
    /// the position of vertex 0 once more.
    pub fn to_vec_of_points(&self) -> (r: Vec<(i64, i64)>)
        requires
            self.wf(),
        ensures
            r@.len() == self.nodes@.len() + 1,
            forall|k: int| 0 <= k < r@.len() ==> #[trigger] r@[k] == walked_point(self.nodes@, k),
            r@[self.nodes@.len() as int] == r@[0],
    {
        let ghost (order, rank) = ring_witness(self.nodes@);
        let count: usize = self.nodes.len();
        let mut ret: Vec<(i64, i64)> = Vec::new();
        let mut cur: usize = 0;
        let mut steps: usize = 0;
        ret.push((self.nodes[0].x, self.nodes[0].y));
        loop
            invariant_except_break
                self.wf(),
                count == self.nodes@.len(),
                ring_order(self.nodes@, order, rank),
                steps < self.nodes@.len(),
                cur == order[steps as int],
                ret@.len() == steps + 1,
                forall|k: int|
                    0 <= k <= steps ==> #[trigger] ret@[k] == walked_point(self.nodes@, k),
            ensures
                ret@.len() == self.nodes@.len() + 1,
                forall|k: int|
                    0 <= k < ret@.len() ==> #[trigger] ret@[k] == walked_point(self.nodes@, k),
                walk(self.nodes@, self.nodes@.len()) == 0,
            decreases self.nodes@.len() - steps,
        {
            proof {
                lemma_order_is_walk(self.nodes@, order, rank, steps as nat);
                lemma_order_is_walk(self.nodes@, order, rank, (steps + 1) as nat);
                assert(place_ok(self.nodes@, order, rank, steps as int));
            }
            let next: &Node = self.next(cur);
            ret.push((next.x, next.y));
            cur = next.id;
            if cur == 0 {
                proof {
                    assert(place_ok(self.nodes@, order, rank, 0));
                    if steps + 1 < self.nodes@.len() {
                        assert(place_ok(self.nodes@, order, rank, steps + 1));
                    }
                }
                break ;
            }
            steps += 1;
        }
        ret
    }
}

/// The positions of the vertices, by id.
pub open spec fn points_of(nodes: Seq<Node>) -> Seq<(i64, i64)> {
    Seq::new(nodes.len(), |i: int| nodes[i].position())
}

/// The positions of the vertices of the mesh, by id.
pub fn graph_to_points(g: &Graph) -> (r: Vec<(i64, i64)>)
    ensures
        r@ == points_of(g.nodes@),
{
    let mut ret: Vec<(i64, i64)> = Vec::new();
    let mut i: usize = 0;
    while i < g.nodes.len()
        invariant
            i <= g.nodes@.len(),
            ret@ == points_of(g.nodes@).take(i as int),
        decreases g.nodes@.len() - i,
    {
        ret.push((g.nodes[i].x, g.nodes[i].y));
        assert(ret@ =~= points_of(g.nodes@).take(i + 1));
        i += 1;
    }
    assert(ret@ =~= points_of(g.nodes@));
    ret
}

/// The edge that leaves vertex `i`.
pub open spec fn edge_of(nodes: Seq<Node>, i: int) -> Segment {
    (nodes[i].x, nodes[i].y, nodes[nodes[i].next_id as int].x, nodes[nodes[i].next_id as int].y)
}

/// The edges of the ring, by the id of the vertex each one leaves.
pub open spec fn edges_of(nodes: Seq<Node>) -> Seq<Segment> {
    Seq::new(nodes.len(), |i: int| edge_of(nodes, i))
}

/// The edges of all `layers`, layer after layer.
pub open spec fn layers_edges(layers: Seq<Graph>) -> Seq<Segment>
    decreases layers.len(),
{
    if layers.len() == 0 {
        Seq::empty()
    } else {
        layers_edges(layers.drop_last()) + edges_of(layers.last().nodes@)
    }
}

/// Every mesh of `layers` is a closed ring.
pub open spec fn layers_wf(layers: Seq<Graph>) -> bool {
    forall|l: int| 0 <= l < layers.len() ==> (#[trigger] layers[l]).wf()
}

/// The edges of a well-formed mesh lie in the window.
pub proof fn lemma_edges_in_window(nodes: Seq<Node>)
    requires
        ring_wf(nodes),
    ensures
        lines_in_window(edges_of(nodes)),
{
    assert forall|i: int| 0 <= i < edges_of(nodes).len() implies segment_in_window(
        #[trigger] edges_of(nodes)[i],
    ) by {
        assert(link_ok(nodes, i));
        assert(in_window(nodes[i].x as int));
        assert(in_window(nodes[nodes[i].next_id as int].x as int));
    }
}

/// The edges of the mesh, by the id of the vertex each one leaves.
pub fn graph_to_lines(g: &Graph) -> (r: Vec<Segment>)
    requires
        g.wf(),
    ensures
        r@ == edges_of(g.nodes@),
        lines_in_window(r@),
{
    let mut ret: Vec<Segment> = Vec::new();
    let mut i: usize = 0;
    while i < g.nodes.len()
        invariant
            g.wf(),
            i <= g.nodes@.len(),
            ret@ == edges_of(g.nodes@).take(i as int),
        decreases g.nodes@.len() - i,
    {
        let n: &Node = &g.nodes[i];
        let n_next: &Node = g.next(i);
        ret.push((n.x, n.y, n_next.x, n_next.y));
        assert(ret@ =~= edges_of(g.nodes@).take(i + 1));
        i += 1;
    }
    proof {
        assert(ret@ =~= edges_of(g.nodes@));
        lemma_edges_in_window(g.nodes@);
    }
    ret
}

/// The edges of all the meshes, one mesh after the other.
pub fn graphs_to_lines(graphs: &Vec<Graph>) -> (r: Vec<Segment>)
    requires
        layers_wf(graphs@),
    ensures
        r@ == layers_edges(graphs@),
        lines_in_window(r@),
{
    let mut ret: Vec<Segment> = Vec::new();
    let mut l: usize = 0;
    assert(graphs@.take(0) =~= Seq::<Graph>::empty());
    while l < graphs.len()
        invariant
            layers_wf(graphs@),
            l <= graphs@.len(),
            ret@ == layers_edges(graphs@.take(l as int)),
            lines_in_window(ret@),
        decreases graphs@.len() - l,
    {
        let mut lines: Vec<Segment> = graph_to_lines(&graphs[l]);
        let ghost before = ret@;
        ret.append(&mut lines);
        proof {
            assert(graphs@.take(l + 1).drop_last() =~= graphs@.take(l as int));
            assert(graphs@.take(l + 1).last() == graphs@[l as int]);
            assert(ret@ =~= before + edges_of(graphs@[l as int].nodes@));
        }
        l += 1;
    }
    assert(graphs@.take(l as int) =~= graphs@);
    ret
}

/// The distance between two points, rounded down to the lattice.
pub fn distance_between_points(x1: i64, y1: i64, x2: i64, y2: i64) -> (r: i64)
    requires
        in_window(x1 as int),
        in_window(y1 as int),
        in_window(x2 as int),
        in_window(y2 as int),
    ensures
        r == floor_sqrt(dist_sq_spec(x1 as int, y1 as int, x2 as int, y2 as int)),
        0 <= r < 4_294_967_296,
{
    dist(x1, y1, x2, y2)
}

/// The squared distance between two vertices.
pub open spec fn node_dist_sq(a: Node, b: Node) -> int {
    dist_sq_spec(a.x as int, a.y as int, b.x as int, b.y as int)
}

/// A vertex whose position lies in the window.
pub open spec fn node_in_window(n: Node) -> bool {
    in_window(n.x as int) && in_window(n.y as int)
}

/// The distance between two vertices, rounded down to the lattice.
pub fn distance_between_nodes(n1: &Node, n2: &Node) -> (r: i64)
    requires
        node_in_window(*n1),
        node_in_window(*n2),
    ensures
        r == floor_sqrt(node_dist_sq(*n1, *n2)),
        0 <= r < 4_294_967_296,
{
    dist(n1.x, n1.y, n2.x, n2.y)
}

/// The squared distance between two vertices.
pub fn squared_distance_between_nodes(n1: &Node, n2: &Node) -> (r: u64)
    requires
        node_in_window(*n1),
        node_in_window(*n2),
    ensures
        r == node_dist_sq(*n1, *n2),
{
    dist_sq(n1.x, n1.y, n2.x, n2.y)
}

/// The id that the next vertex added to the mesh receives.
pub fn available_node_id(g: &Graph) -> (id: usize)
    ensures
        id == g.nodes@.len(),
{
    g.nodes.len()
}

/// The squared distance from vertex `i` to the point `(x, y)`.
pub open spec fn point_dist_sq(nodes: Seq<Node>, i: int, x: int, y: int) -> int {
    dist_sq_spec(nodes[i].x as int, nodes[i].y as int, x, y)
}

/// Vertex `id` is nearest to `(x, y)`, and no vertex of smaller id is as near.
pub open spec fn is_closest(nodes: Seq<Node>, id: int, x: int, y: int) -> bool {
    &&& 0 <= id < nodes.len()
    &&& forall|i: int|
        0 <= i < nodes.len() ==> point_dist_sq(nodes, id, x, y) <= #[trigger] point_dist_sq(
            nodes,
            i,
            x,
            y,
        )
    &&& forall|i: int|
        0 <= i < id ==> point_dist_sq(nodes, id, x, y) < #[trigger] point_dist_sq(nodes, i, x, y)
}

/// The vertex nearest to the point, the one of smallest id among equals.
pub fn closest_node_to_some_point(graph: &Graph, some_point_x: i64, some_point_y: i64) -> (n: &Node)
    requires
        graph.wf(),
        in_window(some_point_x as int),
        in_window(some_point_y as int),
    ensures
        is_closest(graph.nodes@, n.id as int, some_point_x as int, some_point_y as int),
        *n == graph.nodes@[n.id as int],
{
    let mut best: usize = 0;
    assert(node_in_window(graph.nodes@[0]));
    let mut best_dist: u64 = dist_sq(
        graph.nodes[0].x,
        graph.nodes[0].y,
        some_point_x,
        some_point_y,
    );
    let mut i: usize = 1;
    while i < graph.nodes.len()
        invariant
            graph.wf(),
            in_window(some_point_x as int),
            in_window(some_point_y as int),
            1 <= i <= graph.nodes@.len(),
            best < i,
            best_dist == point_dist_sq(
                graph.nodes@,
                best as int,
                some_point_x as int,
                some_point_y as int,
            ),
            forall|k: int|
                0 <= k < i ==> best_dist <= #[trigger] point_dist_sq(
                    graph.nodes@,
                    k,
                    some_point_x as int,
                    some_point_y as int,
                ),
            forall|k: int|
                0 <= k < best ==> best_dist < #[trigger] point_dist_sq(
                    graph.nodes@,
                    k,
                    some_point_x as int,
                    some_point_y as int,
                ),
        decreases graph.nodes@.len() - i,
    {
        assert(node_in_window(graph.nodes@[i as int]));
        let d: u64 = dist_sq(graph.nodes[i].x, graph.nodes[i].y, some_point_x, some_point_y);
        if d < best_dist {
            best = i;
            best_dist = d;
        }
        i += 1;
    }
    assert(link_ok(graph.nodes@, best as int));
    &graph.nodes[best]
}

/// The pair of ring neighbours that brackets the point: the nearest vertex
/// `c` with its successor when the successor is nearer to the point than the
/// predecessor of `c`, and else the predecessor with `c`.
pub open spec fn is_closest_pair(nodes: Seq<Node>, a: int, b: int, x: int, y: int) -> bool {
    if is_closest(nodes, a, x, y) && point_dist_sq(nodes, nodes[a].next_id as int, x, y)
        < point_dist_sq(nodes, nodes[a].prev_id as int, x, y) {
        b == nodes[a].next_id
    } else {
        &&& is_closest(nodes, b, x, y)
        &&& a == nodes[b].prev_id
        &&& !(point_dist_sq(nodes, nodes[b].next_id as int, x, y) < point_dist_sq(
            nodes,
            nodes[b].prev_id as int,
            x,
            y,
        ))
    }
}

/// The nearest vertex and whichever of its two neighbours is nearer to the
/// point, in ring order.
pub fn closest_nodes_to_some_point(graph: &Graph, some_point_x: i64, some_point_y: i64) -> (r: (
    &Node,
    &Node,
))
    requires
        graph.wf(),
        in_window(some_point_x as int),
        in_window(some_point_y as int),
    ensures
        is_closest_pair(
            graph.nodes@,
            r.0.id as int,
            r.1.id as int,
            some_point_x as int,
            some_point_y as int,
        ),
        r.0.id < graph.nodes@.len(),
        r.1.id < graph.nodes@.len(),
        *r.0 == graph.nodes@[r.0.id as int],
        *r.1 == graph.nodes@[r.1.id as int],
        r.0.next_id == r.1.id,
{
    let closest: &Node = closest_node_to_some_point(graph, some_point_x, some_point_y);
    let next: &Node = graph.next(closest.id);
    let prev: &Node = graph.prev(closest.id);
    assert(node_in_window(*next));
    assert(node_in_window(*prev));
    if dist_sq(next.x, next.y, some_point_x, some_point_y) < dist_sq(
        prev.x,
        prev.y,
        some_point_x,
        some_point_y,
    ) {
        (closest, next)
    } else {
        proof {
            lemma_closest_is_unique(
                graph.nodes@,
                closest.id as int,
                some_point_x as int,
                some_point_y as int,
            );
        }
        (prev, closest)
    }
}

/// Only one vertex is the nearest of smallest id.
pub proof fn lemma_closest_is_unique(nodes: Seq<Node>, id: int, x: int, y: int)
    requires
        is_closest(nodes, id, x, y),
    ensures
        forall|other: int| is_closest(nodes, other, x, y) ==> other == id,
{
    assert forall|other: int| is_closest(nodes, other, x, y) implies other == id by {
        if other < id {
            assert(point_dist_sq(nodes, id, x, y) < point_dist_sq(nodes, other, x, y));
            assert(point_dist_sq(nodes, other, x, y) <= point_dist_sq(nodes, id, x, y));
        }
        if id < other {
            assert(point_dist_sq(nodes, other, x, y) < point_dist_sq(nodes, id, x, y));
            assert(point_dist_sq(nodes, id, x, y) <= point_dist_sq(nodes, other, x, y));
        }
    }
}

/// A squared distance `d2` belongs to a distance strictly above `t`.
pub open spec fn farther_than(d2: int, t: int) -> bool {
    t < 0 || d2 > t * t
}

/// A squared distance `d2` belongs to a distance strictly below `t`.
pub open spec fn closer_than(d2: int, t: int) -> bool {
    t > 0 && d2 < t * t
}

/// Whether the distance with square `d2` is strictly above `t`.
pub fn is_farther_than(d2: u64, t: i64) -> (b: bool)
    ensures
        b == farther_than(d2 as int, t as int),
{
    if t < 0 {
        true
    } else {
        assert(t * t <= 0x4000_0000_0000_0000_0000_0000_0000_0000) by (nonlinear_arith)
            requires
                0 <= t <= 0x7fff_ffff_ffff_ffff,
        ;
        (d2 as u128) > (t as u128) * (t as u128)
    }
}

/// Whether the distance with square `d2` is strictly below `t`.
pub fn is_closer_than(d2: u64, t: i64) -> (b: bool)
    ensures
        b == closer_than(d2 as int, t as int),
{
    if t <= 0 {
        false
    } else {
        assert(t * t <= 0x4000_0000_0000_0000_0000_0000_0000_0000) by (nonlinear_arith)
            requires
                0 <= t <= 0x7fff_ffff_ffff_ffff,
        ;
        (d2 as u128) < (t as u128) * (t as u128)
    }
}

/// The coordinate half way between `a` and `b`, rounded towards zero.
pub open spec fn midpoint(a: int, b: int) -> int {
    half(a + b)
}

/// The coordinate half way between two coordinates of the window.
pub fn midpoint_of(a: i64, b: i64) -> (m: i64)
    requires
        in_window(a as int),
        in_window(b as int),
    ensures
        m == midpoint(a as int, b as int),
        in_window(m as int),
{
    let sum: i64 = a + b;
    if sum >= 0 {
        sum / 2
    } else {
        -((-sum) / 2)
    }
}

/// `n` is vertex `n.id` of `nodes`.
pub open spec fn is_vertex(nodes: Seq<Node>, n: Node) -> bool {
    n.id < nodes.len() && nodes[n.id as int] == n
}

/// The edge from `prev` to `next` is an edge of the ring and longer than
/// `threshold`.
pub open spec fn edge_is_long(nodes: Seq<Node>, prev: Node, next: Node, threshold: int) -> bool {
    &&& prev.next_id == next.id
    &&& next.prev_id == prev.id
    &&& farther_than(node_dist_sq(prev, next), threshold)
}

/// The vertex that splits the edge from `prev` to `next` at its midpoint.
pub open spec fn split_node(nodes: Seq<Node>, prev: Node, next: Node) -> Node {
    Node {
        id: nodes.len() as usize,
        x: midpoint(prev.x as int, next.x as int) as i64,
        y: midpoint(prev.y as int, next.y as int) as i64,
        next_id: next.id,
        prev_id: prev.id,
    }
}

/// Proposes the vertex that splits the edge from `prev` to `next` at its
/// midpoint, where the two are joined by an edge longer than the threshold.
pub fn node_to_add(g: &Graph, prev: &Node, next: &Node, addition_threshold: i64) -> (r: Option<
    NodeAddition,
>)
    requires
        g.wf(),
        is_vertex(g.nodes@, *prev),
        is_vertex(g.nodes@, *next),
    ensures
        r is Some <==> edge_is_long(g.nodes@, *prev, *next, addition_threshold as int),
        r is Some ==> r.unwrap().n == split_node(g.nodes@, *prev, *next),
        r is Some ==> fits_edge(g.nodes@, r.unwrap().n),
{
    if g.next(prev.id).id == next.id && g.prev(next.id).id == prev.id && is_farther_than(
        squared_distance_between_nodes(prev, next),
        addition_threshold,
    ) {
        let new_node_id: usize = available_node_id(g);
        let new_node = Node {
            id: new_node_id,
            x: midpoint_of(prev.x, next.x),
            y: midpoint_of(prev.y, next.y),
            next_id: next.id,
            prev_id: prev.id,
        };
        Some(NodeAddition { n: new_node })
    } else {
        None
    }
}

/// A run of vertices about to be merged into one: the survivor `one_end`, the
/// last merged vertex `oth_end`, which lies `dist` steps after it on the ring
/// of layer `layer_id`, and the position that the survivor takes.
#[derive(Debug, Clone, Copy, PartialEq, Eq, Structural)]
pub struct NodeMerging {
    pub one_end: Node,
    pub oth_end: Node,
    pub dist: usize,
    pub layer_id: usize,
    pub survivor_x: i64,
    pub survivor_y: i64,
}

/// The id of the vertex `k` steps after vertex `start` on the ring.
pub open spec fn nth_next(nodes: Seq<Node>, start: int, k: nat) -> int
    decreases k,
{
    if k == 0 {
        start
    } else {
        let at = nth_next(nodes, start, (k - 1) as nat);
        if 0 <= at < nodes.len() {
            nodes[at].next_id as int
        } else {
            0
        }
    }
}

/// Following the ring never leaves the mesh.
pub proof fn lemma_nth_next_in_range(nodes: Seq<Node>, start: int, k: nat)
    requires
        ring_wf(nodes),
        0 <= start < nodes.len(),
    ensures
        0 <= nth_next(nodes, start, k) < nodes.len(),
    decreases k,
{
    if k > 0 {
        lemma_nth_next_in_range(nodes, start, (k - 1) as nat);
        assert(link_ok(nodes, nth_next(nodes, start, (k - 1) as nat)));
    }
}

impl Node {
    /// The vertex after this one on the ring of `g`.
    pub fn next<'a>(&self, g: &'a Graph) -> (n: &'a Node)
        requires
            g.wf(),
            is_vertex(g.nodes@, *self),
        ensures
            *n == g.nodes@[self.next_id as int],
            is_vertex(g.nodes@, *n),
            n.id == self.next_id,
            n.prev_id == self.id,
    {
        g.next(self.id)
    }

    /// The vertex `dist` steps after this one on the ring of `g`.
    pub fn next_by<'a>(&'a self, g: &'a Graph, dist: usize) -> (n: &'a Node)
        requires
            g.wf(),
            is_vertex(g.nodes@, *self),
        ensures
            *n == g.nodes@[nth_next(g.nodes@, self.id as int, dist as nat)],
            is_vertex(g.nodes@, *n),
    {
        let mut n: &Node = self;
        let mut i: usize = 0;
        while i < dist
            invariant
                g.wf(),
                i <= dist,
                n.id == nth_next(g.nodes@, self.id as int, i as nat),
                is_vertex(g.nodes@, *n),
            decreases dist - i,
        {
            n = n.next(g);
            i += 1;
        }
        n
    }

    /// The vertex before this one on the ring of `g`.
    pub fn prev<'a>(&self, g: &'a Graph) -> (n: &'a Node)
        requires
            g.wf(),
            is_vertex(g.nodes@, *self),
        ensures
            *n == g.nodes@[self.prev_id as int],
            is_vertex(g.nodes@, *n),
            n.id == self.prev_id,
            n.next_id == self.id,
    {
        g.prev(self.id)
    }
}

/// The place that lies `k` places after place `a` on a ring of `n` places,
/// for `k` up to `n`.
pub open spec fn place_at(a: int, k: int, n: int) -> int {
    if a + k < n {
        a + k
    } else {
        a + k - n
    }
}

/// Following the ring for `k` steps from the vertex in place `a` leads to the
/// vertex `k` places further.
pub proof fn lemma_nth_next_follows_order(
    nodes: Seq<Node>,
    order: Seq<int>,
    rank: Seq<int>,
    a: int,
    k: nat,
)
    requires
        ring_order(nodes, order, rank),
        0 <= a < nodes.len(),
        k <= nodes.len(),
    ensures
        nth_next(nodes, order[a], k) == order[place_at(a, k as int, nodes.len() as int)],
    decreases k,
{
    if k > 0 {
        lemma_nth_next_follows_order(nodes, order, rank, a, (k - 1) as nat);
        assert(place_ok(nodes, order, rank, place_at(a, k - 1, nodes.len() as int)));
    }
}

/// From any vertex, the ring reaches every vertex in fewer steps than it has
/// vertices.
pub proof fn lemma_ring_reaches(nodes: Seq<Node>, start: int, target: int) -> (k: nat)
    requires
        ring_wf(nodes),
        0 <= start < nodes.len(),
        0 <= target < nodes.len(),
    ensures
        k < nodes.len(),
        nth_next(nodes, start, k) == target,
{
    let (order, rank) = ring_witness(nodes);
    assert(rank_ok(nodes, order, rank, start));
    assert(rank_ok(nodes, order, rank, target));
    let a = rank[start];
    let r = rank[target];
    let k = if r >= a {
        (r - a) as nat
    } else {
        (r - a + nodes.len()) as nat
    };
    lemma_nth_next_follows_order(nodes, order, rank, a, k);
    k
}

/// The edges of a surface: those of the outer boundary, then those of the
/// inner one.
pub open spec fn surface_edges(outer: Seq<Node>, inner: Seq<Node>) -> Seq<Segment> {
    edges_of(outer) + edges_of(inner)
}

/// The edges of a surface of two layers are those of its outer boundary
/// followed by those of its inner one.
pub proof fn lemma_layers_edges_of_surface(ts: ThickSurface)
    requires
        ts.layers@.len() == 2,
    ensures
        layers_edges(ts.layers@) == surface_edges(ts.outer(), ts.inner()),
{
    let one = ts.layers@.drop_last();
    assert(one.drop_last() =~= Seq::<Graph>::empty());
    assert(layers_edges(one.drop_last()) =~= Seq::<Segment>::empty());
    assert(layers_edges(one) =~= edges_of(ts.outer()));
}

/// No two edges of the surface cross, within one boundary or between the two.
pub open spec fn surface_is_simple(ts: ThickSurface) -> bool {
    crossing_free(surface_edges(ts.outer(), ts.inner()))
}

/// The point in which two edges of the surface cross: that of the first
/// crossing pair, the outer edges scanned before the inner ones; nothing where
/// no edges cross.
pub fn crossing_of(ts: &ThickSurface) -> (r: Option<(i64, i64)>)
    requires
        ts.wf(),
    ensures
        r is None <==> surface_is_simple(*ts),
        r is Some ==> is_first_crossing_point(
            surface_edges(ts.outer(), ts.inner()),
            r.unwrap(),
        ),
{
    proof {
        lemma_layers_edges_of_surface(*ts);
    }
    lines_intersection(&graphs_to_lines(&ts.layers))
}

/// Whether no two edges of the surface cross.
pub fn is_simple(ts: &ThickSurface) -> (b: bool)
    requires
        ts.wf(),
    ensures
        b == surface_is_simple(*ts),
{
    match crossing_of(ts) {
        Some(_) => false,
        None => true,
    }
}

/// The merge that joins `src` with the vertex `i` steps after it, at the
/// midpoint of the two.
pub open spec fn merging_of(nodes: Seq<Node>, layer_id: usize, src: Node, i: nat) -> NodeMerging {
    let oth = nodes[nth_next(nodes, src.id as int, i)];
    NodeMerging {
        one_end: src,
        oth_end: oth,
        dist: i as usize,
        layer_id: layer_id,
        survivor_x: midpoint(src.x as int, oth.x as int) as i64,
        survivor_y: midpoint(src.y as int, oth.y as int) as i64,
    }
}

/// The surface that the merge `m` would leave has no crossing edges.
pub open spec fn merge_is_safe(ts: ThickSurface, m: NodeMerging) -> bool {
    if m.layer_id == OUTER {
        crossing_free(surface_edges(merged_layer(ts, m), ts.inner()))
    } else {
        crossing_free(surface_edges(ts.outer(), merged_layer(ts, m)))
    }
}

/// The two ends of `m` are nearer to each other than the threshold and, where
/// crossings are checked, the merge leaves a surface without crossing edges.
pub open spec fn merge_qualifies(
    ts: ThickSurface,
    m: NodeMerging,
    deletion_threshold: int,
    check_ints: bool,
) -> bool {
    &&& closer_than(node_dist_sq(m.one_end, m.oth_end), deletion_threshold)
    &&& check_ints ==> merge_is_safe(ts, m)
}

/// Whether the surface that the merge would leave has no crossing edges. The
/// merge is tried on a copy.
pub fn merging_wouldnt_add_intersection(ts: &ThickSurface, node_merging: &NodeMerging) -> (b: bool)
    requires
        ts.wf(),
        merging_fits(*ts, *node_merging),
    ensures
        b == merge_is_safe(*ts, *node_merging),
{
    let mut simulated_ts: ThickSurface = ts.clone();
    proof {
        lemma_same_surface_wf(*ts, simulated_ts);
    }
    merge_nodes_(&mut simulated_ts, node_merging);
    is_simple(&simulated_ts)
}

/// A surface with the vertices of a well-formed surface is well formed.
pub proof fn lemma_same_surface_wf(a: ThickSurface, b: ThickSurface)
    requires
        a.wf(),
        b.same_as(a),
    ensures
        b.wf(),
        b.outer() == a.outer(),
        b.inner() == a.inner(),
{
    assert(b.layers@[0].nodes@ == a.layers@[0].nodes@);
    assert(b.layers@[1].nodes@ == a.layers@[1].nodes@);
}

/// Whether the two ends are near enough and the merge would leave the surface
/// without crossing edges.
pub fn can_merge(ts: &ThickSurface, node_merging: &NodeMerging, deletion_threshold: i64) -> (b:
    bool)
    requires
        ts.wf(),
        merging_fits(*ts, *node_merging),
        node_in_window(node_merging.one_end),
        node_in_window(node_merging.oth_end),
    ensures
        b == merge_qualifies(*ts, *node_merging, deletion_threshold as int, true),
{
    is_closer_than(
        squared_distance_between_nodes(&node_merging.one_end, &node_merging.oth_end),
        deletion_threshold,
    ) && merging_wouldnt_add_intersection(ts, node_merging)
}

/// Whether the two ends are near enough, whatever the merge does to the
/// surface.
pub fn can_merge_without_intersection_check(
    _ts: &ThickSurface,
    node_merging: &NodeMerging,
    deletion_threshold: i64,
) -> (b: bool)
    requires
        node_in_window(node_merging.one_end),
        node_in_window(node_merging.oth_end),
    ensures
        b == merge_qualifies(*_ts, *node_merging, deletion_threshold as int, false),
{
    is_closer_than(
        squared_distance_between_nodes(&node_merging.one_end, &node_merging.oth_end),
        deletion_threshold,
    )
}

/// The merge of `src` with the vertex `i` steps after it is a candidate: it
/// lies within the search distance, and the vertex is another than `src`: the
/// search does not go all the way round the ring.
pub open spec fn merge_in_reach(nodes: Seq<Node>, i: int, max_merge_steps_away: int) -> bool {
    1 <= i <= max_merge_steps_away && i < nodes.len()
}

/// Searches forward from `src` for a vertex to merge it with: the nearest in
/// ring steps, at most `max_merge_steps_away` steps away, that is closer than
/// `deletion_threshold` and, where `check_ints` is set, whose merge leaves the
/// surface without crossing edges. The search stops before it comes back to
/// `src`.
pub fn nodes_to_merge(
    ts: &ThickSurface,
    layer_id: usize,
    src: &Node,
    deletion_threshold: i64,
    max_merge_steps_away: usize,
    check_ints: bool,
) -> (r: Option<NodeMerging>)
    requires
        ts.wf(),
        layer_id < 2,
        is_vertex(ts.layer(layer_id as int), *src),
    ensures
        r is Some ==> {
            let m = r.unwrap();
            &&& merge_in_reach(
                ts.layer(layer_id as int),
                m.dist as int,
                max_merge_steps_away as int,
            )
            &&& m == merging_of(ts.layer(layer_id as int), layer_id, *src, m.dist as nat)
            &&& merging_fits(*ts, m)
            &&& merge_qualifies(*ts, m, deletion_threshold as int, check_ints)
            &&& forall|j: int|
                1 <= j < m.dist ==> !merge_qualifies(
                    *ts,
                    #[trigger] merging_of(ts.layer(layer_id as int), layer_id, *src, j as nat),
                    deletion_threshold as int,
                    check_ints,
                )
        },
        r is None ==> forall|j: int|
            merge_in_reach(ts.layer(layer_id as int), j, max_merge_steps_away as int)
                ==> !merge_qualifies(
                *ts,
                #[trigger] merging_of(ts.layer(layer_id as int), layer_id, *src, j as nat),
                deletion_threshold as int,
                check_ints,
            ),
{
    let graph: &Graph = &ts.layers[layer_id];
    let count: usize = graph.nodes.len();
    let ghost nodes = ts.layer(layer_id as int);
    let mut i: usize = 1;
    let mut cur: usize = src.id;
    while i <= max_merge_steps_away && i < count
        invariant
            ts.wf(),
            layer_id < 2,
            graph == ts.layers@[layer_id as int],
            nodes == ts.layer(layer_id as int),
            count == nodes.len(),
            is_vertex(nodes, *src),
            1 <= i <= count,
            cur == nth_next(nodes, src.id as int, (i - 1) as nat),
            cur < count,
            forall|j: int|
                1 <= j < i ==> !merge_qualifies(
                    *ts,
                    #[trigger] merging_of(nodes, layer_id, *src, j as nat),
                    deletion_threshold as int,
                    check_ints,
                ),
        decreases count - i,
    {
        let nnnn: Node = *src;
        let mmmm: Node = *graph.next(cur);
        proof {
            lemma_nth_next_in_range(nodes, src.id as int, i as nat);
        }
        cur = mmmm.id;
        assert(node_in_window(nnnn));
        assert(node_in_window(mmmm));
        let m = NodeMerging {
            one_end: nnnn,
            oth_end: mmmm,
            dist: i,
            layer_id: layer_id,
            survivor_x: midpoint_of(nnnn.x, mmmm.x),
            survivor_y: midpoint_of(nnnn.y, mmmm.y),
        };
        assert(m == merging_of(nodes, layer_id, *src, i as nat));
        let b: bool = match check_ints {
            true => can_merge(ts, &m, deletion_threshold),
            false => can_merge_without_intersection_check(ts, &m, deletion_threshold),
        };
        if b {
            return Some(m);
        }
        i += 1;
    }
    None
}

/// Vertex `id` of layer `layer` is nearest to `(x, y)` among the vertices of
/// both boundaries, the outer boundary winning where the two are as near.
pub open spec fn is_closest_across(ts: ThickSurface, layer: int, id: int, x: int, y: int) -> bool {
    exists|o: int, i: int|
        #![trigger is_closest(ts.outer(), o, x, y), is_closest(ts.inner(), i, x, y)]
        is_closest(ts.outer(), o, x, y) && is_closest(ts.inner(), i, x, y) && if point_dist_sq(
            ts.inner(),
            i,
            x,
            y,
        ) < point_dist_sq(ts.outer(), o, x, y) {
            layer == INNER && id == i
        } else {
            layer == OUTER && id == o
        }
}

/// The vertex nearest to the point among the vertices of both boundaries,
/// with the layer it belongs to.
pub fn closest_node_across_all_layers(
    ts: &ThickSurface,
    some_point_x: i64,
    some_point_y: i64,
) -> (r: (&Node, usize))
    requires
        ts.wf(),
        in_window(some_point_x as int),
        in_window(some_point_y as int),
    ensures
        r.1 < 2,
        is_vertex(ts.layer(r.1 as int), *r.0),
        is_closest_across(*ts, r.1 as int, r.0.id as int, some_point_x as int, some_point_y as int),
{
    let outer: &Node = closest_node_to_some_point(&ts.layers[OUTER], some_point_x, some_point_y);
    let inner: &Node = closest_node_to_some_point(&ts.layers[INNER], some_point_x, some_point_y);
    assert(node_in_window(*outer) && node_in_window(*inner));
    assert(is_closest(ts.outer(), outer.id as int, some_point_x as int, some_point_y as int));
    assert(is_closest(ts.inner(), inner.id as int, some_point_x as int, some_point_y as int));
    if dist_sq(inner.x, inner.y, some_point_x, some_point_y) < dist_sq(
        outer.x,
        outer.y,
        some_point_x,
        some_point_y,
    ) {
        (inner, INNER)
    } else {
        (outer, OUTER)
    }
}

/// The pair `(a, b)` of layer `layer` brackets `(x, y)` and is the one chosen
/// among the bracketing pairs of both boundaries: the pair whose first vertex
/// is nearer, the outer pair winning where the two are as near.
pub open spec fn is_closest_pair_across(
    ts: ThickSurface,
    layer: int,
    a: int,
    b: int,
    x: int,
    y: int,
) -> bool {
    exists|oa: int, ob: int, ia: int, ib: int|
        #![trigger
            is_closest_pair(ts.outer(), oa, ob, x, y),
            is_closest_pair(ts.inner(), ia, ib, x, y)
        ]
        is_closest_pair(ts.outer(), oa, ob, x, y) && is_closest_pair(ts.inner(), ia, ib, x, y)
            && 0 <= oa < ts.outer().len() && 0 <= ia < ts.inner().len() && if point_dist_sq(
            ts.inner(),
            ia,
            x,
            y,
        ) < point_dist_sq(ts.outer(), oa, x, y) {
            layer == INNER && a == ia && b == ib
        } else {
            layer == OUTER && a == oa && b == ob
        }
}

/// The pair of ring neighbours that brackets the point, chosen among the
/// pairs of both boundaries, with the layer it belongs to.
pub fn closest_nodes_across_all_layers(
    ts: &ThickSurface,
    some_point_x: i64,
    some_point_y: i64,
) -> (r: (&Node, &Node, usize))
    requires
        ts.wf(),
        in_window(some_point_x as int),
        in_window(some_point_y as int),
    ensures
        r.2 < 2,
        is_vertex(ts.layer(r.2 as int), *r.0),
        is_vertex(ts.layer(r.2 as int), *r.1),
        r.0.next_id == r.1.id,
        is_closest_pair_across(
            *ts,
            r.2 as int,
            r.0.id as int,
            r.1.id as int,
            some_point_x as int,
            some_point_y as int,
        ),
{
    let (outer_p, outer_n) = closest_nodes_to_some_point(
        &ts.layers[OUTER],
        some_point_x,
        some_point_y,
    );
    let (inner_p, inner_n) = closest_nodes_to_some_point(
        &ts.layers[INNER],
        some_point_x,
        some_point_y,
    );
    assert(node_in_window(*outer_p) && node_in_window(*inner_p));
    assert(is_closest_pair(
        ts.outer(),
        outer_p.id as int,
        outer_n.id as int,
        some_point_x as int,
        some_point_y as int,
    ));
    assert(is_closest_pair(
        ts.inner(),
        inner_p.id as int,
        inner_n.id as int,
        some_point_x as int,
        some_point_y as int,
    ));
    if dist_sq(inner_p.x, inner_p.y, some_point_x, some_point_y) < dist_sq(
        outer_p.x,
        outer_p.y,
        some_point_x,
        some_point_y,
    ) {
        (inner_p, inner_n, INNER)
    } else {
        (outer_p, outer_n, OUTER)
    }
}

/// The vertex that a click at `(x, y)` adds between the vertices `a` and `b`
/// of a ring.
pub open spec fn placed_node(nodes: Seq<Node>, a: int, b: int, x: i64, y: i64) -> Node {
    Node { id: nodes.len() as usize, x: x, y: y, next_id: b as usize, prev_id: a as usize }
}

/// The surface with `nodes` in place of the vertices of layer `layer` has no
/// crossing edges.
pub open spec fn simple_with(ts: ThickSurface, layer: int, nodes: Seq<Node>) -> bool {
    if layer == OUTER {
        crossing_free(surface_edges(nodes, ts.inner()))
    } else {
        crossing_free(surface_edges(ts.outer(), nodes))
    }
}

impl ThickSurface {
    /// The vertices of layer `layer_id` in ring order from vertex 0, closed by
    /// vertex 0 once more.
    pub fn points_iter(&self, layer_id: usize) -> (r: Vec<&Node>)
        requires
            self.wf(),
            layer_id < 2,
        ensures
            r@.len() == self.layer(layer_id as int).len() + 1,
            forall|k: int|
                0 <= k < r@.len() ==> *#[trigger] r@[k] == self.layer(layer_id as int)[walk(
                    self.layer(layer_id as int),
                    k as nat,
                )],
    {
        let g: &Graph = &self.layers[layer_id];
        let ghost nodes = g.nodes@;
        let ghost (order, rank) = ring_witness(nodes);
        let count: usize = g.nodes.len();
        let mut ret: Vec<&Node> = Vec::new();
        let mut cur: usize = 0;
        let mut steps: usize = 0;
        ret.push(&g.nodes[0]);
        loop
            invariant_except_break
                g.wf(),
                nodes == g.nodes@,
                count == nodes.len(),
                ring_order(nodes, order, rank),
                steps < count,
                cur == order[steps as int],
                ret@.len() == steps + 1,
                forall|k: int|
                    0 <= k <= steps ==> *#[trigger] ret@[k] == nodes[walk(nodes, k as nat)],
            ensures
                ret@.len() == count + 1,
                forall|k: int|
                    0 <= k < ret@.len() ==> *#[trigger] ret@[k] == nodes[walk(nodes, k as nat)],
            decreases count - steps,
        {
            proof {
                lemma_order_is_walk(nodes, order, rank, steps as nat);
                lemma_order_is_walk(nodes, order, rank, (steps + 1) as nat);
                assert(place_ok(nodes, order, rank, steps as int));
            }
            let next: &Node = g.next(cur);
            ret.push(next);
            cur = next.id;
            if cur == 0 {
                proof {
                    assert(place_ok(nodes, order, rank, 0));
                    if steps + 1 < count {
                        assert(place_ok(nodes, order, rank, steps + 1));
                    }
                }
                break ;
            }
            steps += 1;
        }
        ret
    }

    /// Adds a vertex at `(x, y)` between the pair of neighbours that brackets
    /// the point, unless that would make edges cross: the vertex is added to a
    /// copy, and the copy replaces the surface only if none of its edges
    /// cross.
    pub fn best_effort_add(&mut self, x: i64, y: i64) -> (r: Result<(), ()>)
        requires
            old(self).wf(),
            in_window(x as int),
            in_window(y as int),
        ensures
            final(self).wf(),
            r is Err ==> *final(self) == *old(self),
            exists|layer: int, a: int, b: int|
                #![trigger is_closest_pair_across(*old(self), layer, a, b, x as int, y as int)]
                is_closest_pair_across(*old(self), layer, a, b, x as int, y as int) && {
                    let nodes = with_node(
                        old(self).layer(layer),
                        placed_node(old(self).layer(layer), a, b, x, y),
                    );
                    &&& r is Ok <==> simple_with(*old(self), layer, nodes)
                    &&& r is Ok ==> final(self).is_update_of(*old(self), layer, nodes)
                },
    {
        let mut new_ts: ThickSurface = self.clone();
        proof {
            lemma_same_surface_wf(*self, new_ts);
        }
        let (prev, next, layer_id) = closest_nodes_across_all_layers(self, x, y);
        let new_node_id: usize = available_node_id(&self.layers[layer_id]);
        let new_node = Node { id: new_node_id, x: x, y: y, next_id: next.id, prev_id: prev.id };
        let ghost pair = (prev.id as int, next.id as int);
        assert(new_node == placed_node(self.layer(layer_id as int), pair.0, pair.1, x, y));
        assert(new_ts.layer(layer_id as int) == self.layer(layer_id as int));
        add_node_(&mut new_ts, layer_id, &NodeAddition { n: new_node });
        proof {
            assert(new_ts.outer() == new_ts.layer(0) && new_ts.inner() == new_ts.layer(1));
            assert(self.outer() == self.layer(0) && self.inner() == self.layer(1));
        }
        if is_simple(&new_ts) {
            *self = new_ts;
            assert(is_closest_pair_across(
                *old(self),
                layer_id as int,
                pair.0,
                pair.1,
                x as int,
                y as int,
            ));
            Ok(())
        } else {
            assert(is_closest_pair_across(
                *old(self),
                layer_id as int,
                pair.0,
                pair.1,
                x as int,
                y as int,
            ));
            Err(())
        }
    }

    /// Takes the vertex nearest to `(x, y)` out of its boundary, unless that
    /// would make edges cross or leave the boundary without a vertex: the
    /// vertex is merged into its predecessor on a copy, and the copy replaces
    /// the surface only if none of its edges cross.
    pub fn best_effort_delete(&mut self, x: i64, y: i64) -> (r: Result<(), ()>)
        requires
            old(self).wf(),
            in_window(x as int),
            in_window(y as int),
        ensures
            final(self).wf(),
            r is Err ==> *final(self) == *old(self),
            exists|layer: int, id: int|
                #![trigger is_closest_across(*old(self), layer, id, x as int, y as int)]
                is_closest_across(*old(self), layer, id, x as int, y as int) && 0 <= layer < 2 && {
                    let nodes = old(self).layer(layer);
                    let keeper = nodes[nodes[id].prev_id as int];
                    let m = NodeMerging {
                        one_end: keeper,
                        oth_end: nodes[id],
                        dist: 1,
                        layer_id: layer as usize,
                        survivor_x: keeper.x,
                        survivor_y: keeper.y,
                    };
                    &&& r is Ok <==> nodes.len() >= 2 && simple_with(
                        *old(self),
                        layer,
                        merged_layer(*old(self), m),
                    )
                    &&& r is Ok ==> final(self).is_update_of(
                        *old(self),
                        layer,
                        merged_layer(*old(self), m),
                    )
                },
    {
        let mut new_ts: ThickSurface = self.clone();
        proof {
            lemma_same_surface_wf(*self, new_ts);
        }
        let (dier, layer_id) = closest_node_across_all_layers(self, x, y);
        let ghost id = dier.id as int;
        let keeper: Node = *self.layers[layer_id].prev(dier.id);
        let m = NodeMerging {
            one_end: keeper,
            oth_end: *dier,
            dist: 1,
            layer_id: layer_id,
            survivor_x: keeper.x,
            survivor_y: keeper.y,
        };
        assert(is_closest_across(*old(self), layer_id as int, id, x as int, y as int));
        if self.layers[layer_id].nodes.len() < 2 {
            return Err(());
        }
        proof {
            assert(node_in_window(keeper));
            assert(new_ts.layer(layer_id as int) == self.layer(layer_id as int));
            assert(merged_layer(new_ts, m) == merged_layer(*self, m));
        }
        merge_nodes_(&mut new_ts, &m);
        proof {
            assert(new_ts.outer() == new_ts.layer(0) && new_ts.inner() == new_ts.layer(1));
            assert(self.outer() == self.layer(0) && self.inner() == self.layer(1));
        }
        if is_simple(&new_ts) {
            *self = new_ts;
            Ok(())
        } else {
            Err(())
        }
    }
}

} // verus!
