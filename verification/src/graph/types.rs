//! Vertices, meshes and the ring that links them.

use crate::fixed::{in_window, mean, mean_of};
use std::collections::HashMap;
use vstd::prelude::*;

verus! {

broadcast use vstd::std_specs::hash::group_hash_axioms;

pub type NodeIndex = usize;

/// Index of the outer boundary in a surface.
pub const OUTER: usize = 0;

/// Index of the inner boundary in a surface.
pub const INNER: usize = 1;

/// How far a displacement spreads along the ring: over a number of vertices
/// to each side, or over a length of boundary to each side.
#[derive(Copy, PartialEq, Eq, Hash, Debug)]
pub enum Smooth<L, R> {
    Count(L),
    Continuous(R),
}

impl<L: Copy, R: Copy> Clone for Smooth<L, R> {
    fn clone(&self) -> (r: Self)
        ensures
            r == *self,
    {
        *self
    }
}

impl Smooth<usize, i64> {
    /// The reach as a number: the count, or the length in lattice steps.
    pub open spec fn amount(self) -> int {
        match self {
            Smooth::Count(count) => count as int,
            Smooth::Continuous(length) => length as int,
        }
    }

    /// The reach as a number: the count, or the length in lattice steps.
    pub fn as_i128(&self) -> (r: i128)
        ensures
            r == self.amount(),
    {
        match self {
            Smooth::Count(count) => *count as i128,
            Smooth::Continuous(length) => *length as i128,
        }
    }

    /// The reach one vertex further along the ring, over an edge of length
    /// `rhs`: a count grows by one, a length by `rhs`.
    pub fn add(self, rhs: i64) -> (r: Smooth<usize, i64>)
        requires
            match self {
                Smooth::Count(count) => count < usize::MAX,
                Smooth::Continuous(length) => i64::MIN <= length + rhs <= i64::MAX,
            },
        ensures
            r == match self {
                Smooth::Count(count) => Smooth::<usize, i64>::Count((count + 1) as usize),
                Smooth::Continuous(length) => Smooth::<usize, i64>::Continuous(
                    (length + rhs) as i64,
                ),
            },
    {
        match self {
            Smooth::Count(count) => Smooth::Count(count + 1),
            Smooth::Continuous(length) => Smooth::Continuous(length + rhs),
        }
    }
}

/// A proposed move of one vertex: where the vertex stood when the move was
/// proposed, and the offset by which it is to move.
#[derive(Clone, Copy, Debug, PartialEq, Eq, Structural)]
pub struct NodeChange {
    pub id: NodeIndex,
    pub cur_x: i64,
    pub cur_y: i64,
    pub delta_x: i64,
    pub delta_y: i64,
}

/// What a field keeps for a vertex that already has the change `known` when
/// the change `new` arrives: the known change with, as its offset, the mean
/// of the two offsets.
pub open spec fn combined(known: NodeChange, new: NodeChange) -> NodeChange {
    NodeChange {
        delta_x: mean(known.delta_x as int, new.delta_x as int) as i64,
        delta_y: mean(known.delta_y as int, new.delta_y as int) as i64,
        ..known
    }
}

/// The field after the change `v` has arrived for vertex `k`: a first change
/// is kept as it is, a later one is combined with the one kept.
pub open spec fn with_change(
    field: Map<usize, NodeChange>,
    k: usize,
    v: NodeChange,
) -> Map<usize, NodeChange> {
    if field.contains_key(k) {
        field.insert(k, combined(field[k], v))
    } else {
        field.insert(k, v)
    }
}

/// A displacement field: at most one proposed move for each vertex id.
#[derive(Debug)]
pub enum NodeChangeMap {
    NCM(HashMap<usize, NodeChange>),
}

impl View for NodeChangeMap {
    type V = Map<usize, NodeChange>;

    open spec fn view(&self) -> Map<usize, NodeChange> {
        self->0@
    }
}

impl NodeChangeMap {
    /// The field without any move.
    pub fn new() -> (m: NodeChangeMap)
        ensures
            m@ == Map::<usize, NodeChange>::empty(),
    {
        NodeChangeMap::NCM(HashMap::new())
    }

    /// The move proposed for vertex `k`, if there is one.
    pub fn get(&self, k: &usize) -> (r: Option<&NodeChange>)
        ensures
            r is Some <==> self@.contains_key(*k),
            r is Some ==> *r.unwrap() == self@[*k],
    {
        match self {
            NodeChangeMap::NCM(m) => m.get(k),
        }
    }

    /// The moves of the field, by vertex id.
    pub fn unwrap(&self) -> (m: &HashMap<usize, NodeChange>)
        ensures
            m@ == self@,
    {
        match self {
            NodeChangeMap::NCM(m) => m,
        }
    }

    /// Adds the move `v` for vertex `k`. Where the field already holds a move
    /// for `k`, it keeps that move with the mean of the two offsets in
    /// place of its offset, and returns the move as it was.
    pub fn insert(&mut self, k: usize, v: NodeChange) -> (r: Option<NodeChange>)
        ensures
            final(self)@ == with_change(old(self)@, k, v),
            r == if old(self)@.contains_key(k) {
                Some(old(self)@[k])
            } else {
                None
            },
    {
        match self {
            NodeChangeMap::NCM(m) => {
                let known: Option<NodeChange> = match m.get(&k) {
                    Some(c) => Some(*c),
                    None => None,
                };
                match known {
                    Some(c) => {
                        let to_ins = NodeChange {
                            delta_x: mean_of(c.delta_x, v.delta_x),
                            delta_y: mean_of(c.delta_y, v.delta_y),
                            ..c
                        };
                        m.insert(k, to_ins)
                    },
                    None => m.insert(k, v),
                }
            },
        }
    }
}

/// One vertex of a mesh, with the ids of its two neighbours on the ring.
#[derive(Debug, Clone, Copy, PartialEq, Eq, Structural)]
pub struct Node {
    pub id: NodeIndex,
    pub x: i64,
    pub y: i64,
    pub next_id: NodeIndex,
    pub prev_id: NodeIndex,
}

impl Node {
    pub open spec fn position(self) -> (i64, i64) {
        (self.x, self.y)
    }

    /// The vertex's position.
    pub fn pos(&self) -> (p: (i64, i64))
        ensures
            p == self.position(),
    {
        (self.x, self.y)
    }
}

/// A closed polygon: vertex `i` is stored at index `i`, and the `next_id`
/// links form a single cycle through all vertices.
#[derive(Debug)]
pub struct Graph {
    pub nodes: Vec<Node>,
}

/// The links of vertex `i` stay inside the array, and its neighbours link
/// back to it.
pub open spec fn link_ok(nodes: Seq<Node>, i: int) -> bool {
    &&& nodes[i].id == i
    &&& nodes[i].next_id < nodes.len()
    &&& nodes[i].prev_id < nodes.len()
    &&& nodes[nodes[i].next_id as int].prev_id == i
    &&& nodes[nodes[i].prev_id as int].next_id == i
}

/// The links of every vertex are in order.
pub open spec fn links_ok(nodes: Seq<Node>) -> bool {
    forall|i: int| 0 <= i < nodes.len() ==> #[trigger] link_ok(nodes, i)
}

/// The place after `k` on a ring of `n` places.
pub open spec fn place_after(k: int, n: int) -> int {
    if k + 1 < n {
        k + 1
    } else {
        0
    }
}

/// Place `k` of `order` holds a vertex, `rank` leads back to the place, and
/// the vertex links to the one in the next place.
pub open spec fn place_ok(nodes: Seq<Node>, order: Seq<int>, rank: Seq<int>, k: int) -> bool {
    &&& 0 <= order[k] < nodes.len()
    &&& rank[order[k]] == k
    &&& nodes[order[k]].next_id == order[place_after(k, nodes.len() as int)]
}

/// `rank` gives vertex `i` a place, and `order` holds `i` there.
pub open spec fn rank_ok(nodes: Seq<Node>, order: Seq<int>, rank: Seq<int>, i: int) -> bool {
    &&& 0 <= rank[i] < nodes.len()
    &&& order[rank[i]] == i
}

/// `order` lists the vertices as the ring visits them from vertex 0, and
/// `rank` gives each vertex its place in that list.
pub open spec fn ring_order(nodes: Seq<Node>, order: Seq<int>, rank: Seq<int>) -> bool {
    &&& order.len() == nodes.len()
    &&& rank.len() == nodes.len()
    &&& nodes.len() > 0
    &&& order[0] == 0
    &&& forall|k: int| 0 <= k < nodes.len() ==> #[trigger] place_ok(nodes, order, rank, k)
    &&& forall|i: int| 0 <= i < nodes.len() ==> #[trigger] rank_ok(nodes, order, rank, i)
}

/// Every vertex of `nodes` lies in the window of the lattice.
pub open spec fn nodes_in_window(nodes: Seq<Node>) -> bool {
    forall|i: int|
        0 <= i < nodes.len() ==> in_window((#[trigger] nodes[i]).x as int) && in_window(
            nodes[i].y as int,
        )
}

/// The vertex reached from vertex 0 after `k` steps along `next_id`.
pub open spec fn walk(nodes: Seq<Node>, k: nat) -> int
    decreases k,
{
    if k == 0 {
        0
    } else {
        let at = walk(nodes, (k - 1) as nat);
        if 0 <= at < nodes.len() {
            nodes[at].next_id as int
        } else {
            0
        }
    }
}

/// The walk from vertex 0 meets vertex `i` before it has made as many steps
/// as there are vertices.
pub open spec fn walk_meets(nodes: Seq<Node>, i: int) -> bool {
    exists|k: nat| k < nodes.len() && #[trigger] walk(nodes, k) == i
}

/// `nodes` is one closed ring inside the window.
pub open spec fn ring_wf(nodes: Seq<Node>) -> bool {
    &&& links_ok(nodes)
    &&& nodes_in_window(nodes)
    &&& exists|order: Seq<int>, rank: Seq<int>| ring_order(nodes, order, rank)
}

/// Vertex `i` has the same id and the same neighbours in `a` and in `b`.
pub open spec fn links_agree(a: Seq<Node>, b: Seq<Node>, i: int) -> bool {
    &&& a[i].id == b[i].id
    &&& a[i].next_id == b[i].next_id
    &&& a[i].prev_id == b[i].prev_id
}

/// `a` and `b` are the same ring, whatever the positions of their vertices.
pub open spec fn same_links(a: Seq<Node>, b: Seq<Node>) -> bool {
    &&& a.len() == b.len()
    &&& forall|i: int| 0 <= i < a.len() ==> #[trigger] links_agree(a, b, i)
}

/// Moving vertices inside the window leaves a ring a ring.
pub proof fn lemma_same_links_wf(a: Seq<Node>, b: Seq<Node>)
    requires
        ring_wf(a),
        same_links(a, b),
        nodes_in_window(b),
    ensures
        ring_wf(b),
{
    let (order, rank) = ring_witness(a);
    assert forall|i: int| 0 <= i < b.len() implies #[trigger] link_ok(b, i) by {
        assert(link_ok(a, i));
        assert(links_agree(a, b, i));
        assert(links_agree(a, b, a[i].next_id as int));
        assert(links_agree(a, b, a[i].prev_id as int));
    }
    assert forall|k: int| 0 <= k < b.len() implies #[trigger] place_ok(b, order, rank, k) by {
        assert(place_ok(a, order, rank, k));
        assert(links_agree(a, b, order[k]));
    }
    assert forall|i: int| 0 <= i < b.len() implies #[trigger] rank_ok(b, order, rank, i) by {
        assert(rank_ok(a, order, rank, i));
    }
    assert(ring_order(b, order, rank));
}

/// Some witness of the ring of `nodes`.
pub open spec fn ring_witness(nodes: Seq<Node>) -> (Seq<int>, Seq<int>) {
    choose|order: Seq<int>, rank: Seq<int>| ring_order(nodes, order, rank)
}

/// A witness of the ring follows `walk` step by step.
pub proof fn lemma_order_is_walk(nodes: Seq<Node>, order: Seq<int>, rank: Seq<int>, k: nat)
    requires
        ring_order(nodes, order, rank),
        k <= nodes.len(),
    ensures
        walk(nodes, k) == order[if k < nodes.len() {
            k as int
        } else {
            0
        }],
    decreases k,
{
    if k > 0 {
        lemma_order_is_walk(nodes, order, rank, (k - 1) as nat);
        assert(place_ok(nodes, order, rank, k - 1));
    }
}

/// The walk from vertex 0 never leaves the ring.
pub proof fn lemma_walk_in_range(nodes: Seq<Node>, k: nat)
    requires
        ring_wf(nodes),
    ensures
        0 <= walk(nodes, k) < nodes.len(),
    decreases k,
{
    let (order, rank) = ring_witness(nodes);
    if k > 0 {
        lemma_walk_in_range(nodes, (k - 1) as nat);
        assert(link_ok(nodes, walk(nodes, (k - 1) as nat)));
    }
}

/// Walking `next_id` from vertex 0 as many times as the ring has vertices
/// leads back to vertex 0, and the walk meets every vertex exactly once on
/// the way.
pub proof fn lemma_walk_is_one_cycle(g: Graph)
    requires
        g.wf(),
    ensures
        walk(g.nodes@, g.nodes@.len()) == 0,
        forall|k: nat| k < g.nodes@.len() ==> 0 <= #[trigger] walk(g.nodes@, k) < g.nodes@.len(),
        forall|j: nat, k: nat|
            j < k < g.nodes@.len() ==> #[trigger] walk(g.nodes@, j) != #[trigger] walk(g.nodes@, k),
        forall|i: int| 0 <= i < g.nodes@.len() ==> #[trigger] walk_meets(g.nodes@, i),
{
    let nodes = g.nodes@;
    let (order, rank) = ring_witness(nodes);
    lemma_order_is_walk(nodes, order, rank, nodes.len());
    assert forall|k: nat| k < nodes.len() implies walk(nodes, k) == order[k as int] by {
        lemma_order_is_walk(nodes, order, rank, k);
    }
    assert forall|k: nat| k < nodes.len() implies 0 <= #[trigger] walk(nodes, k) < nodes.len() by {
        assert(place_ok(nodes, order, rank, k as int));
    }
    assert forall|j: nat, k: nat| j < k < nodes.len() implies #[trigger] walk(nodes, j)
        != #[trigger] walk(nodes, k) by {
        assert(place_ok(nodes, order, rank, j as int));
        assert(place_ok(nodes, order, rank, k as int));
    }
    assert forall|i: int| 0 <= i < nodes.len() implies #[trigger] walk_meets(nodes, i) by {
        assert(rank_ok(nodes, order, rank, i));
        let k = rank[i] as nat;
        assert(walk(nodes, k) == i);
    }
}

impl Clone for Graph {
    fn clone(&self) -> (r: Self)
        ensures
            r.nodes@ == self.nodes@,
    {
        let mut nodes: Vec<Node> = Vec::new();
        let mut i: usize = 0;
        while i < self.nodes.len()
            invariant
                i <= self.nodes@.len(),
                nodes@ == self.nodes@.take(i as int),
            decreases self.nodes@.len() - i,
        {
            nodes.push(self.nodes[i]);
            assert(nodes@ =~= self.nodes@.take(i + 1));
            i += 1;
        }
        assert(nodes@ =~= self.nodes@);
        Graph { nodes }
    }
}

impl Graph {
    /// The mesh is one closed ring inside the window.
    pub open spec fn wf(self) -> bool {
        ring_wf(self.nodes@)
    }

    /// The vertex after `id` on the ring.
    pub fn next(&self, id: usize) -> (n: &Node)
        requires
            self.wf(),
            id < self.nodes@.len(),
        ensures
            *n == self.nodes@[self.nodes@[id as int].next_id as int],
            n.id == self.nodes@[id as int].next_id,
            n.prev_id == id,
            n.id < self.nodes@.len(),
    {
        assert(link_ok(self.nodes@, id as int));
        assert(link_ok(self.nodes@, self.nodes@[id as int].next_id as int));
        &self.nodes[self.nodes[id].next_id]
    }

    /// The vertex before `id` on the ring.
    pub fn prev(&self, id: usize) -> (n: &Node)
        requires
            self.wf(),
            id < self.nodes@.len(),
        ensures
            *n == self.nodes@[self.nodes@[id as int].prev_id as int],
            n.id == self.nodes@[id as int].prev_id,
            n.next_id == id,
            n.id < self.nodes@.len(),
    {
        assert(link_ok(self.nodes@, id as int));
        assert(link_ok(self.nodes@, self.nodes@[id as int].prev_id as int));
        &self.nodes[self.nodes[id].prev_id]
    }
}

/// The two boundaries of the band of tissue: `layers[OUTER]` encloses
/// `layers[INNER]`.
#[derive(Debug)]
pub struct ThickSurface {
    pub layers: Vec<Graph>,
}

impl Clone for ThickSurface {
    fn clone(&self) -> (r: Self)
        ensures
            r.layers@.len() == self.layers@.len(),
            forall|l: int|
                0 <= l < self.layers@.len() ==> (#[trigger] r.layers@[l]).nodes@
                    == self.layers@[l].nodes@,
    {
        let mut layers: Vec<Graph> = Vec::new();
        let mut i: usize = 0;
        while i < self.layers.len()
            invariant
                i <= self.layers@.len(),
                layers@.len() == i,
                forall|l: int|
                    0 <= l < i ==> (#[trigger] layers@[l]).nodes@ == self.layers@[l].nodes@,
            decreases self.layers@.len() - i,
        {
            layers.push(self.layers[i].clone());
            i += 1;
        }
        ThickSurface { layers }
    }
}

impl ThickSurface {
    /// The surface has exactly its two boundaries, each a closed ring.
    pub open spec fn wf(self) -> bool {
        &&& self.layers@.len() == 2
        &&& self.layers@[OUTER as int].wf()
        &&& self.layers@[INNER as int].wf()
    }

    /// The vertices of layer `l`.
    pub open spec fn layer(self, l: int) -> Seq<Node> {
        self.layers@[l].nodes@
    }

    /// `self` is `before` with the vertices of layer `l` replaced by `nodes`.
    pub open spec fn is_update_of(self, before: ThickSurface, l: int, nodes: Seq<Node>) -> bool {
        &&& self.layers@.len() == before.layers@.len()
        &&& self.layer(l) == nodes
        &&& forall|k: int|
            0 <= k < self.layers@.len() && k != l ==> (#[trigger] self.layers@[k]).nodes@
                == before.layers@[k].nodes@
    }

    pub open spec fn outer(self) -> Seq<Node> {
        self.layers@[OUTER as int].nodes@
    }

    pub open spec fn inner(self) -> Seq<Node> {
        self.layers@[INNER as int].nodes@
    }

    /// Both boundaries of `self` hold the vertices that those of `other` hold.
    pub open spec fn same_as(self, other: ThickSurface) -> bool {
        &&& self.layers@.len() == other.layers@.len()
        &&& forall|l: int|
            0 <= l < self.layers@.len() ==> (#[trigger] self.layers@[l]).nodes@
                == other.layers@[l].nodes@
    }

    /// The surface bounded by `outer` and `inner`.
    pub fn new(outer: Graph, inner: Graph) -> (ts: ThickSurface)
        ensures
            ts.layers@ == seq![outer, inner],
    {
        let mut layers: Vec<Graph> = Vec::new();
        layers.push(outer);
        layers.push(inner);
        assert(layers@ =~= seq![outer, inner]);
        ThickSurface { layers }
    }
}

} // verus!
