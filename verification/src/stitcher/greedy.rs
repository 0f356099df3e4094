//! The greedy sweep: both rings are walked at once, and at each step the
//! cheaper of the two advances is taken.

use crate::graph::{
    closest_node_to_some_point, is_closest, lemma_nth_next_in_range, lemma_ring_reaches,
    node_dist_sq, node_in_window, nth_next, squared_distance_between_nodes,
};
use crate::graph::types::{link_ok, ring_wf, Graph, Node};
use crate::stitcher::types::{
    lemma_empty_tables_mirror, lemma_put_mirrors, table_covers, table_pairs, table_put,
    tables_mirror, Correspondent, Stitching,
};
use vstd::prelude::*;

verus! {

/// The entry that the tables keep for vertex `n`.
pub open spec fn entry_of(n: Node) -> Correspondent {
    (n.id, n.x, n.y)
}

/// Where the sweep stands: how often each pointer has advanced, and the
/// vertex each pointer is at.
pub struct Sweep {
    pub out_c: nat,
    pub out_at: int,
    pub inn_c: nat,
    pub inn_at: int,
}

/// The sweep advances the outer pointer: the inner ring is exhausted, or
/// neither ring is and the next outer vertex is strictly nearer to the current
/// inner vertex than the next inner vertex is to the current outer one.
pub open spec fn advances_outer(outer: Seq<Node>, inner: Seq<Node>, at: Sweep) -> bool {
    if at.out_c >= outer.len() {
        false
    } else if at.inn_c >= inner.len() {
        true
    } else {
        node_dist_sq(inner[at.inn_at], outer[outer[at.out_at].next_id as int]) < node_dist_sq(
            outer[at.out_at],
            inner[inner[at.inn_at].next_id as int],
        )
    }
}

/// The sweep after one more advance.
pub open spec fn advanced(outer: Seq<Node>, inner: Seq<Node>, at: Sweep) -> Sweep {
    if advances_outer(outer, inner, at) {
        Sweep { out_c: at.out_c + 1, out_at: outer[at.out_at].next_id as int, ..at }
    } else {
        Sweep { inn_c: at.inn_c + 1, inn_at: inner[at.inn_at].next_id as int, ..at }
    }
}

/// The sweep is over: one of the pointers has gone once round its ring and
/// one step further.
pub open spec fn sweep_done(outer: Seq<Node>, inner: Seq<Node>, at: Sweep) -> bool {
    at.out_c > outer.len() || at.inn_c > inner.len()
}

/// The two tables once the sweep that stands at `at` with the tables `tabs`
/// has run to its end: at each advance the current pair of vertices is
/// recorded in both tables.
pub open spec fn swept(
    outer: Seq<Node>,
    inner: Seq<Node>,
    at: Sweep,
    tabs: (Map<usize, Seq<Correspondent>>, Map<usize, Seq<Correspondent>>),
) -> (Map<usize, Seq<Correspondent>>, Map<usize, Seq<Correspondent>>)
    decreases (outer.len() + 1 - at.out_c) + (inner.len() + 1 - at.inn_c),
{
    if sweep_done(outer, inner, at) {
        tabs
    } else {
        let recorded = (
            table_put(tabs.0, outer[at.out_at].id, entry_of(inner[at.inn_at])),
            table_put(tabs.1, inner[at.inn_at].id, entry_of(outer[at.out_at])),
        );
        swept(outer, inner, advanced(outer, inner, at), recorded)
    }
}

/// Where the sweep starts: outer vertex 0 is paired with the inner vertex
/// `nearest`.
pub open spec fn sweep_start(nearest: int) -> Sweep {
    Sweep { out_c: 0, out_at: 0, inn_c: 0, inn_at: nearest }
}

/// `s` holds the tables of the greedy sweep over `outer` and `inner`, which
/// starts from outer vertex 0 and the inner vertex nearest to it.
pub open spec fn is_greedy_stitching(s: Stitching, outer: Seq<Node>, inner: Seq<Node>) -> bool {
    exists|nearest: int|
        #![trigger sweep_start(nearest)]
        is_closest(inner, nearest, outer[0].x as int, outer[0].y as int) && (
            s.outer_table(),
            s.inner_table(),
        ) == swept(
            outer,
            inner,
            sweep_start(nearest),
            (Map::<usize, Seq<Correspondent>>::empty(), Map::<usize, Seq<Correspondent>>::empty()),
        )
}

/// Every vertex of both boundaries has at least one correspondent.
pub open spec fn covers_all(s: Stitching, outer_count: nat, inner_count: nat) -> bool {
    &&& forall|o: usize| o < outer_count ==> #[trigger] s.covers_outer(o)
    &&& forall|i: usize| i < inner_count ==> #[trigger] s.covers_inner(i)
}

/// Aligns the two boundaries by a greedy sweep.
pub fn stitch(outer: &Graph, inner: &Graph) -> (res: Stitching)
    requires
        outer.wf(),
        inner.wf(),
        outer.nodes@.len() + inner.nodes@.len() + 2 < usize::MAX,
    ensures
        res.wf(),
        is_greedy_stitching(res, outer.nodes@, inner.nodes@),
        covers_all(res, outer.nodes@.len(), inner.nodes@.len()),
{
    let mut res: Stitching = Stitching::new();
    let outer_count: usize = outer.nodes.len();
    let inner_count: usize = inner.nodes.len();
    let mut out_c: usize = 0;
    let mut out_n: &Node = &outer.nodes[0];
    assert(link_ok(outer.nodes@, 0));
    assert(node_in_window(outer.nodes@[0]));
    let mut inn_c: usize = 0;
    let mut inn_n: &Node = closest_node_to_some_point(inner, out_n.x, out_n.y);
    let ghost start = inn_n.id as int;
    let ghost on = outer.nodes@;
    let ghost inn = inner.nodes@;
    let ghost empty = (
        Map::<usize, Seq<Correspondent>>::empty(),
        Map::<usize, Seq<Correspondent>>::empty(),
    );
    while out_c <= outer_count && inn_c <= inner_count
        invariant
            outer.wf(),
            inner.wf(),
            on == outer.nodes@,
            inn == inner.nodes@,
            outer_count == on.len(),
            inner_count == inn.len(),
            outer_count + inner_count + 2 < usize::MAX,
            res.wf(),
            out_c <= outer_count + 1,
            inn_c <= inner_count + 1,
            out_c > outer_count ==> inn_c >= inner_count,
            inn_c > inner_count ==> out_c >= outer_count,
            out_n.id < outer_count,
            *out_n == on[out_n.id as int],
            inn_n.id < inner_count,
            *inn_n == inn[inn_n.id as int],
            out_n.id == nth_next(on, 0, out_c as nat),
            inn_n.id == nth_next(inn, start, inn_c as nat),
            0 <= start < inner_count,
            res.count_from_outer() <= out_c + inn_c,
            swept(on, inn, sweep_start(start), empty) == swept(
                on,
                inn,
                Sweep {
                    out_c: out_c as nat,
                    out_at: out_n.id as int,
                    inn_c: inn_c as nat,
                    inn_at: inn_n.id as int,
                },
                (res.outer_table(), res.inner_table()),
            ),
            forall|c: nat|
                c < out_c && c < outer_count ==> res.covers_outer(
                    #[trigger] nth_next(on, 0, c) as usize,
                ),
            forall|c: nat|
                c < inn_c && c < inner_count ==> res.covers_inner(
                    #[trigger] nth_next(inn, start, c) as usize,
                ),
        decreases (outer_count + 1 - out_c) + (inner_count + 1 - inn_c),
    {
        let ghost at = Sweep {
            out_c: out_c as nat,
            out_at: out_n.id as int,
            inn_c: inn_c as nat,
            inn_at: inn_n.id as int,
        };
        let ghost before = res;
        proof {
            assert(link_ok(on, out_n.id as int));
            assert(link_ok(inn, inn_n.id as int));
            assert(node_in_window(*out_n));
            assert(node_in_window(*inn_n));
        }
        let out_next: &Node = outer.next(out_n.id);
        let inn_next: &Node = inner.next(inn_n.id);
        assert(node_in_window(*out_next));
        assert(node_in_window(*inn_next));
        let advance_outer: bool = if out_c >= outer_count {
            false
        } else if inn_c >= inner_count {
            true
        } else {
            squared_distance_between_nodes(inn_n, out_next) < squared_distance_between_nodes(
                out_n,
                inn_next,
            )
        };
        assert(advance_outer == advances_outer(on, inn, at));
        res.put((inn_n.id, inn_n.x, inn_n.y), (out_n.id, out_n.x, out_n.y));
        proof {
            assert forall|c: nat| c < out_c && c < outer_count implies res.covers_outer(
                #[trigger] nth_next(on, 0, c) as usize,
            ) by {
                assert(before.covers_outer(nth_next(on, 0, c) as usize));
            }
            assert forall|c: nat| c < inn_c && c < inner_count implies res.covers_inner(
                #[trigger] nth_next(inn, start, c) as usize,
            ) by {
                assert(before.covers_inner(nth_next(inn, start, c) as usize));
            }
        }
        if advance_outer {
            out_c += 1;
            out_n = out_next;
        } else {
            inn_c += 1;
            inn_n = inn_next;
        }
    }
    proof {
        assert forall|o: usize| o < outer_count implies #[trigger] res.covers_outer(o) by {
            let c = lemma_ring_reaches(on, 0, o as int);
            assert(res.covers_outer(nth_next(on, 0, c) as usize));
        }
        assert forall|i: usize| i < inner_count implies #[trigger] res.covers_inner(i) by {
            let c = lemma_ring_reaches(inn, start, i as int);
            assert(res.covers_inner(nth_next(inn, start, c) as usize));
        }
    }
    res
}

/// The sweep stands at `at` with the tables `tabs`, having started from the
/// inner vertex `start`: each pointer is where its count of advances has led
/// it, neither ring is left behind by the other, the tables are mirrored, and
/// every vertex that a pointer has left has a correspondent.
pub open spec fn sweep_is_sound(
    outer: Seq<Node>,
    inner: Seq<Node>,
    start: int,
    at: Sweep,
    tabs: (Map<usize, Seq<Correspondent>>, Map<usize, Seq<Correspondent>>),
) -> bool {
    &&& at.out_c <= outer.len() + 1
    &&& at.inn_c <= inner.len() + 1
    &&& at.out_c > outer.len() ==> at.inn_c >= inner.len()
    &&& at.inn_c > inner.len() ==> at.out_c >= outer.len()
    &&& at.out_at == nth_next(outer, 0, at.out_c)
    &&& at.inn_at == nth_next(inner, start, at.inn_c)
    &&& tables_mirror(tabs.0, tabs.1)
    &&& forall|c: nat|
        c < at.out_c && c < outer.len() ==> table_covers(
            tabs.0,
            #[trigger] nth_next(outer, 0, c) as usize,
        )
    &&& forall|c: nat|
        c < at.inn_c && c < inner.len() ==> table_covers(
            tabs.1,
            #[trigger] nth_next(inner, start, c) as usize,
        )
}

/// The tables of a sweep that has run to its end are mirrored, and every
/// vertex that either pointer has met has a correspondent.
pub open spec fn sweep_has_covered(
    outer: Seq<Node>,
    inner: Seq<Node>,
    start: int,
    tabs: (Map<usize, Seq<Correspondent>>, Map<usize, Seq<Correspondent>>),
) -> bool {
    &&& tables_mirror(tabs.0, tabs.1)
    &&& forall|c: nat|
        c < outer.len() ==> table_covers(tabs.0, #[trigger] nth_next(outer, 0, c) as usize)
    &&& forall|c: nat|
        c < inner.len() ==> table_covers(tabs.1, #[trigger] nth_next(inner, start, c) as usize)
}

/// A sound sweep runs to an end at which both rings are covered.
proof fn lemma_swept_covers(
    outer: Seq<Node>,
    inner: Seq<Node>,
    start: int,
    at: Sweep,
    tabs: (Map<usize, Seq<Correspondent>>, Map<usize, Seq<Correspondent>>),
)
    requires
        ring_wf(outer),
        ring_wf(inner),
        0 <= start < inner.len(),
        sweep_is_sound(outer, inner, start, at, tabs),
    ensures
        sweep_has_covered(outer, inner, start, swept(outer, inner, at, tabs)),
    decreases (outer.len() + 1 - at.out_c) + (inner.len() + 1 - at.inn_c),
{
    if !sweep_done(outer, inner, at) {
        lemma_nth_next_in_range(outer, 0, at.out_c);
        lemma_nth_next_in_range(inner, start, at.inn_c);
        assert(link_ok(outer, at.out_at));
        assert(link_ok(inner, at.inn_at));
        let recorded = (
            table_put(tabs.0, outer[at.out_at].id, entry_of(inner[at.inn_at])),
            table_put(tabs.1, inner[at.inn_at].id, entry_of(outer[at.out_at])),
        );
        lemma_put_mirrors(tabs.0, tabs.1, entry_of(inner[at.inn_at]), entry_of(outer[at.out_at]));
        let then = advanced(outer, inner, at);
        assert forall|c: nat| c < then.out_c && c < outer.len() implies table_covers(
            recorded.0,
            #[trigger] nth_next(outer, 0, c) as usize,
        ) by {
            if c < at.out_c {
                assert(table_covers(tabs.0, nth_next(outer, 0, c) as usize));
            }
        }
        assert forall|c: nat| c < then.inn_c && c < inner.len() implies table_covers(
            recorded.1,
            #[trigger] nth_next(inner, start, c) as usize,
        ) by {
            if c < at.inn_c {
                assert(table_covers(tabs.1, nth_next(inner, start, c) as usize));
            }
        }
        assert(sweep_is_sound(outer, inner, start, then, recorded));
        lemma_swept_covers(outer, inner, start, then, recorded);
    }
}

/// Whatever the size of the boundaries: the correspondence of the greedy
/// sweep gives every outer vertex and every inner vertex at least one
/// correspondent, lists `i` under `o` exactly where it lists `o` under `i`,
/// and counts as many pairs from its outer table as from its inner one.
pub proof fn lemma_greedy_stitching_covers(s: Stitching, outer: Seq<Node>, inner: Seq<Node>)
    requires
        ring_wf(outer),
        ring_wf(inner),
        is_greedy_stitching(s, outer, inner),
    ensures
        covers_all(s, outer.len(), inner.len()),
        s.mirrored(),
        s.count_from_outer() == s.count_from_inner(),
{
    let start = choose|nearest: int|
        #![trigger sweep_start(nearest)]
        is_closest(inner, nearest, outer[0].x as int, outer[0].y as int) && (
            s.outer_table(),
            s.inner_table(),
        ) == swept(
            outer,
            inner,
            sweep_start(nearest),
            (Map::<usize, Seq<Correspondent>>::empty(), Map::<usize, Seq<Correspondent>>::empty()),
        );
    let empty = (
        Map::<usize, Seq<Correspondent>>::empty(),
        Map::<usize, Seq<Correspondent>>::empty(),
    );
    lemma_empty_tables_mirror();
    assert(sweep_is_sound(outer, inner, start, sweep_start(start), empty));
    lemma_swept_covers(outer, inner, start, sweep_start(start), empty);
    assert forall|o: usize| o < outer.len() implies #[trigger] s.covers_outer(o) by {
        let c = lemma_ring_reaches(outer, 0, o as int);
        assert(table_covers(s.outer_table(), nth_next(outer, 0, c) as usize));
    }
    assert forall|i: usize| i < inner.len() implies #[trigger] s.covers_inner(i) by {
        let c = lemma_ring_reaches(inner, start, i as int);
        assert(table_covers(s.inner_table(), nth_next(inner, start, c) as usize));
    }
    assert forall|o: usize, i: usize|
        #![trigger s.linked(o, i)]
        #![trigger s.linked_back(o, i)]
        s.linked(o, i) <==> s.linked_back(o, i) by {
        assert(table_pairs(s.outer_table()).contains((o, i)) <==> table_pairs(
            s.inner_table(),
        ).contains((i, o)));
    }
}

} // verus!
