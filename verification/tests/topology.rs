use sann::graph::effects::{
    add_node_, apply_changes, change_from_draws, changer_of_choice, changes_fit, merge_nodes_,
    random_change, random_move, revert_changes, scale, smooth_change_out, NodeAddition,
};
use sann::fixed::{mean_of, quotient_of, UNIT};
use sann::graph::types::{
    Graph, Node, NodeChange, NodeChangeMap, Smooth, ThickSurface, INNER, OUTER,
};
use sann::graph::{
    available_node_id, can_merge, can_merge_without_intersection_check,
    closest_node_across_all_layers, closest_nodes_across_all_layers, cyclic_graph_from_coords,
    graphs_to_lines, gray_matter_area, is_simple, merging_wouldnt_add_intersection, node_to_add,
    nodes_to_merge, NodeMerging,
};
use sann::maintenance::{add_single_node_effects, delete_single_node_effects};
use sann::stitcher::types::Stitching;

fn ring_is_whole(g: &Graph) {
    let n = g.nodes.len();
    let mut seen = vec![false; n];
    let mut at = 0usize;
    for _ in 0..n {
        assert_eq!(g.nodes[at].id, at);
        assert!(!seen[at]);
        seen[at] = true;
        let next = g.nodes[at].next_id;
        assert_eq!(g.nodes[next].prev_id, at);
        at = next;
    }
    assert_eq!(at, 0);
}

fn positions_in_ring_order(g: &Graph) -> Vec<(i64, i64)> {
    let mut points = g.to_vec_of_points();
    points.pop();
    points
}

fn bump() -> ThickSurface {
    let outer = cyclic_graph_from_coords(&vec![
        (0, 0),
        (0, 2000),
        (2000, 0),
        (10000, 0),
        (10000, -10000),
        (-10000, -10000),
        (-10000, 0),
    ]);
    let inner = cyclic_graph_from_coords(&vec![(-2000, 300), (-2000, 1500), (-3000, 900)]);
    ThickSurface::new(outer, inner)
}

fn squares() -> ThickSurface {
    let outer = cyclic_graph_from_coords(&vec![(0, 0), (100, 0), (100, 100), (0, 100)]);
    let inner = cyclic_graph_from_coords(&vec![(40, 40), (60, 40), (60, 60), (40, 60)]);
    ThickSurface::new(outer, inner)
}

fn change(id: usize, dx: i64, dy: i64) -> NodeChange {
    NodeChange { id, cur_x: 0, cur_y: 0, delta_x: dx, delta_y: dy }
}

fn deltas(field: &NodeChangeMap, upto: usize) -> Vec<Option<(i64, i64)>> {
    (0..upto).map(|k| field.get(&k).map(|c| (c.delta_x, c.delta_y))).collect()
}

#[test]
fn combine_rule_takes_the_mean() {
    let mut field = NodeChangeMap::new();
    assert_eq!(field.insert(3, change(3, 1, 2)), None);
    assert_eq!(field.insert(3, change(3, 3, -2)), Some(change(3, 1, 2)));
    let kept = field.get(&3).unwrap();
    assert_eq!((kept.delta_x, kept.delta_y), (2, 0));
    assert!(field.get(&2).is_none());
    assert_eq!(field.unwrap().len(), 1);
}

#[test]
fn combine_rule_is_a_moving_average_not_a_weighted_mean() {
    let mut field = NodeChangeMap::new();
    field.insert(0, change(0, 8 * UNIT, 0));
    field.insert(0, change(0, 0, 0));
    field.insert(0, change(0, 0, 0));
    assert_eq!(field.get(&0).unwrap().delta_x, 2 * UNIT);
}

#[test]
fn combine_rule_keeps_the_first_reference_position() {
    let mut field = NodeChangeMap::new();
    field.insert(1, NodeChange { id: 1, cur_x: 7, cur_y: 8, delta_x: 10, delta_y: 10 });
    field.insert(1, NodeChange { id: 1, cur_x: 70, cur_y: 80, delta_x: 20, delta_y: -10 });
    assert_eq!(
        *field.get(&1).unwrap(),
        NodeChange { id: 1, cur_x: 7, cur_y: 8, delta_x: 15, delta_y: 0 }
    );
}

#[test]
fn means_and_quotients_round_towards_zero() {
    assert_eq!(mean_of(1, 2), 1);
    assert_eq!(mean_of(-1, -2), -1);
    assert_eq!(mean_of(i64::MAX, i64::MAX), i64::MAX);
    assert_eq!(mean_of(i64::MIN, i64::MIN), i64::MIN);
    assert_eq!(mean_of(i64::MIN, i64::MAX), 0);
    assert_eq!(quotient_of(7, 2), 3);
    assert_eq!(quotient_of(-7, 2), -3);
    assert_eq!(quotient_of(-6, 3), -2);
    assert_eq!(quotient_of(0, 5), 0);
}

#[test]
fn insertion_splits_the_one_long_edge() {
    let outer = cyclic_graph_from_coords(&vec![(0, 0), (10000, 0), (5000, 3000)]);
    let inner = cyclic_graph_from_coords(&vec![(4000, 1000), (6000, 1000), (5000, 2000)]);
    let mut ts = ThickSurface::new(outer, inner);
    add_single_node_effects(&mut ts, OUTER, 7000);
    let g = &ts.layers[OUTER];
    assert_eq!(g.nodes.len(), 4);
    assert_eq!(g.nodes[3], Node { id: 3, x: 5000, y: 0, next_id: 1, prev_id: 0 });
    assert_eq!(g.nodes[0], Node { id: 0, x: 0, y: 0, next_id: 3, prev_id: 2 });
    assert_eq!(g.nodes[1], Node { id: 1, x: 10000, y: 0, next_id: 2, prev_id: 3 });
    assert_eq!(g.nodes[2], Node { id: 2, x: 5000, y: 3000, next_id: 0, prev_id: 1 });
    ring_is_whole(g);
    assert_eq!(ts.layers[INNER].nodes.len(), 3);
    // nothing is long any more: a second pass adds nothing
    add_single_node_effects(&mut ts, OUTER, 7000);
    assert_eq!(ts.layers[OUTER].nodes.len(), 4);
}

#[test]
fn insertion_adds_one_vertex_per_pass_in_ring_order() {
    let outer = cyclic_graph_from_coords(&vec![(0, 0), (100, 0), (100, 100), (0, 100)]);
    let inner = cyclic_graph_from_coords(&vec![(40, 40), (60, 40), (60, 60)]);
    let mut ts = ThickSurface::new(outer, inner);
    add_single_node_effects(&mut ts, OUTER, 50);
    assert_eq!(
        positions_in_ring_order(&ts.layers[OUTER]),
        vec![(0, 0), (50, 0), (100, 0), (100, 100), (0, 100)]
    );
    // the walk meets the half edges first, then the next whole edge
    add_single_node_effects(&mut ts, OUTER, 50);
    assert_eq!(
        positions_in_ring_order(&ts.layers[OUTER]),
        vec![(0, 0), (50, 0), (100, 0), (100, 50), (100, 100), (0, 100)]
    );
    assert_eq!(ts.layers[OUTER].nodes[5].id, 5);
    ring_is_whole(&ts.layers[OUTER]);
    // an edge as long as the threshold is not split
    let mut exact = squares();
    add_single_node_effects(&mut exact, OUTER, 100);
    assert_eq!(exact.layers[OUTER].nodes.len(), 4);
    // a negative threshold is exceeded by every edge
    add_single_node_effects(&mut exact, INNER, -1);
    assert_eq!(exact.layers[INNER].nodes.len(), 5);
}

#[test]
fn node_to_add_wants_an_edge_of_the_ring() {
    let g = cyclic_graph_from_coords(&vec![(0, 0), (100, 0), (100, 100), (0, 100)]);
    let found = node_to_add(&g, &g.nodes[1], &g.nodes[2], 50);
    assert_eq!(
        found,
        Some(NodeAddition { n: Node { id: 4, x: 100, y: 50, next_id: 2, prev_id: 1 } })
    );
    assert_eq!(node_to_add(&g, &g.nodes[1], &g.nodes[2], 100), None);
    // against the ring
    assert_eq!(node_to_add(&g, &g.nodes[2], &g.nodes[1], 50), None);
    // not neighbours
    assert_eq!(node_to_add(&g, &g.nodes[0], &g.nodes[2], 50), None);
    assert_eq!(available_node_id(&g), 4);
}

#[test]
fn add_node_relinks_the_neighbours() {
    let mut ts = squares();
    let n = Node { id: 4, x: 110, y: 50, next_id: 2, prev_id: 1 };
    add_node_(&mut ts, OUTER, &NodeAddition { n });
    assert_eq!(
        positions_in_ring_order(&ts.layers[OUTER]),
        vec![(0, 0), (100, 0), (110, 50), (100, 100), (0, 100)]
    );
    ring_is_whole(&ts.layers[OUTER]);
    assert_eq!(positions_in_ring_order(&ts.layers[INNER]).len(), 4);
}

#[test]
fn merge_moves_the_ids_above_down() {
    let mut ts = squares();
    let m = NodeMerging {
        one_end: ts.layers[OUTER].nodes[1],
        oth_end: ts.layers[OUTER].nodes[2],
        dist: 1,
        layer_id: OUTER,
        survivor_x: 100,
        survivor_y: 50,
    };
    merge_nodes_(&mut ts, &m);
    assert_eq!(
        ts.layers[OUTER].nodes,
        vec![
            Node { id: 0, x: 0, y: 0, next_id: 1, prev_id: 2 },
            Node { id: 1, x: 100, y: 50, next_id: 2, prev_id: 0 },
            Node { id: 2, x: 0, y: 100, next_id: 0, prev_id: 1 },
        ]
    );
    ring_is_whole(&ts.layers[OUTER]);
}

#[test]
fn merge_over_vertex_zero_keeps_vertex_zero() {
    let mut ts = squares();
    // vertex 3 and its successor, vertex 0
    let m = NodeMerging {
        one_end: ts.layers[OUTER].nodes[3],
        oth_end: ts.layers[OUTER].nodes[0],
        dist: 1,
        layer_id: OUTER,
        survivor_x: 0,
        survivor_y: 50,
    };
    merge_nodes_(&mut ts, &m);
    assert_eq!(
        ts.layers[OUTER].nodes,
        vec![
            Node { id: 0, x: 0, y: 50, next_id: 1, prev_id: 2 },
            Node { id: 1, x: 100, y: 0, next_id: 2, prev_id: 0 },
            Node { id: 2, x: 100, y: 100, next_id: 0, prev_id: 1 },
        ]
    );
}

#[test]
fn merge_of_a_run_after_insertions() {
    let mut ts = squares();
    // ring order becomes 0, 4, 1, 5, 2, 3
    add_single_node_effects(&mut ts, OUTER, 60);
    add_single_node_effects(&mut ts, OUTER, 60);
    assert_eq!(
        positions_in_ring_order(&ts.layers[OUTER]),
        vec![(0, 0), (50, 0), (100, 0), (100, 50), (100, 100), (0, 100)]
    );
    // vertex 4 with the three vertices after it: 1, 5 and 2
    let survivor = ts.layers[OUTER].merge_chain(4, 3, 77, 33);
    assert_eq!(ts.layers[OUTER].nodes.len(), 3);
    assert_eq!(positions_in_ring_order(&ts.layers[OUTER]), vec![(0, 0), (77, 33), (0, 100)]);
    assert_eq!(ts.layers[OUTER].nodes[survivor].pos(), (77, 33));
    ring_is_whole(&ts.layers[OUTER]);
}

#[test]
fn remove_node_closes_the_ring() {
    let mut g = cyclic_graph_from_coords(&vec![(0, 0), (1, 0), (2, 0), (3, 0), (4, 0)]);
    g.remove_node(2);
    assert_eq!(positions_in_ring_order(&g), vec![(0, 0), (1, 0), (3, 0), (4, 0)]);
    ring_is_whole(&g);
    g.remove_node(3);
    assert_eq!(positions_in_ring_order(&g), vec![(0, 0), (1, 0), (3, 0)]);
    g.remove_node(1);
    g.remove_node(1);
    assert_eq!(g.nodes, vec![Node { id: 0, x: 0, y: 0, next_id: 0, prev_id: 0 }]);
}

#[test]
fn checked_deletion_skips_the_merge_that_would_cross() {
    let ts = bump();
    assert!(is_simple(&ts));
    let src = ts.layers[OUTER].nodes[0];
    let found = nodes_to_merge(&ts, OUTER, &src, 2500, 3, true).unwrap();
    assert_eq!(found.dist, 2);
    assert_eq!(found.one_end, src);
    assert_eq!(found.oth_end, ts.layers[OUTER].nodes[2]);
    assert_eq!((found.survivor_x, found.survivor_y), (1000, 0));
    assert_eq!(found.layer_id, OUTER);

    let mut checked = bump();
    delete_single_node_effects(&mut checked, OUTER, 2500, 3, true);
    assert_eq!(
        positions_in_ring_order(&checked.layers[OUTER]),
        vec![(1000, 0), (10000, 0), (10000, -10000), (-10000, -10000), (-10000, 0)]
    );
    ring_is_whole(&checked.layers[OUTER]);
    assert!(is_simple(&checked));
    assert_eq!(checked.layers[INNER].nodes.len(), 3);
}

#[test]
fn unchecked_deletion_merges_the_first_near_pair() {
    let ts = bump();
    let src = ts.layers[OUTER].nodes[0];
    let found = nodes_to_merge(&ts, OUTER, &src, 2500, 3, false).unwrap();
    assert_eq!(found.dist, 1);
    assert_eq!((found.survivor_x, found.survivor_y), (0, 1000));
    assert!(!merging_wouldnt_add_intersection(&ts, &found));
    assert!(!can_merge(&ts, &found, 2500));
    assert!(can_merge_without_intersection_check(&ts, &found, 2500));

    let mut unchecked = bump();
    delete_single_node_effects(&mut unchecked, OUTER, 2500, 3, false);
    assert_eq!(
        positions_in_ring_order(&unchecked.layers[OUTER]),
        vec![(0, 1000), (2000, 0), (10000, 0), (10000, -10000), (-10000, -10000), (-10000, 0)]
    );
    assert!(!is_simple(&unchecked));
}

#[test]
fn deletion_respects_threshold_and_reach() {
    let ts = bump();
    let src = ts.layers[OUTER].nodes[0];
    // the near vertices are exactly 2000 away: not closer than 2000
    assert_eq!(nodes_to_merge(&ts, OUTER, &src, 2000, 3, false), None);
    assert_eq!(nodes_to_merge(&ts, OUTER, &src, 2001, 3, false).unwrap().dist, 1);
    // the safe merge lies two steps away
    assert_eq!(nodes_to_merge(&ts, OUTER, &src, 2500, 1, true), None);
    assert_eq!(nodes_to_merge(&ts, OUTER, &src, 2500, 0, false), None);
    // nothing is near enough: the pass changes nothing
    let mut same = bump();
    delete_single_node_effects(&mut same, OUTER, 100, 3, true);
    assert_eq!(same.layers[OUTER].nodes.len(), 7);
    assert_eq!(same.layers[INNER].nodes.len(), 3);
}

#[test]
fn the_nearer_of_two_steps_away_is_merged_on_a_ring_of_four() {
    let outer = cyclic_graph_from_coords(&vec![(0, 0), (2 * UNIT, 0), (0, UNIT), (-2 * UNIT, 0)]);
    let inner = cyclic_graph_from_coords(&vec![
        (-UNIT / 2, UNIT / 5),
        (UNIT / 2, UNIT / 5),
        (0, 3 * UNIT / 5),
    ]);
    let ts = ThickSurface::new(outer, inner);
    let src = ts.layers[OUTER].nodes[0];
    let m = nodes_to_merge(&ts, OUTER, &src, 3 * UNIT / 2, 2, false).unwrap();
    assert_eq!(m.one_end.id, 0);
    assert_eq!(m.oth_end.id, 2);
    assert_eq!(m.dist, 2);
    assert_eq!(m.layer_id, OUTER);
    assert_eq!((m.survivor_x, m.survivor_y), (0, UNIT / 2));
    assert_eq!(m.oth_end, *src.next_by(&ts.layers[OUTER], 2));
    // one step of reach does not get there
    assert_eq!(nodes_to_merge(&ts, OUTER, &src, 3 * UNIT / 2, 1, false), None);
    let mut merged = ts.clone();
    delete_single_node_effects(&mut merged, OUTER, 3 * UNIT / 2, 2, false);
    assert_eq!(
        positions_in_ring_order(&merged.layers[OUTER]),
        vec![(0, UNIT / 2), (-2 * UNIT, 0)]
    );
    ring_is_whole(&merged.layers[OUTER]);
}

#[test]
fn the_search_stops_before_it_comes_round() {
    let ts = bump();
    // the inner triangle: every vertex is near, the first is taken
    let src = ts.layers[INNER].nodes[0];
    assert_eq!(nodes_to_merge(&ts, INNER, &src, 1_000_000, 5, false).unwrap().dist, 1);
    // nothing is near: the search ends two steps on, not at the vertex itself
    assert_eq!(nodes_to_merge(&ts, INNER, &src, 1, 5, false), None);
    assert_eq!(nodes_to_merge(&ts, INNER, &src, 1, usize::MAX, false), None);
    let mut small = bump();
    delete_single_node_effects(&mut small, INNER, 1_000_000, 5, false);
    assert_eq!(small.layers[INNER].nodes.len(), 2);
    delete_single_node_effects(&mut small, INNER, 1_000_000, 5, false);
    assert_eq!(small.layers[INNER].nodes.len(), 1);
    // a ring of one vertex has no other vertex to merge with
    delete_single_node_effects(&mut small, INNER, 1_000_000, 5, false);
    assert_eq!(small.layers[INNER].nodes.len(), 1);
    ring_is_whole(&small.layers[INNER]);
}

#[test]
fn smoothing_fades_with_the_count() {
    let ring: Vec<(i64, i64)> = (0..8).map(|k| (k * 10, 0)).collect();
    let g = cyclic_graph_from_coords(&ring);
    let field = smooth_change_out(&g, change(0, 300, -300), Smooth::Count(2));
    assert_eq!(
        deltas(&field, 8),
        vec![
            Some((300, -300)),
            Some((200, -200)),
            Some((100, -100)),
            None,
            None,
            None,
            Some((100, -100)),
            Some((200, -200)),
        ]
    );
    let reached = field.get(&2).unwrap();
    assert_eq!((reached.id, reached.cur_x, reached.cur_y), (2, 20, 0));
    let alone = smooth_change_out(&g, change(5, 300, -300), Smooth::Count(0));
    assert_eq!(deltas(&alone, 8).iter().filter(|d| d.is_some()).count(), 1);
    assert_eq!(alone.get(&5).unwrap().delta_x, 300);
}

#[test]
fn overlapping_spreads_are_averaged() {
    let g = cyclic_graph_from_coords(&vec![(0, 0), (10, 0), (5, 8)]);
    let field = smooth_change_out(&g, change(0, 300, 0), Smooth::Count(2));
    assert_eq!(deltas(&field, 3), vec![Some((300, 0)), Some((150, 0)), Some((150, 0))]);
}

#[test]
fn smoothing_fades_with_the_length() {
    let g = cyclic_graph_from_coords(&vec![(0, 0), (10, 0), (10, 10), (0, 10)]);
    let field = smooth_change_out(&g, change(0, 100, 50), Smooth::Continuous(25));
    assert_eq!(
        deltas(&field, 4),
        vec![Some((100, 50)), Some((60, 30)), Some((20, 10)), Some((60, 30))]
    );
    // an edge as long as the reach is not spread over
    let short = smooth_change_out(&g, change(0, 100, 50), Smooth::Continuous(10));
    assert_eq!(deltas(&short, 4), vec![Some((100, 50)), None, None, None]);
    // the spread stops before it has gone round the ring
    let wide = smooth_change_out(&g, change(1, 1000, 0), Smooth::Continuous(1_000_000));
    assert!(deltas(&wide, 4).iter().all(|d| d.is_some()));
    assert_eq!(wide.get(&1).unwrap().delta_x, 1000);
}

#[test]
fn smooth_reach_counts_or_measures() {
    assert_eq!(Smooth::<usize, i64>::Count(3).as_i128(), 3);
    assert_eq!(Smooth::<usize, i64>::Continuous(-7).as_i128(), -7);
    assert_eq!(Smooth::<usize, i64>::Count(3).add(500), Smooth::Count(4));
    assert_eq!(Smooth::<usize, i64>::Continuous(3).add(500), Smooth::Continuous(503));
}

#[test]
fn scaling_by_a_fixed_point_factor() {
    assert_eq!(scale(1000, UNIT), 1000);
    assert_eq!(scale(1000, UNIT / 2), 500);
    assert_eq!(scale(-1001, UNIT / 2), -500);
    assert_eq!(scale(1001, -UNIT / 2), -500);
    assert_eq!(scale(1000, 0), 0);
    assert_eq!(scale(3, 3 * UNIT), 9);
}

#[test]
fn changes_are_carried_over_to_the_correspondents() {
    let ts = squares();
    let mut stitch = Stitching::new();
    // inner 0 belongs to outer 0 and outer 1; inner 2 to outer 1
    stitch.put((0, 40, 40), (0, 0, 0));
    stitch.put((0, 40, 40), (1, 100, 0));
    stitch.put((2, 60, 60), (1, 100, 0));
    let mut outer_changes = NodeChangeMap::new();
    outer_changes.insert(0, change(0, 100, 0));
    outer_changes.insert(1, change(1, 0, 40));
    outer_changes.insert(3, change(3, 999, 999));
    let carried = changer_of_choice(
        &ts.layers[INNER],
        &ts.layers[OUTER],
        &outer_changes,
        UNIT / 2,
        &stitch,
        OUTER,
    );
    // inner 0 receives (50, 0) and then (0, 20), inner 2 receives (0, 20)
    assert_eq!(deltas(&carried, 4), vec![Some((25, 10)), None, Some((0, 20)), None]);
    assert_eq!(
        *carried.get(&2).unwrap(),
        NodeChange { id: 2, cur_x: 60, cur_y: 60, delta_x: 0, delta_y: 20 }
    );
    // and back: outer 1 is the correspondent of inner 0 and of inner 2
    let mut inner_changes = NodeChangeMap::new();
    inner_changes.insert(2, change(2, 8, 8));
    let back = changer_of_choice(
        &ts.layers[OUTER],
        &ts.layers[INNER],
        &inner_changes,
        UNIT,
        &stitch,
        INNER,
    );
    assert_eq!(deltas(&back, 4), vec![None, Some((8, 8)), None, None]);
}

#[test]
fn correspondents_that_are_gone_receive_nothing() {
    let ts = squares();
    let mut stitch = Stitching::new();
    stitch.put((9, 40, 40), (0, 0, 0));
    let mut outer_changes = NodeChangeMap::new();
    outer_changes.insert(0, change(0, 100, 0));
    let carried =
        changer_of_choice(&ts.layers[INNER], &ts.layers[OUTER], &outer_changes, UNIT, &stitch, OUTER);
    assert_eq!(deltas(&carried, 12), vec![None; 12]);
}

#[test]
fn apply_moves_and_revert_moves_back() {
    let mut g = cyclic_graph_from_coords(&vec![(0, 0), (100, 0), (100, 100), (0, 100)]);
    let before = g.nodes.clone();
    let mut field = NodeChangeMap::new();
    field.insert(1, change(1, 5, -7));
    field.insert(3, change(3, -1, 1));
    assert!(changes_fit(&g, &field, true));
    apply_changes(&mut g, &field);
    assert_eq!(graph_points(&g), vec![(0, 0), (105, -7), (100, 100), (-1, 101)]);
    ring_is_whole(&g);
    assert!(changes_fit(&g, &field, false));
    revert_changes(&mut g, &field);
    assert_eq!(g.nodes, before);
}

fn graph_points(g: &Graph) -> Vec<(i64, i64)> {
    g.nodes.iter().map(|n| (n.x, n.y)).collect()
}

#[test]
fn moves_out_of_the_window_do_not_fit() {
    let edge = 536_870_912;
    let g = cyclic_graph_from_coords(&vec![(edge, 0), (0, 0), (0, -edge)]);
    let mut out = NodeChangeMap::new();
    out.insert(0, change(0, 1, 0));
    assert!(!changes_fit(&g, &out, true));
    assert!(changes_fit(&g, &out, false));
    let mut down = NodeChangeMap::new();
    down.insert(2, change(2, 0, 1));
    assert!(changes_fit(&g, &down, true));
    assert!(!changes_fit(&g, &down, false));
    let mut far = NodeChangeMap::new();
    far.insert(1, change(1, i64::MAX, i64::MIN));
    assert!(!changes_fit(&g, &far, true));
    // a move of a vertex that the mesh does not have is no move
    let mut none = NodeChangeMap::new();
    none.insert(7, change(7, i64::MAX, 0));
    assert!(changes_fit(&g, &none, true));
}

#[test]
fn drawn_moves_have_the_magnitude_and_the_direction() {
    let g = cyclic_graph_from_coords(&vec![(0, 0), (100, 0), (100, 100), (0, 100)]);
    assert_eq!(
        change_from_draws(&g, 2, 1000, 30_000, 0),
        NodeChange { id: 2, cur_x: 100, cur_y: 100, delta_x: 1000, delta_y: 0 }
    );
    let c = change_from_draws(&g, 1, 1000, -18_000, 24_000);
    assert_eq!((c.delta_x, c.delta_y), (-600, 800));
    let c = change_from_draws(&g, 1, -1000, -18_000, 24_000);
    assert_eq!((c.delta_x, c.delta_y), (600, -800));
}

#[test]
fn random_moves_stay_in_their_range() {
    let g = cyclic_graph_from_coords(&vec![(0, 0), (100, 0), (100, 100), (0, 100), (-50, 50)]);
    let mut rng = rand::thread_rng();
    let mut met = vec![false; 5];
    let mut directions = [false; 4];
    for _ in 0..2000 {
        let c = random_move(&g, (1000, 2000), &mut rng);
        assert!(c.id < 5);
        met[c.id] = true;
        assert_eq!((c.cur_x, c.cur_y), g.nodes[c.id].pos());
        let length = ((c.delta_x * c.delta_x + c.delta_y * c.delta_y) as f64).sqrt();
        assert!(length > 997.0 && length < 2003.0, "length {}", length);
        directions[(if c.delta_x >= 0 { 0 } else { 1 }) + (if c.delta_y >= 0 { 0 } else { 2 })] =
            true;
    }
    assert!(met.iter().all(|m| *m));
    assert!(directions.iter().all(|d| *d));
}

#[test]
fn random_change_is_a_field_of_one_move() {
    let g = cyclic_graph_from_coords(&vec![(0, 0), (100, 0), (100, 100)]);
    let mut rng = rand::thread_rng();
    for _ in 0..100 {
        let field = random_change(&g, (5, 6), &mut rng);
        let held: Vec<(i64, i64)> = deltas(&field, 3).into_iter().flatten().collect();
        assert_eq!(held.len(), 1);
        let (dx, dy) = held[0];
        assert!(dx * dx + dy * dy <= 36 && dx * dx + dy * dy >= 9);
    }
}

#[test]
fn nearest_vertex_of_both_boundaries() {
    let ts = squares();
    let (n, layer) = closest_node_across_all_layers(&ts, 45, 45);
    assert_eq!((n.id, layer), (0, INNER));
    let (n, layer) = closest_node_across_all_layers(&ts, 95, 5);
    assert_eq!((n.id, layer), (1, OUTER));
    // as far from outer 0 as from inner 0
    let (n, layer) = closest_node_across_all_layers(&ts, 20, 20);
    assert_eq!((n.id, layer), (0, OUTER));
    let (a, b, layer) = closest_nodes_across_all_layers(&ts, 62, 50);
    assert_eq!((a.id, b.id, layer), (1, 2, INNER));
}

#[test]
fn best_effort_add_commits_only_what_does_not_cross() {
    let mut ts = squares();
    assert_eq!(ts.best_effort_add(50, -10), Ok(()));
    assert_eq!(
        positions_in_ring_order(&ts.layers[OUTER]),
        vec![(0, 0), (50, -10), (100, 0), (100, 100), (0, 100)]
    );
    assert!(is_simple(&ts));
    // the new outer edge from (50, 60) to (0, 100) would cut the inner triangle
    let outer = cyclic_graph_from_coords(&vec![(0, 0), (100, 0), (120, 100), (50, 70), (0, 100)]);
    let inner = cyclic_graph_from_coords(&vec![(25, 75), (25, 82), (30, 78)]);
    let mut ts = ThickSurface::new(outer, inner);
    assert!(is_simple(&ts));
    let before = ts.layers[OUTER].nodes.clone();
    assert_eq!(ts.best_effort_add(50, 60), Err(()));
    assert_eq!(ts.layers[OUTER].nodes, before);
    assert_eq!(ts.layers[INNER].nodes.len(), 3);
}

#[test]
fn best_effort_delete_takes_the_nearest_vertex_out() {
    let outer = cyclic_graph_from_coords(&vec![(0, 0), (100, 0), (100, 100), (0, 100)]);
    let inner = cyclic_graph_from_coords(&vec![(20, 20), (30, 20), (30, 30), (20, 30)]);
    let mut ts = ThickSurface::new(outer, inner);
    assert_eq!(ts.best_effort_delete(99, 99), Ok(()));
    assert_eq!(positions_in_ring_order(&ts.layers[OUTER]), vec![(0, 0), (100, 0), (0, 100)]);
    assert_eq!(ts.layers[INNER].nodes.len(), 4);
    // without its far corner the outer triangle would cut through the inner square
    let outer = cyclic_graph_from_coords(&vec![(0, 0), (100, 0), (100, 100), (0, 100)]);
    let inner = cyclic_graph_from_coords(&vec![(45, 45), (65, 45), (65, 65), (45, 65)]);
    let mut ts = ThickSurface::new(outer, inner);
    let before = ts.layers[OUTER].nodes.clone();
    assert_eq!(ts.best_effort_delete(99, 99), Err(()));
    assert_eq!(ts.layers[OUTER].nodes, before);
    // a corner that only touches the new edge is no crossing
    let mut ts = squares();
    assert_eq!(ts.best_effort_delete(99, 99), Ok(()));
}

#[test]
fn points_iter_walks_the_ring() {
    let mut ts = squares();
    add_single_node_effects(&mut ts, INNER, 10);
    let ids: Vec<usize> = ts.points_iter(INNER).iter().map(|n| n.id).collect();
    assert_eq!(ids, vec![0, 4, 1, 2, 3, 0]);
}

#[test]
fn surfaces_are_copied_layer_by_layer() {
    let ts = squares();
    let mut copy = ts.clone();
    add_single_node_effects(&mut copy, OUTER, 10);
    assert_eq!(ts.layers[OUTER].nodes.len(), 4);
    assert_eq!(copy.layers[OUTER].nodes.len(), 5);
    assert_eq!(copy.layers[INNER].nodes, ts.layers[INNER].nodes);
    assert_eq!(graphs_to_lines(&ts.layers).len(), 8);
    assert_eq!(gray_matter_area(&ts), 100 * 100 - 20 * 20);
}
