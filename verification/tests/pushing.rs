use sann::graph::cyclic_graph_from_coords;
use sann::graph::effects::pushers::{
    avg_change_dumb, closest_internal_nodes, inner_mods, modified_inners, most_prev_next,
    n_closest_outers, push_inners,
};
use sann::graph::types::{Graph, Node, NodeChange, NodeChangeMap};
use sann::stitcher::types::Stitching;

fn octagon(scale: i64) -> Graph {
    let points = vec![(10, 0), (7, 7), (0, 10), (-7, 7), (-10, 0), (-7, -7), (0, -10), (7, -7)];
    cyclic_graph_from_coords(&points.iter().map(|p| (p.0 * scale, p.1 * scale)).collect())
}

fn change(id: usize, dx: i64, dy: i64) -> NodeChange {
    NodeChange { id, cur_x: 0, cur_y: 0, delta_x: dx, delta_y: dy }
}

fn field(changes: &[(usize, i64, i64)]) -> NodeChangeMap {
    let mut f = NodeChangeMap::new();
    for c in changes {
        f.insert(c.0, change(c.0, c.1, c.2));
    }
    f
}

fn ids(pair: Option<(&Node, &Node)>) -> Option<(usize, usize)> {
    pair.map(|(a, b)| (a.id, b.id))
}

#[test]
fn the_moved_stretch_has_two_ends() {
    let g = octagon(100);
    assert_eq!(ids(most_prev_next(&field(&[(2, 1, 1), (3, 1, 1), (4, 1, 1)]), &g)), Some((2, 4)));
    assert_eq!(ids(most_prev_next(&field(&[(5, 1, 1)]), &g)), Some((5, 5)));
    // a stretch over vertex 0
    assert_eq!(ids(most_prev_next(&field(&[(7, 1, 1), (0, 1, 1), (1, 1, 1)]), &g)), Some((7, 1)));
    // two stretches: of each kind of end the one of smallest id
    assert_eq!(
        ids(most_prev_next(&field(&[(1, 1, 1), (2, 1, 1), (5, 1, 1), (6, 1, 1)]), &g)),
        Some((1, 2))
    );
    // no moves, and moves of all vertices: no ends
    assert_eq!(ids(most_prev_next(&field(&[]), &g)), None);
    let all: Vec<(usize, i64, i64)> = (0..8).map(|k| (k, 1, 1)).collect();
    assert_eq!(ids(most_prev_next(&field(&all), &g)), None);
    // a move of a vertex that the ring does not have is no move
    assert_eq!(ids(most_prev_next(&field(&[(9, 1, 1)]), &g)), None);
}

#[test]
fn the_shorter_way_round_is_the_stretch() {
    let g = cyclic_graph_from_coords(&vec![(0, 0), (1, 0), (2, 0), (3, 0), (4, 0), (5, 0)]);
    let n = |k: usize| g.nodes[k];
    assert_eq!(modified_inners(&n(1), &n(3), &g), vec![1, 2]);
    assert_eq!(modified_inners(&n(3), &n(1), &g), vec![3, 2]);
    assert_eq!(modified_inners(&n(5), &n(1), &g), vec![5, 0]);
    assert_eq!(modified_inners(&n(4), &n(5), &g), vec![4]);
    // as long either way: against the ring
    assert_eq!(modified_inners(&n(0), &n(3), &g), vec![0, 5, 4]);
    // from a vertex to itself: once round
    assert_eq!(modified_inners(&n(2), &n(2), &g), vec![2, 1, 0, 5, 4, 3]);
    let one = cyclic_graph_from_coords(&vec![(0, 0)]);
    assert_eq!(modified_inners(&one.nodes[0], &one.nodes[0], &one), vec![0]);
}

#[test]
fn the_mean_of_moves_rounds_towards_zero() {
    let tgt = Node { id: 4, x: 10, y: 20, next_id: 0, prev_id: 0 };
    let avg = avg_change_dumb(&tgt, &vec![change(0, 3, 0), change(1, 4, -3), change(2, -1, -4)]);
    assert_eq!(avg, NodeChange { id: 4, cur_x: 10, cur_y: 20, delta_x: 2, delta_y: -2 });
    assert_eq!(avg_change_dumb(&tgt, &vec![change(9, -5, 7)]).delta_x, -5);
    let avg = avg_change_dumb(&tgt, &vec![change(0, 1, -1), change(1, 0, 0)]);
    assert_eq!((avg.delta_x, avg.delta_y), (0, 0));
}

#[test]
fn the_nearest_moves_come_first() {
    let g = octagon(100);
    let moves = field(&[(0, 10, 0), (2, 20, 0), (3, 30, 0), (6, 60, 0)]);
    let at = |x: i64, y: i64| Node { id: 0, x, y, next_id: 0, prev_id: 0 };
    let picked = |n: usize, node: &Node| -> Vec<i64> {
        n_closest_outers(n, node, &moves, &g).iter().map(|c| c.delta_x).collect()
    };
    // near vertex 2 at (0, 1000): then 3, then 0, then 6
    assert_eq!(picked(1, &at(0, 900)), vec![20]);
    assert_eq!(picked(3, &at(0, 900)), vec![20, 30, 10]);
    assert_eq!(picked(4, &at(0, 900)), vec![20, 30, 10, 60]);
    // fewer moves than asked for: all of them
    assert_eq!(picked(7, &at(0, 900)), vec![20, 30, 10, 60]);
    assert_eq!(picked(0, &at(0, 900)), Vec::<i64>::new());
    // as far from vertex 0 as from vertex 2: the smaller id first
    assert_eq!(picked(2, &at(500, 500)), vec![10, 20]);
    assert_eq!(n_closest_outers(3, &at(0, 0), &field(&[]), &g), vec![]);
    let found = n_closest_outers(1, &at(0, -900), &moves, &g);
    assert_eq!(found, vec![change(6, 60, 0)]);
}

#[test]
fn inner_vertices_receive_the_mean_of_the_nearest_moves() {
    let outer = octagon(100);
    let inner = octagon(50);
    let moves = field(&[(2, 8, 0), (3, 16, 6), (4, 24, 0)]);
    let pushed = inner_mods(&vec![2, 3], &moves, &outer, &inner);
    assert_eq!(
        *pushed.get(&2).unwrap(),
        NodeChange { id: 2, cur_x: 0, cur_y: 500, delta_x: 16, delta_y: 2 }
    );
    assert_eq!(pushed.get(&3).unwrap().delta_x, 16);
    assert!(pushed.get(&4).is_none());
    // a vertex named twice receives its move twice, and the field combines the two
    let twice = inner_mods(&vec![5, 5], &moves, &outer, &inner);
    assert_eq!(twice.get(&5).unwrap().delta_x, 16);
    // more than seven moves: the seven nearest count
    let many: Vec<(usize, i64, i64)> = (0..8).map(|k| (k, if k == 4 { 700 } else { 0 }, 0)).collect();
    let pushed = inner_mods(&vec![0, 4], &field(&many), &outer, &inner);
    // vertex 4 is the farthest from inner vertex 0, and the nearest to inner vertex 4
    assert_eq!(pushed.get(&0).unwrap().delta_x, 0);
    assert_eq!(pushed.get(&4).unwrap().delta_x, 100);
}

#[test]
fn the_inner_boundary_is_pushed_where_it_faces_the_moves() {
    let outer = octagon(100);
    let inner = octagon(50);
    let s = Stitching::new();
    let moves = field(&[(2, 8, 0), (3, 16, 6), (4, 24, 0)]);
    let (c1, c2) = closest_internal_nodes(&outer.nodes[2], &outer.nodes[4], &inner);
    assert_eq!((c1.id, c2.id), (2, 4));
    let pushed = push_inners(&inner, &outer, &moves, &s).unwrap();
    let held: Vec<Option<(i64, i64)>> =
        (0..8).map(|k| pushed.get(&k).map(|c| (c.delta_x, c.delta_y))).collect();
    assert_eq!(
        held,
        vec![None, None, Some((16, 2)), Some((16, 2)), None, None, None, None]
    );
    // one moved vertex: the stretch from its nearest inner vertex to the same, once round
    let pushed = push_inners(&inner, &outer, &field(&[(6, -9, 9)]), &s).unwrap();
    assert!((0..8).all(|k| pushed.get(&k).unwrap().delta_y == 9));
    // nothing moved: nothing pushed
    assert!(push_inners(&inner, &outer, &field(&[]), &s).is_none());
}
