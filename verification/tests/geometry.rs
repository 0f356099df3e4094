use sann::fixed::UNIT;
use sann::graph::types::{Graph, Node};
use sann::graph::{
    area, closest_node_to_some_point, closest_nodes_to_some_point, cyclic_graph_from_coords,
    distance_between_points, graph_to_lines, graph_to_points, is_closer_than, is_farther_than,
    midpoint_of, perimeter,
};
use sann::linalg_helpers::{
    bisecting_vector, closest_point, cross_product, dist, dist_sq, intersection, isqrt,
    lines_intersection, norm, norm_sq, normed_vector, points_to_cyclic_lines,
};

fn lattice(v: f64) -> i64 {
    (v * UNIT as f64).round() as i64
}

fn circular_points(center_x: f64, center_y: f64, radius: f64, num_points: usize) -> Vec<(i64, i64)> {
    let mut circular_coords = Vec::new();
    for i in 0..num_points {
        let angle = i as f64 * (2.0 * std::f64::consts::PI) / num_points as f64;
        circular_coords.push((
            lattice(center_x + angle.cos() * radius),
            lattice(center_y + angle.sin() * radius),
        ))
    }
    circular_coords
}

fn circular_graph(center_x: f64, center_y: f64, radius: f64, num_points: usize) -> Graph {
    cyclic_graph_from_coords(&circular_points(center_x, center_y, radius, num_points))
}

fn in_units(area: i128) -> f64 {
    area as f64 / (UNIT as f64 * UNIT as f64)
}

#[test]
fn direction_for_inner_push_is_correct() {
    assert_eq!(bisecting_vector(0, 0, -UNIT, -UNIT / 2, UNIT, -UNIT / 2), (0, -UNIT));
    let (some_dir_x, some_dir_y) = bisecting_vector(0, 0, 0, 100 * UNIT, UNIT, 0);
    assert_eq!(some_dir_y, some_dir_y);
    assert!((norm(some_dir_x, some_dir_y) as f64 / UNIT as f64 - 1.0).abs() < 0.0001);
}

#[test]
fn unit_vectors_keep_the_direction() {
    assert_eq!(normed_vector(5, 0), (UNIT, 0));
    assert_eq!(normed_vector(0, -7), (0, -UNIT));
    assert_eq!(normed_vector(3 * UNIT, 4 * UNIT), (3 * UNIT / 5, 4 * UNIT / 5));
    assert_eq!(normed_vector(-3 * UNIT, 4 * UNIT), (-(3 * UNIT / 5), 4 * UNIT / 5));
    // the length of a short vector is rounded down, and the unit vector with it
    assert_eq!(normed_vector(1, 1), (UNIT, UNIT));
}

#[test]
fn bisecting_vector_halves_the_angle() {
    // a right angle at the origin between the ways east and north
    let (x, y) = bisecting_vector(0, 0, UNIT, 0, 0, UNIT);
    assert_eq!(x, y);
    assert!((x as f64 / UNIT as f64 - 0.5f64.sqrt()).abs() < 0.0001);
    // the same angle, the neighbours the other way round: the other side
    let (x, y) = bisecting_vector(0, 0, 0, UNIT, UNIT, 0);
    assert_eq!(x, y);
    assert!((x as f64 / UNIT as f64 + 0.5f64.sqrt()).abs() < 0.0001);
    // both neighbours in one point: the way to that point
    assert_eq!(bisecting_vector(0, 0, 3 * UNIT, 4 * UNIT, 3 * UNIT, 4 * UNIT), normed_vector(3, 4));
    assert_eq!(bisecting_vector(UNIT, UNIT, UNIT, 0, UNIT, 0), (0, -UNIT));
    // opposite ways: the mean is nothing, and the first way turned by a quarter is taken
    assert_eq!(bisecting_vector(0, 0, UNIT, 0, -UNIT, 0), (0, UNIT));
    assert_eq!(bisecting_vector(0, 0, -UNIT, 0, UNIT, 0), (0, -UNIT));
}

#[test]
fn bisecting_vector_is_in_the_middle() {
    let ((_left_x, _left_y), (_right_x, _right_y)) = ((-1.0, 0.0), (0.0, 1.0));
    assert!(true);
}

#[test]
fn intersection_is_calculated_correctly() {
    let inter = intersection(UNIT, UNIT, 2 * UNIT, 2 * UNIT, UNIT, 2 * UNIT, 2 * UNIT, UNIT);
    match inter {
        Some((x, y)) => {
            assert_eq!(x, 3 * UNIT / 2);
            assert_eq!(y, 3 * UNIT / 2)
        }
        None => assert!(false),
    }

    /* Two lines having a point in common shouldn't intersect */
    let (x1, y1) = (UNIT, UNIT);
    let inter = intersection(x1, y1, 2 * UNIT, 2 * UNIT, x1, y1, 49 * UNIT, 78 * UNIT);
    match inter {
        Some(_) => assert!(false),
        None => assert!(true),
    }
}

#[test]
fn we_go_around() {
    let size_of_test_circ = 4;

    let test_circ = circular_graph(0.0, 0.0, 1.0, size_of_test_circ);
    let mut walker = &test_circ.nodes[0];
    let first = test_circ.nodes[0].clone();
    for _i in 0..size_of_test_circ {
        walker = walker.next(&test_circ);
    }
    assert_eq!(*walker, first);
}

#[test]
fn circular_area() {
    let size_of_graph = 200;
    let test_circ = circular_graph(0.0, 0.0, 1.0, size_of_graph);

    assert!(in_units(area(&test_circ)) < 3.15);
    assert!(in_units(area(&test_circ)) > 3.13);
}

#[test]
fn circular_perimeter() {
    let size_of_graph = 200;
    let test_circ = circular_graph(2.0, 7.0, 1.0, size_of_graph);

    assert!((perimeter(&test_circ) as f64 / UNIT as f64) < 6.30);
    assert!((perimeter(&test_circ) as f64 / UNIT as f64) > 6.26);
}

#[test]
fn walk_visits_every_vertex_once() {
    for n in 3..40usize {
        let g = circular_graph(0.0, 0.0, 1.0, n);
        let mut seen = vec![false; n];
        let mut at = 0usize;
        for _ in 0..n {
            assert!(!seen[at]);
            seen[at] = true;
            at = g.next(at).id;
        }
        assert_eq!(at, 0);
        assert!(seen.iter().all(|s| *s));
    }
}

#[test]
fn vertices_lead_to_their_neighbours() {
    let g = cyclic_graph_from_coords(&vec![(0, 0), (10, 0), (10, 10), (0, 10)]);
    let n = &g.nodes[3];
    assert_eq!(n.next(&g).id, 0);
    assert_eq!(n.prev(&g).id, 2);
    assert_eq!(n.next_by(&g, 0).id, 3);
    assert_eq!(n.next_by(&g, 2).id, 1);
    assert_eq!(n.next_by(&g, 5).id, 0);
    assert_eq!(n.pos(), (0, 10));
}

#[test]
fn prev_undoes_next() {
    let g = circular_graph(0.0, 0.0, 1.0, 9);
    for i in 0..9 {
        assert_eq!(g.prev(g.next(i).id).id, i);
        assert_eq!(g.next(g.prev(i).id).id, i);
    }
}

#[test]
fn ring_of_one_point_links_to_itself() {
    let g = cyclic_graph_from_coords(&vec![(5, 7)]);
    assert_eq!(g.nodes, vec![Node { id: 0, x: 5, y: 7, next_id: 0, prev_id: 0 }]);
    assert_eq!(g.to_vec_of_points(), vec![(5, 7), (5, 7)]);
}

#[test]
fn ring_links_follow_the_order_of_the_points() {
    let g = cyclic_graph_from_coords(&vec![(0, 0), (10, 0), (10, 10), (0, 10)]);
    assert_eq!(g.nodes[0], Node { id: 0, x: 0, y: 0, next_id: 1, prev_id: 3 });
    assert_eq!(g.nodes[1], Node { id: 1, x: 10, y: 0, next_id: 2, prev_id: 0 });
    assert_eq!(g.nodes[3], Node { id: 3, x: 0, y: 10, next_id: 0, prev_id: 2 });
    assert_eq!(g.to_vec_of_points(), vec![(0, 0), (10, 0), (10, 10), (0, 10), (0, 0)]);
    assert_eq!(graph_to_points(&g), vec![(0, 0), (10, 0), (10, 10), (0, 10)]);
    assert_eq!(
        graph_to_lines(&g),
        vec![(0, 0, 10, 0), (10, 0, 10, 10), (10, 10, 0, 10), (0, 10, 0, 0)]
    );
}

#[test]
fn area_of_a_square_is_exact_and_signed() {
    let ccw = cyclic_graph_from_coords(&vec![(0, 0), (10, 0), (10, 10), (0, 10)]);
    assert_eq!(area(&ccw), 100);
    let cw = cyclic_graph_from_coords(&vec![(0, 0), (0, 10), (10, 10), (10, 0)]);
    assert_eq!(area(&cw), -100);
}

#[test]
fn area_of_a_triangle_rounds_towards_zero() {
    let ccw = cyclic_graph_from_coords(&vec![(0, 0), (3, 0), (0, 3)]);
    assert_eq!(area(&ccw), 4);
    let cw = cyclic_graph_from_coords(&vec![(0, 0), (0, 3), (3, 0)]);
    assert_eq!(area(&cw), -4);
}

#[test]
fn perimeter_of_a_rectangle_is_exact() {
    let g = cyclic_graph_from_coords(&vec![(0, 0), (30, 0), (30, 40), (0, 40)]);
    assert_eq!(perimeter(&g), 140);
    let t = cyclic_graph_from_coords(&vec![(0, 0), (30, 0), (0, 40)]);
    assert_eq!(perimeter(&t), 30 + 50 + 40);
}

#[test]
fn square_roots_round_down() {
    assert_eq!(isqrt(0), 0);
    assert_eq!(isqrt(1), 1);
    assert_eq!(isqrt(24), 4);
    assert_eq!(isqrt(25), 5);
    assert_eq!(isqrt(26), 5);
    assert_eq!(isqrt(u64::MAX), 4_294_967_295);
    assert_eq!(norm(3, 4), 5);
    assert_eq!(norm(-3, -4), 5);
    assert_eq!(norm(1, 1), 1);
    assert_eq!(norm_sq(-3, 4), 25);
    assert_eq!(dist(1, 1, 4, 5), 5);
    assert_eq!(dist_sq(1, 1, 4, 5), 25);
    assert_eq!(distance_between_points(0, 0, 0, 7), 7);
}

#[test]
fn cross_product_gives_the_turn() {
    assert!(cross_product(1, 0, 0, 1) > 0);
    assert!(cross_product(0, 1, 1, 0) < 0);
    assert_eq!(cross_product(2, 2, 4, 4), 0);
    assert_eq!(cross_product(3, 5, 7, 11), 3 * 11 - 5 * 7);
}

#[test]
fn parallel_and_touching_segments_do_not_cross() {
    // on one line, overlapping
    assert_eq!(intersection(0, 0, 10, 0, 5, 0, 15, 0), None);
    // parallel
    assert_eq!(intersection(0, 0, 10, 0, 0, 1, 10, 1), None);
    // the end of one lies inside the other
    assert_eq!(intersection(0, 0, 10, 0, 5, 0, 5, 10), None);
    // apart
    assert_eq!(intersection(0, 0, 10, 0, 20, -5, 20, 5), None);
    // crossing, whichever way either segment runs
    assert_eq!(intersection(0, 0, 10, 0, 5, -5, 5, 5), Some((5, 0)));
    assert_eq!(intersection(10, 0, 0, 0, 5, 5, 5, -5), Some((5, 0)));
}

#[test]
fn crossing_point_rounds_towards_the_start() {
    // the lines meet at (1/2, 1/2)
    assert_eq!(intersection(0, 0, 1, 1, 0, 1, 1, 0), Some((0, 0)));
    assert_eq!(intersection(1, 1, 0, 0, 0, 1, 1, 0), Some((1, 1)));
}

#[test]
fn oracle_finds_the_first_crossing_pair() {
    let free = vec![(0, 0, 10, 0), (10, 0, 10, 10), (10, 10, 0, 10), (0, 10, 0, 0)];
    assert_eq!(lines_intersection(&free), None);
    assert_eq!(lines_intersection(&vec![]), None);
    assert_eq!(lines_intersection(&vec![(0, 0, 4, 4)]), None);
    // the last segment crosses the first: the pair that ends the scan
    let last = vec![(0, 0, 10, 0), (20, 0, 30, 0), (5, -5, 5, 5)];
    assert_eq!(lines_intersection(&last), Some((5, 0)));
    // two crossings: the one of the first pair in scan order is reported
    let two = vec![(0, 0, 10, 0), (2, -5, 2, 5), (8, -5, 8, 5)];
    assert_eq!(lines_intersection(&two), Some((2, 0)));
}

#[test]
fn closest_vertex_breaks_ties_by_scan_order() {
    let g = cyclic_graph_from_coords(&vec![(0, 0), (10, 0), (10, 10), (0, 10)]);
    assert_eq!(closest_node_to_some_point(&g, 9, 1).id, 1);
    // as far from vertex 0 as from vertex 1
    assert_eq!(closest_node_to_some_point(&g, 5, 0).id, 0);
    // as far from all four
    assert_eq!(closest_node_to_some_point(&g, 5, 5).id, 0);
    assert_eq!(closest_node_to_some_point(&g, 6, 9).id, 2);
}

#[test]
fn closest_pair_takes_the_nearer_neighbour() {
    let g = cyclic_graph_from_coords(&vec![(0, 0), (10, 0), (10, 10), (0, 10)]);
    // nearest vertex 1; of its neighbours, 2 is nearer than 0
    let (a, b) = closest_nodes_to_some_point(&g, 9, 3);
    assert_eq!((a.id, b.id), (1, 2));
    // nearest vertex 1; of its neighbours, 0 is nearer than 2
    let (a, b) = closest_nodes_to_some_point(&g, 7, 1);
    assert_eq!((a.id, b.id), (0, 1));
    // neighbours as near as each other: the predecessor is taken
    let (a, b) = closest_nodes_to_some_point(&g, 11, -1);
    assert_eq!((a.id, b.id), (0, 1));
}

#[test]
fn thresholds_compare_exactly() {
    assert!(is_farther_than(26, 5));
    assert!(!is_farther_than(25, 5));
    assert!(is_farther_than(0, -1));
    assert!(!is_farther_than(0, 0));
    assert!(is_closer_than(24, 5));
    assert!(!is_closer_than(25, 5));
    assert!(!is_closer_than(0, 0));
    assert!(!is_closer_than(0, -3));
    assert!(is_closer_than(0, 1));
}

#[test]
fn midpoints_round_towards_zero() {
    assert_eq!(midpoint_of(0, 10), 5);
    assert_eq!(midpoint_of(1, 2), 1);
    assert_eq!(midpoint_of(-1, -2), -1);
    assert_eq!(midpoint_of(-3, 3), 0);
    assert_eq!(midpoint_of(-7, 2), -2);
}

#[test]
fn fans_start_from_the_first_point() {
    let layers = vec![vec![(0, 0), (1, 0), (2, 5)], vec![(9, 9)], vec![], vec![(3, 3), (4, 4)]];
    assert_eq!(
        points_to_cyclic_lines(&layers),
        vec![(0, 0, 1, 0), (0, 0, 2, 5), (0, 0, 0, 0), (3, 3, 4, 4), (3, 3, 3, 3)]
    );
    assert_eq!(points_to_cyclic_lines(&vec![]), vec![]);
}

#[test]
fn closest_point_looks_through_all_layers() {
    let layers = vec![vec![(0, 0), (10, 0)], vec![], vec![(4, 4), (0, 0), (6, 0)]];
    assert_eq!(closest_point(&layers, 5, 3), Some((4, 4)));
    assert_eq!(closest_point(&layers, 9, 0), Some((10, 0)));
    // (10, 0) and (6, 0) are as near: the earlier layer wins
    assert_eq!(closest_point(&layers, 8, 0), Some((10, 0)));
    assert_eq!(closest_point(&vec![vec![], vec![]], 1, 1), None);
    assert_eq!(closest_point(&vec![], 1, 1), None);
}
