use sann::fixed::UNIT;
use sann::graph::types::{Graph, Node, ThickSurface, INNER, OUTER};
use sann::graph::cyclic_graph_from_coords;
use sann::stitcher::smart::{make_matrix, RowCol};
use sann::stitcher::types::{contains_id, ListMap, Stitching, Strategy};
use sann::stitcher::{fits_stitching, greedy, smart, stitch_choice, stitch_default};

fn lattice(v: f64) -> i64 {
    (v * UNIT as f64).round() as i64
}

fn circular_graph(radius: f64, num_points: usize) -> Graph {
    let mut coords = Vec::new();
    for i in 0..num_points {
        let angle = i as f64 * (2.0 * std::f64::consts::PI) / num_points as f64;
        coords.push((lattice(angle.cos() * radius), lattice(angle.sin() * radius)));
    }
    cyclic_graph_from_coords(&coords)
}

fn circular_thick_surface(radius: f64, thickness: f64, num_points: usize) -> ThickSurface {
    ThickSurface::new(circular_graph(radius, num_points), circular_graph(radius - thickness, num_points))
}

fn ids(s: &Stitching, layer: usize, id: usize) -> Vec<usize> {
    match s.find(layer, id) {
        Some(items) => items.iter().map(|c| c.0).collect(),
        None => vec![],
    }
}

fn covers_and_mirrors(s: &Stitching, outer_count: usize, inner_count: usize) {
    let mut from_outer = 0;
    for o in 0..outer_count {
        let found = ids(s, OUTER, o);
        assert!(!found.is_empty(), "outer vertex {} has no correspondent", o);
        for i in &found {
            assert!(ids(s, INNER, *i).contains(&o));
        }
        from_outer += found.len();
    }
    let mut from_inner = 0;
    for i in 0..inner_count {
        let found = ids(s, INNER, i);
        assert!(!found.is_empty(), "inner vertex {} has no correspondent", i);
        for o in &found {
            assert!(ids(s, OUTER, *o).contains(&i));
        }
        from_inner += found.len();
    }
    assert_eq!(from_outer, from_inner);
    assert_eq!(s.len(), from_outer);
}

#[test]
fn both_strategies_cover_every_vertex() {
    for n in [3usize, 4, 7, 50] {
        let ts = circular_thick_surface(1.0, 0.2, n);
        assert!(fits_stitching(&ts));
        covers_and_mirrors(&stitch_choice(&ts, Strategy::Greedy), n, n);
        covers_and_mirrors(&stitch_choice(&ts, Strategy::Dijkstra), n, n);
        covers_and_mirrors(&stitch_default(&ts), n, n);
    }
}

#[test]
fn boundaries_of_different_sizes_are_covered() {
    let ts = ThickSurface::new(circular_graph(1.0, 31), circular_graph(0.7, 12));
    covers_and_mirrors(&stitch_choice(&ts, Strategy::Greedy), 31, 12);
    covers_and_mirrors(&stitch_choice(&ts, Strategy::Dijkstra), 31, 12);
    let ts = ThickSurface::new(circular_graph(1.0, 5), circular_graph(0.7, 40));
    covers_and_mirrors(&stitch_choice(&ts, Strategy::Greedy), 5, 40);
    covers_and_mirrors(&stitch_choice(&ts, Strategy::Dijkstra), 5, 40);
    let ts = ThickSurface::new(circular_graph(1.0, 1), circular_graph(0.7, 1));
    covers_and_mirrors(&stitch_choice(&ts, Strategy::Greedy), 1, 1);
    covers_and_mirrors(&stitch_choice(&ts, Strategy::Dijkstra), 1, 1);
}

#[test]
fn cheapest_path_pairs_along_the_cheaper_way() {
    // row 0 is inner 0, column 0 is outer 0. Moving down from a cell costs the
    // distance from its outer vertex to the next inner one, moving right the
    // distance from its inner vertex to the next outer one.
    let outer = cyclic_graph_from_coords(&vec![(0, 0), (10, 0)]);
    let inner = cyclic_graph_from_coords(&vec![(9, 1), (10, 1)]);
    assert_eq!(make_matrix(&outer, &inner), vec![vec![(10, 1), (1, 9)], vec![(9, 1), (1, 10)]]);
    // right, then down: 1 + 1; down, then right: 10 + 1
    let s = smart::stitch(&outer, &inner);
    assert_eq!(ids(&s, INNER, 0), vec![0, 1]);
    assert_eq!(ids(&s, INNER, 1), vec![1]);
    assert_eq!(ids(&s, OUTER, 0), vec![0]);
    assert_eq!(ids(&s, OUTER, 1), vec![0, 1]);
    assert_eq!(s.len(), 3);

    let inner = cyclic_graph_from_coords(&vec![(0, 1), (1, 1)]);
    assert_eq!(make_matrix(&outer, &inner), vec![vec![(1, 10), (9, 1)], vec![(1, 9), (10, 1)]]);
    // right, then down: 10 + 9; down, then right: 1 + 9
    let s = smart::stitch(&outer, &inner);
    assert_eq!(ids(&s, INNER, 0), vec![0]);
    assert_eq!(ids(&s, INNER, 1), vec![0, 1]);
    assert_eq!(ids(&s, OUTER, 0), vec![0, 1]);
    assert_eq!(ids(&s, OUTER, 1), vec![1]);
    assert_eq!(s.find(OUTER, 0), Some(&vec![(0, 0, 1), (1, 1, 1)]));
    assert_eq!(s.find(INNER, 1), Some(&vec![(0, 0, 0), (1, 10, 0)]));
}

#[test]
fn grid_moves_go_down_and_right() {
    let mat = vec![vec![(1, 2), (3, 4), (5, 6)], vec![(7, 8), (9, 10), (11, 12)]];
    assert_eq!(RowCol(0, 0).successors(&mat), vec![(RowCol(1, 0), 1), (RowCol(0, 1), 2)]);
    assert_eq!(RowCol(0, 2).successors(&mat), vec![(RowCol(1, 2), 5)]);
    assert_eq!(RowCol(1, 1).successors(&mat), vec![(RowCol(1, 2), 10)]);
    assert_eq!(RowCol(1, 2).successors(&mat), vec![]);
    assert!(RowCol(1, 2).success(&mat));
    assert!(!RowCol(1, 1).success(&mat));
    assert!(!RowCol(0, 2).success(&mat));
}

#[test]
fn greedy_sweep_advances_the_cheaper_pointer() {
    let outer = cyclic_graph_from_coords(&vec![(0, 0), (100, 0), (100, 100), (0, 100)]);
    let inner = cyclic_graph_from_coords(&vec![(90, 90), (10, 90), (10, 10), (90, 10)]);
    // outer 0 is nearest to inner 2; from there both rings run the same way,
    // and where both advances cost the same the inner pointer goes first
    let s = greedy::stitch(&outer, &inner);
    assert_eq!(ids(&s, OUTER, 0), vec![2, 3]);
    assert_eq!(ids(&s, OUTER, 1), vec![3, 0]);
    assert_eq!(ids(&s, OUTER, 2), vec![0, 1]);
    assert_eq!(ids(&s, OUTER, 3), vec![1, 2]);
    assert_eq!(ids(&s, INNER, 2), vec![0, 3]);
    assert_eq!(s.len(), 8);
    covers_and_mirrors(&s, 4, 4);
}

#[test]
fn put_suppresses_pairs_that_are_known() {
    let mut s = Stitching::new();
    assert_eq!(s.len(), 0);
    s.put((4, 1, 1), (7, 2, 2));
    s.put((4, 9, 9), (7, 8, 8));
    s.put((5, 3, 3), (7, 2, 2));
    assert_eq!(s.len(), 2);
    assert_eq!(s.find(OUTER, 7), Some(&vec![(4, 1, 1), (5, 3, 3)]));
    assert_eq!(s.find(INNER, 4), Some(&vec![(7, 2, 2)]));
    assert_eq!(s.find(INNER, 5), Some(&vec![(7, 2, 2)]));
    assert_eq!(s.find(INNER, 7), None);
    assert_eq!(s.find(OUTER, 4), None);
    let node = Node { id: 7, x: 0, y: 0, next_id: 0, prev_id: 0 };
    assert_eq!(s.get(OUTER, &node).into_vec(), vec![4, 5]);
}

#[test]
fn closest_correspondent_goes_by_the_kept_positions() {
    let mut s = Stitching::new();
    s.put((1, 100, 0), (0, 0, 0));
    s.put((2, 0, 50), (0, 0, 0));
    s.put((3, 50, 0), (0, 0, 0));
    s.put((4, -50, 0), (0, 0, 0));
    let at = |x: i64, y: i64| Node { id: 0, x, y, next_id: 0, prev_id: 0 };
    assert_eq!(s.get_closest_correspondent(OUTER, &at(90, 0)), 1);
    assert_eq!(s.get_closest_correspondent(OUTER, &at(0, 40)), 2);
    // as near to three of them: the first in the table
    assert_eq!(s.get_closest_correspondent(OUTER, &at(0, 0)), 2);
    let inner = Node { id: 3, x: 5, y: 5, next_id: 0, prev_id: 0 };
    assert_eq!(s.get_closest_correspondent(INNER, &inner), 0);
}

#[test]
fn tables_count_keys_and_entries() {
    let mut m = ListMap::new();
    assert_eq!((m.len(), m.count()), (0, 0));
    m.put(3, (1, 0, 0));
    m.put(3, (2, 0, 0));
    m.put(3, (1, 5, 5));
    m.put(8, (1, 0, 0));
    assert_eq!((m.len(), m.count()), (2, 3));
    assert_eq!(m.get(3).as_vec(), &vec![(1, 0, 0), (2, 0, 0)]);
    assert_eq!(m.find(8), Some(&vec![(1, 0, 0)]));
    let mut keys: Vec<usize> = m.as_map().keys().map(|k| *k).collect();
    keys.sort();
    assert_eq!(keys, vec![3, 8]);
    assert_eq!(m.find(1), None);
    assert!(contains_id(&vec![(1, 0, 0), (2, 0, 0)], 2));
    assert!(!contains_id(&vec![(1, 0, 0), (2, 0, 0)], 0));
    assert!(!contains_id(&vec![], 0));
}

#[test]
fn the_other_strategy() {
    assert_eq!(Strategy::Greedy.other(), Strategy::Dijkstra);
    assert_eq!(Strategy::Dijkstra.other(), Strategy::Greedy);
    assert_eq!(Strategy::Dijkstra.other().other(), Strategy::Dijkstra);
}
