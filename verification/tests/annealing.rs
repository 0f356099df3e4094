use rand::Rng;
use sann::fixed::UNIT;
use sann::graph::types::{Graph, NodeChange, ThickSurface, INNER, OUTER};
use sann::graph::{area, cyclic_graph_from_coords, gray_matter_area, is_simple, perimeter};
use sann::renderer::{
    counter_logic, initial_render_state, next_state, Key, RenderState, StepType,
};
use sann::simulated_annealing::{
    accepts_neighbor_state, changes_of_move, energy, energy_is_defined, intersection_effects,
    neighbor, neighbor_changes, neighbor_of_change, should_move_to_neighbor, step, step_choice,
    step_in_place, step_in_place_with, step_with, temperature, Engine, Maintenance, SimState,
    PRACTICALLY_INFINITY, UNIT_AREA,
};
use sann::stitcher::types::Stitching;
use sann::types::Params;

fn lattice(v: f64) -> i64 {
    (v * UNIT as f64).round() as i64
}

fn in_units(area: i128) -> f64 {
    area as f64 / (UNIT as f64 * UNIT as f64)
}

fn circular_graph(radius: f64, num_points: usize) -> Graph {
    let mut coords = Vec::new();
    for i in 0..num_points {
        let angle = i as f64 * (2.0 * std::f64::consts::PI) / num_points as f64;
        coords.push((lattice(angle.cos() * radius), lattice(angle.sin() * radius)));
    }
    cyclic_graph_from_coords(&coords)
}

fn circular_thick_surface(radius: f64, thickness: f64, num_points: usize) -> ThickSurface {
    ThickSurface::new(circular_graph(radius, num_points), circular_graph(radius - thickness, num_points))
}

fn square(low: i64, high: i64) -> Graph {
    cyclic_graph_from_coords(&vec![(low, low), (high, low), (high, high), (low, high)])
}

fn params() -> Params {
    let pi = std::f64::consts::PI;
    Params {
        initial_thickness: lattice(0.2),
        initial_radius: lattice(1.0),
        initial_num_points: 50,
        initial_temperature: 0,
        initial_gray_matter_area: (pi * (1.0 - 0.64) * (UNIT as f64) * (UNIT as f64)) as i128,
        compression_factor: lattice(0.5),
        softness_factor: lattice(0.5),
        how_smooth: 3,
        max_merge_steps_away: 3,
        node_addition_threshold: lattice(0.2),
        node_deletion_threshold: lattice(0.05),
        low_high: (lattice(0.01), lattice(0.05)),
        recorders: vec![String::from("energy")],
        temperature_param: lattice(0.0001),
        output_file_path: String::from("out.csv"),
    }
}

fn coin(rng: &mut rand::rngs::ThreadRng) -> u64 {
    let u: f64 = rng.gen_range(0.0, 1.0);
    let l = -u.ln() * UNIT as f64;
    if l >= u64::MAX as f64 {
        u64::MAX
    } else {
        l as u64
    }
}

#[test]
fn circular_surface_has_the_areas_of_its_circles() {
    let pi = std::f64::consts::PI;
    let ts = circular_thick_surface(1.0, 0.2, 50);
    assert!((in_units(area(&ts.layers[OUTER])) - pi).abs() < 0.01);
    assert!((in_units(area(&ts.layers[INNER])) - pi * 0.64).abs() < 0.01);
    assert!((in_units(gray_matter_area(&ts)) - pi * (1.0 - 0.64)).abs() < 0.01);
    assert!(is_simple(&ts));
}

#[test]
fn polygons_approach_the_circle() {
    let pi = std::f64::consts::PI;
    let mut last_area = 0.0;
    let mut last_perimeter = 0.0;
    for n in [6usize, 12, 50, 200] {
        let g = circular_graph(1.0, n);
        let a = in_units(area(&g));
        let p = perimeter(&g) as f64 / UNIT as f64;
        assert!(a > last_area && a < pi);
        assert!(p > last_perimeter && p < 2.0 * pi);
        last_area = a;
        last_perimeter = p;
    }
    assert!(pi - last_area < 0.001);
    assert!(2.0 * pi - last_perimeter < 0.001);
}

#[test]
fn energy_is_white_matter_plus_squared_stretch() {
    let ts = ThickSurface::new(square(0, 2 * UNIT), square(UNIT / 2, 3 * UNIT / 2));
    assert!(energy_is_defined(&ts));
    // white matter 1, gray matter 3
    assert_eq!(energy(&ts, 3 * UNIT_AREA), 2 * UNIT_AREA);
    assert_eq!(energy(&ts, 2 * UNIT_AREA), 5 * UNIT_AREA);
    assert_eq!(energy(&ts, 4 * UNIT_AREA), 5 * UNIT_AREA);
    assert_eq!(energy(&ts, 0), 17 * UNIT_AREA);
    assert_eq!(energy(&ts, 3 * UNIT_AREA + UNIT_AREA / 2), UNIT_AREA + 9 * UNIT_AREA / 4);
    // the band is measured whichever way the boundaries run
    let turned = ThickSurface::new(
        cyclic_graph_from_coords(&vec![(0, 0), (0, 2 * UNIT), (2 * UNIT, 2 * UNIT), (2 * UNIT, 0)]),
        square(UNIT / 2, 3 * UNIT / 2),
    );
    // white matter 1, outer area -4: gray matter 5
    assert_eq!(energy(&turned, 5 * UNIT_AREA), 2 * UNIT_AREA);
}

#[test]
fn energy_is_not_defined_for_areas_beyond_the_limit() {
    let edge = 536_870_912;
    let whole = ThickSurface::new(square(-edge, edge), square(-1, 1));
    assert!(energy_is_defined(&whole));
    let mut points = Vec::new();
    for _ in 0..2 {
        points.extend(vec![(-edge, -edge), (edge, -edge), (edge, edge), (-edge, edge)]);
    }
    let twice = ThickSurface::new(cyclic_graph_from_coords(&points), square(-1, 1));
    assert!(!energy_is_defined(&twice));
    // a surface without an energy accepts no candidate
    let p = params();
    let mut state = SimState::initial_state(twice, &p).unwrap();
    state.temperature = PRACTICALLY_INFINITY;
    step_with(&mut state, &p, Some(whole), 0);
    assert_eq!(state.ts.layers[OUTER].nodes.len(), 8);
    assert_eq!(state.timestep, 1);
}

#[test]
fn temperature_follows_the_slope_and_stays_above_zero() {
    let ts = circular_thick_surface(1.0, 0.2, 8);
    let mut state = SimState::initial_state(ts, &params()).unwrap();
    assert_eq!(state.timestep, 0);
    assert_eq!(state.temperature, 0);
    assert_eq!(temperature(&state, 5), 0);
    state.timestep = 7;
    assert_eq!(temperature(&state, 5), 35);
    assert_eq!(temperature(&state, -5), 0);
    assert_eq!(temperature(&state, 0), 0);
    state.timestep = u64::MAX;
    assert_eq!(temperature(&state, i64::MAX), u64::MAX as i128 * i64::MAX as i128);
    assert_eq!(temperature(&state, i64::MIN), 0);
}

#[test]
fn acceptance_rule_has_three_regimes() {
    // negative temperature: strictly lower energy only
    assert!(accepts_neighbor_state(10, 9, -1, 0));
    assert!(!accepts_neighbor_state(10, 10, -1, u64::MAX));
    assert!(!accepts_neighbor_state(10, 11, -1, u64::MAX));
    // practically infinite temperature: everything
    assert!(accepts_neighbor_state(0, 1_000_000_000, PRACTICALLY_INFINITY, 0));
    assert!(accepts_neighbor_state(0, 1_000_000_000, PRACTICALLY_INFINITY + 1, 0));
    // between: a rise of at most coin times temperature
    assert!(accepts_neighbor_state(100, 130, 10, 3));
    assert!(!accepts_neighbor_state(100, 131, 10, 3));
    assert!(accepts_neighbor_state(100, 50, 10, 0));
    assert!(accepts_neighbor_state(100, 100, 0, 0));
    assert!(accepts_neighbor_state(100, 99, 0, 5));
    assert!(!accepts_neighbor_state(100, 101, 0, u64::MAX));
    assert!(!accepts_neighbor_state(100, 101, PRACTICALLY_INFINITY - 1, 0));
    assert!(accepts_neighbor_state(0, PRACTICALLY_INFINITY - 1, PRACTICALLY_INFINITY - 1, 1));
}

#[test]
fn crossing_candidates_are_never_moved_to() {
    let simple = ThickSurface::new(square(0, 100), square(40, 60));
    assert!(should_move_to_neighbor(&simple, 10, 5, 0, 0));
    assert!(!should_move_to_neighbor(&simple, 10, 15, 0, 0));
    let crossing = ThickSurface::new(square(0, 100), square(50, 150));
    assert!(!is_simple(&crossing));
    assert!(!should_move_to_neighbor(&crossing, 10, 5, 0, 0));
    assert!(!should_move_to_neighbor(&crossing, 10, 5, PRACTICALLY_INFINITY, u64::MAX));
}

#[test]
fn step_commits_accepted_candidates_only() {
    let p = params();
    let start = circular_thick_surface(1.0, 0.2, 8);
    let mut state = SimState::initial_state(start.clone(), &p).unwrap();
    state.temperature = -1;
    // a candidate whose edges cross: rejected at any temperature
    let crossing = ThickSurface::new(square(0, 100), square(50, 150));
    step_with(&mut state, &p, Some(crossing), u64::MAX);
    assert_eq!(state.ts.layers[OUTER].nodes, start.layers[OUTER].nodes);
    assert_eq!(state.timestep, 1);
    assert_eq!(state.temperature, 0);
    // no candidate
    step_with(&mut state, &p, None, u64::MAX);
    assert_eq!(state.ts.layers[OUTER].nodes, start.layers[OUTER].nodes);
    assert_eq!(state.timestep, 2);
    assert_eq!(state.temperature, p.temperature_param as i128);
    // a candidate of the same energy at temperature zero: accepted
    state.temperature = 0;
    let same = start.clone();
    step_with(&mut state, &p, Some(same), 0);
    assert_eq!(state.timestep, 3);
    assert_eq!(state.temperature, 2 * p.temperature_param as i128);
    // a candidate of higher energy at a negative temperature: rejected
    state.temperature = -1;
    let larger = circular_thick_surface(1.5, 0.2, 8);
    assert!(energy(&larger, p.initial_gray_matter_area) > energy(&start, p.initial_gray_matter_area));
    step_with(&mut state, &p, Some(larger.clone()), u64::MAX);
    assert_eq!(state.ts.layers[OUTER].nodes, start.layers[OUTER].nodes);
    // and at a practically infinite one: accepted
    state.temperature = PRACTICALLY_INFINITY;
    step_with(&mut state, &p, Some(larger.clone()), 0);
    assert_eq!(state.ts.layers[OUTER].nodes, larger.layers[OUTER].nodes);
    assert_eq!(state.ts.layers[INNER].nodes, larger.layers[INNER].nodes);
    assert_eq!(state.timestep, 5);
}

#[test]
fn neighbor_moves_both_boundaries() {
    let p = params();
    let ts = circular_thick_surface(1.0, 0.2, 50);
    let state = SimState::initial_state(ts.clone(), &p).unwrap();
    let seed = NodeChange {
        id: 0,
        cur_x: ts.layers[OUTER].nodes[0].x,
        cur_y: ts.layers[OUTER].nodes[0].y,
        delta_x: lattice(0.04),
        delta_y: 0,
    };
    let passes = Maintenance {
        addition_threshold: lattice(0.2),
        deletion_threshold: lattice(0.05),
        max_merge_steps_away: 3,
    };
    let next =
        neighbor_of_change(&ts, OUTER, INNER, 3, lattice(0.5), &state.stitching, seed, &passes)
            .unwrap();
    let moved = |layer: usize, id: usize| {
        (
            next.layers[layer].nodes[id].x - ts.layers[layer].nodes[id].x,
            next.layers[layer].nodes[id].y - ts.layers[layer].nodes[id].y,
        )
    };
    assert_eq!(moved(OUTER, 0), (lattice(0.04), 0));
    assert_eq!(moved(OUTER, 1), (lattice(0.04) * 3 / 4, 0));
    assert_eq!(moved(OUTER, 49), (lattice(0.04) * 3 / 4, 0));
    assert_eq!(moved(OUTER, 3), (lattice(0.04) / 4, 0));
    assert_eq!(moved(OUTER, 4), (0, 0));
    assert_eq!(moved(OUTER, 25), (0, 0));
    let (dx, dy) = moved(INNER, 0);
    assert!(dx > 0 && dx <= lattice(0.02) && dy == 0);
    assert_eq!(moved(INNER, 25), (0, 0));
    assert_eq!(next.layers[OUTER].nodes.len(), 50);
    // the surface itself is left as it was
    assert_eq!(ts.layers[OUTER].nodes[0].x, lattice(1.0));
}

#[test]
fn neighbor_runs_the_maintenance_passes() {
    let p = params();
    let ts = circular_thick_surface(1.0, 0.2, 50);
    let state = SimState::initial_state(ts.clone(), &p).unwrap();
    let seed = NodeChange { id: 10, cur_x: 0, cur_y: 0, delta_x: 0, delta_y: 0 };
    // every edge is longer than the threshold: one vertex more on each boundary
    let grow =
        Maintenance { addition_threshold: lattice(0.01), deletion_threshold: 0, max_merge_steps_away: 3 };
    let next =
        neighbor_of_change(&ts, OUTER, INNER, 3, lattice(0.5), &state.stitching, seed, &grow).unwrap();
    assert_eq!(next.layers[OUTER].nodes.len(), 51);
    assert_eq!(next.layers[INNER].nodes.len(), 51);
    // every vertex is near its successor: one vertex less on each boundary
    let shrink = Maintenance {
        addition_threshold: lattice(10.0),
        deletion_threshold: lattice(0.2),
        max_merge_steps_away: 1,
    };
    let next =
        neighbor_of_change(&ts, OUTER, INNER, 3, lattice(0.5), &state.stitching, seed, &shrink)
            .unwrap();
    assert_eq!(next.layers[OUTER].nodes.len(), 49);
    assert_eq!(next.layers[INNER].nodes.len(), 49);
}

#[test]
fn neighbor_has_no_candidate_beyond_the_window() {
    let p = params();
    let edge = 536_870_912;
    let ts = ThickSurface::new(square(-edge, edge), square(-UNIT, UNIT));
    let state = SimState::initial_state(ts.clone(), &p).unwrap();
    let passes =
        Maintenance { addition_threshold: i64::MAX, deletion_threshold: 0, max_merge_steps_away: 0 };
    let out = NodeChange { id: 1, cur_x: edge, cur_y: -edge, delta_x: 1, delta_y: 0 };
    assert!(neighbor_of_change(&ts, OUTER, INNER, 0, 0, &state.stitching, out, &passes).is_none());
    let inward = NodeChange { id: 1, cur_x: edge, cur_y: -edge, delta_x: -1, delta_y: 0 };
    assert!(neighbor_of_change(&ts, OUTER, INNER, 0, 0, &state.stitching, inward, &passes).is_some());
}

#[test]
fn proposals_are_drawn_from_the_random_source() {
    let p = params();
    let ts = circular_thick_surface(1.0, 0.2, 20);
    let stitching = Stitching::new();
    let mut rng = rand::thread_rng();
    let mut changed = 0;
    for _ in 0..50 {
        let next = neighbor(
            &ts,
            OUTER,
            INNER,
            0,
            0,
            &stitching,
            p.low_high,
            i64::MAX,
            0,
            0,
            &mut rng,
        )
        .unwrap();
        let differing: Vec<usize> =
            (0..20).filter(|k| next.layers[OUTER].nodes[*k] != ts.layers[OUTER].nodes[*k]).collect();
        assert!(differing.len() <= 1);
        changed += differing.len();
        assert_eq!(next.layers[INNER].nodes, ts.layers[INNER].nodes);
    }
    assert!(changed >= 45);
}

#[test]
fn a_thousand_steps_keep_the_surface_simple() {
    let p = params();
    assert!(p.is_valid());
    let ts = circular_thick_surface(1.0, 0.2, 50);
    let mut state = SimState::initial_state(ts, &p).unwrap();
    let mut rng = rand::thread_rng();
    let mut accepted = 0;
    for t in 0..1000u64 {
        assert_eq!(state.timestep, t);
        let before = state.ts.layers[OUTER].nodes.clone();
        let inner_before = state.ts.layers[INNER].nodes.len();
        let c = coin(&mut rng);
        step(&mut state, &p, c);
        assert!(state.ts.layers[OUTER].nodes.len() <= before.len() + 1);
        assert!(state.ts.layers[OUTER].nodes.len() + p.max_merge_steps_away >= before.len());
        assert!(state.ts.layers[INNER].nodes.len() <= inner_before + 1);
        assert!(state.ts.layers[INNER].nodes.len() + p.max_merge_steps_away >= inner_before);
        assert!(is_simple(&state.ts), "edges cross after step {}", t);
        if state.ts.layers[OUTER].nodes != before {
            accepted += 1;
        }
        for layer in [OUTER, INNER] {
            let count = state.ts.layers[layer].nodes.len();
            assert!(count >= 10 && count <= 300, "{} vertices after step {}", count, t);
        }
        assert_eq!(state.temperature, t as i128 * p.temperature_param as i128);
    }
    assert_eq!(state.timestep, 1000);
    assert!(accepted > 0);
}

#[test]
fn parameters_are_checked() {
    let good = params();
    assert!(good.is_valid());
    let copy = good.clone();
    assert!(copy.is_valid());
    assert_eq!(
        (copy.initial_thickness, copy.initial_radius, copy.initial_num_points),
        (good.initial_thickness, good.initial_radius, good.initial_num_points)
    );
    assert_eq!(
        (copy.initial_temperature, copy.softness_factor, copy.initial_gray_matter_area),
        (good.initial_temperature, good.softness_factor, good.initial_gray_matter_area)
    );
    assert_eq!(copy.low_high, good.low_high);
    assert_eq!(copy.recorders, good.recorders);
    assert_eq!(copy.output_file_path, good.output_file_path);
    let mut bad = params();
    bad.low_high = (5, 5);
    assert!(!bad.is_valid());
    let mut bad = params();
    bad.compression_factor = 2_000_000_000;
    assert!(!bad.is_valid());
    let mut bad = params();
    bad.low_high = (0, 2_000_000_000);
    assert!(!bad.is_valid());
    let mut bad = params();
    bad.initial_gray_matter_area = i128::MAX;
    assert!(!bad.is_valid());
}

#[test]
fn a_run_starts_paused() {
    assert_eq!(
        initial_render_state(),
        RenderState {
            should_step: false,
            one_at_a_time: true,
            step_type: StepType::NoStep,
            hyper_debug: false
        }
    );
}

#[test]
fn keys_steer_the_run() {
    let start = initial_render_state();
    let running = next_state(Some(Key::Space), start);
    assert_eq!(
        running,
        RenderState {
            should_step: true,
            one_at_a_time: false,
            step_type: StepType::Automatic,
            hyper_debug: false
        }
    );
    // nothing pressed: a running run goes on, a paused one does not step
    assert_eq!(next_state(None, running), running);
    assert_eq!(next_state(Some(Key::Other), running), running);
    assert_eq!(next_state(None, start), start);
    let paused = next_state(Some(Key::Space), running);
    assert_eq!(paused.step_type, StepType::NoStep);
    assert!(!paused.should_step && paused.one_at_a_time);
    // single steps are taken while paused only
    assert_eq!(next_state(Some(Key::N), paused).step_type, StepType::OneAtATime);
    assert_eq!(next_state(Some(Key::M), paused).step_type, StepType::ManualChange);
    assert_eq!(next_state(Some(Key::N), running).step_type, StepType::Automatic);
    assert_eq!(next_state(Some(Key::M), running).step_type, StepType::Automatic);
    // a single step is followed by no step
    assert_eq!(next_state(None, next_state(Some(Key::N), paused)).step_type, StepType::NoStep);
    let reset = next_state(Some(Key::R), running);
    assert_eq!(
        reset,
        RenderState {
            should_step: false,
            one_at_a_time: true,
            step_type: StepType::Reset,
            hyper_debug: false
        }
    );
    let debugging = next_state(Some(Key::H), running);
    assert!(debugging.hyper_debug);
    assert_eq!(next_state(Some(Key::H), debugging), running);
}

#[test]
fn notice_counter_runs_until_its_limit() {
    let mut counter = 0;
    counter_logic(&mut counter, 3);
    assert_eq!(counter, 0);
    counter = 1;
    counter_logic(&mut counter, 3);
    assert_eq!(counter, 2);
    counter_logic(&mut counter, 3);
    assert_eq!(counter, 3);
    counter_logic(&mut counter, 3);
    assert_eq!(counter, 0);
    counter = 9;
    counter_logic(&mut counter, 3);
    assert_eq!(counter, 0);
    counter = 1;
    counter_logic(&mut counter, 0);
    assert_eq!(counter, 0);
}

#[test]
fn step_in_place_keeps_or_takes_back_the_move() {
    let mut p = params();
    p.node_addition_threshold = lattice(10.0);
    p.node_deletion_threshold = 0;
    let start = circular_thick_surface(1.0, 0.2, 50);
    let seed = NodeChange {
        id: 0,
        cur_x: lattice(1.0),
        cur_y: 0,
        delta_x: lattice(0.04),
        delta_y: 0,
    };
    // practically infinite temperature: the move is kept
    let mut state = SimState::initial_state(start.clone(), &p).unwrap();
    state.temperature = PRACTICALLY_INFINITY;
    let changes = step_in_place_with(&mut state, &p, seed, 0).unwrap();
    assert_eq!(changes.len(), 2);
    assert_eq!(changes[0].get(&0).unwrap().delta_x, lattice(0.04));
    assert!(changes[1].get(&0).unwrap().delta_x > 0);
    assert_eq!(state.ts.layers[OUTER].nodes[0].x, lattice(1.0) + lattice(0.04));
    assert_eq!(state.ts.layers[OUTER].nodes[1].x, start.layers[OUTER].nodes[1].x + lattice(0.04) * 3 / 4);
    assert!(state.ts.layers[INNER].nodes[0].x > start.layers[INNER].nodes[0].x);
    assert_eq!((state.timestep, state.temperature), (1, 0));
    // negative temperature and a move that raises the energy: taken back
    let mut state = SimState::initial_state(start.clone(), &p).unwrap();
    state.temperature = -1;
    let before = energy(&state.ts, p.initial_gray_matter_area);
    let mut moved = start.clone();
    moved.layers[OUTER].nodes[0].x += lattice(0.3);
    assert!(energy(&moved, p.initial_gray_matter_area) > before);
    let out = NodeChange { delta_x: lattice(0.3), ..seed };
    let changes = step_in_place_with(&mut state, &p, out, u64::MAX).unwrap();
    assert_eq!(changes[0].get(&0).unwrap().delta_x, lattice(0.3));
    assert_eq!(state.ts.layers[OUTER].nodes, start.layers[OUTER].nodes);
    assert_eq!(state.ts.layers[INNER].nodes, start.layers[INNER].nodes);
    assert_eq!(state.timestep, 1);
    // a move that makes the boundaries cross: taken back at any temperature
    let mut state = SimState::initial_state(start.clone(), &p).unwrap();
    state.temperature = PRACTICALLY_INFINITY;
    p.how_smooth = 0;
    p.compression_factor = 0;
    let inward = NodeChange { delta_x: -lattice(0.5), ..seed };
    assert!(step_in_place_with(&mut state, &p, inward, 0).is_ok());
    assert_eq!(state.ts.layers[OUTER].nodes, start.layers[OUTER].nodes);
    assert_eq!(state.timestep, 1);
}

#[test]
fn step_in_place_gives_up_on_a_surface_that_crossed_before() {
    let mut p = params();
    p.node_addition_threshold = 1;
    p.node_deletion_threshold = lattice(10.0);
    let crossing = ThickSurface::new(square(0, 100), square(50, 150));
    assert!(!is_simple(&crossing));
    let mut state = SimState::initial_state(crossing.clone(), &p).unwrap();
    state.temperature = PRACTICALLY_INFINITY;
    state.timestep = 7;
    let seed = NodeChange { id: 0, cur_x: 0, cur_y: 0, delta_x: -5, delta_y: -5 };
    let failure = step_in_place_with(&mut state, &p, seed, 0).unwrap_err();
    // the first crossing pair: the right edge of the outer square and the lower
    // edge of the inner one
    assert_eq!((failure.x, failure.y), (100, 50));
    assert_eq!(state.ts.layers[OUTER].nodes, crossing.layers[OUTER].nodes);
    assert_eq!(state.ts.layers[INNER].nodes, crossing.layers[INNER].nodes);
    assert_eq!((state.timestep, state.temperature), (7, PRACTICALLY_INFINITY));
    // any move as small as these leaves the squares crossing
    p.low_high = (1, 3);
    assert!(step_choice(&mut state, &p, 0, Engine::Revert).is_err());
    assert_eq!(state.timestep, 7);
    // the other engine goes on: it never accepts, and never gives up
    assert!(step_choice(&mut state, &p, 0, Engine::Commit).is_ok());
    assert_eq!(state.timestep, 8);
    assert_eq!(state.ts.layers[OUTER].nodes, crossing.layers[OUTER].nodes);
}

#[test]
fn step_in_place_runs_the_maintenance_passes() {
    let mut p = params();
    p.node_addition_threshold = lattice(0.01);
    p.node_deletion_threshold = 0;
    let start = circular_thick_surface(1.0, 0.2, 50);
    let mut state = SimState::initial_state(start, &p).unwrap();
    let still = NodeChange { id: 3, cur_x: 0, cur_y: 0, delta_x: 0, delta_y: 0 };
    step_in_place_with(&mut state, &p, still, 0).unwrap();
    assert_eq!(state.ts.layers[OUTER].nodes.len(), 51);
    assert_eq!(state.ts.layers[INNER].nodes.len(), 51);
    p.node_addition_threshold = lattice(10.0);
    p.node_deletion_threshold = lattice(0.2);
    step_in_place_with(&mut state, &p, still, 0).unwrap();
    assert_eq!(state.ts.layers[OUTER].nodes.len(), 50);
    assert_eq!(state.ts.layers[INNER].nodes.len(), 50);
    assert!(is_simple(&state.ts));
}

#[test]
fn intersection_effects_take_rejected_moves_back() {
    let p = params();
    let start = circular_thick_surface(1.0, 0.2, 12);
    let state = SimState::initial_state(start.clone(), &p).unwrap();
    let seed = NodeChange { id: 2, cur_x: 0, cur_y: 0, delta_x: lattice(0.01), delta_y: lattice(0.02) };
    let (outer_changes, inner_changes) =
        changes_of_move(&start, OUTER, INNER, 2, lattice(0.5), &state.stitching, seed);
    let mut moved = start.clone();
    sann::graph::effects::apply_changes(&mut moved.layers[OUTER], &outer_changes);
    sann::graph::effects::apply_changes(&mut moved.layers[INNER], &inner_changes);
    let after_move = moved.clone();
    assert!(after_move.layers[OUTER].nodes != start.layers[OUTER].nodes);
    assert!(after_move.layers[INNER].nodes != start.layers[INNER].nodes);
    // accepted: nothing is taken back
    assert_eq!(intersection_effects(&mut moved, &outer_changes, &inner_changes, 10, 5, 0, 0), Ok(()));
    assert_eq!(moved.layers[OUTER].nodes, after_move.layers[OUTER].nodes);
    // rejected: both boundaries are as they were
    assert_eq!(intersection_effects(&mut moved, &outer_changes, &inner_changes, 10, 15, 0, 0), Ok(()));
    assert_eq!(moved.layers[OUTER].nodes, start.layers[OUTER].nodes);
    assert_eq!(moved.layers[INNER].nodes, start.layers[INNER].nodes);
}

#[test]
fn neighbor_changes_are_drawn_and_smoothed() {
    let p = params();
    let ts = circular_thick_surface(1.0, 0.2, 30);
    let state = SimState::initial_state(ts.clone(), &p).unwrap();
    let mut rng = rand::thread_rng();
    for _ in 0..20 {
        let (outer_changes, inner_changes) =
            neighbor_changes(&ts, OUTER, INNER, 2, lattice(0.5), &state.stitching, p.low_high, &mut rng);
        let moved: Vec<usize> = (0..30).filter(|k| outer_changes.get(k).is_some()).collect();
        assert_eq!(moved.len(), 5);
        assert!((0..30).any(|k| inner_changes.get(&k).is_some()));
    }
}

#[test]
fn a_thousand_steps_in_place_keep_the_surface_simple() {
    let p = params();
    let ts = circular_thick_surface(1.0, 0.2, 50);
    let mut state = SimState::initial_state(ts, &p).unwrap();
    let mut rng = rand::thread_rng();
    for t in 0..1000u64 {
        let c = coin(&mut rng);
        let changes = step_in_place(&mut state, &p, c).unwrap();
        assert_eq!(changes.len(), 2);
        assert!(is_simple(&state.ts), "edges cross after step {}", t);
        for layer in [OUTER, INNER] {
            let count = state.ts.layers[layer].nodes.len();
            assert!(count >= 10 && count <= 300, "{} vertices after step {}", count, t);
        }
    }
    assert_eq!(state.timestep, 1000);
}

#[test]
fn either_engine_takes_a_step() {
    let p = params();
    let ts = circular_thick_surface(1.0, 0.2, 20);
    let mut state = SimState::initial_state(ts, &p).unwrap();
    assert_eq!(step_choice(&mut state, &p, 0, Engine::Commit), Ok(()));
    assert_eq!(step_choice(&mut state, &p, 0, Engine::Revert), Ok(()));
    assert_eq!(state.timestep, 2);
    assert_eq!(state.temperature, p.temperature_param as i128);
    assert!(is_simple(&state.ts));
}
