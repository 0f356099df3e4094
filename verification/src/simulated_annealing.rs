//! The annealing engine: the energy, the acceptance rule, the proposal of a
//! neighbor and the step that ties them together.

use crate::fixed::{magnitude, quotient, quotient_of};
use crate::graph::{
    area, area_spec, crossing_of, is_simple, lemma_same_surface_wf, surface_edges,
    surface_is_simple,
};
use crate::graph::effects::{
    apply_changes, changer_of_choice, changes_fit, displaced, displacement_fits, is_random_move,
    lemma_displaced_wf, lemma_revert_undoes_apply, propagated, random_move, revert_changes,
    smooth_change_out, smoothed, FACTOR_MAX,
};
use crate::graph::types::{
    link_ok, ring_witness, NodeChange, NodeChangeMap, Smooth, ThickSurface, INNER, OUTER,
};
use crate::linalg_helpers::{is_first_crossing_point, is_offset};
use crate::maintenance::{
    add_single_node_effects, delete_single_node_effects, is_deletion_pass, is_insertion_pass,
    lemma_deletion_pass_counts, lemma_insertion_pass_counts,
};
use crate::stitcher::{can_be_stitched, fits_stitching, stitch_default};
use crate::stitcher::greedy::covers_all;
use crate::stitcher::smart::is_dijkstra_stitching;
use crate::stitcher::types::Stitching;
use crate::types::{Params, AREA_MAX};
use rand::rngs::ThreadRng;
use vstd::prelude::*;

verus! {

/// The area of one square unit of length, in squares of the lattice.
pub const UNIT_AREA: i128 = 1_099_511_627_776;

/// No energy is larger in magnitude.
pub const ENERGY_MAX: i128 = 1_237_940_039_285_380_274_899_124_224;

/// The temperature from which on every feasible candidate is accepted: a
/// hundred million units.
pub const PRACTICALLY_INFINITY: i128 = 104_857_600_000_000;

/// The areas of both boundaries are small enough for the energy to be
/// computed.
pub open spec fn areas_fit(ts: ThickSurface) -> bool {
    magnitude(area_spec(ts.outer())) <= AREA_MAX && magnitude(area_spec(ts.inner())) <= AREA_MAX
}

/// The energy of a surface: the area that the inner boundary encloses, plus
/// the square of one unit of area more than the distance of the area of the
/// band from its target.
pub open spec fn energy_spec(ts: ThickSurface, initial_gray_matter_area: int) -> int {
    let white_matter = area_spec(ts.inner());
    let gray_matter = magnitude(area_spec(ts.outer()) - white_matter);
    let gray_matter_stretch = magnitude(gray_matter - initial_gray_matter_area);
    white_matter + quotient(
        (UNIT_AREA + gray_matter_stretch) * (UNIT_AREA + gray_matter_stretch),
        UNIT_AREA as int,
    )
}

/// Whether the areas of both boundaries are small enough for the energy to be
/// computed.
pub fn energy_is_defined(ts: &ThickSurface) -> (b: bool)
    requires
        ts.wf(),
    ensures
        b == areas_fit(*ts),
{
    let outer: i128 = area(&ts.layers[OUTER]);
    let inner: i128 = area(&ts.layers[INNER]);
    -AREA_MAX <= outer && outer <= AREA_MAX && -AREA_MAX <= inner && inner <= AREA_MAX
}

/// The energy of the surface, for the target area of the band.
pub fn energy(ts: &ThickSurface, initial_gray_matter_area: i128) -> (e: i128)
    requires
        ts.wf(),
        areas_fit(*ts),
        -AREA_MAX <= initial_gray_matter_area <= AREA_MAX,
    ensures
        e == energy_spec(*ts, initial_gray_matter_area as int),
        -ENERGY_MAX <= e <= ENERGY_MAX,
{
    let white_matter: i128 = area(&ts.layers[INNER]);
    let difference: i128 = area(&ts.layers[OUTER]) - white_matter;
    let gray_matter: i128 = if difference >= 0 {
        difference
    } else {
        -difference
    };
    let off_target: i128 = gray_matter - initial_gray_matter_area;
    let gray_matter_stretch: i128 = if off_target >= 0 {
        off_target
    } else {
        -off_target
    };
    let side: i128 = UNIT_AREA + gray_matter_stretch;
    proof {
        let w = side as int;
        let top: int = 0x1000_0000_0000_0000_0000_0000_0000_0000;
        assert(0 <= w * w <= top) by (nonlinear_arith)
            requires
                0 <= w <= 0x4000_0000_0000_0000,
                top == 0x1000_0000_0000_0000_0000_0000_0000_0000,
        ;
        vstd::arithmetic::div_mod::lemma_div_is_ordered(w * w, top, UNIT_AREA as int);
        vstd::arithmetic::div_mod::lemma_div_is_ordered(0, w * w, UNIT_AREA as int);
    }
    white_matter + quotient_of(side * side, UNIT_AREA)
}

/// The temperature after `timestep` steps of a schedule that rises by `slope`
/// with each step, and never falls below zero.
pub open spec fn temperature_spec(timestep: u64, slope: i64) -> int {
    if timestep * slope < 0 {
        0
    } else {
        timestep * slope
    }
}

/// The acceptance rule. A candidate that is feasible is accepted at any
/// energy once the temperature is practically infinite; at a negative
/// temperature only if its energy is strictly lower; and otherwise if its rise
/// in energy is at most the temperature times `coin`. With `coin` the negated
/// logarithm of a number drawn evenly from the unit interval, a rise in energy
/// is then accepted with the probability that falls off exponentially with the
/// rise over the temperature.
pub open spec fn metropolis_accepts(
    energy_state: int,
    energy_neighbor: int,
    temperature: int,
    coin: int,
) -> bool {
    if temperature < 0 {
        energy_neighbor < energy_state
    } else if temperature >= PRACTICALLY_INFINITY {
        true
    } else {
        energy_neighbor - energy_state <= coin * temperature
    }
}

/// At a temperature that is not negative a neighbor whose energy is no
/// higher is accepted whatever the coin, and at any temperature a neighbor
/// that is accepted would be accepted at any lower energy and with any larger
/// coin.
pub proof fn lemma_acceptance_favours_low_energy(
    energy_state: int,
    energy_neighbor: int,
    lower: int,
    temperature: int,
    coin: nat,
    larger: nat,
)
    requires
        lower <= energy_neighbor,
        coin <= larger,
    ensures
        temperature >= 0 && energy_neighbor <= energy_state ==> metropolis_accepts(
            energy_state,
            energy_neighbor,
            temperature,
            coin as int,
        ),
        metropolis_accepts(energy_state, energy_neighbor, temperature, coin as int)
            ==> metropolis_accepts(energy_state, lower, temperature, larger as int),
{
    if temperature >= 0 {
        assert(0 <= coin * temperature <= larger * temperature) by (nonlinear_arith)
            requires
                0 <= coin <= larger,
                0 <= temperature,
        ;
    }
}

/// Whether the acceptance rule accepts the neighbor state.
pub fn accepts_neighbor_state(
    energy_state: i128,
    energy_neighbor: i128,
    temperature: i128,
    coin: u64,
) -> (b: bool)
    requires
        -ENERGY_MAX <= energy_state <= ENERGY_MAX,
        -ENERGY_MAX <= energy_neighbor <= ENERGY_MAX,
    ensures
        b == metropolis_accepts(
            energy_state as int,
            energy_neighbor as int,
            temperature as int,
            coin as int,
        ),
{
    if temperature < 0 {
        energy_neighbor < energy_state
    } else if temperature >= PRACTICALLY_INFINITY {
        true
    } else {
        proof {
            let c = coin as int;
            let t = temperature as int;
            assert(0 <= c * t <= 0xffff_ffff_ffff_ffff * 104_857_600_000_000) by (nonlinear_arith)
                requires
                    0 <= c <= 0xffff_ffff_ffff_ffff,
                    0 <= t <= 104_857_600_000_000,
            ;
        }
        energy_neighbor - energy_state <= (coin as i128) * temperature
    }
}

/// A candidate is moved to if it is feasible, which is to say that none of
/// its edges cross, and the acceptance rule accepts its energy.
pub open spec fn moves_to_neighbor(
    ts: ThickSurface,
    energy_state: int,
    energy_neighbor: int,
    temperature: int,
    coin: int,
) -> bool {
    surface_is_simple(ts) && metropolis_accepts(energy_state, energy_neighbor, temperature, coin)
}

/// Whether the candidate `ts` is moved to.
pub fn should_move_to_neighbor(
    ts: &ThickSurface,
    energy_state: i128,
    energy_neighbor: i128,
    temperature: i128,
    coin: u64,
) -> (b: bool)
    requires
        ts.wf(),
        -ENERGY_MAX <= energy_state <= ENERGY_MAX,
        -ENERGY_MAX <= energy_neighbor <= ENERGY_MAX,
    ensures
        b == moves_to_neighbor(
            *ts,
            energy_state as int,
            energy_neighbor as int,
            temperature as int,
            coin as int,
        ),
{
    if is_simple(ts) {
        accepts_neighbor_state(energy_state, energy_neighbor, temperature, coin)
    } else {
        false
    }
}

/// Neither boundary of `after` has more than one vertex more than it has in
/// `before`, nor more than `max_merge_steps_away` vertices less: a pass adds
/// one vertex at most, and merges no more vertices than its search reaches.
pub open spec fn counts_stay_close(
    before: ThickSurface,
    after: ThickSurface,
    max_merge_steps_away: usize,
) -> bool {
    &&& before.outer().len() - max_merge_steps_away <= after.outer().len() <= before.outer().len()
        + 1
    &&& before.inner().len() - max_merge_steps_away <= after.inner().len() <= before.inner().len()
        + 1
}

/// The fields that a seed move leaves on the two boundaries: on the pushed
/// layer the seed smoothed out over `how_smooth` vertices to each side, on the
/// layer across what the correspondence carries over of that field.
pub open spec fn moves_of(
    ts: ThickSurface,
    layer_to_push: usize,
    layer_across: usize,
    how_smooth: usize,
    compression_factor: int,
    stitch: Stitching,
    seed: NodeChange,
) -> (Map<usize, NodeChange>, Map<usize, NodeChange>) {
    let pushed = smoothed(
        ts.layer(layer_to_push as int),
        seed,
        Smooth::<usize, i64>::Count(how_smooth),
    );
    (
        pushed,
        propagated(
            ts.layer(layer_across as int),
            pushed,
            stitch.table_of(layer_to_push as int),
            compression_factor,
            ts.layer(layer_to_push as int).len(),
        ),
    )
}

/// Neither field moves a vertex out of the window.
pub open spec fn moves_fit(
    ts: ThickSurface,
    layer_to_push: usize,
    layer_across: usize,
    moves: (Map<usize, NodeChange>, Map<usize, NodeChange>),
) -> bool {
    displacement_fits(ts.layer(layer_to_push as int), moves.0, 1) && displacement_fits(
        ts.layer(layer_across as int),
        moves.1,
        1,
    )
}

/// `after` is `before` with both boundaries moved by their fields.
pub open spec fn is_moved(
    before: ThickSurface,
    after: ThickSurface,
    layer_to_push: usize,
    layer_across: usize,
    moves: (Map<usize, NodeChange>, Map<usize, NodeChange>),
) -> bool {
    &&& after.layers@.len() == 2
    &&& after.layer(layer_to_push as int) == displaced(
        before.layer(layer_to_push as int),
        moves.0,
        1,
    )
    &&& after.layer(layer_across as int) == displaced(before.layer(layer_across as int), moves.1, 1)
}

/// The thresholds of the maintenance passes.
pub struct Maintenance {
    pub addition_threshold: i64,
    pub deletion_threshold: i64,
    pub max_merge_steps_away: usize,
}

/// The surfaces `moved`, `grown`, `regrown` and `shrunk` lead from `ts` to the
/// candidate `candidate`: both boundaries are moved by their fields, then each
/// boundary has its insertion pass, the pushed one first, then each its
/// deletion pass, in which crossings are not looked at.
pub open spec fn leads_to(
    ts: ThickSurface,
    moved: ThickSurface,
    grown: ThickSurface,
    regrown: ThickSurface,
    shrunk: ThickSurface,
    candidate: ThickSurface,
    layer_to_push: usize,
    layer_across: usize,
    moves: (Map<usize, NodeChange>, Map<usize, NodeChange>),
    passes: Maintenance,
) -> bool {
    &&& is_moved(ts, moved, layer_to_push, layer_across, moves)
    &&& is_insertion_pass(moved, grown, layer_to_push as int, passes.addition_threshold as int)
    &&& is_insertion_pass(grown, regrown, layer_across as int, passes.addition_threshold as int)
    &&& is_deletion_pass(
        regrown,
        shrunk,
        layer_to_push,
        passes.deletion_threshold as int,
        passes.max_merge_steps_away as int,
        false,
    )
    &&& is_deletion_pass(
        shrunk,
        candidate,
        layer_across,
        passes.deletion_threshold as int,
        passes.max_merge_steps_away as int,
        false,
    )
}

/// `candidate` is the neighbor of `ts` that the fields `moves` and the
/// maintenance passes lead to.
pub open spec fn is_neighbor(
    ts: ThickSurface,
    candidate: ThickSurface,
    layer_to_push: usize,
    layer_across: usize,
    moves: (Map<usize, NodeChange>, Map<usize, NodeChange>),
    passes: Maintenance,
) -> bool {
    exists|moved: ThickSurface, grown: ThickSurface, regrown: ThickSurface, shrunk: ThickSurface|
     #[trigger]
        leads_to(
            ts,
            moved,
            grown,
            regrown,
            shrunk,
            candidate,
            layer_to_push,
            layer_across,
            moves,
            passes,
        )
}

/// What a seed move makes of a surface: no candidate where the fields would
/// move a vertex out of the window, and else the neighbor that the fields and
/// the maintenance passes lead to.
pub open spec fn is_neighbor_of_change(
    ts: ThickSurface,
    r: Option<ThickSurface>,
    layer_to_push: usize,
    layer_across: usize,
    how_smooth: usize,
    compression_factor: int,
    stitch: Stitching,
    seed: NodeChange,
    passes: Maintenance,
) -> bool {
    let moves = moves_of(
        ts,
        layer_to_push,
        layer_across,
        how_smooth,
        compression_factor,
        stitch,
        seed,
    );
    &&& r is Some <==> moves_fit(ts, layer_to_push, layer_across, moves)
    &&& r is Some ==> r.unwrap().wf() && is_neighbor(
        ts,
        r.unwrap(),
        layer_to_push,
        layer_across,
        moves,
        passes,
    )
}

/// Whatever the surface and the fields: a neighbor is a well-formed surface
/// that has on either boundary at most one vertex more than the surface, and
/// at most as many vertices less as the search for a merge reaches.
pub proof fn lemma_neighbor_counts(
    ts: ThickSurface,
    candidate: ThickSurface,
    layer_to_push: usize,
    layer_across: usize,
    moves: (Map<usize, NodeChange>, Map<usize, NodeChange>),
    passes: Maintenance,
)
    requires
        ts.wf(),
        ts.outer().len() < usize::MAX,
        ts.inner().len() < usize::MAX,
        layer_to_push < 2,
        layer_across < 2,
        layer_to_push != layer_across,
        moves_fit(ts, layer_to_push, layer_across, moves),
        is_neighbor(ts, candidate, layer_to_push, layer_across, moves, passes),
    ensures
        candidate.wf(),
        counts_stay_close(ts, candidate, passes.max_merge_steps_away),
{
    let (moved, grown, regrown, shrunk) = choose|
        moved: ThickSurface,
        grown: ThickSurface,
        regrown: ThickSurface,
        shrunk: ThickSurface,
    | #[trigger]
        leads_to(
            ts,
            moved,
            grown,
            regrown,
            shrunk,
            candidate,
            layer_to_push,
            layer_across,
            moves,
            passes,
        );
    lemma_displaced_wf(ts.layer(layer_to_push as int), moves.0, 1);
    lemma_displaced_wf(ts.layer(layer_across as int), moves.1, 1);
    assert(moved.wf());
    lemma_insertion_pass_counts(
        moved,
        grown,
        layer_to_push as int,
        passes.addition_threshold as int,
    );
    lemma_insertion_pass_counts(
        grown,
        regrown,
        layer_across as int,
        passes.addition_threshold as int,
    );
    lemma_deletion_pass_counts(
        regrown,
        shrunk,
        layer_to_push,
        passes.deletion_threshold as int,
        passes.max_merge_steps_away,
        false,
    );
    lemma_deletion_pass_counts(
        shrunk,
        candidate,
        layer_across,
        passes.deletion_threshold as int,
        passes.max_merge_steps_away,
        false,
    );
}

/// The candidate that the seed move `seed` of a vertex of the pushed layer
/// makes of the surface: the seed is smoothed out along the pushed layer and
/// carried over to the layer across, both fields are applied to a copy, and
/// the copy has its maintenance passes. There is no candidate where a field
/// would move a vertex out of the window.
pub fn neighbor_of_change(
    ts: &ThickSurface,
    layer_to_push: usize,
    layer_across: usize,
    how_smooth: usize,
    compression_factor: i64,
    stitch: &Stitching,
    seed: NodeChange,
    passes: &Maintenance,
) -> (r: Option<ThickSurface>)
    requires
        ts.wf(),
        layer_to_push < 2,
        layer_across < 2,
        layer_to_push != layer_across,
        stitch->0@.len() == 2,
        seed.id < ts.layer(layer_to_push as int).len(),
        is_offset(seed.delta_x as int),
        is_offset(seed.delta_y as int),
        -FACTOR_MAX <= compression_factor <= FACTOR_MAX,
    ensures
        is_neighbor_of_change(
            *ts,
            r,
            layer_to_push,
            layer_across,
            how_smooth,
            compression_factor as int,
            *stitch,
            seed,
            *passes,
        ),
        r is Some ==> counts_stay_close(*ts, r.unwrap(), passes.max_merge_steps_away),
{
    let smoothed_changes: NodeChangeMap = smooth_change_out(
        &ts.layers[layer_to_push],
        seed,
        Smooth::Count(how_smooth),
    );
    let smoothed_inner_changes: NodeChangeMap = changer_of_choice(
        &ts.layers[layer_across],
        &ts.layers[layer_to_push],
        &smoothed_changes,
        compression_factor,
        stitch,
        layer_to_push,
    );
    let ghost moves = (smoothed_changes@, smoothed_inner_changes@);
    if !changes_fit(&ts.layers[layer_to_push], &smoothed_changes, true) || !changes_fit(
        &ts.layers[layer_across],
        &smoothed_inner_changes,
        true,
    ) {
        return None;
    }
    let mut ret: ThickSurface = ts.clone();
    proof {
        lemma_same_surface_wf(*ts, ret);
        assert(ret.layer(layer_to_push as int) == ts.layer(layer_to_push as int));
        assert(ret.layer(layer_across as int) == ts.layer(layer_across as int));
    }
    apply_changes(&mut ret.layers[layer_to_push], &smoothed_changes);
    apply_changes(&mut ret.layers[layer_across], &smoothed_inner_changes);
    let ghost moved = ret;
    assert(is_moved(*ts, moved, layer_to_push, layer_across, moves));

    add_single_node_effects(&mut ret, layer_to_push, passes.addition_threshold);
    let ghost grown = ret;
    add_single_node_effects(&mut ret, layer_across, passes.addition_threshold);
    let ghost regrown = ret;

    delete_single_node_effects(
        &mut ret,
        layer_to_push,
        passes.deletion_threshold,
        passes.max_merge_steps_away,
        false,
    );
    let ghost shrunk = ret;
    delete_single_node_effects(
        &mut ret,
        layer_across,
        passes.deletion_threshold,
        passes.max_merge_steps_away,
        false,
    );
    assert(leads_to(
        *ts,
        moved,
        grown,
        regrown,
        shrunk,
        ret,
        layer_to_push,
        layer_across,
        moves,
        *passes,
    ));
    Some(ret)
}

/// Proposes a neighbor of the surface: a random move of one vertex of the
/// pushed layer, smoothed out, carried over to the layer across and followed
/// by the maintenance passes.
pub fn neighbor(
    ts: &ThickSurface,
    layer_to_push: usize,
    layer_across: usize,
    how_smooth: usize,
    compression_factor: i64,
    stitch: &Stitching,
    low_high: (i64, i64),
    addition_threshold: i64,
    deletion_threshold: i64,
    max_merge_steps_away: usize,
    rng: &mut ThreadRng,
) -> (r: Option<ThickSurface>)
    requires
        ts.wf(),
        layer_to_push < 2,
        layer_across < 2,
        layer_to_push != layer_across,
        stitch->0@.len() == 2,
        low_high.0 < low_high.1,
        is_offset(low_high.0 as int),
        is_offset(low_high.1 as int),
        -FACTOR_MAX <= compression_factor <= FACTOR_MAX,
    ensures
        r is Some ==> r.unwrap().wf(),
        r is Some ==> counts_stay_close(*ts, r.unwrap(), max_merge_steps_away),
        exists|seed: NodeChange|
            is_random_move(
                seed,
                ts.layer(layer_to_push as int),
                low_high.0 as int,
                low_high.1 as int,
            ) && #[trigger] is_neighbor_of_change(
                *ts,
                r,
                layer_to_push,
                layer_across,
                how_smooth,
                compression_factor as int,
                *stitch,
                seed,
                Maintenance { addition_threshold, deletion_threshold, max_merge_steps_away },
            ),
{
    assert(link_ok(ts.layer(layer_to_push as int), 0)) by {
        let (order, rank) = ring_witness(ts.layer(layer_to_push as int));
    }
    let outer_change: NodeChange = random_move(&ts.layers[layer_to_push], low_high, rng);
    let passes = Maintenance { addition_threshold, deletion_threshold, max_merge_steps_away };
    neighbor_of_change(
        ts,
        layer_to_push,
        layer_across,
        how_smooth,
        compression_factor,
        stitch,
        outer_change,
        &passes,
    )
}

/// `rand::thread_rng`: the random source of the running thread.
#[verifier::external_body]
fn thread_random_source() -> ThreadRng {
    rand::thread_rng()
}

/// The state of a run: the surface, the correspondence between its
/// boundaries, the temperature, the number of steps taken, and the random
/// source that proposals are drawn from.
#[derive(Debug)]
pub struct SimState {
    pub ts: ThickSurface,
    pub temperature: i128,
    pub stitching: Stitching,
    pub timestep: u64,
    pub rng: ThreadRng,
}

impl SimState {
    /// The surface is well formed, and the correspondence has its two tables.
    pub open spec fn wf(self) -> bool {
        &&& self.ts.wf()
        &&& self.stitching->0@.len() == 2
    }

    /// The state in which a run on the surface `ts` starts: at the initial
    /// temperature, before the first step, with the boundaries aligned along a
    /// cheapest path. There is no such state for a surface that is too large
    /// to be aligned.
    pub fn initial_state(ts: ThickSurface, p: &Params) -> (r: Option<SimState>)
        requires
            ts.wf(),
        ensures
            r is Some <==> can_be_stitched(ts),
            r is Some ==> {
                let s = r.unwrap();
                &&& s.wf()
                &&& s.ts == ts
                &&& s.temperature == p.initial_temperature
                &&& s.timestep == 0
                &&& s.stitching.wf()
                &&& is_dijkstra_stitching(s.stitching, ts.outer(), ts.inner())
                &&& covers_all(s.stitching, ts.outer().len(), ts.inner().len())
            },
    {
        if !fits_stitching(&ts) {
            return None;
        }
        let s: Stitching = stitch_default(&ts);
        let rng: ThreadRng = thread_random_source();
        Some(
            SimState {
                ts: ts,
                temperature: p.initial_temperature,
                stitching: s,
                timestep: 0,
                rng: rng,
            },
        )
    }
}

/// The temperature that the schedule of slope `slope` gives for the number of
/// steps that the state has taken.
pub fn temperature(sim_state: &SimState, slope: i64) -> (t: i128)
    ensures
        t == temperature_spec(sim_state.timestep, slope),
{
    let ghost steps = sim_state.timestep as int;
    let ghost rise = slope as int;
    assert(-0xffff_ffff_ffff_ffff * 0x8000_0000_0000_0000 <= steps * rise <= 0xffff_ffff_ffff_ffff
        * 0x8000_0000_0000_0000) by (nonlinear_arith)
        requires
            0 <= steps <= 0xffff_ffff_ffff_ffff,
            -0x8000_0000_0000_0000 <= rise <= 0x8000_0000_0000_0000,
    ;
    let new: i128 = (sim_state.timestep as i128) * (slope as i128);
    if new < 0 {
        0
    } else {
        new
    }
}

/// The step accepts the candidate: there is one, the areas of the surface
/// and of the candidate are small enough for their energies to be computed,
/// no edges of the candidate cross, and the acceptance rule accepts its energy
/// against that of the surface.
pub open spec fn step_accepts(
    state: SimState,
    params: Params,
    candidate: Option<ThickSurface>,
    coin: u64,
) -> bool {
    &&& candidate is Some
    &&& areas_fit(state.ts)
    &&& areas_fit(candidate.unwrap())
    &&& moves_to_neighbor(
        candidate.unwrap(),
        energy_spec(state.ts, params.initial_gray_matter_area as int),
        energy_spec(candidate.unwrap(), params.initial_gray_matter_area as int),
        state.temperature as int,
        coin as int,
    )
}

/// `after` is the state that a step from `before` with the candidate
/// `candidate` and the coin `coin` leads to: the candidate has become the
/// surface if the step accepts it, and else the surface is what it was; the
/// temperature is what the schedule gives for the steps taken before this
/// one; one more step has been taken; the correspondence is what it was.
pub open spec fn is_step_outcome(
    before: SimState,
    params: Params,
    candidate: Option<ThickSurface>,
    coin: u64,
    after: SimState,
) -> bool {
    &&& after.ts == if step_accepts(before, params, candidate, coin) {
        candidate.unwrap()
    } else {
        before.ts
    }
    &&& after.temperature == temperature_spec(before.timestep, params.temperature_param)
    &&& after.timestep == before.timestep + 1
    &&& after.stitching == before.stitching
}

/// After a step that accepted its candidate no two edges of the surface
/// cross, and a surface without crossing edges has none after any step.
pub proof fn lemma_step_keeps_surface_simple(
    before: SimState,
    params: Params,
    candidate: Option<ThickSurface>,
    coin: u64,
    after: SimState,
)
    requires
        is_step_outcome(before, params, candidate, coin, after),
    ensures
        step_accepts(before, params, candidate, coin) ==> surface_is_simple(after.ts),
        surface_is_simple(before.ts) ==> surface_is_simple(after.ts),
{
}

/// Whatever the state and the draws: a step leaves on either boundary at most
/// one vertex more than there was, and at most as many vertices less as the
/// search for a merge reaches. After `k` steps a boundary has at most `k`
/// vertices more than it started with.
pub proof fn lemma_step_counts(before: SimState, params: Params, coin: u64, after: SimState)
    requires
        before.ts.wf(),
        before.ts.outer().len() < usize::MAX,
        before.ts.inner().len() < usize::MAX,
        is_step(before, params, coin, after),
    ensures
        counts_stay_close(before.ts, after.ts, params.max_merge_steps_away),
{
    let passes = Maintenance {
        addition_threshold: params.node_addition_threshold,
        deletion_threshold: params.node_deletion_threshold,
        max_merge_steps_away: params.max_merge_steps_away,
    };
    let (seed, candidate) = choose|seed: NodeChange, candidate: Option<ThickSurface>|
        is_random_move(
            seed,
            before.ts.outer(),
            params.low_high.0 as int,
            params.low_high.1 as int,
        ) && #[trigger] is_neighbor_of_change(
            before.ts,
            candidate,
            OUTER,
            INNER,
            params.how_smooth,
            params.compression_factor as int,
            before.stitching,
            seed,
            passes,
        ) && is_step_outcome(before, params, candidate, coin, after);
    if step_accepts(before, params, candidate, coin) {
        let moves = moves_of(
            before.ts,
            OUTER,
            INNER,
            params.how_smooth,
            params.compression_factor as int,
            before.stitching,
            seed,
        );
        lemma_neighbor_counts(before.ts, candidate.unwrap(), OUTER, INNER, moves, passes);
    }
}

/// `states` are the states of a run of steps with the coins `coins`: each
/// state but the first is what a step makes of the state before it.
pub open spec fn is_course(states: Seq<SimState>, params: Params, coins: Seq<u64>) -> bool {
    &&& states.len() == coins.len() + 1
    &&& forall|k: int|
        0 <= k < coins.len() ==> #[trigger] is_step(states[k], params, coins[k], states[k + 1])
}

/// A run of steps from a well-formed surface without crossing edges: after
/// every step, accepted or not, both boundaries are single rings still, no two
/// edges of the surface cross, and neither boundary has more vertices than it
/// started with and steps have been taken.
pub proof fn lemma_course_stays_simple(
    states: Seq<SimState>,
    params: Params,
    coins: Seq<u64>,
    k: int,
)
    requires
        is_course(states, params, coins),
        states[0].ts.wf(),
        surface_is_simple(states[0].ts),
        states[0].ts.outer().len() + states.len() < usize::MAX,
        states[0].ts.inner().len() + states.len() < usize::MAX,
        0 <= k < states.len(),
    ensures
        states[k].ts.wf(),
        surface_is_simple(states[k].ts),
        states[k].ts.outer().len() <= states[0].ts.outer().len() + k,
        states[k].ts.inner().len() <= states[0].ts.inner().len() + k,
    decreases k,
{
    if k > 0 {
        lemma_course_stays_simple(states, params, coins, k - 1);
        let j = k - 1;
        let before = states[j];
        let after = states[j + 1];
        let coin = coins[j];
        assert(is_step(states[j], params, coins[j], states[j + 1]));
        lemma_step_counts(before, params, coin, after);
        let passes = Maintenance {
            addition_threshold: params.node_addition_threshold,
            deletion_threshold: params.node_deletion_threshold,
            max_merge_steps_away: params.max_merge_steps_away,
        };
        let (seed, candidate) = choose|seed: NodeChange, candidate: Option<ThickSurface>|
            is_random_move(
                seed,
                before.ts.outer(),
                params.low_high.0 as int,
                params.low_high.1 as int,
            ) && #[trigger] is_neighbor_of_change(
                before.ts,
                candidate,
                OUTER,
                INNER,
                params.how_smooth,
                params.compression_factor as int,
                before.stitching,
                seed,
                passes,
            ) && is_step_outcome(before, params, candidate, coin, after);
        lemma_step_keeps_surface_simple(before, params, candidate, coin, after);
    }
}

/// Concludes a step for which the candidate and the coin have been drawn.
pub fn step_with(
    sim_state: &mut SimState,
    params: &Params,
    candidate: Option<ThickSurface>,
    coin: u64,
)
    requires
        old(sim_state).wf(),
        params.wf(),
        old(sim_state).timestep < u64::MAX,
        candidate is Some ==> candidate.unwrap().wf(),
    ensures
        final(sim_state).wf(),
        is_step_outcome(*old(sim_state), *params, candidate, coin, *final(sim_state)),
        step_accepts(*old(sim_state), *params, candidate, coin) ==> surface_is_simple(
            final(sim_state).ts,
        ),
{
    match candidate {
        Some(neighbor) => {
            if energy_is_defined(&sim_state.ts) && energy_is_defined(&neighbor) {
                let energy_state: i128 = energy(&sim_state.ts, params.initial_gray_matter_area);
                let energy_neighbor: i128 = energy(&neighbor, params.initial_gray_matter_area);
                if should_move_to_neighbor(
                    &neighbor,
                    energy_state,
                    energy_neighbor,
                    sim_state.temperature,
                    coin,
                ) {
                    sim_state.ts = neighbor;
                }
            }
        },
        None => {},
    }
    sim_state.temperature = temperature(sim_state, params.temperature_param);
    sim_state.timestep += 1;
}

/// What one step may make of the state `before`: some random move of a vertex
/// of the outer boundary is the seed of a candidate, and `after` is the
/// outcome of the step with that candidate.
pub open spec fn is_step(before: SimState, params: Params, coin: u64, after: SimState) -> bool {
    exists|seed: NodeChange, candidate: Option<ThickSurface>|
        is_random_move(
            seed,
            before.ts.outer(),
            params.low_high.0 as int,
            params.low_high.1 as int,
        ) && #[trigger] is_neighbor_of_change(
            before.ts,
            candidate,
            OUTER,
            INNER,
            params.how_smooth,
            params.compression_factor as int,
            before.stitching,
            seed,
            Maintenance {
                addition_threshold: params.node_addition_threshold,
                deletion_threshold: params.node_deletion_threshold,
                max_merge_steps_away: params.max_merge_steps_away,
            },
        ) && is_step_outcome(before, params, candidate, coin, after)
}

/// One step of the annealing: a neighbor of the surface is proposed by a
/// random move of the outer boundary that is carried over to the inner one;
/// the neighbor becomes the surface if none of its edges cross and the
/// acceptance rule accepts its energy; the temperature follows its schedule
/// and the count of steps grows by one. `coin` is the draw that the acceptance
/// rule is given. A caller that draws move and coin from one random source,
/// the move first, proposes with `neighbor`, draws the coin and concludes with
/// `step_with`.
///
/// The correspondence is the one the run started with: it is not made anew
/// when a pass adds or merges vertices. Its tables go by vertex id: a vertex
/// that has been added since has no correspondents and carries nothing over, a
/// pair that names an id that its boundary no longer has carries nothing
/// either, and after a merge has moved ids down a pair stands for the vertices
/// that carry its ids now.
pub fn step(sim_state: &mut SimState, params: &Params, coin: u64)
    requires
        old(sim_state).wf(),
        params.wf(),
        old(sim_state).timestep < u64::MAX,
    ensures
        final(sim_state).wf(),
        is_step(*old(sim_state), *params, coin, *final(sim_state)),
        final(sim_state).ts == old(sim_state).ts || surface_is_simple(final(sim_state).ts),
        surface_is_simple(old(sim_state).ts) ==> surface_is_simple(final(sim_state).ts),
        counts_stay_close(old(sim_state).ts, final(sim_state).ts, params.max_merge_steps_away),
{
    let candidate: Option<ThickSurface> = neighbor(
        &sim_state.ts,
        OUTER,
        INNER,
        params.how_smooth,
        params.compression_factor,
        &sim_state.stitching,
        params.low_high,
        params.node_addition_threshold,
        params.node_deletion_threshold,
        params.max_merge_steps_away,
        &mut sim_state.rng,
    );
    step_with(sim_state, params, candidate, coin);
}

/// The fields that the seed move leaves on the two boundaries of the
/// surface: on the pushed layer the seed smoothed out, on the layer across what
/// the correspondence carries over of that field.
pub fn changes_of_move(
    ts: &ThickSurface,
    layer_to_push: usize,
    layer_across: usize,
    how_smooth: usize,
    compression_factor: i64,
    stitch: &Stitching,
    seed: NodeChange,
) -> (r: (NodeChangeMap, NodeChangeMap))
    requires
        ts.wf(),
        layer_to_push < 2,
        layer_across < 2,
        stitch->0@.len() == 2,
        seed.id < ts.layer(layer_to_push as int).len(),
        is_offset(seed.delta_x as int),
        is_offset(seed.delta_y as int),
        -FACTOR_MAX <= compression_factor <= FACTOR_MAX,
    ensures
        (r.0@, r.1@) == moves_of(
            *ts,
            layer_to_push,
            layer_across,
            how_smooth,
            compression_factor as int,
            *stitch,
            seed,
        ),
{
    let smoothed_changes: NodeChangeMap = smooth_change_out(
        &ts.layers[layer_to_push],
        seed,
        Smooth::Count(how_smooth),
    );
    let smoothed_inner_changes: NodeChangeMap = changer_of_choice(
        &ts.layers[layer_across],
        &ts.layers[layer_to_push],
        &smoothed_changes,
        compression_factor,
        stitch,
        layer_to_push,
    );
    (smoothed_changes, smoothed_inner_changes)
}

/// Proposes the fields of a neighbor: a random move of one vertex of the
/// pushed layer, smoothed out and carried over to the layer across.
pub fn neighbor_changes(
    ts: &ThickSurface,
    layer_to_push: usize,
    layer_across: usize,
    how_smooth: usize,
    compression_factor: i64,
    stitch: &Stitching,
    low_high: (i64, i64),
    rng: &mut ThreadRng,
) -> (r: (NodeChangeMap, NodeChangeMap))
    requires
        ts.wf(),
        layer_to_push < 2,
        layer_across < 2,
        stitch->0@.len() == 2,
        low_high.0 < low_high.1,
        is_offset(low_high.0 as int),
        is_offset(low_high.1 as int),
        -FACTOR_MAX <= compression_factor <= FACTOR_MAX,
    ensures
        exists|seed: NodeChange|
            is_random_move(
                seed,
                ts.layer(layer_to_push as int),
                low_high.0 as int,
                low_high.1 as int,
            ) && (r.0@, r.1@) == #[trigger] moves_of(
                *ts,
                layer_to_push,
                layer_across,
                how_smooth,
                compression_factor as int,
                *stitch,
                seed,
            ),
{
    assert(link_ok(ts.layer(layer_to_push as int), 0)) by {
        let (order, rank) = ring_witness(ts.layer(layer_to_push as int));
    }
    let outer_change: NodeChange = random_move(&ts.layers[layer_to_push], low_high, rng);
    changes_of_move(
        ts,
        layer_to_push,
        layer_across,
        how_smooth,
        compression_factor,
        stitch,
        outer_change,
    )
}

/// `after` is `before` with the moves of both fields taken back.
pub open spec fn is_moved_back(
    before: ThickSurface,
    after: ThickSurface,
    moves: (Map<usize, NodeChange>, Map<usize, NodeChange>),
) -> bool {
    &&& after.layers@.len() == 2
    &&& after.outer() == displaced(before.outer(), moves.0, -1)
    &&& after.inner() == displaced(before.inner(), moves.1, -1)
}

/// What is left of a step in place that could not be concluded: the moves
/// have been taken back and edges of the surface cross all the same, in the
/// point `(x, y)` among others. The surface had crossing edges before the
/// step.
#[derive(Debug, Clone, Copy, PartialEq, Eq, Structural)]
pub struct StillCrossing {
    pub x: i64,
    pub y: i64,
}

/// Decides on a surface that has been moved in place: where its edges cross,
/// or the acceptance rule does not accept its energy, the moves of both
/// fields are taken back; else the surface stays as it is. Where edges
/// crossed and still cross after the moves have been taken back, the first
/// crossing point is given as an error.
pub fn intersection_effects(
    ts: &mut ThickSurface,
    outer_changes: &NodeChangeMap,
    inner_changes: &NodeChangeMap,
    energy_state: i128,
    energy_neighbor: i128,
    temperature: i128,
    coin: u64,
) -> (r: Result<(), StillCrossing>)
    requires
        old(ts).wf(),
        displacement_fits(old(ts).outer(), outer_changes@, -1),
        displacement_fits(old(ts).inner(), inner_changes@, -1),
        -ENERGY_MAX <= energy_state <= ENERGY_MAX,
        -ENERGY_MAX <= energy_neighbor <= ENERGY_MAX,
    ensures
        final(ts).wf(),
        if moves_to_neighbor(
            *old(ts),
            energy_state as int,
            energy_neighbor as int,
            temperature as int,
            coin as int,
        ) {
            *final(ts) == *old(ts)
        } else {
            is_moved_back(*old(ts), *final(ts), (outer_changes@, inner_changes@))
        },
        r is Err <==> !surface_is_simple(*old(ts)) && !surface_is_simple(*final(ts)),
        r is Err ==> is_first_crossing_point(
            surface_edges(final(ts).outer(), final(ts).inner()),
            (r->Err_0.x, r->Err_0.y),
        ),
{
    if !is_simple(ts) {
        revert_changes(&mut ts.layers[OUTER], outer_changes);
        revert_changes(&mut ts.layers[INNER], inner_changes);
        match crossing_of(ts) {
            Some(point) => Err(StillCrossing { x: point.0, y: point.1 }),
            None => Ok(()),
        }
    } else {
        if !accepts_neighbor_state(energy_state, energy_neighbor, temperature, coin) {
            revert_changes(&mut ts.layers[OUTER], outer_changes);
            revert_changes(&mut ts.layers[INNER], inner_changes);
        }
        Ok(())
    }
}

/// A step in place from `before` cannot be concluded: the moved surface
/// `moved` has its energy measured and has crossing edges, and the surface
/// had crossing edges before it was moved, so that taking the moves back does
/// not help.
pub open spec fn fails_in_place(
    before: ThickSurface,
    moves: (Map<usize, NodeChange>, Map<usize, NodeChange>),
    moved: ThickSurface,
) -> bool {
    &&& moves_fit(before, OUTER, INNER, moves)
    &&& is_moved(before, moved, OUTER, INNER, moves)
    &&& areas_fit(before)
    &&& areas_fit(moved)
    &&& !surface_is_simple(moved)
    &&& !surface_is_simple(before)
}

/// A step in place from `before` with the seed move `seed` cannot be
/// concluded.
pub open spec fn aborts_in_place(
    before: ThickSurface,
    stitching: Stitching,
    params: Params,
    seed: NodeChange,
) -> bool {
    exists|moved: ThickSurface| #[trigger]
        fails_in_place(
            before,
            moves_of(
                before,
                OUTER,
                INNER,
                params.how_smooth,
                params.compression_factor as int,
                stitching,
                seed,
            ),
            moved,
        )
}

/// `after` is what a step in place from `before` with the seed move `seed`
/// and the coin `coin` leaves: the state that the step leads to, or, where the
/// step cannot be concluded, the state in which it has been given up with the
/// error `failure`.
pub open spec fn is_in_place_outcome(
    before: SimState,
    params: Params,
    seed: NodeChange,
    coin: u64,
    after: SimState,
    failure: Option<StillCrossing>,
) -> bool {
    match failure {
        None => !aborts_in_place(before.ts, before.stitching, params, seed) && is_step_in_place(
            before,
            params,
            seed,
            coin,
            after,
        ),
        Some(e) => aborts_in_place(before.ts, before.stitching, params, seed) && is_given_up(
            before,
            after,
            e,
        ),
    }
}

/// The error of a result, if it is one.
pub open spec fn failure_of<T>(r: Result<T, StillCrossing>) -> Option<StillCrossing> {
    match r {
        Ok(_) => None,
        Err(e) => Some(e),
    }
}

/// `after` is the state in which a step in place from `before` has been
/// given up with the error `e`: the surface holds the vertices it held, no
/// step has been counted, and `e` is the first point in which edges cross.
pub open spec fn is_given_up(before: SimState, after: SimState, e: StillCrossing) -> bool {
    &&& after.ts.same_as(before.ts)
    &&& after.temperature == before.temperature
    &&& after.timestep == before.timestep
    &&& after.stitching == before.stitching
    &&& is_first_crossing_point(surface_edges(after.ts.outer(), after.ts.inner()), (e.x, e.y))
}

/// The surface from which the maintenance passes of a step in place start:
/// the moved surface, where the fields fit the window, the energies of the
/// surface before and after the move can be computed, no edges of the moved
/// surface cross and the acceptance rule accepts its energy; and else the
/// surface as it was.
pub open spec fn keeps_moves(
    before: SimState,
    params: Params,
    moves: (Map<usize, NodeChange>, Map<usize, NodeChange>),
    moved: ThickSurface,
    coin: u64,
) -> bool {
    &&& moves_fit(before.ts, OUTER, INNER, moves)
    &&& areas_fit(before.ts)
    &&& areas_fit(moved)
    &&& moves_to_neighbor(
        moved,
        energy_spec(before.ts, params.initial_gray_matter_area as int),
        energy_spec(moved, params.initial_gray_matter_area as int),
        before.temperature as int,
        coin as int,
    )
}

/// The surfaces `moved`, `base`, `grown`, `regrown` and `shrunk` lead from
/// the state `before` to the state `after` by a step in place: `moved` is the
/// surface moved by its fields, `base` is `moved` where the moves are kept and
/// the surface of `before` where they are not, and from `base` each boundary
/// has its insertion pass, the outer one first, then each its deletion pass,
/// in which a merge that would leave crossing edges does not qualify.
pub open spec fn leads_in_place(
    before: SimState,
    params: Params,
    moves: (Map<usize, NodeChange>, Map<usize, NodeChange>),
    coin: u64,
    moved: ThickSurface,
    base: ThickSurface,
    grown: ThickSurface,
    regrown: ThickSurface,
    shrunk: ThickSurface,
    after: SimState,
) -> bool {
    &&& moves_fit(before.ts, OUTER, INNER, moves) ==> is_moved(
        before.ts,
        moved,
        OUTER,
        INNER,
        moves,
    )
    &&& base.same_as(
        if keeps_moves(before, params, moves, moved, coin) {
            moved
        } else {
            before.ts
        },
    )
    &&& is_insertion_pass(base, grown, OUTER as int, params.node_addition_threshold as int)
    &&& is_insertion_pass(grown, regrown, INNER as int, params.node_addition_threshold as int)
    &&& is_deletion_pass(
        regrown,
        shrunk,
        OUTER,
        params.node_deletion_threshold as int,
        params.max_merge_steps_away as int,
        true,
    )
    &&& is_deletion_pass(
        shrunk,
        after.ts,
        INNER,
        params.node_deletion_threshold as int,
        params.max_merge_steps_away as int,
        true,
    )
    &&& after.temperature == temperature_spec(before.timestep, params.temperature_param)
    &&& after.timestep == before.timestep + 1
    &&& after.stitching == before.stitching
}

/// `after` is the state that a step in place from `before` with the seed
/// move `seed` and the coin `coin` leads to.
pub open spec fn is_step_in_place(
    before: SimState,
    params: Params,
    seed: NodeChange,
    coin: u64,
    after: SimState,
) -> bool {
    exists|
        moved: ThickSurface,
        base: ThickSurface,
        grown: ThickSurface,
        regrown: ThickSurface,
        shrunk: ThickSurface,
    | #[trigger]
        leads_in_place(
            before,
            params,
            moves_of(
                before.ts,
                OUTER,
                INNER,
                params.how_smooth,
                params.compression_factor as int,
                before.stitching,
                seed,
            ),
            coin,
            moved,
            base,
            grown,
            regrown,
            shrunk,
            after,
        )
}

/// Concludes a step in place for which the seed move and the coin have been
/// drawn: the surface itself is moved, and moved back where the move is not
/// accepted; then the maintenance passes run on it. Returns the fields of the
/// outer and of the inner boundary. The step is given up, with the surface as
/// it was and no step counted, where the moved surface has crossing edges and
/// they are still there after the moves have been taken back; that cannot
/// happen to a surface that had no crossing edges.
pub fn step_in_place_with(
    sim_state: &mut SimState,
    params: &Params,
    seed: NodeChange,
    coin: u64,
) -> (r: Result<Vec<NodeChangeMap>, StillCrossing>)
    requires
        old(sim_state).wf(),
        params.wf(),
        old(sim_state).timestep < u64::MAX,
        seed.id < old(sim_state).ts.outer().len(),
        is_offset(seed.delta_x as int),
        is_offset(seed.delta_y as int),
    ensures
        final(sim_state).wf(),
        is_in_place_outcome(
            *old(sim_state),
            *params,
            seed,
            coin,
            *final(sim_state),
            failure_of(r),
        ),
        surface_is_simple(old(sim_state).ts) ==> r is Ok,
        match r {
            Ok(changes) => {
                &&& counts_stay_close(
                    old(sim_state).ts,
                    final(sim_state).ts,
                    params.max_merge_steps_away,
                )
                &&& changes@.len() == 2
                &&& (changes@[0]@, changes@[1]@) == moves_of(
                    old(sim_state).ts,
                    OUTER,
                    INNER,
                    params.how_smooth,
                    params.compression_factor as int,
                    old(sim_state).stitching,
                    seed,
                )
            },
            Err(_) => true,
        },
{
    let (outer_changes, inner_changes) = changes_of_move(
        &sim_state.ts,
        OUTER,
        INNER,
        params.how_smooth,
        params.compression_factor,
        &sim_state.stitching,
        seed,
    );
    let ghost moves = (outer_changes@, inner_changes@);
    let ghost mut moved = sim_state.ts;
    if changes_fit(&sim_state.ts.layers[OUTER], &outer_changes, true) && changes_fit(
        &sim_state.ts.layers[INNER],
        &inner_changes,
        true,
    ) {
        let defined: bool = energy_is_defined(&sim_state.ts);
        let energy_state: i128 = if defined {
            energy(&sim_state.ts, params.initial_gray_matter_area)
        } else {
            0
        };
        proof {
            lemma_revert_undoes_apply(sim_state.ts.outer(), moves.0);
            lemma_revert_undoes_apply(sim_state.ts.inner(), moves.1);
        }
        apply_changes(&mut sim_state.ts.layers[OUTER], &outer_changes);
        apply_changes(&mut sim_state.ts.layers[INNER], &inner_changes);
        proof {
            moved = sim_state.ts;
        }
        if defined && energy_is_defined(&sim_state.ts) {
            let energy_neighbor: i128 = energy(&sim_state.ts, params.initial_gray_matter_area);
            match intersection_effects(
                &mut sim_state.ts,
                &outer_changes,
                &inner_changes,
                energy_state,
                energy_neighbor,
                sim_state.temperature,
                coin,
            ) {
                Err(e) => {
                    assert(fails_in_place(old(sim_state).ts, moves, moved));
                    return Err(e);
                },
                Ok(_) => {},
            }
        } else {
            revert_changes(&mut sim_state.ts.layers[OUTER], &outer_changes);
            revert_changes(&mut sim_state.ts.layers[INNER], &inner_changes);
        }
    }
    let ghost base = sim_state.ts;
    assert(base.same_as(
        if keeps_moves(*old(sim_state), *params, moves, moved, coin) {
            moved
        } else {
            old(sim_state).ts
        },
    ));
    assert forall|other: ThickSurface| !#[trigger] fails_in_place(
        old(sim_state).ts,
        moves,
        other,
    ) by {
        if fails_in_place(old(sim_state).ts, moves, other) {
            assert(other.outer() == moved.outer() && other.inner() == moved.inner());
        }
    }
    add_single_node_effects(&mut sim_state.ts, OUTER, params.node_addition_threshold);
    let ghost grown = sim_state.ts;
    add_single_node_effects(&mut sim_state.ts, INNER, params.node_addition_threshold);
    let ghost regrown = sim_state.ts;

    delete_single_node_effects(
        &mut sim_state.ts,
        OUTER,
        params.node_deletion_threshold,
        params.max_merge_steps_away,
        true,
    );
    let ghost shrunk = sim_state.ts;
    delete_single_node_effects(
        &mut sim_state.ts,
        INNER,
        params.node_deletion_threshold,
        params.max_merge_steps_away,
        true,
    );

    sim_state.temperature = temperature(sim_state, params.temperature_param);
    sim_state.timestep += 1;
    assert(leads_in_place(
        *old(sim_state),
        *params,
        moves,
        coin,
        moved,
        base,
        grown,
        regrown,
        shrunk,
        *sim_state,
    ));
    let mut changes: Vec<NodeChangeMap> = Vec::new();
    changes.push(outer_changes);
    changes.push(inner_changes);
    Ok(changes)
}

/// One step of the annealing in place: a random move of the outer boundary,
/// carried over to the inner one, is applied to the surface itself and taken
/// back where edges cross or the acceptance rule does not accept the energy;
/// then the maintenance passes run on the surface, whose deletion passes let
/// no merge leave crossing edges. Returns the fields of the outer and of the
/// inner boundary, or the error with which the step has been given up.
pub fn step_in_place(sim_state: &mut SimState, params: &Params, coin: u64) -> (r: Result<
    Vec<NodeChangeMap>,
    StillCrossing,
>)
    requires
        old(sim_state).wf(),
        params.wf(),
        old(sim_state).timestep < u64::MAX,
    ensures
        final(sim_state).wf(),
        surface_is_simple(old(sim_state).ts) ==> r is Ok,
        r is Ok ==> r->Ok_0@.len() == 2 && counts_stay_close(
            old(sim_state).ts,
            final(sim_state).ts,
            params.max_merge_steps_away,
        ),
        exists|seed: NodeChange|
            is_random_move(
                seed,
                old(sim_state).ts.outer(),
                params.low_high.0 as int,
                params.low_high.1 as int,
            ) && #[trigger] is_in_place_outcome(
                *old(sim_state),
                *params,
                seed,
                coin,
                *final(sim_state),
                failure_of(r),
            ),
{
    assert(link_ok(sim_state.ts.outer(), 0)) by {
        let (order, rank) = ring_witness(sim_state.ts.outer());
    }
    let seed: NodeChange = random_move(
        &sim_state.ts.layers[OUTER],
        params.low_high,
        &mut sim_state.rng,
    );
    let ghost drawn = *sim_state;
    let r: Result<Vec<NodeChangeMap>, StillCrossing> = step_in_place_with(
        sim_state,
        params,
        seed,
        coin,
    );
    proof {
        if r is Ok {
            let moves = moves_of(
                drawn.ts,
                OUTER,
                INNER,
                params.how_smooth,
                params.compression_factor as int,
                drawn.stitching,
                seed,
            );
            let (moved, base, grown, regrown, shrunk) = choose|
                moved: ThickSurface,
                base: ThickSurface,
                grown: ThickSurface,
                regrown: ThickSurface,
                shrunk: ThickSurface,
            | #[trigger]
                leads_in_place(
                    drawn,
                    *params,
                    moves,
                    coin,
                    moved,
                    base,
                    grown,
                    regrown,
                    shrunk,
                    *sim_state,
                );
            assert(leads_in_place(
                *old(sim_state),
                *params,
                moves,
                coin,
                moved,
                base,
                grown,
                regrown,
                shrunk,
                *sim_state,
            ));
            assert(is_step_in_place(*old(sim_state), *params, seed, coin, *sim_state));
        }
        assert(is_in_place_outcome(
            *old(sim_state),
            *params,
            seed,
            coin,
            *sim_state,
            failure_of(r),
        ));
    }
    r
}

/// How a step tries its candidate: on a copy that replaces the surface when
/// it is accepted, or on the surface itself, which is moved back when the
/// move is not accepted.
#[derive(Debug, Clone, Copy, PartialEq, Eq, Structural)]
pub enum Engine {
    Commit,
    Revert,
}

/// One step of the annealing by the engine chosen. Only a step in place can
/// be given up, and only on a surface that had crossing edges.
pub fn step_choice(sim_state: &mut SimState, params: &Params, coin: u64, engine: Engine) -> (r:
    Result<(), StillCrossing>)
    requires
        old(sim_state).wf(),
        params.wf(),
        old(sim_state).timestep < u64::MAX,
    ensures
        final(sim_state).wf(),
        final(sim_state).stitching == old(sim_state).stitching,
        surface_is_simple(old(sim_state).ts) || engine == Engine::Commit ==> r is Ok,
        r is Ok ==> {
            &&& final(sim_state).timestep == old(sim_state).timestep + 1
            &&& final(sim_state).temperature == temperature_spec(
                old(sim_state).timestep,
                params.temperature_param,
            )
            &&& counts_stay_close(
                old(sim_state).ts,
                final(sim_state).ts,
                params.max_merge_steps_away,
            )
        },
        match engine {
            Engine::Commit => is_step(*old(sim_state), *params, coin, *final(sim_state)),
            Engine::Revert => exists|seed: NodeChange|
                is_random_move(
                    seed,
                    old(sim_state).ts.outer(),
                    params.low_high.0 as int,
                    params.low_high.1 as int,
                ) && #[trigger] is_in_place_outcome(
                    *old(sim_state),
                    *params,
                    seed,
                    coin,
                    *final(sim_state),
                    failure_of(r),
                ),
        },
{
    match engine {
        Engine::Commit => {
            step(sim_state, params, coin);
            Ok(())
        },
        Engine::Revert => match step_in_place(sim_state, params, coin) {
            Ok(_) => Ok(()),
            Err(e) => Err(e),
        },
    }
}

} // verus!
