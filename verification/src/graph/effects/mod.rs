//! The operators that change a surface: insertion and merging of vertices,
//! displacement fields and their propagation, and random moves.

pub mod fields;
pub mod pushers;
pub mod random;
pub mod topology;

pub use crate::graph::effects::fields::{
    displaced_node, displaced, move_fits, displacement_fits, lemma_displaced_wf,
    lemma_revert_undoes_apply, changes_fit, field_is_keyed,
    lemma_with_change_keyed, apply_changes, revert_changes, field_is_bounded,
    full_reach, attenuated, lemma_attenuation_fades, lemma_quotient_magnitude, side_neighbour,
    reach_after, spreads_on, most_steps, faded_change, spread, with_change_at, smoothed,
    lemma_mean_is_offset, lemma_with_change_bounded, smooth_change_out, FACTOR_MAX, PUSHED_MAX,
    scaled, pushed_change, pushed_onto, propagated, field_is_pushed, scale, changer_of_choice,
};
pub use crate::graph::effects::pushers::{
    avg_change_dumb, closest_internal_nodes, inner_mods, modified_inners, most_prev_next,
    n_closest_outers, push_inners,
};
pub use crate::graph::effects::random::{
    DIRECTION_REACH, DIRECTION_TRIES, is_direction, along, drawn_change, change_from_draws,
    is_random_move, random_move, random_change,
};
pub use crate::graph::effects::topology::{
    NodeAddition, fits_edge, with_node, order_with, rank_with, lemma_with_node_order,
    lemma_with_node_wf, lemma_with_node_walk, shifted, unshifted, without_node, order_without,
    rank_without, lemma_without_node_order, lemma_without_node_wf, lemma_without_node_walk,
    merge_step, merged_ring, merged, lemma_merge_step_wf, lemma_merged_ring_wf, lemma_moved_wf,
    lemma_merged_wf, add_node_, merging_fits, merged_layer, merge_nodes_,
};
