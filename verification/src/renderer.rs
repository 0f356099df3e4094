//! The state of a run that is watched: whether the simulation steps on its
//! own, one step at a time or by hand, as the keys pressed decide, and for how
//! long a notice stays on the screen.

use vstd::prelude::*;

verus! {

/// What the next turn of the loop does to the simulation.
#[derive(Debug, Clone, Copy, PartialEq, Eq, Structural)]
pub enum StepType {
    ManualChange,
    OneAtATime,
    Automatic,
    NoStep,
    Reset,
}

/// The keys that steer a run.
#[derive(Debug, Clone, Copy, PartialEq, Eq, Structural)]
pub enum Key {
    Space,
    N,
    M,
    R,
    H,
    Other,
}

#[derive(Debug, Clone, Copy, PartialEq, Eq, Structural)]
pub struct RenderState {
    pub should_step: bool,
    pub one_at_a_time: bool,
    pub step_type: StepType,
    pub hyper_debug: bool,
}

/// The state after `event`. Space toggles between running and pausing; N and
/// M ask for one step, automatic or by hand, while paused; R resets; H
/// toggles the debugging overlay; without a steering key a paused run does
/// not step.
pub open spec fn next_state_spec(event: Option<Key>, s: RenderState) -> RenderState {
    match event {
        Some(Key::Space) => RenderState {
            should_step: !s.should_step,
            one_at_a_time: !s.one_at_a_time,
            step_type: if s.step_type == StepType::Automatic {
                StepType::NoStep
            } else {
                StepType::Automatic
            },
            ..s
        },
        Some(Key::N) => RenderState {
            step_type: if s.one_at_a_time {
                StepType::OneAtATime
            } else {
                s.step_type
            },
            ..s
        },
        Some(Key::M) => RenderState {
            step_type: if s.one_at_a_time {
                StepType::ManualChange
            } else {
                s.step_type
            },
            ..s
        },
        Some(Key::R) => RenderState {
            should_step: false,
            one_at_a_time: true,
            step_type: StepType::Reset,
            ..s
        },
        Some(Key::H) => RenderState { hyper_debug: !s.hyper_debug, ..s },
        _ => RenderState {
            step_type: if !s.should_step {
                StepType::NoStep
            } else {
                s.step_type
            },
            ..s
        },
    }
}

/// The state after `event`.
pub fn next_state(event: Option<Key>, s: RenderState) -> (r: RenderState)
    ensures
        r == next_state_spec(event, s),
{
    match event {
        Some(Key::Space) => RenderState {
            should_step: !s.should_step,
            one_at_a_time: !s.one_at_a_time,
            step_type: match s.step_type {
                StepType::Automatic => StepType::NoStep,
                _ => StepType::Automatic,
            },
            ..s
        },
        Some(Key::N) => RenderState {
            step_type: if s.one_at_a_time {
                StepType::OneAtATime
            } else {
                s.step_type
            },
            ..s
        },
        Some(Key::M) => RenderState {
            step_type: if s.one_at_a_time {
                StepType::ManualChange
            } else {
                s.step_type
            },
            ..s
        },
        Some(Key::R) => RenderState {
            should_step: false,
            one_at_a_time: true,
            step_type: StepType::Reset,
            ..s
        },
        Some(Key::H) => RenderState { hyper_debug: !s.hyper_debug, ..s },
        _ => RenderState {
            step_type: if !s.should_step {
                StepType::NoStep
            } else {
                s.step_type
            },
            ..s
        },
    }
}

/// The state in which a run starts: paused, one step at a time.
pub fn initial_render_state() -> (r: RenderState)
    ensures
        r == (RenderState {
            should_step: false,
            one_at_a_time: true,
            step_type: StepType::NoStep,
            hyper_debug: false,
        }),
{
    RenderState {
        should_step: false,
        one_at_a_time: true,
        step_type: StepType::NoStep,
        hyper_debug: false,
    }
}

/// The counter of a notice one turn later: a counter at rest, which is to
/// say at zero, stays at rest; a running counter goes up by one, and comes to
/// rest once it is past `lim`.
pub open spec fn counter_after(counter: usize, lim: usize) -> usize {
    let counted = if counter > 0 {
        counter + 1
    } else {
        counter as int
    };
    if counted > lim {
        0
    } else {
        counted as usize
    }
}

/// Counts one more turn for which a notice has been shown.
pub fn counter_logic(lil_counter: &mut usize, lim: usize)
    requires
        *old(lil_counter) < usize::MAX,
    ensures
        *final(lil_counter) == counter_after(*old(lil_counter), lim),
{
    if *lil_counter > 0 {
        *lil_counter = *lil_counter + 1;
    }
    if *lil_counter > lim {
        *lil_counter = 0;
    }
}

} // verus!
