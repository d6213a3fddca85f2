//! Replaying a trace against the transition.
//!
//! A trace records, frame by frame, what the mechanism did while the input
//! was left alone. Replaying it from the initial state must reproduce those
//! records up to the first frame on which the input is pressed; from then on
//! the replay leaves the recorded course and there is nothing to compare.
use crate::graph::{delta_at, lookahead_delta};
use crate::neck::{
    lemma_step_coupled, lemma_step_in_range, wrap16, Frame, MotherBrain, HEAD_RISE, LOWER_MAX,
    UPPER_REACH,
};
use vstd::prelude::*;

verus! {

/// The state in which every trace starts: both angles at their highest,
/// both oscillators descending.
pub open spec fn start() -> MotherBrain {
    MotherBrain {
        lower_angle: LOWER_MAX,
        upper_angle: (LOWER_MAX + UPPER_REACH) as u16,
        lower_moving_up: false,
        upper_moving_up: false,
    }
}

/// The state in which every trace starts.
pub fn initial_state() -> (state: MotherBrain)
    ensures
        state == start(),
        state.in_range(),
        state.coupled(),
{
    MotherBrain {
        lower_angle: LOWER_MAX,
        upper_angle: LOWER_MAX + UPPER_REACH,
        lower_moving_up: false,
        upper_moving_up: false,
    }
}

/// Whether the input is pressed on frame `i`. Frames past the end of
/// `jumps` count as not pressed.
pub open spec fn jump_at(jumps: Seq<bool>, i: int) -> bool {
    0 <= i < jumps.len() && jumps[i]
}

/// Whether the input is pressed on some frame before `i`.
pub open spec fn jumped_before(jumps: Seq<bool>, i: int) -> bool {
    exists|j: int| 0 <= j < i && #[trigger] jump_at(jumps, j)
}

/// The state on frame `i` of the replay.
pub open spec fn state_at(trace: Seq<Frame>, jumps: Seq<bool>, i: int) -> MotherBrain
    decreases i,
{
    if i <= 0 {
        start()
    } else {
        state_at(trace, jumps, i - 1).after_frame(
            trace[i - 1].body_y,
            delta_at(trace, i - 1),
            jump_at(jumps, i - 1),
        )
    }
}

/// Every state of a replay lies within the bounds.
pub proof fn lemma_replay_in_range(trace: Seq<Frame>, jumps: Seq<bool>, i: int)
    ensures
        state_at(trace, jumps, i).in_range(),
    decreases i,
{
    if i > 0 {
        lemma_replay_in_range(trace, jumps, i - 1);
        lemma_step_in_range(
            state_at(trace, jumps, i - 1),
            trace[i - 1].body_y,
            delta_at(trace, i - 1),
            jump_at(jumps, i - 1),
        );
    }
}

/// A replay in which the input is never pressed keeps the upper angle
/// within reach of the lower one.
pub proof fn lemma_idle_replay_coupled(trace: Seq<Frame>, jumps: Seq<bool>, i: int)
    requires
        !jumped_before(jumps, i),
    ensures
        state_at(trace, jumps, i).coupled(),
    decreases i,
{
    if i > 0 {
        assert(!jumped_before(jumps, i - 1)) by {
            if jumped_before(jumps, i - 1) {
                let j = choose|j: int| 0 <= j < i - 1 && #[trigger] jump_at(jumps, j);
                assert(0 <= j < i && jump_at(jumps, j));
            }
        }
        assert(!jump_at(jumps, i - 1));
        lemma_idle_replay_coupled(trace, jumps, i - 1);
        lemma_replay_in_range(trace, jumps, i - 1);
        lemma_step_coupled(
            state_at(trace, jumps, i - 1),
            trace[i - 1].body_y,
            delta_at(trace, i - 1),
            false,
        );
    }
}

/// A recorded value that the replay can fail to reproduce.
#[derive(Clone, Copy, Debug, PartialEq, Eq)]
pub enum Field {
    /// The lower angle.
    Lower,
    /// The upper angle.
    Upper,
    /// The position of the head.
    BrainY,
}

/// The first place at which a replay leaves its trace.
#[derive(Clone, Copy, Debug, PartialEq, Eq)]
pub struct Mismatch {
    /// The frame.
    pub frame: usize,
    /// The first recorded value of that frame that the replay did not
    /// reproduce.
    pub field: Field,
}

/// The first recorded value of `frame` that differs from `state`, if any.
/// The trace records the head's position without the head's own rise.
pub open spec fn disagreement(state: MotherBrain, frame: Frame) -> Option<Field> {
    if state.lower_angle != frame.expected_lower_angle {
        Some(Field::Lower)
    } else if state.upper_angle != frame.expected_upper_angle {
        Some(Field::Upper)
    } else if state.head(frame.body_y) != wrap16(frame.expected_brain_y - HEAD_RISE) {
        Some(Field::BrainY)
    } else {
        None
    }
}

/// What is wrong with frame `i` of the replay: nothing once the input has
/// been pressed on an earlier frame, else the frame's disagreement.
pub open spec fn fault_at(trace: Seq<Frame>, jumps: Seq<bool>, i: int) -> Option<Field> {
    if jumped_before(jumps, i) {
        None
    } else {
        disagreement(state_at(trace, jumps, i), trace[i])
    }
}

/// The replay reproduces the trace wherever the two can be compared.
pub open spec fn agrees(trace: Seq<Frame>, jumps: Seq<bool>) -> bool {
    forall|i: int| 0 <= i < trace.len() ==> #[trigger] fault_at(trace, jumps, i) is None
}

/// Compares one frame's records with a state.
fn compare(state: &MotherBrain, frame: &Frame) -> (fault: Option<Field>)
    ensures
        fault == disagreement(*state, *frame),
{
    let recorded: u16 = if frame.expected_brain_y >= HEAD_RISE {
        frame.expected_brain_y - HEAD_RISE
    } else {
        (frame.expected_brain_y as u32 + 0x10000 - HEAD_RISE as u32) as u16
    };
    if state.lower_angle != frame.expected_lower_angle {
        Some(Field::Lower)
    } else if state.upper_angle != frame.expected_upper_angle {
        Some(Field::Upper)
    } else if state.brain_y(frame.body_y) != recorded {
        Some(Field::BrainY)
    } else {
        None
    }
}

/// Reads the input of frame `i`.
fn jump_on(jumps: &[bool], i: usize) -> (pressed: bool)
    ensures
        pressed == jump_at(jumps@, i as int),
{
    i < jumps.len() && jumps[i]
}

/// Replays the trace and reports the first frame that it fails to
/// reproduce, with the first value of that frame that differs.
pub fn validate(trace: &[Frame], jumps: &[bool]) -> (fault: Option<Mismatch>)
    ensures
        match fault {
            None => agrees(trace@, jumps@),
            Some(found) => {
                &&& found.frame < trace.len()
                &&& fault_at(trace@, jumps@, found.frame as int) == Some(found.field)
                &&& forall|i: int|
                    0 <= i < found.frame ==> #[trigger] fault_at(trace@, jumps@, i) is None
            },
        },
{
    let mut state = initial_state();
    let mut i: usize = 0;
    while i < trace.len()
        invariant
            i <= trace.len(),
            state == state_at(trace@, jumps@, i as int),
            state.in_range(),
            !jumped_before(jumps@, i as int),
            forall|t: int| 0 <= t < i ==> #[trigger] fault_at(trace@, jumps@, t) is None,
        decreases trace.len() - i,
    {
        match compare(&state, &trace[i]) {
            Some(field) => {
                return Some(Mismatch { frame: i, field });
            },
            None => {},
        }
        let pressed = jump_on(jumps, i);
        if pressed {
            proof {
                assert forall|t: int| 0 <= t < trace.len() implies #[trigger] fault_at(
                    trace@,
                    jumps@,
                    t,
                ) is None by {
                    if t > i {
                        assert(jump_at(jumps@, i as int));
                    }
                }
            }
            return None;
        }
        state.run_frame(trace[i].body_y, lookahead_delta(trace, i), pressed);
        proof {
            if jumped_before(jumps@, i + 1) {
                let j = choose|j: int| 0 <= j < i + 1 && #[trigger] jump_at(jumps@, j);
                if j < i {
                    assert(jumped_before(jumps@, i as int));
                }
            }
        }
        i += 1;
    }
    None
}

/// Replays the trace under the given inputs and returns the lower angle
/// that it ends with.
///
/// The replay must agree with the trace; [`validate`] tells whether it
/// does.
pub fn simulate(trace: &[Frame], jumps: &[bool]) -> (lower: u16)
    requires
        agrees(trace@, jumps@),
    ensures
        lower == state_at(trace@, jumps@, trace.len() as int).lower_angle,
{
    let mut state = initial_state();
    let mut i: usize = 0;
    while i < trace.len()
        invariant
            i <= trace.len(),
            state == state_at(trace@, jumps@, i as int),
            state.in_range(),
        decreases trace.len() - i,
    {
        state.run_frame(trace[i].body_y, lookahead_delta(trace, i), jump_on(jumps, i));
        i += 1;
    }
    state.lower_angle
}

} // verus!
