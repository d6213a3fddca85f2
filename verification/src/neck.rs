//! The neck mechanism and its per-frame transition.
//!
//! The neck is two coupled oscillators. The lower one swings between fixed
//! bounds; the upper one swings between a fixed floor and a ceiling that
//! rides on the lower angle. A single boolean input per frame can interrupt
//! the upper oscillator's descent and send both upwards.
use crate::offsets::{offset_of, segment_offset};
use vstd::prelude::*;

verus! {

/// Lowest value of the lower angle.
pub const LOWER_MIN: u16 = 0x2800;

/// Highest value of the lower angle.
pub const LOWER_MAX: u16 = 0x9000;

/// Lowest value of the upper angle.
pub const UPPER_MIN: u16 = 0x2000;

/// How far the upper angle may rise above the lower one.
pub const UPPER_REACH: u16 = 0x800;

/// The lower oscillator stops rising while the head is above this height.
pub const HEAD_LIMIT: u16 = 0x3C;

/// Height of the neck's base above the body's position.
pub const BASE_RISE: u16 = 0x60;

/// Height of the head above the end of the upper segment.
pub const HEAD_RISE: u16 = 0x15;

/// One record of a reference trace.
#[derive(Clone, Copy, Debug, PartialEq, Eq)]
pub struct Frame {
    /// Vertical position of the body.
    pub body_y: u16,
    /// Step size recorded with this frame. It drives the step out of the
    /// frame before.
    pub angle_delta: u16,
    /// Lower angle that the trace saw on this frame.
    pub expected_lower_angle: u16,
    /// Upper angle that the trace saw on this frame.
    pub expected_upper_angle: u16,
    /// Head position that the trace saw on this frame.
    pub expected_brain_y: u16,
}

/// State of the neck on one frame.
#[derive(Clone, Copy, Debug, PartialEq, Eq, Hash, Structural)]
pub struct MotherBrain {
    /// Angle of the lower two joints.
    pub lower_angle: u16,
    /// Angle of the upper two joints.
    pub upper_angle: u16,
    /// Whether the lower joints are swinging up.
    pub lower_moving_up: bool,
    /// Whether the upper joints are swinging up.
    pub upper_moving_up: bool,
}

/// Reduces an integer to sixteen bits.
pub open spec fn wrap16(v: int) -> int {
    v % 0x10000
}

impl MotherBrain {
    /// Both angles lie within the bounds that the transition clamps to.
    pub open spec fn in_range(self) -> bool {
        &&& LOWER_MIN <= self.lower_angle <= LOWER_MAX
        &&& UPPER_MIN <= self.upper_angle <= LOWER_MAX + UPPER_REACH
    }

    /// The upper angle is within reach of the lower one.
    pub open spec fn coupled(self) -> bool {
        self.upper_angle <= self.lower_angle + UPPER_REACH
    }

    /// The ceiling over the lower angle fits in sixteen bits, so that a step
    /// can be taken from this state.
    pub open spec fn steppable(self) -> bool {
        self.lower_angle + UPPER_REACH <= u16::MAX
    }

    /// Position of the head for a body at `body_y`: the base of the neck,
    /// plus the offsets of the two segments, less the head's own rise, in
    /// sixteen-bit arithmetic.
    pub open spec fn head(self, body_y: u16) -> int {
        wrap16(
            body_y - BASE_RISE + segment_offset(self.lower_angle as int / 0x100) + segment_offset(
                self.upper_angle as int / 0x100,
            ) - HEAD_RISE,
        )
    }

    /// The lower oscillator's angle and direction after one frame.
    pub open spec fn lower_after(self, body_y: u16, delta: u16) -> (int, bool) {
        if self.lower_moving_up {
            if self.head(body_y) < HEAD_LIMIT {
                (self.lower_angle as int, false)
            } else if self.lower_angle + delta >= LOWER_MAX {
                (LOWER_MAX as int, false)
            } else {
                (self.lower_angle + delta, true)
            }
        } else if self.lower_angle - delta < LOWER_MIN {
            (LOWER_MIN as int, true)
        } else {
            (self.lower_angle - delta, false)
        }
    }

    /// The input interrupts the upper oscillator's descent on this frame.
    pub open spec fn interrupted(self, input: bool) -> bool {
        !self.upper_moving_up && input
    }

    /// The state one frame later. The lower oscillator moves first; the
    /// upper one then moves under the ceiling that the new lower angle sets,
    /// unless the input interrupts it.
    pub open spec fn after_frame(self, body_y: u16, delta: u16, input: bool) -> MotherBrain {
        let (lower, lower_up) = self.lower_after(body_y, delta);
        let ceiling = lower + UPPER_REACH;
        if self.upper_moving_up {
            if self.upper_angle + delta >= ceiling {
                MotherBrain {
                    lower_angle: lower as u16,
                    upper_angle: ceiling as u16,
                    lower_moving_up: lower_up,
                    upper_moving_up: false,
                }
            } else {
                MotherBrain {
                    lower_angle: lower as u16,
                    upper_angle: (self.upper_angle + delta) as u16,
                    lower_moving_up: lower_up,
                    upper_moving_up: true,
                }
            }
        } else if input {
            MotherBrain {
                lower_angle: lower as u16,
                upper_angle: self.upper_angle,
                lower_moving_up: true,
                upper_moving_up: true,
            }
        } else if self.upper_angle - delta < UPPER_MIN {
            MotherBrain {
                lower_angle: lower as u16,
                upper_angle: UPPER_MIN,
                lower_moving_up: lower_up,
                upper_moving_up: true,
            }
        } else {
            MotherBrain {
                lower_angle: lower as u16,
                upper_angle: (self.upper_angle - delta) as u16,
                lower_moving_up: lower_up,
                upper_moving_up: false,
            }
        }
    }

    /// Computes the position of the head for a body at `body_y`.
    pub fn brain_y(&self, body_y: u16) -> (y: u16)
        ensures
            y == self.head(body_y),
    {
        let lower: i32 = offset_of((self.lower_angle / 0x100) as u8) as i32;
        let upper: i32 = offset_of((self.upper_angle / 0x100) as u8) as i32;
        let raw: i32 = body_y as i32 - BASE_RISE as i32 + lower + upper - HEAD_RISE as i32;
        if raw < 0 {
            (raw + 0x10000) as u16
        } else if raw > 0xFFFF {
            (raw - 0x10000) as u16
        } else {
            raw as u16
        }
    }

    /// Advances the neck by one frame.
    ///
    /// `body_y` is the body's position, `delta` the step size, and
    /// `samus_jumped` the input of this frame.
    pub fn run_frame(&mut self, body_y: u16, delta: u16, samus_jumped: bool)
        requires
            old(self).steppable(),
        ensures
            *final(self) == old(self).after_frame(body_y, delta, samus_jumped),
            final(self).steppable(),
            old(self).in_range() ==> final(self).in_range(),
    {
        let brain_y = self.brain_y(body_y);

        if self.lower_moving_up {
            if brain_y < HEAD_LIMIT {
                self.lower_moving_up = false;
            } else {
                let raised: u32 = self.lower_angle as u32 + delta as u32;
                if raised >= LOWER_MAX as u32 {
                    self.lower_moving_up = false;
                    self.lower_angle = LOWER_MAX;
                } else {
                    self.lower_angle = raised as u16;
                }
            }
        } else if self.lower_angle < delta || self.lower_angle - delta < LOWER_MIN {
            self.lower_angle = LOWER_MIN;
            self.lower_moving_up = true;
        } else {
            self.lower_angle = self.lower_angle - delta;
        }

        if self.upper_moving_up {
            let max: u32 = self.lower_angle as u32 + UPPER_REACH as u32;
            let raised: u32 = self.upper_angle as u32 + delta as u32;
            if raised >= max {
                self.upper_moving_up = false;
                self.upper_angle = max as u16;
            } else {
                self.upper_angle = raised as u16;
            }
        } else if samus_jumped {
            self.upper_moving_up = true;
            self.lower_moving_up = true;
        } else if self.upper_angle < delta || self.upper_angle - delta < UPPER_MIN {
            self.upper_moving_up = true;
            self.upper_angle = UPPER_MIN;
        } else {
            self.upper_angle = self.upper_angle - delta;
        }
    }
}

/// The transition as a function: the state that follows `state` after one
/// frame with the given body position, step size and input.
pub fn step(state: MotherBrain, body_y: u16, delta: u16, input: bool) -> (next: MotherBrain)
    requires
        state.steppable(),
    ensures
        next == state.after_frame(body_y, delta, input),
        next.steppable(),
        state.in_range() ==> next.in_range(),
{
    let mut next = state;
    next.run_frame(body_y, delta, input);
    next
}

/// The input stops the upper angle while the lower one falls away beneath
/// it: the one way in which a step can leave the upper angle out of reach.
pub open spec fn stranded(state: MotherBrain, body_y: u16, delta: u16, input: bool) -> bool {
    &&& state.interrupted(input)
    &&& state.upper_angle > state.lower_after(body_y, delta).0 + UPPER_REACH
}

/// A step from a state within the bounds ends within the bounds.
pub proof fn lemma_step_in_range(state: MotherBrain, body_y: u16, delta: u16, input: bool)
    requires
        state.in_range(),
    ensures
        state.after_frame(body_y, delta, input).in_range(),
{
}

/// A step from a coupled state within the bounds leaves the upper angle
/// within reach of the lower one, unless the input stranded it.
pub proof fn lemma_step_coupled(state: MotherBrain, body_y: u16, delta: u16, input: bool)
    requires
        state.in_range(),
        state.coupled(),
        !stranded(state, body_y, delta, input),
    ensures
        state.after_frame(body_y, delta, input).coupled(),
{
}

/// The upper angle is stranded only while the lower oscillator descends
/// from a state that was itself coupled.
pub proof fn lemma_stranded_only_descending(
    state: MotherBrain,
    body_y: u16,
    delta: u16,
    input: bool,
)
    requires
        state.in_range(),
        state.coupled(),
        stranded(state, body_y, delta, input),
    ensures
        !state.lower_moving_up,
        !state.upper_moving_up,
        input,
        delta > 0,
{
}

} // verus!
