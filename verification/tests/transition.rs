use neck_sim::neck::{HEAD_LIMIT, LOWER_MAX, LOWER_MIN, UPPER_MIN, UPPER_REACH};
use neck_sim::offsets::offset_of;
use neck_sim::{initial_state, step, MotherBrain};

fn state(lower: u16, upper: u16, lower_up: bool, upper_up: bool) -> MotherBrain {
    MotherBrain {
        lower_angle: lower,
        upper_angle: upper,
        lower_moving_up: lower_up,
        upper_moving_up: upper_up,
    }
}

#[test]
fn first_step_of_the_reference_trace() {
    let start = state(0x9000, 0x9800, false, false);
    let next = step(start, 196, 1792, false);
    assert_eq!(next, state(0x8900, 0x9100, false, false));
    assert_eq!(next.lower_angle, 35072);
    assert_eq!(next.upper_angle, 37120);
}

#[test]
fn initial_state_is_the_top_of_the_swing() {
    assert_eq!(initial_state(), state(0x9000, 0x9800, false, false));
}

#[test]
fn step_is_repeatable() {
    let from = state(0x5000, 0x5000, true, false);
    for input in [false, true] {
        let once = step(from, 196, 0x100, input);
        let again = step(from, 196, 0x100, input);
        assert_eq!(once, again);
    }
}

#[test]
fn run_frame_agrees_with_step() {
    let from = state(0x5000, 0x5000, true, true);
    let mut moved = from;
    moved.run_frame(196, 0x100, false);
    assert_eq!(moved, step(from, 196, 0x100, false));
    assert_eq!(moved, state(0x5100, 0x5100, true, true));
}

#[test]
fn interrupt_turns_both_upwards_and_keeps_the_upper_angle() {
    let from = state(0x2900, 0x2100, false, false);
    assert_eq!(step(from, 196, 0x200, true), state(0x2800, 0x2100, true, true));
    let rising = state(0x5000, 0x5000, true, false);
    assert_eq!(step(rising, 196, 0x100, true), state(0x5100, 0x5000, true, true));
}

#[test]
fn interrupt_is_ignored_while_the_upper_joints_rise() {
    let from = state(0x5000, 0x5000, true, true);
    assert_eq!(step(from, 196, 0x100, true), step(from, 196, 0x100, false));
}

#[test]
fn both_angles_clamp_at_their_floors() {
    let from = state(0x2900, 0x2100, false, false);
    let next = step(from, 196, 0x200, false);
    assert_eq!(next, state(LOWER_MIN, UPPER_MIN, true, true));
}

#[test]
fn lower_angle_clamps_at_its_ceiling() {
    // The head stands at 60 here, just high enough for the lower joints to
    // keep rising.
    let from = state(0x5000, 0x57F0, true, true);
    assert_eq!(from.brain_y(196), HEAD_LIMIT);
    assert_eq!(step(from, 196, 0x4000, false), state(LOWER_MAX, 0x97F0, false, true));
    assert_eq!(
        step(from, 196, 0x4010, false),
        state(LOWER_MAX, LOWER_MAX + UPPER_REACH, false, false)
    );
    assert_eq!(step(from, 196, 0x3FFF, false), state(0x8FFF, 0x97EF, true, true));
}

#[test]
fn upper_angle_clamps_at_the_moving_ceiling() {
    let from = state(0x5000, 0x5600, false, true);
    assert_eq!(step(from, 196, 0x100, false), state(0x4F00, 0x5700, false, false));
    assert_eq!(step(from, 196, 0xFF, false), state(0x4F01, 0x56FF, false, true));
}

#[test]
fn low_head_stops_the_lower_joints_without_moving_them() {
    let from = state(0x8FF0, 0x9000, true, true);
    assert_eq!(from.brain_y(196), 41);
    let next = step(from, 196, 0x100, false);
    assert_eq!(next, state(0x8FF0, 0x9100, false, true));
}

#[test]
fn steps_larger_than_the_angle_clamp_instead_of_wrapping() {
    let top = state(0x9000, 0x9800, false, false);
    assert_eq!(step(top, 196, 0xFFFF, false), state(LOWER_MIN, UPPER_MIN, true, true));
    let high = state(0x8000, 0x8000, true, true);
    assert_eq!(high.brain_y(196), 39);
    assert_eq!(step(high, 196, 0xFFFF, false), state(0x8000, 0x8800, false, false));
}

#[test]
fn interrupt_can_leave_the_upper_angle_beyond_reach() {
    let next = step(initial_state(), 196, 1792, true);
    assert_eq!(next, state(0x8900, 0x9800, true, true));
    assert!(next.upper_angle > next.lower_angle + UPPER_REACH);
    assert!(next.upper_angle <= LOWER_MAX + UPPER_REACH);
}

#[test]
fn head_positions_of_the_reference_trace() {
    assert_eq!(state(36864, 38912, false, false).brain_y(196), 64 - 0x15);
    assert_eq!(state(35072, 37120, false, false).brain_y(196), 61 - 0x15);
    assert_eq!(state(33792, 35840, false, false).brain_y(196), 60 - 0x15);
    assert_eq!(state(32512, 34560, false, false).brain_y(196), 60 - 0x15);
}

#[test]
fn head_position_wraps_in_sixteen_bits() {
    let level = state(0x4000, 0x4000, true, true);
    assert_eq!(level.brain_y(0), 65419);
    assert_eq!(level.brain_y(0x60), 65515);
    assert_eq!(state(0, 0, false, false).brain_y(0xFFFF), 0xFFFF - 0x60 + 40 - 0x15);
}

#[test]
fn offsets_follow_the_cosine() {
    for k in 0..=255u8 {
        let angle = (k as f64) * std::f64::consts::PI / 128.0;
        let expected = (20.0 * angle.cos()).floor() as i8;
        assert_eq!(offset_of(k), expected, "angle byte {}", k);
    }
    assert_eq!(offset_of(0), 20);
    assert_eq!(offset_of(64), 0);
    assert_eq!(offset_of(128), -20);
    assert_eq!(offset_of(192), -1);
}

#[test]
fn head_position_follows_the_cosine_formula() {
    for lower in (0..=255u16).step_by(3) {
        for upper in (0..=255u16).step_by(5) {
            let at = state(lower * 256 + 17, upper * 256 + 200, false, true);
            let first = (20.0 * ((lower as f64) * std::f64::consts::PI / 128.0).cos()).floor() as i32;
            let second = (20.0 * ((upper as f64) * std::f64::consts::PI / 128.0).cos()).floor() as i32;
            for body_y in [0u16, 0x60, 196, 40000, 0xFFFF] {
                let expected = (body_y as i32 - 0x60 + first + second - 0x15).rem_euclid(0x10000);
                assert_eq!(at.brain_y(body_y) as i32, expected);
            }
        }
    }
}

#[test]
fn bounds_hold_along_every_input_sequence() {
    let deltas = [1792u16, 1280, 1024, 768, 512, 256, 64, 3000, 9];
    for pattern in 0..512u32 {
        let mut at = initial_state();
        for (frame, delta) in deltas.iter().enumerate() {
            at = step(at, 196, *delta, pattern & (1 << frame) != 0);
            assert!(LOWER_MIN <= at.lower_angle && at.lower_angle <= LOWER_MAX);
            assert!(UPPER_MIN <= at.upper_angle && at.upper_angle <= LOWER_MAX + UPPER_REACH);
        }
    }
}

#[test]
fn upper_angle_stays_in_reach_without_input() {
    let mut at = initial_state();
    for frame in 0..2000u32 {
        let delta = if frame % 7 == 0 { 1792 } else { 64 + (frame % 5) as u16 * 300 };
        at = step(at, 196, delta, false);
        assert!(at.upper_angle <= at.lower_angle + UPPER_REACH);
    }
}
