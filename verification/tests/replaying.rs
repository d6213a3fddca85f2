use neck_sim::{simulate, validate, Field, Frame, Mismatch};

fn frame(body_y: u16, delta: u16, lower: u16, upper: u16, head: u16) -> Frame {
    Frame {
        body_y,
        angle_delta: delta,
        expected_lower_angle: lower,
        expected_upper_angle: upper,
        expected_brain_y: head,
    }
}

fn reference() -> Vec<Frame> {
    vec![
        frame(196, 1792, 36864, 38912, 64),
        frame(196, 1792, 35072, 37120, 61),
        frame(196, 1280, 33792, 35840, 60),
        frame(196, 1280, 32512, 34560, 60),
    ]
}

#[test]
fn reference_trace_replays_without_fault() {
    let trace = reference();
    assert_eq!(validate(&trace, &[false; 4]), None);
    assert_eq!(validate(&trace, &[]), None);
    assert_eq!(simulate(&trace, &[false; 4]), 31232);
    assert_eq!(simulate(&trace, &[]), 31232);
}

#[test]
fn empty_trace_ends_where_it_starts() {
    assert_eq!(validate(&[], &[]), None);
    assert_eq!(simulate(&[], &[]), 0x9000);
}

#[test]
fn delta_is_taken_from_the_frame_after() {
    let mut trace = reference();
    trace[0].angle_delta = 5;
    assert_eq!(validate(&trace, &[]), None);
    trace[1].angle_delta = 1000;
    assert_eq!(
        validate(&trace, &[]),
        Some(Mismatch { frame: 1, field: Field::Lower })
    );
}

#[test]
fn first_differing_value_is_reported() {
    let mut trace = reference();
    trace[2].expected_upper_angle = 1;
    trace[2].expected_brain_y = 1;
    trace[3].expected_lower_angle = 1;
    assert_eq!(
        validate(&trace, &[]),
        Some(Mismatch { frame: 2, field: Field::Upper })
    );
    trace[2].expected_upper_angle = 35840;
    assert_eq!(
        validate(&trace, &[]),
        Some(Mismatch { frame: 2, field: Field::BrainY })
    );
    trace[2].expected_brain_y = 60;
    assert_eq!(
        validate(&trace, &[]),
        Some(Mismatch { frame: 3, field: Field::Lower })
    );
}

#[test]
fn frames_after_the_first_press_are_not_compared() {
    let trace = reference();
    let jumps = [false, true, false, false];
    assert_eq!(validate(&trace, &jumps), None);
    // Frame 1 is still compared: the press only shows on the frame after.
    let mut early = reference();
    early[1].expected_lower_angle = 0;
    assert_eq!(
        validate(&early, &jumps),
        Some(Mismatch { frame: 1, field: Field::Lower })
    );
    let mut late = reference();
    late[2].expected_lower_angle = 0;
    late[3].expected_brain_y = 0;
    assert_eq!(validate(&late, &jumps), None);
}

#[test]
fn pressed_replay_ends_on_another_angle() {
    let trace = reference();
    // Pressing on frame 0 turns both oscillators upwards; the low head
    // then stops the lower one, which descends again from frame 2 on.
    assert_eq!(simulate(&trace, &[true, false, false, false]), 32512);
    assert_eq!(simulate(&trace, &[false, false, false, true]), 31232);
}

#[test]
fn recorded_head_position_is_reduced_in_sixteen_bits() {
    // With the body at 132 the head of the initial state stands at -21,
    // and so does a record of 0.
    let trace = vec![frame(132, 16, 0x9000, 0x9800, 0)];
    assert_eq!(validate(&trace, &[]), None);
    let off = vec![frame(132, 16, 0x9000, 0x9800, 1)];
    assert_eq!(
        validate(&off, &[]),
        Some(Mismatch { frame: 0, field: Field::BrainY })
    );
}
