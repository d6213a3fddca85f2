use neck_sim::{score, Path};

const T: Option<bool> = Some(true);
const F: Option<bool> = Some(false);
const N: Option<bool> = None;

#[test]
fn empty_sequence_costs_nothing() {
    assert_eq!(score(&[]), 0);
}

#[test]
fn each_held_frame_after_the_press_costs_one() {
    // The press itself is free: five pressed frames hold the input four
    // times, and five held frames after a press cost five.
    assert_eq!(score(&[T, T, T, T, T]), 4);
    assert_eq!(score(&[T, T, T, T, T, T]), 5);
}

#[test]
fn release_right_after_a_press_costs_the_full_penalty() {
    assert_eq!(score(&[T, F]), 10000);
}

#[test]
fn release_after_nine_free_frames_costs_a_hundredth() {
    let mut inputs = vec![T];
    inputs.extend([N; 9]);
    inputs.push(F);
    assert_eq!(score(&inputs), 100);
}

#[test]
fn release_penalty_falls_with_the_square_of_the_gap() {
    assert_eq!(score(&[T, N, F]), 2500);
    assert_eq!(score(&[T, N, N, F]), 1111);
    assert_eq!(score(&[T, N, N, N, F]), 625);
}

#[test]
fn release_penalty_vanishes_at_a_gap_of_one_hundred() {
    for (gap, expected) in [(98usize, 1u128), (99, 1), (100, 0), (101, 0), (5000, 0)] {
        let mut inputs = vec![T];
        inputs.extend(std::iter::repeat(N).take(gap));
        inputs.push(F);
        assert_eq!(score(&inputs), expected, "gap {}", gap);
    }
}

#[test]
fn press_is_free_and_so_is_a_release_that_was_never_held() {
    assert_eq!(score(&[F, T]), 0);
    assert_eq!(score(&[N, N, F]), 0);
    assert_eq!(score(&[F, F, F]), 0);
    assert_eq!(score(&[N, T]), 0);
}

#[test]
fn costs_add_up_along_the_sequence() {
    assert_eq!(score(&[T, F, T, F]), 20000);
    assert_eq!(score(&[F, F, T, T, N, N, F]), 1112);
}

#[test]
fn path_difficulty_reads_its_inputs_as_kept() {
    let path = Path::new(&[0], &[F, N, T]);
    assert_eq!(path.difficulty(), score(&[F, N, T]));
    assert_eq!(path.difficulty(), 0);
    let turned = Path::new(&[0], &[T, N, F]);
    assert_eq!(turned.difficulty(), 2500);
    assert_eq!(turned.timeline(), vec![F, N, T]);
    assert_eq!(turned.members(), vec![0]);
}
