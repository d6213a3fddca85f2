use neck_sim::{
    build, extract, extract_from, initial_state, retreat, retreat_all, search, select, stands,
    Frame, MotherBrain, Node, Path,
};

const T: Option<bool> = Some(true);
const F: Option<bool> = Some(false);
const N: Option<bool> = None;

fn frame(body_y: u16, delta: u16) -> Frame {
    Frame {
        body_y,
        angle_delta: delta,
        expected_lower_angle: 0,
        expected_upper_angle: 0,
        expected_brain_y: 0,
    }
}

fn reference() -> Vec<Frame> {
    vec![frame(196, 1792), frame(196, 1792), frame(196, 1280), frame(196, 1280)]
}

fn blank() -> MotherBrain {
    MotherBrain { lower_angle: 0, upper_angle: 0, lower_moving_up: false, upper_moving_up: false }
}

fn layer() -> Vec<Node> {
    vec![
        Node::new(blank(), &[(0, T), (1, N)]),
        Node::new(blank(), &[(0, F), (2, T)]),
        Node::new(blank(), &[(2, F), (3, T)]),
        Node::new(blank(), &[(3, F)]),
    ]
}

fn shape(paths: &[Path]) -> Vec<(Vec<usize>, Vec<Option<bool>>)> {
    paths.iter().map(|p| (p.members(), p.inputs.clone())).collect()
}

#[test]
fn parents_with_both_inputs_need_none() {
    let out = retreat(&layer(), &Path::new(&[0, 1], &[F]));
    assert_eq!(shape(&out), vec![(vec![0, 1], vec![F, N]), (vec![2], vec![F, T])]);
}

#[test]
fn parents_split_by_the_input_they_need() {
    let out = retreat(&layer(), &Path::new(&[2], &[]));
    assert_eq!(shape(&out), vec![(vec![3], vec![T]), (vec![2], vec![F])]);
}

#[test]
fn second_input_promotes_a_parent() {
    let out = retreat(&layer(), &Path::new(&[1, 2], &[N, N]));
    assert_eq!(
        shape(&out),
        vec![(vec![2], vec![N, N, N]), (vec![3], vec![N, N, T]), (vec![0], vec![N, N, F])]
    );
    let turned = retreat(&layer(), &Path::new(&[2, 1], &[N, N]));
    assert_eq!(
        shape(&turned),
        vec![(vec![2], vec![N, N, N]), (vec![3], vec![N, N, T]), (vec![0], vec![N, N, F])]
    );
}

#[test]
fn free_edge_overrides_a_required_input() {
    let nodes = vec![
        Node::new(blank(), &[(5, T), (6, F), (7, N)]),
        Node::new(blank(), &[(5, N), (6, N), (7, T)]),
    ];
    let out = retreat(&nodes, &Path::new(&[0, 1], &[]));
    assert_eq!(shape(&out), vec![(vec![5, 6, 7], vec![N])]);
    let first = retreat(&nodes, &Path::new(&[0], &[]));
    assert_eq!(
        shape(&first),
        vec![(vec![7], vec![N]), (vec![5], vec![T]), (vec![6], vec![F])]
    );
}

#[test]
fn cohort_without_members_has_no_retreat() {
    assert!(retreat(&layer(), &Path::new(&[], &[T, F])).is_empty());
}

#[test]
fn repeated_member_counts_once() {
    let out = retreat(&layer(), &Path::new(&[0, 0], &[]));
    assert_eq!(shape(&out), vec![(vec![1], vec![N]), (vec![0], vec![T])]);
}

#[test]
fn retreats_follow_the_order_of_the_list() {
    let paths = vec![Path::new(&[2], &[T]), Path::new(&[], &[N]), Path::new(&[3], &[F])];
    let out = retreat_all(&layer(), &paths);
    assert_eq!(
        shape(&out),
        vec![(vec![3], vec![T, T]), (vec![2], vec![T, F]), (vec![3], vec![F, F])]
    );
    assert!(retreat_all(&layer(), &Vec::new()).is_empty());
}

#[test]
fn select_lists_the_accepted_positions() {
    let graph = build(initial_state(), &reference());
    let last = &graph.layers[4];
    assert_eq!(select(last, &|s: &MotherBrain| s.lower_angle >= 32512), vec![0, 1, 2]);
    assert_eq!(select(last, &|s: &MotherBrain| s.upper_moving_up), vec![1, 3]);
    assert_eq!(select(last, &stands), vec![0]);
    assert_eq!(select(last, &|_: &MotherBrain| false), Vec::<usize>::new());
}

#[test]
fn standing_goal_on_the_reference_trace() {
    let trace = reference();
    let graph = build(initial_state(), &trace);
    let paths = extract(&graph, stands);
    assert_eq!(shape(&paths), vec![(vec![0], vec![N, T, N, T])]);
    assert_eq!(paths[0].timeline(), vec![T, N, T, N]);
    assert_eq!(paths[0].timeline().len(), trace.len());
    assert_eq!(paths[0].difficulty(), 1);
}

#[test]
fn search_walks_back_from_the_standing_states() {
    let trace = reference();
    let paths = search(&trace);
    assert_eq!(shape(&paths), vec![(vec![0], vec![N, T, N, T])]);
    let graph = build(initial_state(), &trace);
    assert_eq!(shape(&paths), shape(&extract(&graph, stands)));
    assert_eq!(shape(&search(&[])), vec![(vec![0], vec![])]);
    let sunk = vec![frame(196, 0x4000), frame(196, 0x4000)];
    assert!(search(&sunk).is_empty());
}

#[test]
fn wider_goal_gives_ranked_sequences() {
    let graph = build(initial_state(), &reference());
    let paths = extract(&graph, |s: &MotherBrain| s.lower_angle >= 32512);
    assert_eq!(
        shape(&paths),
        vec![
            (vec![0], vec![N, N, N, T]),
            (vec![0], vec![N, N, T, F]),
            (vec![0], vec![N, T, F, F]),
        ]
    );
    let costs: Vec<u128> = paths.iter().map(|p| p.difficulty()).collect();
    assert_eq!(costs, vec![0, 10000, 10000]);
}

#[test]
fn caps_bound_the_result() {
    let graph = build(initial_state(), &reference());
    let accepted = [0, 1, 2];
    let two = extract_from(&graph, &accepted, 3, 2);
    assert_eq!(shape(&two), vec![(vec![0], vec![N, N, N, T]), (vec![0], vec![N, N, T, F])]);
    let one = extract_from(&graph, &accepted, 2, 1);
    assert_eq!(shape(&one), vec![(vec![0], vec![N, N, N, T])]);
    assert!(extract_from(&graph, &accepted, 5, 0).is_empty());
    assert!(extract_from(&graph, &accepted, 0, 5).is_empty());
    let all = extract_from(&graph, &accepted, 100, 100);
    assert_eq!(all.len(), 3);
    let standing = extract_from(&graph, &[0], 100, 100);
    assert_eq!(shape(&standing), vec![(vec![0], vec![N, T, N, T])]);
}

#[test]
fn goal_that_every_state_meets_needs_no_input() {
    let graph = build(initial_state(), &reference());
    let paths = extract(&graph, |_: &MotherBrain| true);
    assert_eq!(shape(&paths), vec![(vec![0], vec![N, N, N, N])]);
}

#[test]
fn goal_that_no_state_meets_gives_nothing() {
    let graph = build(initial_state(), &reference());
    assert!(extract(&graph, |_: &MotherBrain| false).is_empty());
}

#[test]
fn walk_over_the_initial_layer_alone() {
    let graph = build(initial_state(), &[]);
    let paths = extract(&graph, stands);
    assert_eq!(shape(&paths), vec![(vec![0], vec![])]);
    let none = extract(&graph, |_: &MotherBrain| false);
    assert_eq!(shape(&none), vec![(vec![], vec![])]);
}

#[test]
fn every_sequence_found_leads_to_the_goal() {
    let mut trace = vec![frame(196, 1792), frame(196, 1280), frame(196, 1280)];
    for i in 0..9u16 {
        trace.push(frame(196, 1024 - 40 * i));
    }
    let graph = build(initial_state(), &trace);
    let goal = |s: &MotherBrain| s.lower_angle >= 0x6000 && s.lower_moving_up;
    let paths = extract(&graph, goal);
    assert!(!paths.is_empty());
    for path in &paths {
        let timeline = path.timeline();
        assert_eq!(timeline.len(), trace.len());
        assert_eq!(path.members(), vec![0]);
        let free: Vec<usize> = (0..timeline.len()).filter(|&i| timeline[i].is_none()).collect();
        assert!(free.len() <= 12);
        for choice in 0..(1u32 << free.len()) {
            let mut at = initial_state();
            for (i, entry) in timeline.iter().enumerate() {
                let input = match entry {
                    Some(value) => *value,
                    None => choice & (1 << free.iter().position(|&f| f == i).unwrap()) != 0,
                };
                at = neck_sim::step(at, trace[i].body_y, neck_sim::lookahead_delta(&trace, i), input);
            }
            assert!(goal(&at));
        }
    }
}
