use neck_sim::neck::{LOWER_MAX, LOWER_MIN, UPPER_MIN, UPPER_REACH};
use neck_sim::{build, expand_layer, initial_state, lookahead_delta, step, Frame, MotherBrain, Node, StateTable};

fn frame(body_y: u16, delta: u16) -> Frame {
    Frame {
        body_y,
        angle_delta: delta,
        expected_lower_angle: 0,
        expected_upper_angle: 0,
        expected_brain_y: 0,
    }
}

fn state(lower: u16, upper: u16, lower_up: bool, upper_up: bool) -> MotherBrain {
    MotherBrain {
        lower_angle: lower,
        upper_angle: upper,
        lower_moving_up: lower_up,
        upper_moving_up: upper_up,
    }
}

fn reference() -> Vec<Frame> {
    vec![frame(196, 1792), frame(196, 1792), frame(196, 1280), frame(196, 1280)]
}

fn long_trace() -> Vec<Frame> {
    let mut trace = vec![frame(196, 1792), frame(196, 1280), frame(196, 1280)];
    for i in 0..20u16 {
        trace.push(frame(196, 1024 - 40 * i));
    }
    trace
}

type Shape = Vec<(MotherBrain, Vec<(usize, Option<bool>)>)>;

fn shape(layer: &[Node]) -> Shape {
    layer.iter().map(|node| (node.state, node.edge_list())).collect()
}

#[test]
fn empty_trace_gives_the_initial_layer_alone() {
    let graph = build(initial_state(), &[]);
    assert_eq!(graph.layers.len(), 1);
    assert_eq!(shape(&graph.layers[0]), vec![(initial_state(), vec![])]);
}

#[test]
fn lookahead_takes_the_next_frames_delta() {
    let trace = vec![frame(196, 10), frame(196, 20), frame(196, 30)];
    assert_eq!(lookahead_delta(&trace, 0), 20);
    assert_eq!(lookahead_delta(&trace, 1), 30);
    assert_eq!(lookahead_delta(&trace, 2), 30);
    assert_eq!(lookahead_delta(&trace[..1], 0), 10);
}

#[test]
fn layers_of_the_reference_trace() {
    let graph = build(initial_state(), &reference());
    assert_eq!(graph.layers.len(), 5);
    assert_eq!(shape(&graph.layers[0]), vec![(state(36864, 38912, false, false), vec![])]);
    assert_eq!(
        shape(&graph.layers[1]),
        vec![
            (state(35072, 38912, true, true), vec![(0, Some(true))]),
            (state(35072, 37120, false, false), vec![(0, Some(false))]),
        ]
    );
    assert_eq!(
        shape(&graph.layers[2]),
        vec![
            (state(35072, 37120, false, false), vec![(0, None)]),
            (state(33792, 37120, true, true), vec![(1, Some(true))]),
            (state(33792, 35840, false, false), vec![(1, Some(false))]),
        ]
    );
    assert_eq!(
        shape(&graph.layers[3]),
        vec![
            (state(33792, 37120, true, true), vec![(0, Some(true))]),
            (state(33792, 35840, false, false), vec![(0, Some(false)), (1, None)]),
            (state(32512, 35840, true, true), vec![(2, Some(true))]),
            (state(32512, 34560, false, false), vec![(2, Some(false))]),
        ]
    );
    assert_eq!(
        shape(&graph.layers[4]),
        vec![
            (state(33792, 35840, false, false), vec![(0, None)]),
            (state(32512, 35840, true, true), vec![(1, Some(true))]),
            (state(32512, 34560, false, false), vec![(1, Some(false)), (2, None)]),
            (state(31232, 34560, true, true), vec![(3, Some(true))]),
            (state(31232, 33280, false, false), vec![(3, Some(false))]),
        ]
    );
}

#[test]
fn no_layer_holds_a_state_twice() {
    let graph = build(initial_state(), &long_trace());
    for layer in &graph.layers {
        for a in 0..layer.len() {
            for b in a + 1..layer.len() {
                assert_ne!(layer[a].state, layer[b].state);
            }
        }
    }
    assert!(graph.layers.last().unwrap().len() > 20);
}

#[test]
fn every_edge_is_a_step_from_its_parent() {
    let trace = long_trace();
    let graph = build(initial_state(), &trace);
    assert_eq!(graph.layers.len(), trace.len() + 1);
    for i in 1..graph.layers.len() {
        let body_y = trace[i - 1].body_y;
        let delta = lookahead_delta(&trace, i - 1);
        for node in &graph.layers[i] {
            let edges = node.edge_list();
            assert!(!edges.is_empty());
            for (at, edge) in edges.iter().enumerate() {
                assert!(!edges[..at].contains(edge));
                let (parent, label) = *edge;
                assert!(parent < graph.layers[i - 1].len());
                let from = graph.layers[i - 1][parent].state;
                let pressed = step(from, body_y, delta, true);
                let released = step(from, body_y, delta, false);
                match label {
                    None => {
                        assert_eq!(pressed, node.state);
                        assert_eq!(released, node.state);
                    }
                    Some(true) => {
                        assert_eq!(pressed, node.state);
                        assert_ne!(released, node.state);
                    }
                    Some(false) => {
                        assert_eq!(released, node.state);
                        assert_ne!(pressed, node.state);
                    }
                }
            }
        }
    }
}

#[test]
fn every_step_out_of_a_layer_is_recorded() {
    let trace = long_trace();
    let graph = build(initial_state(), &trace);
    for i in 0..trace.len() {
        let body_y = trace[i].body_y;
        let delta = lookahead_delta(&trace, i);
        for (parent, node) in graph.layers[i].iter().enumerate() {
            let pressed = step(node.state, body_y, delta, true);
            let released = step(node.state, body_y, delta, false);
            for (input, target) in [(true, pressed), (false, released)] {
                let label = if pressed == released { None } else { Some(input) };
                let found = graph.layers[i + 1]
                    .iter()
                    .filter(|next| next.state == target && next.edge_list().contains(&(parent, label)))
                    .count();
                assert_eq!(found, 1);
            }
        }
    }
}

#[test]
fn every_reachable_state_is_within_the_bounds() {
    let graph = build(initial_state(), &long_trace());
    for layer in &graph.layers {
        for node in layer {
            let at = node.state;
            assert!(LOWER_MIN <= at.lower_angle && at.lower_angle <= LOWER_MAX);
            assert!(UPPER_MIN <= at.upper_angle && at.upper_angle <= LOWER_MAX + UPPER_REACH);
        }
    }
}

#[test]
fn expand_layer_merges_equal_results() {
    // Both nodes are about to hit the same clamps, so all four steps end
    // in one state.
    let prev = vec![
        Node::new(state(0x2900, 0x2100, false, false), &[]),
        Node::new(state(0x2880, 0x2080, false, false), &[]),
        Node::new(state(0x5000, 0x5000, false, false), &[]),
    ];
    let next = expand_layer(&prev, 196, 0x200);
    assert_eq!(
        shape(&next),
        vec![
            (state(0x2800, 0x2100, true, true), vec![(0, Some(true))]),
            (state(0x2800, 0x2000, true, true), vec![(0, Some(false)), (1, Some(false))]),
            (state(0x2800, 0x2080, true, true), vec![(1, Some(true))]),
            (state(0x4E00, 0x5000, true, true), vec![(2, Some(true))]),
            (state(0x4E00, 0x4E00, false, false), vec![(2, Some(false))]),
        ]
    );
}

#[test]
fn state_table_merges_by_value() {
    let mut table = StateTable::new();
    table.merge(state(1, 2, true, false), (0, None));
    table.merge(state(1, 2, false, true), (1, Some(true)));
    table.merge(state(1, 2, true, false), (2, Some(false)));
    table.merge(state(2, 1, true, false), (3, None));
    let nodes = table.into_nodes();
    assert_eq!(
        shape(&nodes),
        vec![
            (state(1, 2, true, false), vec![(0, None), (2, Some(false))]),
            (state(1, 2, false, true), vec![(1, Some(true))]),
            (state(2, 1, true, false), vec![(3, None)]),
        ]
    );
}

#[test]
fn node_keeps_the_edges_it_was_made_with() {
    let edges = [(4, Some(true)), (0, None), (9, Some(false)), (2, None), (7, Some(true))];
    let node = Node::new(state(1, 2, false, false), &edges);
    assert_eq!(node.edge_list(), edges.to_vec());
    assert_eq!(node.state, state(1, 2, false, false));
}
