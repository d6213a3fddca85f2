//! The layered graph of reachable states.
//!
//! Layer 0 holds the initial state. Layer `i + 1` holds every state that one
//! frame leads to from a state of layer `i`, each once, with an edge for each
//! way of arriving there.
use crate::backward::parents_below;
use crate::lists::{edges_new, Edge};
use crate::neck::{lemma_step_in_range, step, Frame, MotherBrain};
use crate::table::{distinct_states, merged, Node, StateTable};
use vstd::prelude::*;

verus! {

/// The states reachable on each frame, with the edges between them.
pub struct Graph {
    /// One layer for the initial state, then one for each frame.
    pub layers: Vec<Vec<Node>>,
}

/// The step size that drives the step out of frame `i`: the one recorded
/// with the frame after it, or with the last frame where none follows.
pub open spec fn delta_at(trace: Seq<Frame>, i: int) -> u16
    recommends
        0 <= i < trace.len(),
{
    if i + 1 < trace.len() {
        trace[i + 1].angle_delta
    } else {
        trace[trace.len() - 1].angle_delta
    }
}

/// Reads the step size that drives the step out of frame `i`.
pub fn lookahead_delta(trace: &[Frame], i: usize) -> (delta: u16)
    requires
        i < trace.len(),
    ensures
        delta == delta_at(trace@, i as int),
{
    if i < trace.len() - 1 {
        trace[i + 1].angle_delta
    } else {
        trace[trace.len() - 1].angle_delta
    }
}

/// The label of the edge that `input` draws out of `state`: `None` where
/// both inputs lead to the same state, the input itself where they differ.
pub open spec fn label_of(state: MotherBrain, body_y: u16, delta: u16, input: bool) -> Option<bool> {
    if state.after_frame(body_y, delta, true) == state.after_frame(body_y, delta, false) {
        None
    } else {
        Some(input)
    }
}

/// `edge` names a node of `prev`, and a step from that node under the
/// edge's label arrives at `target`: under either input for `None`, under
/// the named input and not the other for `Some`.
pub open spec fn edge_sound(
    prev: Seq<Node>,
    edge: Edge,
    target: MotherBrain,
    body_y: u16,
    delta: u16,
) -> bool {
    &&& edge.0 < prev.len()
    &&& match edge.1 {
        None => {
            &&& prev[edge.0 as int].state.after_frame(body_y, delta, true) == target
            &&& prev[edge.0 as int].state.after_frame(body_y, delta, false) == target
        },
        Some(input) => {
            &&& prev[edge.0 as int].state.after_frame(body_y, delta, input) == target
            &&& prev[edge.0 as int].state.after_frame(body_y, delta, !input) != target
        },
    }
}

/// Some node of the layer has `edge` among its inbound edges.
pub open spec fn has_edge(nodes: Seq<Node>, edge: Edge) -> bool {
    exists|k: int| 0 <= k < nodes.len() && (#[trigger] nodes[k]).edges().contains(edge)
}

/// The step from node `p` of `prev` under `input` is recorded in `next`.
pub open spec fn reached(
    prev: Seq<Node>,
    next: Seq<Node>,
    body_y: u16,
    delta: u16,
    p: int,
    input: bool,
) -> bool {
    has_edge(next, (p as usize, label_of(prev[p].state, body_y, delta, input)))
}

/// Every edge of `next` is sound.
pub open spec fn sound_edges(prev: Seq<Node>, next: Seq<Node>, body_y: u16, delta: u16) -> bool {
    forall|k: int, e: int|
        0 <= k < next.len() && 0 <= e < next[k].edges().len() ==> edge_sound(
            prev,
            #[trigger] next[k].edges()[e],
            next[k].state,
            body_y,
            delta,
        )
}

/// Every node of the layer has an inbound edge, and none twice.
pub open spec fn tidy_edges(nodes: Seq<Node>) -> bool {
    forall|k: int|
        0 <= k < nodes.len() ==> (#[trigger] nodes[k]).edges().len() > 0
            && nodes[k].edges().no_duplicates()
}

/// The steps out of the first `done` nodes of `prev` are all recorded.
pub open spec fn complete_edges(
    prev: Seq<Node>,
    next: Seq<Node>,
    body_y: u16,
    delta: u16,
    done: int,
) -> bool {
    forall|p: int, input: bool|
        0 <= p < done ==> #[trigger] reached(prev, next, body_y, delta, p, input)
}

/// `next` is the layer that follows `prev`: its states are distinct, its
/// edges are sound and without repeats, and every step out of `prev` is
/// recorded in it.
pub open spec fn follows(prev: Seq<Node>, next: Seq<Node>, body_y: u16, delta: u16) -> bool {
    &&& distinct_states(next)
    &&& sound_edges(prev, next, body_y, delta)
    &&& tidy_edges(next)
    &&& complete_edges(prev, next, body_y, delta, prev.len() as int)
}

/// Every state of the layer can take a step.
pub open spec fn all_steppable(nodes: Seq<Node>) -> bool {
    forall|k: int| 0 <= k < nodes.len() ==> (#[trigger] nodes[k]).state.steppable()
}

/// Every state of the layer lies within the bounds.
pub open spec fn all_in_range(nodes: Seq<Node>) -> bool {
    forall|k: int| 0 <= k < nodes.len() ==> (#[trigger] nodes[k]).state.in_range()
}

/// What one merge does to a layer under construction.
proof fn lemma_merge_step(
    prev: Seq<Node>,
    before: Seq<Node>,
    after: Seq<Node>,
    state: MotherBrain,
    edge: Edge,
    body_y: u16,
    delta: u16,
)
    requires
        merged(before, after, state, edge),
        distinct_states(before),
        sound_edges(prev, before, body_y, delta),
        tidy_edges(before),
        edge_sound(prev, edge, state, body_y, delta),
        !has_edge(before, edge),
    ensures
        distinct_states(after),
        sound_edges(prev, after, body_y, delta),
        tidy_edges(after),
        has_edge(after, edge),
        forall|other: Edge| has_edge(before, other) ==> has_edge(after, other),
        forall|other: Edge| has_edge(after, other) ==> other == edge || has_edge(before, other),
        forall|k: int|
            0 <= k < after.len() ==> (#[trigger] after[k]).state == state || (k < before.len()
                && after[k].state == before[k].state),
{
    let n = before.len() as int;
    if exists|k: int|
        {
            &&& 0 <= k < before.len()
            &&& (#[trigger] before[k]).state == state
            &&& after.len() == before.len()
            &&& after[k].state == state
            &&& after[k].edges() == before[k].edges().push(edge)
            &&& forall|j: int| 0 <= j < before.len() && j != k ==> #[trigger] after[j] == before[j]
        } {
        let k = choose|k: int|
            {
                &&& 0 <= k < before.len()
                &&& (#[trigger] before[k]).state == state
                &&& after.len() == before.len()
                &&& after[k].state == state
                &&& after[k].edges() == before[k].edges().push(edge)
                &&& forall|j: int|
                    0 <= j < before.len() && j != k ==> #[trigger] after[j] == before[j]
            };
        let old_edges = before[k].edges();
        let new_edges = after[k].edges();
        assert(!old_edges.contains(edge)) by {
            if old_edges.contains(edge) {
                assert(has_edge(before, edge));
            }
        }
        assert forall|j: int| 0 <= j < n implies (#[trigger] after[j]).state == before[j].state by {
            if j != k {
                assert(after[j] == before[j]);
            }
        }
        assert(distinct_states(after)) by {
            assert forall|a: int, b: int| 0 <= a < b < after.len() implies (#[trigger] after[a]).state
                != (#[trigger] after[b]).state by {
                assert(before[a].state != before[b].state);
            }
        }
        assert(sound_edges(prev, after, body_y, delta)) by {
            assert forall|j: int, e: int|
                0 <= j < after.len() && 0 <= e < after[j].edges().len() implies edge_sound(
                prev,
                #[trigger] after[j].edges()[e],
                after[j].state,
                body_y,
                delta,
            ) by {
                if j != k {
                    assert(after[j] == before[j]);
                    assert(edge_sound(prev, before[j].edges()[e], before[j].state, body_y, delta));
                } else if e < old_edges.len() {
                    assert(new_edges[e] == old_edges[e]);
                    assert(edge_sound(prev, before[k].edges()[e], before[k].state, body_y, delta));
                } else {
                    assert(new_edges[e] == edge);
                }
            }
        }
        assert(tidy_edges(after)) by {
            assert forall|j: int| 0 <= j < after.len() implies (#[trigger] after[j]).edges().len()
                > 0 && after[j].edges().no_duplicates() by {
                if j != k {
                    assert(after[j] == before[j]);
                } else {
                    assert(old_edges.no_duplicates());
                    assert forall|x: int, y: int|
                        0 <= x < new_edges.len() && 0 <= y < new_edges.len() && x != y implies new_edges[x]
                        != new_edges[y] by {
                        if x < old_edges.len() && y < old_edges.len() {
                        } else if x < old_edges.len() {
                            assert(old_edges[x] == new_edges[x]);
                            assert(old_edges.contains(old_edges[x]));
                        } else {
                            assert(old_edges[y] == new_edges[y]);
                            assert(old_edges.contains(old_edges[y]));
                        }
                    }
                }
            }
        }
        assert(has_edge(after, edge)) by {
            assert(new_edges[old_edges.len() as int] == edge);
            assert(after[k].edges().contains(edge));
        }
        assert forall|other: Edge| has_edge(before, other) implies has_edge(after, other) by {
            let j = choose|j: int| 0 <= j < before.len() && (#[trigger] before[j]).edges().contains(other);
            if j != k {
                assert(after[j] == before[j]);
                assert(after[j].edges().contains(other));
            } else {
                let e = choose|e: int| 0 <= e < old_edges.len() && old_edges[e] == other;
                assert(new_edges[e] == other);
                assert(after[k].edges().contains(other));
            }
        }
        assert forall|other: Edge| has_edge(after, other) implies other == edge || has_edge(
            before,
            other,
        ) by {
            let j = choose|j: int| 0 <= j < after.len() && (#[trigger] after[j]).edges().contains(other);
            if j != k {
                assert(after[j] == before[j]);
                assert(before[j].edges().contains(other));
            } else {
                let e = choose|e: int| 0 <= e < new_edges.len() && new_edges[e] == other;
                if e < old_edges.len() {
                    assert(old_edges[e] == other);
                    assert(before[k].edges().contains(other));
                }
            }
        }
    } else {
        let fresh = after[n].edges();
        assert(fresh == seq![edge]);
        assert(fresh.len() == 1 && fresh[0] == edge);
        assert(distinct_states(after)) by {
            assert forall|a: int, b: int| 0 <= a < b < after.len() implies (#[trigger] after[a]).state
                != (#[trigger] after[b]).state by {
                assert(after[a] == before[a]);
                if b < n {
                    assert(after[b] == before[b]);
                    assert(before[a].state != before[b].state);
                } else {
                    assert(before[a].state != state);
                }
            }
        }
        assert(sound_edges(prev, after, body_y, delta)) by {
            assert forall|j: int, e: int|
                0 <= j < after.len() && 0 <= e < after[j].edges().len() implies edge_sound(
                prev,
                #[trigger] after[j].edges()[e],
                after[j].state,
                body_y,
                delta,
            ) by {
                if j < n {
                    assert(after[j] == before[j]);
                    assert(edge_sound(prev, before[j].edges()[e], before[j].state, body_y, delta));
                }
            }
        }
        assert(tidy_edges(after)) by {
            assert forall|j: int| 0 <= j < after.len() implies (#[trigger] after[j]).edges().len()
                > 0 && after[j].edges().no_duplicates() by {
                if j < n {
                    assert(after[j] == before[j]);
                }
            }
        }
        assert(has_edge(after, edge)) by {
            assert(after[n].edges().contains(edge));
        }
        assert forall|other: Edge| has_edge(before, other) implies has_edge(after, other) by {
            let j = choose|j: int| 0 <= j < before.len() && (#[trigger] before[j]).edges().contains(other);
            assert(after[j] == before[j]);
            assert(after[j].edges().contains(other));
        }
        assert forall|other: Edge| has_edge(after, other) implies other == edge || has_edge(
            before,
            other,
        ) by {
            let j = choose|j: int| 0 <= j < after.len() && (#[trigger] after[j]).edges().contains(other);
            if j < n {
                assert(after[j] == before[j]);
                assert(before[j].edges().contains(other));
            }
        }
        assert forall|k: int| 0 <= k < after.len() implies (#[trigger] after[k]).state == state || (k
            < before.len() && after[k].state == before[k].state) by {
            if k < n {
                assert(after[k] == before[k]);
            }
        }
    }
}

/// Builds the layer that follows `prev`: steps every node under both inputs
/// and merges the results, so that equal states share one node.
pub fn expand_layer(prev: &Vec<Node>, body_y: u16, delta: u16) -> (next: Vec<Node>)
    requires
        all_steppable(prev@),
    ensures
        follows(prev@, next@, body_y, delta),
        all_steppable(next@),
        all_in_range(prev@) ==> all_in_range(next@),
{
    let mut table = StateTable::new();
    let mut j: usize = 0;
    while j < prev.len()
        invariant
            j <= prev.len(),
            table.wf(),
            all_steppable(prev@),
            distinct_states(table.nodes()),
            sound_edges(prev@, table.nodes(), body_y, delta),
            tidy_edges(table.nodes()),
            complete_edges(prev@, table.nodes(), body_y, delta, j as int),
            forall|edge: Edge| has_edge(table.nodes(), edge) ==> edge.0 < j,
            all_steppable(table.nodes()),
            all_in_range(prev@) ==> all_in_range(table.nodes()),
        decreases prev.len() - j,
    {
        let state = prev[j].state;
        let pressed = step(state, body_y, delta, true);
        let released = step(state, body_y, delta, false);
        let ghost before = table.nodes();
        if pressed == released {
            table.merge(pressed, (j, None));
            proof {
                lemma_merge_step(prev@, before, table.nodes(), pressed, (j, None), body_y, delta);
            }
        } else {
            table.merge(pressed, (j, Some(true)));
            let ghost middle = table.nodes();
            proof {
                lemma_merge_step(prev@, before, middle, pressed, (j, Some(true)), body_y, delta);
            }
            table.merge(released, (j, Some(false)));
            proof {
                lemma_merge_step(
                    prev@,
                    middle,
                    table.nodes(),
                    released,
                    (j, Some(false)),
                    body_y,
                    delta,
                );
            }
        }
        proof {
            let after = table.nodes();
            assert forall|p: int, input: bool| 0 <= p < j + 1 implies #[trigger] reached(
                prev@,
                after,
                body_y,
                delta,
                p,
                input,
            ) by {
                if p < j {
                    assert(reached(prev@, before, body_y, delta, p, input));
                }
            }
        }
        j += 1;
    }
    table.into_nodes()
}

impl Graph {
    /// The nodes of layer `i`.
    pub open spec fn layer(self, i: int) -> Seq<Node> {
        self.layers@[i]@
    }

    /// Layer `i + 1` follows layer `i` under frame `i` of the trace.
    pub open spec fn frame_follows(self, trace: Seq<Frame>, i: int) -> bool {
        follows(self.layer(i), self.layer(i + 1), trace[i].body_y, delta_at(trace, i))
    }

    /// The graph is the one that `trace` spans from `initial`: layer 0 is
    /// the initial state alone, without edges, and each further layer
    /// follows the one before under the frame between them.
    pub open spec fn built_from(self, initial: MotherBrain, trace: Seq<Frame>) -> bool {
        &&& self.layers@.len() == trace.len() + 1
        &&& self.layer(0).len() == 1
        &&& self.layer(0)[0].state == initial
        &&& self.layer(0)[0].edges().len() == 0
        &&& forall|i: int| 0 <= i < trace.len() ==> #[trigger] self.frame_follows(trace, i)
    }

    /// There is a first layer, and every edge names a node of the layer
    /// before its own.
    pub open spec fn linked(self) -> bool {
        &&& self.layers@.len() >= 1
        &&& forall|i: int|
            1 <= i < self.layers@.len() ==> parents_below(
                #[trigger] self.layer(i),
                self.layer(i - 1).len() as int,
            )
    }

    /// Every node past the first layer has an inbound edge.
    pub open spec fn rooted(self) -> bool {
        forall|i: int, k: int|
            1 <= i < self.layers@.len() && 0 <= k < self.layer(i).len() ==> (
            #[trigger] self.layer(i)[k]).edges().len() > 0
    }

    /// A graph that a trace spans is linked and rooted.
    pub proof fn lemma_built_is_linked(self, initial: MotherBrain, trace: Seq<Frame>)
        requires
            self.built_from(initial, trace),
        ensures
            self.linked(),
            self.rooted(),
    {
        assert forall|i: int| 1 <= i < self.layers@.len() implies parents_below(
            #[trigger] self.layer(i),
            self.layer(i - 1).len() as int,
        ) by {
            assert(self.frame_follows(trace, i - 1));
        }
        assert forall|i: int, k: int|
            1 <= i < self.layers@.len() && 0 <= k < self.layer(i).len() implies (
        #[trigger] self.layer(i)[k]).edges().len() > 0 by {
            assert(self.frame_follows(trace, i - 1));
        }
    }
}

/// No layer of a graph that a trace spans holds a state twice.
pub proof fn lemma_layers_distinct(graph: Graph, initial: MotherBrain, trace: Seq<Frame>, i: int)
    requires
        graph.built_from(initial, trace),
        0 <= i < graph.layers@.len(),
    ensures
        distinct_states(graph.layer(i)),
{
    if i > 0 {
        assert(graph.frame_follows(trace, i - 1));
    }
}

/// In a graph that a trace spans, every edge names a node of the layer
/// before its own, and the step from that node under the edge's label, with
/// the body position and step size of the frame between the two layers,
/// arrives at the node that holds the edge.
pub proof fn lemma_edges_sound(
    graph: Graph,
    initial: MotherBrain,
    trace: Seq<Frame>,
    i: int,
    k: int,
    e: int,
)
    requires
        graph.built_from(initial, trace),
        1 <= i < graph.layers@.len(),
        0 <= k < graph.layer(i).len(),
        0 <= e < graph.layer(i)[k].edges().len(),
    ensures
        edge_sound(
            graph.layer(i - 1),
            graph.layer(i)[k].edges()[e],
            graph.layer(i)[k].state,
            trace[i - 1].body_y,
            delta_at(trace, i - 1),
        ),
{
    assert(graph.frame_follows(trace, i - 1));
}

/// In a graph that a trace spans from a state within the bounds, every
/// state lies within the bounds.
pub proof fn lemma_states_in_range(graph: Graph, initial: MotherBrain, trace: Seq<Frame>, i: int)
    requires
        graph.built_from(initial, trace),
        initial.in_range(),
        0 <= i < graph.layers@.len(),
    ensures
        all_in_range(graph.layer(i)),
    decreases i,
{
    if i > 0 {
        lemma_states_in_range(graph, initial, trace, i - 1);
        assert(graph.frame_follows(trace, i - 1));
        let prev = graph.layer(i - 1);
        let layer = graph.layer(i);
        assert forall|k: int| 0 <= k < layer.len() implies (#[trigger] layer[k]).state.in_range() by {
            let edge = layer[k].edges()[0];
            assert(edge_sound(
                prev,
                edge,
                layer[k].state,
                trace[i - 1].body_y,
                delta_at(trace, i - 1),
            ));
            let parent = prev[edge.0 as int].state;
            assert(parent.in_range());
            lemma_step_in_range(parent, trace[i - 1].body_y, delta_at(trace, i - 1), true);
            lemma_step_in_range(parent, trace[i - 1].body_y, delta_at(trace, i - 1), false);
        }
    }
}

/// Builds the graph that `trace` spans from `initial`.
pub fn build(initial: MotherBrain, trace: &[Frame]) -> (graph: Graph)
    requires
        initial.steppable(),
    ensures
        graph.built_from(initial, trace@),
        graph.linked(),
        graph.rooted(),
        initial.in_range() ==> forall|i: int|
            0 <= i < graph.layers@.len() ==> all_in_range(#[trigger] graph.layer(i)),
{
    let mut first: Vec<Node> = Vec::new();
    first.push(Node { state: initial, parents: edges_new() });
    let mut graph = Graph { layers: Vec::new() };
    graph.layers.push(first);
    let mut i: usize = 0;
    while i < trace.len()
        invariant
            i <= trace.len(),
            graph.layers@.len() == i + 1,
            graph.layer(0).len() == 1,
            graph.layer(0)[0].state == initial,
            graph.layer(0)[0].edges().len() == 0,
            forall|t: int| 0 <= t < i ==> #[trigger] graph.frame_follows(trace@, t),
            all_steppable(graph.layer(i as int)),
            initial.in_range() ==> forall|t: int|
                0 <= t < graph.layers@.len() ==> all_in_range(#[trigger] graph.layer(t)),
        decreases trace.len() - i,
    {
        let delta = lookahead_delta(trace, i);
        let next = expand_layer(&graph.layers[i], trace[i].body_y, delta);
        let ghost earlier = graph;
        graph.layers.push(next);
        proof {
            assert forall|t: int| 0 <= t <= i implies graph.layer(t) == earlier.layer(t) by {}
            assert forall|t: int| 0 <= t < i + 1 implies #[trigger] graph.frame_follows(
                trace@,
                t,
            ) by {
                if t < i {
                    assert(earlier.frame_follows(trace@, t));
                }
            }
            if initial.in_range() {
                assert forall|t: int| 0 <= t < graph.layers@.len() implies all_in_range(
                    #[trigger] graph.layer(t),
                ) by {
                    if t <= i {
                        assert(all_in_range(earlier.layer(t)));
                    }
                }
            }
        }
        i += 1;
    }
    proof {
        graph.lemma_built_is_linked(initial, trace@);
    }
    graph
}

} // verus!
