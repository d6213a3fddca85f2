//! What the result of a walk means for play.
//!
//! A cohort's inputs say what to do on each frame from the cohort's layer to
//! the end: press, release, or do as you like. A play complies with them if
//! it does as they say. This module proves that every cohort that a walk
//! produces keeps its promise: whichever of its states the mechanism is in,
//! every complying play ends in an accepted state. It also proves that a
//! walk misses nothing but what pruning takes away: without pruning, every
//! play that ends in an accepted state complies with a cohort of the result.
use crate::backward::{branch, inbound, parents_under, retreat_all_of, retreat_of, verdict};
use crate::extract::{
    all_of_length, extracted, frontier_of, lemma_pruned_from, lemma_retreat_all_shape,
};
use crate::graph::{
    delta_at, edge_sound, has_edge, label_of, lemma_edges_sound, lemma_layers_distinct, reached,
    Graph,
};
use crate::lists::Edge;
use crate::neck::{Frame, MotherBrain};
use crate::path::Cohort;
use crate::table::Node;
use crate::prune::pruned;
use crate::replay::{jump_at, state_at};
use vstd::prelude::*;

verus! {

/// The state on frame `to` of a play that has `state` on frame `from` and
/// takes the input `choices[f]` on each frame `f` between.
pub open spec fn play(
    trace: Seq<Frame>,
    choices: Seq<bool>,
    state: MotherBrain,
    from: int,
    to: int,
) -> MotherBrain
    decreases to - from,
{
    if to <= from {
        state
    } else {
        play(
            trace,
            choices,
            state.after_frame(trace[from].body_y, delta_at(trace, from), choices[from]),
            from + 1,
            to,
        )
    }
}

/// A play from where a replay stands on frame `from` ends where the replay
/// stands on frame `to`.
pub proof fn lemma_play_is_replay(trace: Seq<Frame>, choices: Seq<bool>, from: int, to: int)
    requires
        0 <= from <= to <= choices.len(),
    ensures
        play(trace, choices, state_at(trace, choices, from), from, to) == state_at(
            trace,
            choices,
            to,
        ),
    decreases to - from,
{
    if from < to {
        assert(jump_at(choices, from) == choices[from]);
        assert(state_at(trace, choices, from + 1) == state_at(trace, choices, from).after_frame(
            trace[from].body_y,
            delta_at(trace, from),
            choices[from],
        ));
        lemma_play_is_replay(trace, choices, from + 1, to);
    }
}

/// `choices` gives an input for each of the `frames` frames and does as
/// `inputs` says: the inputs are kept last frame first, so entry `t` speaks
/// of frame `frames - 1 - t`.
pub open spec fn complies(inputs: Seq<Option<bool>>, choices: Seq<bool>, frames: int) -> bool {
    &&& choices.len() == frames
    &&& inputs.len() <= frames
    &&& forall|t: int|
        0 <= t < inputs.len() ==> ((#[trigger] inputs[t]) matches Some(input) ==> choices[frames - 1
            - t] == input)
}

/// `state` is one of the accepted states of the last layer.
pub open spec fn lands(graph: Graph, accepted: Set<usize>, state: MotherBrain) -> bool {
    exists|a: usize|
        accepted.contains(a) && a < graph.layer(graph.layers@.len() - 1).len() && (
        #[trigger] graph.layer(graph.layers@.len() - 1)[a as int]).state == state
}

/// From every member of the cohort, taken as a state of layer `level`,
/// every complying play ends in an accepted state.
pub open spec fn keeps_promise(
    graph: Graph,
    trace: Seq<Frame>,
    accepted: Set<usize>,
    level: int,
    cohort: Cohort,
) -> bool {
    forall|p: usize, choices: Seq<bool>|
        cohort.members.contains(p) && complies(cohort.inputs, choices, trace.len() as int)
            ==> lands(
            graph,
            accepted,
            #[trigger] play(
                trace,
                choices,
                graph.layer(level)[p as int].state,
                level,
                trace.len() as int,
            ),
        )
}

/// Every cohort of the list keeps its promise.
pub open spec fn all_keep_promise(
    graph: Graph,
    trace: Seq<Frame>,
    accepted: Set<usize>,
    level: int,
    list: Seq<Cohort>,
) -> bool {
    forall|i: int|
        0 <= i < list.len() ==> keeps_promise(graph, trace, accepted, level, #[trigger] list[i])
}

/// The cohort of the parents under one label keeps its promise if the
/// cohort that they lead into does.
proof fn lemma_branch_keeps_promise(
    graph: Graph,
    initial: MotherBrain,
    trace: Seq<Frame>,
    accepted: Set<usize>,
    level: int,
    cohort: Cohort,
    label: Option<bool>,
)
    requires
        graph.built_from(initial, trace),
        1 <= level <= trace.len(),
        cohort.inputs.len() == trace.len() - level,
        keeps_promise(graph, trace, accepted, level, cohort),
    ensures
        all_keep_promise(
            graph,
            trace,
            accepted,
            level - 1,
            branch(inbound(graph.layer(level), cohort.members), cohort.inputs, label),
        ),
{
    let layer = graph.layer(level);
    let prev = graph.layer(level - 1);
    let edges = inbound(layer, cohort.members);
    let frames = trace.len() as int;
    let out = branch(edges, cohort.inputs, label);
    if out.len() > 0 {
        let back = out[0];
        assert(back.members == parents_under(edges, label));
        assert(back.inputs == cohort.inputs.push(label));
        assert forall|p: usize, choices: Seq<bool>|
            back.members.contains(p) && complies(back.inputs, choices, frames) implies lands(
            graph,
            accepted,
            #[trigger] play(trace, choices, prev[p as int].state, level - 1, frames),
        ) by {
            // The input that the play takes on the frame below `level`,
            // and an edge into the cohort that this input follows.
            let input = choices[level - 1];
            assert(verdict(edges, p) == Some(label));
            assert(back.inputs[frames - level] == label);
            let edge: Edge = if edges.contains((p, Some(input))) {
                (p, Some(input))
            } else {
                (p, None)
            };
            assert(edges.contains(edge)) by {
                if label is Some {
                    assert(choices[frames - 1 - (frames - level)] == label->Some_0);
                }
                if input {
                } else {
                }
            }
            let k = choose|k: int|
                0 <= k < layer.len() && cohort.members.contains(k as usize) && (
                #[trigger] layer[k]).edges().contains(edge);
            let e = choose|e: int| 0 <= e < layer[k].edges().len() && layer[k].edges()[e] == edge;
            lemma_edges_sound(graph, initial, trace, level, k, e);
            assert(edge_sound(
                prev,
                edge,
                layer[k].state,
                trace[level - 1].body_y,
                delta_at(trace, level - 1),
            ));
            let next = prev[p as int].state.after_frame(
                trace[level - 1].body_y,
                delta_at(trace, level - 1),
                input,
            );
            assert(next == layer[k].state);
            // From there on the play complies with the cohort's own inputs.
            assert(complies(cohort.inputs, choices, frames)) by {
                assert forall|t: int| 0 <= t < cohort.inputs.len() implies ((
                #[trigger] cohort.inputs[t]) matches Some(wanted) ==> choices[frames - 1 - t]
                    == wanted) by {
                    assert(back.inputs[t] == cohort.inputs[t]);
                }
            }
            let member = k as usize;
            assert(layer.len() == graph.layers@[level].len());
            assert(lands(
                graph,
                accepted,
                play(trace, choices, graph.layer(level)[member as int].state, level, frames),
            ));
        }
    }
}

/// The retreats of a list of cohorts keep their promise if the cohorts do.
proof fn lemma_retreat_all_keeps_promise(
    graph: Graph,
    initial: MotherBrain,
    trace: Seq<Frame>,
    accepted: Set<usize>,
    level: int,
    list: Seq<Cohort>,
)
    requires
        graph.built_from(initial, trace),
        1 <= level <= trace.len(),
        all_of_length(list, trace.len() - level),
        all_keep_promise(graph, trace, accepted, level, list),
    ensures
        all_keep_promise(
            graph,
            trace,
            accepted,
            level - 1,
            retreat_all_of(graph.layer(level), list),
        ),
    decreases list.len(),
{
    if list.len() > 0 {
        let rest = list.drop_last();
        let last = list.last();
        assert(last == list[list.len() - 1]);
        assert forall|i: int| 0 <= i < rest.len() implies (#[trigger] rest[i]).inputs.len()
            == trace.len() - level && keeps_promise(graph, trace, accepted, level, rest[i]) by {
            assert(rest[i] == list[i]);
        }
        lemma_retreat_all_keeps_promise(graph, initial, trace, accepted, level, rest);
        lemma_branch_keeps_promise(graph, initial, trace, accepted, level, last, None);
        lemma_branch_keeps_promise(graph, initial, trace, accepted, level, last, Some(true));
        lemma_branch_keeps_promise(graph, initial, trace, accepted, level, last, Some(false));
    }
}

/// Every cohort that a walk ends with keeps its promise if the cohorts it
/// started with do.
proof fn lemma_walk_keeps_promise(
    graph: Graph,
    initial: MotherBrain,
    trace: Seq<Frame>,
    accepted: Set<usize>,
    level: int,
    list: Seq<Cohort>,
    step_cap: int,
    final_cap: int,
    result: Seq<Cohort>,
)
    requires
        graph.built_from(initial, trace),
        0 <= level <= trace.len(),
        0 <= step_cap,
        0 <= final_cap,
        all_of_length(list, trace.len() - level),
        all_keep_promise(graph, trace, accepted, level, list),
        extracted(graph, level, list, step_cap, final_cap, result),
    ensures
        all_keep_promise(graph, trace, accepted, 0, result),
    decreases level,
{
    if level <= 0 {
        lemma_pruned_from(list, result, final_cap);
        assert forall|i: int| 0 <= i < result.len() implies keeps_promise(
            graph,
            trace,
            accepted,
            0,
            #[trigger] result[i],
        ) by {
            assert(list.contains(result[i]));
        }
    } else {
        let back = retreat_all_of(graph.layer(level), list);
        let kept = choose|kept: Seq<Cohort>| #[trigger]
            pruned(back, kept, step_cap) && extracted(
                graph,
                level - 1,
                kept,
                step_cap,
                final_cap,
                result,
            );
        lemma_retreat_all_keeps_promise(graph, initial, trace, accepted, level, list);
        lemma_retreat_all_shape(graph.layer(level), list, trace.len() - level);
        lemma_pruned_from(back, kept, step_cap);
        assert forall|i: int| 0 <= i < kept.len() implies keeps_promise(
            graph,
            trace,
            accepted,
            level - 1,
            #[trigger] kept[i],
        ) && kept[i].inputs.len() == trace.len() - (level - 1) by {
            assert(back.contains(kept[i]));
        }
        lemma_walk_keeps_promise(
            graph,
            initial,
            trace,
            accepted,
            level - 1,
            kept,
            step_cap,
            final_cap,
            result,
        );
    }
}

/// The walk back from the accepted states of a graph that a trace spans
/// ends with cohorts of the initial state that keep their promise: every
/// play from the initial state that complies with the inputs of one of them
/// ends in an accepted state.
pub proof fn lemma_walk_is_sound(
    graph: Graph,
    initial: MotherBrain,
    trace: Seq<Frame>,
    accepted: Set<usize>,
    step_cap: int,
    final_cap: int,
    result: Seq<Cohort>,
    i: int,
    choices: Seq<bool>,
)
    requires
        graph.built_from(initial, trace),
        0 <= step_cap,
        0 <= final_cap,
        forall|p: usize| accepted.contains(p) ==> p < graph.layer(trace.len() as int).len(),
        extracted(graph, trace.len() as int, frontier_of(accepted), step_cap, final_cap, result),
        0 <= i < result.len(),
        result[i].members.contains(0),
        complies(result[i].inputs, choices, trace.len() as int),
    ensures
        lands(graph, accepted, play(trace, choices, initial, 0, trace.len() as int)),
{
    let frames = trace.len() as int;
    let start = frontier_of(accepted);
    assert(keeps_promise(graph, trace, accepted, frames, start[0])) by {
        assert forall|p: usize, plays: Seq<bool>|
            start[0].members.contains(p) && complies(start[0].inputs, plays, frames) implies lands(
            graph,
            accepted,
            #[trigger] play(trace, plays, graph.layer(frames)[p as int].state, frames, frames),
        ) by {
            assert(graph.layers@.len() - 1 == frames);
            assert(accepted.contains(p));
            assert(graph.layer(graph.layers@.len() - 1)[p as int].state == play(
                trace,
                plays,
                graph.layer(frames)[p as int].state,
                frames,
                frames,
            ));
        }
    }
    lemma_walk_keeps_promise(
        graph,
        initial,
        trace,
        accepted,
        frames,
        start,
        step_cap,
        final_cap,
        result,
    );
    assert(keeps_promise(graph, trace, accepted, 0, result[i]));
    assert(graph.layer(0)[0usize as int].state == initial);
}

/// What a walk from `level` down to the first layer makes of `list` when
/// nothing is pruned.
pub open spec fn unpruned(graph: Graph, level: int, list: Seq<Cohort>) -> Seq<Cohort>
    decreases level,
{
    if level <= 0 {
        list
    } else {
        unpruned(graph, level - 1, retreat_all_of(graph.layer(level), list))
    }
}

/// No list of the walk outgrows its cap, so that pruning takes nothing
/// away.
pub open spec fn uncut(
    graph: Graph,
    level: int,
    list: Seq<Cohort>,
    step_cap: int,
    final_cap: int,
) -> bool
    decreases level,
{
    if level <= 0 {
        list.len() <= final_cap
    } else {
        &&& retreat_all_of(graph.layer(level), list).len() <= step_cap
        &&& uncut(
            graph,
            level - 1,
            retreat_all_of(graph.layer(level), list),
            step_cap,
            final_cap,
        )
    }
}

/// A walk in which no list outgrows its cap ends as the walk without
/// pruning does.
pub proof fn lemma_uncut_walk(
    graph: Graph,
    level: int,
    list: Seq<Cohort>,
    step_cap: int,
    final_cap: int,
    result: Seq<Cohort>,
)
    requires
        uncut(graph, level, list, step_cap, final_cap),
        extracted(graph, level, list, step_cap, final_cap, result),
    ensures
        result == unpruned(graph, level, list),
    decreases level,
{
    if level > 0 {
        let back = retreat_all_of(graph.layer(level), list);
        let kept = choose|kept: Seq<Cohort>| #[trigger]
            pruned(back, kept, step_cap) && extracted(
                graph,
                level - 1,
                kept,
                step_cap,
                final_cap,
                result,
            );
        lemma_uncut_walk(graph, level - 1, kept, step_cap, final_cap, result);
    }
}

/// Some cohort of the list holds `p` and lets the play do as it does.
pub open spec fn covers(list: Seq<Cohort>, p: usize, choices: Seq<bool>, frames: int) -> bool {
    exists|i: int|
        0 <= i < list.len() && (#[trigger] list[i]).members.contains(p) && complies(
            list[i].inputs,
            choices,
            frames,
        )
}

/// Every play that ends in an accepted state, from whichever state of layer
/// `level`, is covered by the list.
pub open spec fn misses_nothing(
    graph: Graph,
    trace: Seq<Frame>,
    accepted: Set<usize>,
    level: int,
    list: Seq<Cohort>,
) -> bool {
    forall|p: usize, choices: Seq<bool>|
        p < graph.layer(level).len() && choices.len() == trace.len() && lands(
            graph,
            accepted,
            #[trigger] play(
                trace,
                choices,
                graph.layer(level)[p as int].state,
                level,
                trace.len() as int,
            ),
        ) ==> covers(list, p, choices, trace.len() as int)
}

/// The retreat of each cohort of a list is part of the retreats of the
/// list.
proof fn lemma_retreat_all_holds(layer: Seq<Node>, list: Seq<Cohort>, i: int, j: int)
    requires
        0 <= i < list.len(),
        0 <= j < retreat_of(layer, list[i]).len(),
    ensures
        retreat_all_of(layer, list).contains(retreat_of(layer, list[i])[j]),
    decreases list.len(),
{
    let rest = list.drop_last();
    let all = retreat_all_of(layer, list);
    let head = retreat_all_of(layer, rest);
    let tail = retreat_of(layer, list.last());
    assert(all == head + tail);
    if i == list.len() - 1 {
        assert(all[head.len() + j] == tail[j]);
    } else {
        assert(rest[i] == list[i]);
        lemma_retreat_all_holds(layer, rest, i, j);
        let at = choose|at: int| 0 <= at < head.len() && head[at] == retreat_of(layer, list[i])[j];
        assert(all[at] == head[at]);
    }
}

/// The retreats of a list miss nothing if the list misses nothing.
proof fn lemma_retreat_all_misses_nothing(
    graph: Graph,
    initial: MotherBrain,
    trace: Seq<Frame>,
    accepted: Set<usize>,
    level: int,
    list: Seq<Cohort>,
)
    requires
        graph.built_from(initial, trace),
        1 <= level <= trace.len(),
        all_of_length(list, trace.len() - level),
        misses_nothing(graph, trace, accepted, level, list),
    ensures
        misses_nothing(graph, trace, accepted, level - 1, retreat_all_of(graph.layer(level), list)),
{
    let layer = graph.layer(level);
    let prev = graph.layer(level - 1);
    let frames = trace.len() as int;
    let back = retreat_all_of(layer, list);
    let body_y = trace[level - 1].body_y;
    let delta = delta_at(trace, level - 1);
    assert(graph.frame_follows(trace, level - 1));
    assert forall|p: usize, choices: Seq<bool>|
        p < prev.len() && choices.len() == frames && lands(
            graph,
            accepted,
            #[trigger] play(trace, choices, prev[p as int].state, level - 1, frames),
        ) implies covers(back, p, choices, frames) by {
        // The step that the play takes out of `p` is recorded as an edge
        // into some node `k` of the layer.
        let input = choices[level - 1];
        let from = prev[p as int].state;
        let next = from.after_frame(body_y, delta, input);
        let edge: Edge = (p, label_of(from, body_y, delta, input));
        assert(reached(prev, layer, body_y, delta, p as int, input));
        assert(has_edge(layer, edge));
        let k = choose|k: int| 0 <= k < layer.len() && (#[trigger] layer[k]).edges().contains(edge);
        let e = choose|e: int| 0 <= e < layer[k].edges().len() && layer[k].edges()[e] == edge;
        lemma_edges_sound(graph, initial, trace, level, k, e);
        assert(edge_sound(prev, edge, layer[k].state, body_y, delta));
        assert(layer[k].state == next);
        // From `k` the play is covered by a cohort of the list.
        let member = k as usize;
        assert(layer.len() == graph.layers@[level].len());
        assert(play(trace, choices, graph.layer(level)[member as int].state, level, frames) == play(
            trace,
            choices,
            from,
            level - 1,
            frames,
        ));
        assert(covers(list, member, choices, frames));
        let i = choose|i: int|
            0 <= i < list.len() && (#[trigger] list[i]).members.contains(member) && complies(
                list[i].inputs,
                choices,
                frames,
            );
        let cohort = list[i];
        // The parent stands in the retreat of that cohort, under a label
        // that lets the play do as it does.
        let edges = inbound(layer, cohort.members);
        assert(edges.contains(edge));
        assert(verdict(edges, p) is Some) by {
            if input {
            } else {
            }
        }
        let label = verdict(edges, p)->Some_0;
        assert(label is Some ==> label == Some(input)) by {
            if input {
            } else {
            }
        }
        assert(parents_under(edges, label).contains(p));
        let found = branch(edges, cohort.inputs, label);
        assert(found.len() == 1);
        let grown = found[0];
        assert(complies(grown.inputs, choices, frames)) by {
            assert forall|t: int| 0 <= t < grown.inputs.len() implies ((
            #[trigger] grown.inputs[t]) matches Some(wanted) ==> choices[frames - 1 - t]
                == wanted) by {
                if t < cohort.inputs.len() {
                    assert(grown.inputs[t] == cohort.inputs[t]);
                } else {
                    assert(grown.inputs[t] == label);
                    assert(frames - 1 - t == level - 1);
                }
            }
        }
        let out = retreat_of(layer, cohort);
        let j: int = match label {
            None => 0,
            Some(true) => branch(edges, cohort.inputs, None).len() as int,
            Some(false) => (branch(edges, cohort.inputs, None).len() + branch(
                edges,
                cohort.inputs,
                Some(true),
            ).len()) as int,
        };
        assert(0 <= j < out.len() && out[j] == grown);
        lemma_retreat_all_holds(layer, list, i, j);
        let at = choose|at: int| 0 <= at < back.len() && back[at] == grown;
        assert(back[at].members.contains(p));
    }
}

/// The walk without pruning misses nothing if the list it starts with
/// misses nothing.
proof fn lemma_unpruned_misses_nothing(
    graph: Graph,
    initial: MotherBrain,
    trace: Seq<Frame>,
    accepted: Set<usize>,
    level: int,
    list: Seq<Cohort>,
)
    requires
        graph.built_from(initial, trace),
        0 <= level <= trace.len(),
        all_of_length(list, trace.len() - level),
        misses_nothing(graph, trace, accepted, level, list),
    ensures
        misses_nothing(graph, trace, accepted, 0, unpruned(graph, level, list)),
    decreases level,
{
    if level > 0 {
        lemma_retreat_all_misses_nothing(graph, initial, trace, accepted, level, list);
        lemma_retreat_all_shape(graph.layer(level), list, trace.len() - level);
        lemma_unpruned_misses_nothing(
            graph,
            initial,
            trace,
            accepted,
            level - 1,
            retreat_all_of(graph.layer(level), list),
        );
    }
}

/// The walk without pruning misses no way to the goal: every play from the
/// initial state that ends in an accepted state complies with the inputs of
/// some cohort that the walk ends with.
pub proof fn lemma_walk_is_complete(
    graph: Graph,
    initial: MotherBrain,
    trace: Seq<Frame>,
    accepted: Set<usize>,
    choices: Seq<bool>,
)
    requires
        graph.built_from(initial, trace),
        choices.len() == trace.len(),
        lands(graph, accepted, play(trace, choices, initial, 0, trace.len() as int)),
    ensures
        covers(
            unpruned(graph, trace.len() as int, frontier_of(accepted)),
            0,
            choices,
            trace.len() as int,
        ),
{
    let frames = trace.len() as int;
    let start = frontier_of(accepted);
    let last = graph.layer(frames);
    lemma_layers_distinct(graph, initial, trace, frames);
    assert(misses_nothing(graph, trace, accepted, frames, start)) by {
        assert forall|p: usize, plays: Seq<bool>|
            p < last.len() && plays.len() == frames && lands(
                graph,
                accepted,
                #[trigger] play(trace, plays, last[p as int].state, frames, frames),
            ) implies covers(start, p, plays, frames) by {
            let a = choose|a: usize|
                accepted.contains(a) && a < graph.layer(graph.layers@.len() - 1).len() && (
                #[trigger] graph.layer(graph.layers@.len() - 1)[a as int]).state == last[p as int].state;
            assert(last[a as int].state == last[p as int].state);
            assert(a == p);
            assert(start[0].members.contains(p));
        }
    }
    lemma_unpruned_misses_nothing(graph, initial, trace, accepted, frames, start);
    assert(graph.layer(0)[0usize as int].state == initial);
}

} // verus!
