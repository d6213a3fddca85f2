//! The walk back from the accepted end states to the initial state.
//!
//! The walk starts with one cohort, the accepted states of the last layer,
//! and no inputs. Layer by layer every cohort is traced back, and the list
//! of cohorts is pruned. What is left at the first layer, pruned once more,
//! is the result: each cohort's inputs run the whole length of the trace.
use crate::backward::{
    branch, inbound, lemma_retreat_all_below, parents_under, retreat_all, retreat_all_of,
    retreat_of, verdict,
};
use crate::graph::{build, Graph};
use crate::lists::Edge;
use crate::neck::{Frame, MotherBrain};
use crate::path::{all_below, cohorts, Cohort, Path};
use crate::prune::{lemma_pruned_unique, prune, pruned, ranking, selects};
use crate::replay::{initial_state, start};
use crate::table::Node;
use vstd::prelude::*;

verus! {

/// The cap on the list of cohorts after each step back.
pub const STEP_CAP: usize = 100000;

/// The cap on the list of cohorts that is returned.
pub const FINAL_CAP: usize = 1000;

/// From this lower angle on the neck counts as standing.
pub const STANDING: u16 = 0x8000;

/// `result` is what the walk from layer `level` down to the first layer
/// makes of `list`: on each level above the first the list is traced back
/// and pruned to `step_cap`, and on the first it is pruned to `final_cap`.
pub open spec fn extracted(
    graph: Graph,
    level: int,
    list: Seq<Cohort>,
    step_cap: int,
    final_cap: int,
    result: Seq<Cohort>,
) -> bool
    decreases level,
{
    if level <= 0 {
        pruned(list, result, final_cap)
    } else {
        exists|kept: Seq<Cohort>| #[trigger]
            pruned(retreat_all_of(graph.layer(level), list), kept, step_cap) && extracted(
                graph,
                level - 1,
                kept,
                step_cap,
                final_cap,
                result,
            )
    }
}

/// A walk has one outcome.
pub proof fn lemma_extracted_unique(
    graph: Graph,
    level: int,
    list: Seq<Cohort>,
    step_cap: int,
    final_cap: int,
    first: Seq<Cohort>,
    second: Seq<Cohort>,
)
    requires
        0 <= step_cap,
        0 <= final_cap,
        extracted(graph, level, list, step_cap, final_cap, first),
        extracted(graph, level, list, step_cap, final_cap, second),
    ensures
        first == second,
    decreases level,
{
    if level <= 0 {
        lemma_pruned_unique(list, first, second, final_cap);
    } else {
        let back = retreat_all_of(graph.layer(level), list);
        let a = choose|kept: Seq<Cohort>| #[trigger]
            pruned(back, kept, step_cap) && extracted(
                graph,
                level - 1,
                kept,
                step_cap,
                final_cap,
                first,
            );
        let b = choose|kept: Seq<Cohort>| #[trigger]
            pruned(back, kept, step_cap) && extracted(
                graph,
                level - 1,
                kept,
                step_cap,
                final_cap,
                second,
            );
        lemma_pruned_unique(back, a, b, step_cap);
        lemma_extracted_unique(graph, level - 1, a, step_cap, final_cap, first, second);
    }
}

/// The cohort that a walk starts with.
pub open spec fn frontier_of(members: Set<usize>) -> Seq<Cohort> {
    seq![Cohort { members, inputs: Seq::empty() }]
}

/// Every cohort of the list has a member.
pub open spec fn all_inhabited(list: Seq<Cohort>) -> bool {
    forall|i: int| 0 <= i < list.len() ==> (#[trigger] list[i]).inhabited()
}

/// Every cohort of the list has `count` inputs.
pub open spec fn all_of_length(list: Seq<Cohort>, count: int) -> bool {
    forall|i: int| 0 <= i < list.len() ==> (#[trigger] list[i]).inputs.len() == count
}

/// Whatever pruning keeps was in the list.
pub proof fn lemma_pruned_from(before: Seq<Cohort>, after: Seq<Cohort>, cap: int)
    requires
        0 <= cap,
        pruned(before, after, cap),
    ensures
        forall|t: int| 0 <= t < after.len() ==> before.contains(#[trigger] after[t]),
        before.len() > 0 && cap > 0 ==> after.len() > 0,
{
    if before.len() > cap {
        let order = choose|order: Seq<int>| #[trigger]
            ranking(before, order) && selects(before, after, order, cap);
        assert forall|t: int| 0 <= t < after.len() implies before.contains(#[trigger] after[t]) by {
            assert(before[order[t]] == after[t]);
        }
    }
}

/// Every cohort of a retreat has a member and one input more than the
/// cohort it came from.
pub proof fn lemma_retreat_shape(layer: Seq<Node>, cohort: Cohort)
    ensures
        all_inhabited(retreat_of(layer, cohort)),
        all_of_length(retreat_of(layer, cohort), (cohort.inputs.len() + 1) as int),
{
    let edges = inbound(layer, cohort.members);
    lemma_branch_shape(edges, cohort.inputs, None);
    lemma_branch_shape(edges, cohort.inputs, Some(true));
    lemma_branch_shape(edges, cohort.inputs, Some(false));
}

/// A branch is empty, or one inhabited cohort with one input more.
proof fn lemma_branch_shape(edges: Set<Edge>, inputs: Seq<Option<bool>>, label: Option<bool>)
    ensures
        all_inhabited(branch(edges, inputs, label)),
        all_of_length(branch(edges, inputs, label), (inputs.len() + 1) as int),
        branch(edges, inputs, label).len() <= 1,
{
    if exists|parent: usize| parents_under(edges, label).contains(parent) {
        let parent = choose|parent: usize| parents_under(edges, label).contains(parent);
        assert(branch(edges, inputs, label)[0].members.contains(parent));
    }
}

/// A cohort with a member that has an inbound edge has a retreat.
pub proof fn lemma_retreat_exists(layer: Seq<Node>, cohort: Cohort, member: usize)
    requires
        cohort.members.contains(member),
        member < layer.len(),
        layer[member as int].edges().len() > 0,
    ensures
        retreat_of(layer, cohort).len() > 0,
{
    let edges = inbound(layer, cohort.members);
    let edge = layer[member as int].edges()[0];
    assert(layer[member as int].edges().contains(edge));
    assert(edges.contains(edge));
    let parent = edge.0;
    assert(edge == (parent, edge.1));
    assert(verdict(edges, parent) is Some) by {
        match edge.1 {
            None => {},
            Some(input) => {
                if input {
                } else {
                }
            },
        }
    }
    let label = verdict(edges, parent)->Some_0;
    assert(parents_under(edges, label).contains(parent));
    assert(branch(edges, cohort.inputs, label).len() == 1);
    match label {
        None => {},
        Some(input) => {
            if input {
            } else {
            }
        },
    }
}

/// The shape of the retreats of a list.
pub proof fn lemma_retreat_all_shape(layer: Seq<Node>, list: Seq<Cohort>, count: int)
    requires
        all_of_length(list, count),
    ensures
        all_inhabited(retreat_all_of(layer, list)),
        all_of_length(retreat_all_of(layer, list), count + 1),
    decreases list.len(),
{
    if list.len() > 0 {
        let rest = list.drop_last();
        assert forall|i: int| 0 <= i < rest.len() implies (#[trigger] rest[i]).inputs.len()
            == count by {
            assert(rest[i] == list[i]);
        }
        lemma_retreat_all_shape(layer, rest, count);
        lemma_retreat_shape(layer, list.last());
        assert(list.last() == list[list.len() - 1]);
    }
}

/// A list of inhabited cohorts over a layer whose nodes all have inbound
/// edges has a retreat.
pub proof fn lemma_retreat_all_exists(layer: Seq<Node>, list: Seq<Cohort>)
    requires
        list.len() > 0,
        all_inhabited(list),
        all_below(list, layer.len() as int),
        forall|k: int| 0 <= k < layer.len() ==> (#[trigger] layer[k]).edges().len() > 0,
    ensures
        retreat_all_of(layer, list).len() > 0,
{
    let last = list.last();
    assert(last == list[list.len() - 1]);
    assert(last.inhabited());
    let member = choose|p: usize| last.members.contains(p);
    assert(last.below(layer.len() as int));
    lemma_retreat_exists(layer, last, member);
}

/// A walk that starts with inhabited cohorts on a rooted graph, under caps
/// that are not zero, ends with at least one cohort, and every cohort it
/// ends with has gained one input for each level walked.
pub proof fn lemma_walk_arrives(
    graph: Graph,
    level: int,
    list: Seq<Cohort>,
    step_cap: int,
    final_cap: int,
    result: Seq<Cohort>,
    count: int,
)
    requires
        graph.linked(),
        graph.rooted(),
        0 <= level < graph.layers@.len(),
        step_cap > 0,
        final_cap > 0,
        list.len() > 0,
        all_inhabited(list),
        all_below(list, graph.layer(level).len() as int),
        all_of_length(list, count),
        extracted(graph, level, list, step_cap, final_cap, result),
    ensures
        result.len() > 0,
        all_inhabited(result),
        all_of_length(result, count + level),
    decreases level,
{
    if level <= 0 {
        lemma_pruned_from(list, result, final_cap);
        assert forall|t: int| 0 <= t < result.len() implies (#[trigger] result[t]).inhabited()
            && result[t].inputs.len() == count by {
            assert(list.contains(result[t]));
        }
    } else {
        let layer = graph.layer(level);
        let back = retreat_all_of(layer, list);
        let kept = choose|kept: Seq<Cohort>| #[trigger]
            pruned(back, kept, step_cap) && extracted(
                graph,
                level - 1,
                kept,
                step_cap,
                final_cap,
                result,
            );
        assert forall|k: int| 0 <= k < layer.len() implies (#[trigger] layer[k]).edges().len()
            > 0 by {
            assert(graph.layer(level)[k].edges().len() > 0);
        }
        lemma_retreat_all_exists(layer, list);
        lemma_retreat_all_shape(layer, list, count);
        lemma_retreat_all_below(layer, list, graph.layer(level - 1).len() as int);
        lemma_pruned_from(back, kept, step_cap);
        assert forall|t: int| 0 <= t < kept.len() implies (#[trigger] kept[t]).inhabited()
            && kept[t].inputs.len() == count + 1 && kept[t].below(
            graph.layer(level - 1).len() as int,
        ) by {
            assert(back.contains(kept[t]));
        }
        lemma_walk_arrives(graph, level - 1, kept, step_cap, final_cap, result, count + 1);
    }
}

/// Where some accepted end state exists in a graph that a trace spans, the
/// walk back from the accepted states ends with at least one cohort, and
/// every cohort it ends with holds one input for each frame of the trace.
pub proof fn lemma_goal_is_reached(
    graph: Graph,
    initial: MotherBrain,
    trace: Seq<Frame>,
    accepted: Set<usize>,
    step_cap: int,
    final_cap: int,
    result: Seq<Cohort>,
)
    requires
        graph.built_from(initial, trace),
        exists|p: usize| accepted.contains(p),
        forall|p: usize| accepted.contains(p) ==> p < graph.layer(trace.len() as int).len(),
        step_cap > 0,
        final_cap > 0,
        extracted(graph, trace.len() as int, frontier_of(accepted), step_cap, final_cap, result),
    ensures
        result.len() > 0,
        all_of_length(result, trace.len() as int),
{
    graph.lemma_built_is_linked(initial, trace);
    let member = choose|p: usize| accepted.contains(p);
    assert(frontier_of(accepted)[0].members.contains(member));
    lemma_walk_arrives(
        graph,
        trace.len() as int,
        frontier_of(accepted),
        step_cap,
        final_cap,
        result,
        0,
    );
}

/// Walks back from the states of the last layer listed in `accepted`.
pub fn extract_from(graph: &Graph, accepted: &[usize], step_cap: usize, final_cap: usize) -> (paths:
    Vec<Path>)
    requires
        graph.linked(),
        forall|i: int|
            0 <= i < accepted@.len() ==> #[trigger] accepted@[i] < graph.layer(
                graph.layers@.len() - 1,
            ).len(),
    ensures
        extracted(
            *graph,
            graph.layers@.len() - 1,
            frontier_of(accepted@.to_set()),
            step_cap as int,
            final_cap as int,
            cohorts(paths@),
        ),
        all_of_length(cohorts(paths@), graph.layers@.len() - 1),
{
    let top = graph.layers.len() - 1;
    let mut paths: Vec<Path> = Vec::new();
    let none: Vec<Option<bool>> = Vec::new();
    paths.push(Path::new(accepted, none.as_slice()));
    let ghost start = cohorts(paths@);
    proof {
        assert(start =~= frontier_of(accepted@.to_set()));
        assert forall|p: usize| #[trigger] accepted@.to_set().contains(p) implies p < graph.layer(
            top as int,
        ).len() by {
            let i = choose|i: int| 0 <= i < accepted@.len() && accepted@[i] == p;
            assert(accepted@[i] < graph.layer(top as int).len());
        }
    }
    let mut level = top;
    while level > 0
        invariant
            level <= top,
            top == graph.layers@.len() - 1,
            graph.linked(),
            all_below(cohorts(paths@), graph.layer(level as int).len() as int),
            all_of_length(cohorts(paths@), top - level),
            forall|result: Seq<Cohort>| #[trigger]
                extracted(
                    *graph,
                    level as int,
                    cohorts(paths@),
                    step_cap as int,
                    final_cap as int,
                    result,
                ) ==> extracted(
                    *graph,
                    top as int,
                    start,
                    step_cap as int,
                    final_cap as int,
                    result,
                ),
        decreases level,
    {
        let ghost before = cohorts(paths@);
        let back = retreat_all(&graph.layers[level], &paths);
        let ghost grown = cohorts(back@);
        paths = prune(back, step_cap);
        proof {
            let layer = graph.layer(level as int);
            let kept = cohorts(paths@);
            lemma_retreat_all_below(layer, before, graph.layer(level - 1).len() as int);
            lemma_retreat_all_shape(layer, before, top - level);
            lemma_pruned_from(grown, kept, step_cap as int);
            assert forall|t: int| 0 <= t < kept.len() implies (#[trigger] kept[t]).below(
                graph.layer(level - 1).len() as int,
            ) && kept[t].inputs.len() == top - level + 1 by {
                assert(grown.contains(kept[t]));
            }
            assert forall|result: Seq<Cohort>| #[trigger]
                extracted(
                    *graph,
                    level - 1,
                    kept,
                    step_cap as int,
                    final_cap as int,
                    result,
                ) implies extracted(
                *graph,
                top as int,
                start,
                step_cap as int,
                final_cap as int,
                result,
            ) by {
                assert(pruned(retreat_all_of(graph.layer(level as int), before), kept, step_cap as int));
                assert(extracted(
                    *graph,
                    level as int,
                    before,
                    step_cap as int,
                    final_cap as int,
                    result,
                ));
            }
        }
        level -= 1;
    }
    let ghost last = cohorts(paths@);
    let kept = prune(paths, final_cap);
    proof {
        lemma_pruned_from(last, cohorts(kept@), final_cap as int);
        assert forall|t: int| 0 <= t < kept@.len() implies (#[trigger] cohorts(kept@)[t]).inputs.len()
            == top by {
            assert(last.contains(cohorts(kept@)[t]));
        }
        assert(extracted(
            *graph,
            0,
            last,
            step_cap as int,
            final_cap as int,
            cohorts(kept@),
        ));
    }
    kept
}

/// `chosen` holds the positions of the states that `goal` accepted: for
/// every node of the layer, the goal's answer on its state was whether
/// `chosen` holds its position.
pub open spec fn accepts<F: Fn(&MotherBrain) -> bool>(
    layer: Seq<Node>,
    goal: F,
    chosen: Set<usize>,
) -> bool {
    &&& forall|p: usize| chosen.contains(p) ==> p < layer.len()
    &&& forall|k: int|
        0 <= k < layer.len() ==> call_ensures(
            goal,
            (&(#[trigger] layer[k]).state,),
            chosen.contains(k as usize),
        )
}

/// Lists the positions of the states of a layer that `goal` accepts.
pub fn select<F: Fn(&MotherBrain) -> bool>(layer: &Vec<Node>, goal: &F) -> (chosen: Vec<usize>)
    requires
        forall|k: int| 0 <= k < layer.len() ==> call_requires(goal, (&(#[trigger] layer[k]).state,)),
    ensures
        accepts(layer@, *goal, chosen@.to_set()),
        forall|i: int| 0 <= i < chosen@.len() ==> #[trigger] chosen@[i] < layer.len(),
        forall|i: int, j: int| 0 <= i < j < chosen@.len() ==> chosen@[i] < chosen@[j],
{
    let mut chosen: Vec<usize> = Vec::new();
    let mut k: usize = 0;
    while k < layer.len()
        invariant
            k <= layer.len(),
            forall|j: int|
                0 <= j < layer.len() ==> call_requires(goal, (&(#[trigger] layer[j]).state,)),
            forall|i: int| 0 <= i < chosen@.len() ==> #[trigger] chosen@[i] < k,
            forall|i: int, j: int| 0 <= i < j < chosen@.len() ==> chosen@[i] < chosen@[j],
            forall|j: int|
                0 <= j < k ==> call_ensures(
                    goal,
                    (&(#[trigger] layer[j]).state,),
                    chosen@.contains(j as usize),
                ),
        decreases layer.len() - k,
    {
        let ghost before = chosen@;
        let wanted = goal(&layer[k].state);
        if wanted {
            chosen.push(k);
        }
        proof {
            assert forall|j: int| 0 <= j < k + 1 implies call_ensures(
                goal,
                (&(#[trigger] layer[j]).state,),
                chosen@.contains(j as usize),
            ) by {
                if j < k {
                    if before.contains(j as usize) {
                        let i = choose|i: int| 0 <= i < before.len() && before[i] == j as usize;
                        assert(chosen@[i] == j as usize);
                    }
                    if chosen@.contains(j as usize) {
                        let i = choose|i: int| 0 <= i < chosen@.len() && chosen@[i] == j as usize;
                        assert(i < before.len());
                    }
                } else {
                    if wanted {
                        assert(chosen@[before.len() as int] == k);
                    } else if chosen@.contains(k) {
                        let i = choose|i: int| 0 <= i < chosen@.len() && chosen@[i] == k;
                        assert(chosen@[i] < k);
                    }
                }
            }
        }
        k += 1;
    }
    proof {
        assert forall|p: usize| #[trigger] chosen@.to_set().contains(p) implies p < layer.len() by {
            let i = choose|i: int| 0 <= i < chosen@.len() && chosen@[i] == p;
            assert(chosen@[i] < layer.len());
        }
    }
    chosen
}

/// Walks back from the end states that `goal` accepts, under the caps
/// `STEP_CAP` and `FINAL_CAP`.
pub fn extract<F: Fn(&MotherBrain) -> bool>(graph: &Graph, goal: F) -> (paths: Vec<Path>)
    requires
        graph.linked(),
        forall|k: int|
            0 <= k < graph.layer(graph.layers@.len() - 1).len() ==> call_requires(
                goal,
                (&(#[trigger] graph.layer(graph.layers@.len() - 1)[k]).state,),
            ),
    ensures
        exists|accepted: Set<usize>|
            accepts(graph.layer(graph.layers@.len() - 1), goal, accepted) && #[trigger] extracted(
                *graph,
                graph.layers@.len() - 1,
                frontier_of(accepted),
                STEP_CAP as int,
                FINAL_CAP as int,
                cohorts(paths@),
            ),
        all_of_length(cohorts(paths@), graph.layers@.len() - 1),
{
    let top = graph.layers.len() - 1;
    proof {
        let last = graph.layer(graph.layers@.len() - 1);
        assert(graph.layers@[top as int]@ == last);
        assert forall|k: int| 0 <= k < last.len() implies call_requires(
            goal,
            (&(#[trigger] last[k]).state,),
        ) by {
            assert(graph.layer(graph.layers@.len() - 1)[k] == last[k]);
        }
    }
    let accepted = select(&graph.layers[top], &goal);
    let ghost chosen = accepted@.to_set();
    let paths = extract_from(graph, accepted.as_slice(), STEP_CAP, FINAL_CAP);
    proof {
        assert(extracted(
            *graph,
            graph.layers@.len() - 1,
            frontier_of(chosen),
            STEP_CAP as int,
            FINAL_CAP as int,
            cohorts(paths@),
        ));
    }
    paths
}

/// The goal of standing up: the lower angle has reached `STANDING`.
pub fn stands(state: &MotherBrain) -> (standing: bool)
    ensures
        standing == (state.lower_angle >= STANDING),
{
    state.lower_angle >= STANDING
}

/// The positions of the states of a layer that stand.
pub open spec fn standing(layer: Seq<Node>) -> Set<usize> {
    Set::new(|p: usize| p < layer.len() && layer[p as int].state.lower_angle >= STANDING)
}

/// Finds the input sequences that make the neck stand up at the end of a
/// trace: builds the graph that the trace spans from the initial state and
/// walks back from the states of the last layer that stand, under the caps
/// `STEP_CAP` and `FINAL_CAP`.
pub fn search(trace: &[Frame]) -> (paths: Vec<Path>)
    ensures
        exists|graph: Graph| #[trigger]
            graph.built_from(start(), trace@) && extracted(
                graph,
                trace@.len() as int,
                frontier_of(standing(graph.layer(trace@.len() as int))),
                STEP_CAP as int,
                FINAL_CAP as int,
                cohorts(paths@),
            ),
        all_of_length(cohorts(paths@), trace@.len() as int),
{
    let graph = build(initial_state(), trace);
    let paths = extract(&graph, stands);
    proof {
        let last = graph.layer(trace@.len() as int);
        let accepted = choose|accepted: Set<usize>|
            accepts(graph.layer(graph.layers@.len() - 1), stands, accepted) && #[trigger] extracted(
                graph,
                graph.layers@.len() - 1,
                frontier_of(accepted),
                STEP_CAP as int,
                FINAL_CAP as int,
                cohorts(paths@),
            );
        assert forall|p: usize| accepted.contains(p) <==> standing(last).contains(p) by {
            if p < last.len() {
                assert(call_ensures(stands, (&last[p as int].state,), accepted.contains(p)));
            }
        }
        assert(accepted =~= standing(last));
    }
    paths
}

} // verus!
