//! One step backwards through the graph.
//!
//! A cohort of one layer is traced back to the layer before: the parents of
//! its members are sorted by the input that leads from them into the cohort,
//! and each sort that is not empty becomes a cohort of its own.
use crate::lists::{
    edges_get, edges_len, members_get, members_len, members_new, members_push, Edge, Members,
};
use crate::path::{all_below, cohorts, copy_inputs, Cohort, Path};
use crate::table::Node;
use std::collections::HashMap;
use vstd::prelude::*;

verus! {

broadcast use vstd::std_specs::hash::group_hash_axioms;

/// The edges that lead into the members of a cohort.
pub open spec fn inbound(layer: Seq<Node>, members: Set<usize>) -> Set<Edge> {
    Set::new(
        |edge: Edge|
            exists|k: int|
                0 <= k < layer.len() && members.contains(k as usize) && (#[trigger] layer[k]).edges().contains(
                    edge,
                ),
    )
}

/// What the edges say of a parent: nothing (`None`) where no edge leaves
/// it; that either input will do (`Some(None)`) where an edge says so or
/// where both inputs have an edge each; else the one input that has an
/// edge.
pub open spec fn verdict(edges: Set<Edge>, parent: usize) -> Option<Option<bool>> {
    if edges.contains((parent, None)) || (edges.contains((parent, Some(true))) && edges.contains(
        (parent, Some(false)),
    )) {
        Some(None)
    } else if edges.contains((parent, Some(true))) {
        Some(Some(true))
    } else if edges.contains((parent, Some(false))) {
        Some(Some(false))
    } else {
        None
    }
}

/// The parents whose verdict is `label`.
pub open spec fn parents_under(edges: Set<Edge>, label: Option<bool>) -> Set<usize> {
    Set::new(|parent: usize| verdict(edges, parent) == Some(label))
}

/// The cohort of the parents under `label`, with `label` added to the
/// inputs; nothing where there is no such parent.
pub open spec fn branch(edges: Set<Edge>, inputs: Seq<Option<bool>>, label: Option<bool>) -> Seq<
    Cohort,
> {
    if exists|parent: usize| parents_under(edges, label).contains(parent) {
        seq![Cohort { members: parents_under(edges, label), inputs: inputs.push(label) }]
    } else {
        Seq::empty()
    }
}

/// The cohorts of the layer before that lead into `cohort`: first the one
/// that needs no input, then the one that needs the input pressed, then the
/// one that needs it released.
pub open spec fn retreat_of(layer: Seq<Node>, cohort: Cohort) -> Seq<Cohort> {
    let edges = inbound(layer, cohort.members);
    branch(edges, cohort.inputs, None) + branch(edges, cohort.inputs, Some(true)) + branch(
        edges,
        cohort.inputs,
        Some(false),
    )
}

/// The retreats of all cohorts of a list, in the list's order.
pub open spec fn retreat_all_of(layer: Seq<Node>, list: Seq<Cohort>) -> Seq<Cohort>
    decreases list.len(),
{
    if list.len() == 0 {
        Seq::empty()
    } else {
        retreat_all_of(layer, list.drop_last()) + retreat_of(layer, list.last())
    }
}

/// Every edge of the layer names a parent below `bound`.
pub open spec fn parents_below(layer: Seq<Node>, bound: int) -> bool {
    forall|k: int, e: int|
        0 <= k < layer.len() && 0 <= e < layer[k].edges().len() ==> (
        #[trigger] layer[k].edges()[e]).0 < bound
}

/// A retreat stays below the bound that the layer's edges keep.
pub proof fn lemma_retreat_below(layer: Seq<Node>, cohort: Cohort, bound: int)
    requires
        parents_below(layer, bound),
    ensures
        all_below(retreat_of(layer, cohort), bound),
{
    let edges = inbound(layer, cohort.members);
    assert forall|edge: Edge| edges.contains(edge) implies edge.0 < bound by {
        let k = choose|k: int|
            0 <= k < layer.len() && cohort.members.contains(k as usize) && (
            #[trigger] layer[k]).edges().contains(edge);
        let e = choose|e: int| 0 <= e < layer[k].edges().len() && layer[k].edges()[e] == edge;
        assert(layer[k].edges()[e].0 < bound);
    }
    let out = retreat_of(layer, cohort);
    assert forall|i: int| 0 <= i < out.len() implies (#[trigger] out[i]).below(bound) by {
        assert forall|p: usize| #[trigger] out[i].members.contains(p) implies p < bound by {
            assert(verdict(edges, p) is Some);
            assert(edges.contains((p, None)) || edges.contains((p, Some(true))) || edges.contains(
                (p, Some(false)),
            ));
        }
    }
}

/// The retreats of a list stay below the bound that the layer's edges keep.
pub proof fn lemma_retreat_all_below(layer: Seq<Node>, list: Seq<Cohort>, bound: int)
    requires
        parents_below(layer, bound),
    ensures
        all_below(retreat_all_of(layer, list), bound),
    decreases list.len(),
{
    if list.len() > 0 {
        lemma_retreat_all_below(layer, list.drop_last(), bound);
        lemma_retreat_below(layer, list.last(), bound);
    }
}

/// The edges into the first `m` of the listed states.
spec fn swept(layer: Seq<Node>, states: Seq<usize>, m: int) -> Set<Edge> {
    Set::new(
        |edge: Edge| exists|i: int| 0 <= i < m && #[trigger] layer[states[i] as int].edges().contains(edge),
    )
}

/// `class` holds the verdict of every parent that `seen` knows, and `order`
/// lists those parents, each once.
spec fn classified(class: Map<usize, Option<bool>>, order: Seq<usize>, seen: Set<Edge>) -> bool {
    &&& forall|p: usize|
        #![trigger class.contains_key(p)]
        #![trigger verdict(seen, p)]
        class.contains_key(p) <==> verdict(seen, p) is Some
    &&& forall|p: usize| #[trigger] class.contains_key(p) ==> verdict(seen, p) == Some(class[p])
    &&& order.no_duplicates()
    &&& forall|p: usize| #[trigger] order.contains(p) <==> class.contains_key(p)
}

proof fn lemma_push_contains(list: Seq<usize>, item: usize)
    ensures
        forall|p: usize| #[trigger] list.push(item).contains(p) <==> list.contains(p) || p == item,
        list.no_duplicates() && !list.contains(item) ==> list.push(item).no_duplicates(),
{
    let longer = list.push(item);
    assert forall|p: usize| #[trigger] longer.contains(p) <==> list.contains(p) || p == item by {
        if list.contains(p) {
            let i = choose|i: int| 0 <= i < list.len() && list[i] == p;
            assert(longer[i] == p);
        }
        if p == item {
            assert(longer[list.len() as int] == p);
        }
        if longer.contains(p) {
            let i = choose|i: int| 0 <= i < longer.len() && longer[i] == p;
            if i < list.len() {
                assert(list[i] == p);
            }
        }
    }
    if list.no_duplicates() && !list.contains(item) {
        assert forall|x: int, y: int|
            0 <= x < longer.len() && 0 <= y < longer.len() && x != y implies longer[x]
            != longer[y] by {
            if x < list.len() {
                assert(list.contains(list[x]));
            }
            if y < list.len() {
                assert(list.contains(list[y]));
            }
        }
    }
}

/// Takes one more edge into account.
fn visit(
    class: &mut HashMap<usize, Option<bool>>,
    order: &mut Vec<usize>,
    edge: Edge,
    Ghost(seen): Ghost<Set<Edge>>,
)
    requires
        classified(old(class)@, old(order)@, seen),
    ensures
        classified(final(class)@, final(order)@, seen.insert(edge)),
{
    let parent = edge.0;
    let label = edge.1;
    let ghost grown = seen.insert(edge);
    let known: Option<Option<bool>> = match class.get(&parent) {
        Some(current) => Some(*current),
        None => None,
    };
    proof {
        lemma_push_contains(order@, parent);
        assert(edge == (parent, label));
        assert forall|p: usize| p != parent implies verdict(grown, p) == verdict(seen, p) by {}
        assert(grown.contains((parent, label)));
        assert forall|other: Option<bool>| other != label implies (grown.contains((parent, other))
            <==> seen.contains((parent, other))) by {}
    }
    match known {
        None => {
            proof {
                assert(!class@.contains_key(parent));
                assert(verdict(seen, parent) is None);
                assert(verdict(grown, parent) == Some(label)) by {
                    match label {
                        None => {},
                        Some(input) => {
                            assert(!seen.contains((parent, Some(!input))));
                            assert(!seen.contains((parent, None)));
                        },
                    }
                }
            }
            class.insert(parent, label);
            order.push(parent);
        },
        Some(current) => {
            proof {
                assert(class@.contains_key(parent));
                assert(verdict(seen, parent) == Some(current));
            }
            let settled = match current {
                None => true,
                Some(held) => label == Some(held),
            };
            if !settled {
                proof {
                    let held = current->Some_0;
                    assert(seen.contains((parent, Some(held))));
                    assert(grown.contains((parent, Some(held))));
                    match label {
                        None => {},
                        Some(input) => {
                            assert(input == !held);
                            assert(grown.contains((parent, Some(true))));
                            assert(grown.contains((parent, Some(false))));
                        },
                    }
                    assert(verdict(grown, parent) == Some(None::<bool>));
                }
                class.insert(parent, None);
            } else {
                proof {
                    assert(verdict(grown, parent) == Some(current));
                }
            }
        },
    }
}

/// Sorts the classified parents by their verdict.
fn distribute(
    class: &HashMap<usize, Option<bool>>,
    order: &Vec<usize>,
    Ghost(seen): Ghost<Set<Edge>>,
) -> (lists: (Members, Members, Members))
    requires
        classified(class@, order@, seen),
    ensures
        lists.0@.to_set() == parents_under(seen, None),
        lists.1@.to_set() == parents_under(seen, Some(true)),
        lists.2@.to_set() == parents_under(seen, Some(false)),
{
    let mut free = members_new();
    let mut pressed = members_new();
    let mut released = members_new();
    let mut t: usize = 0;
    while t < order.len()
        invariant
            t <= order.len(),
            classified(class@, order@, seen),
            forall|p: usize|
                #[trigger] free@.contains(p) <==> order@.take(t as int).contains(p) && class@[p]
                    == None::<bool>,
            forall|p: usize|
                #[trigger] pressed@.contains(p) <==> order@.take(t as int).contains(p) && class@[p]
                    == Some(true),
            forall|p: usize|
                #[trigger] released@.contains(p) <==> order@.take(t as int).contains(p)
                    && class@[p] == Some(false),
        decreases order.len() - t,
    {
        let parent = order[t];
        proof {
            assert(order@.contains(order@[t as int]));
            assert(order@.take(t + 1) =~= order@.take(t as int).push(parent));
            lemma_push_contains(order@.take(t as int), parent);
            lemma_push_contains(free@, parent);
            lemma_push_contains(pressed@, parent);
            lemma_push_contains(released@, parent);
        }
        let known: Option<Option<bool>> = match class.get(&parent) {
            Some(current) => Some(*current),
            None => None,
        };
        match known {
            Some(None) => {
                members_push(&mut free, parent);
            },
            Some(Some(true)) => {
                members_push(&mut pressed, parent);
            },
            Some(Some(false)) => {
                members_push(&mut released, parent);
            },
            None => {},
        }
        t += 1;
    }
    proof {
        assert(order@.take(order@.len() as int) =~= order@);
        assert(free@.to_set() =~= parents_under(seen, None));
        assert(pressed@.to_set() =~= parents_under(seen, Some(true)));
        assert(released@.to_set() =~= parents_under(seen, Some(false)));
    }
    (free, pressed, released)
}

/// Appends the cohort of `members` to `out`, if it has any.
fn branch_into(
    out: &mut Vec<Path>,
    members: Members,
    inputs: &Vec<Option<bool>>,
    label: Option<bool>,
    Ghost(edges): Ghost<Set<Edge>>,
)
    requires
        members@.to_set() == parents_under(edges, label),
    ensures
        cohorts(final(out)@) == cohorts(old(out)@) + branch(edges, inputs@, label),
{
    if members_len(&members) > 0 {
        let mut longer = copy_inputs(inputs);
        longer.push(label);
        let path = Path { states: members, inputs: longer };
        proof {
            assert(members@.to_set().contains(members@[0]));
            assert(path@ == Cohort {
                members: parents_under(edges, label),
                inputs: inputs@.push(label),
            });
        }
        out.push(path);
        proof {
            assert(cohorts(out@) =~= cohorts(old(out)@) + branch(edges, inputs@, label));
        }
    } else {
        proof {
            assert forall|p: usize| !parents_under(edges, label).contains(p) by {
                if members@.to_set().contains(p) {
                    assert(members@.contains(p));
                }
            }
            assert(cohorts(out@) =~= cohorts(old(out)@) + branch(edges, inputs@, label));
        }
    }
}

/// Traces one cohort back to the layer before its own.
pub fn retreat(layer: &Vec<Node>, path: &Path) -> (out: Vec<Path>)
    requires
        path@.below(layer.len() as int),
    ensures
        cohorts(out@) == retreat_of(layer@, path@),
{
    let mut class: HashMap<usize, Option<bool>> = HashMap::new();
    let mut order: Vec<usize> = Vec::new();
    let ghost mut seen: Set<Edge> = Set::empty();
    let count = members_len(&path.states);
    let mut m: usize = 0;
    proof {
        assert(seen =~= swept(layer@, path.states@, 0));
    }
    while m < count
        invariant
            m <= count,
            count == path.states@.len(),
            path@.below(layer.len() as int),
            seen == swept(layer@, path.states@, m as int),
            classified(class@, order@, seen),
        decreases count - m,
    {
        let at = members_get(&path.states, m);
        proof {
            assert(path.states@.contains(path.states@[m as int]));
            assert(path@.members.contains(at));
        }
        let node = &layer[at];
        let width = edges_len(&node.parents);
        let ghost start = seen;
        let mut e: usize = 0;
        while e < width
            invariant
                e <= width,
                width == node.edges().len(),
                forall|edge: Edge|
                    seen.contains(edge) <==> start.contains(edge) || node.edges().take(
                        e as int,
                    ).contains(edge),
                classified(class@, order@, seen),
            decreases width - e,
        {
            let edge = edges_get(&node.parents, e);
            visit(&mut class, &mut order, edge, Ghost(seen));
            proof {
                let done = node.edges().take(e as int);
                let more = node.edges().take(e + 1);
                assert(more =~= done.push(edge));
                assert forall|other: Edge| more.contains(other) <==> done.contains(other) || other
                    == edge by {
                    if done.contains(other) {
                        let i = choose|i: int| 0 <= i < done.len() && done[i] == other;
                        assert(more[i] == other);
                    }
                    if other == edge {
                        assert(more[e as int] == other);
                    }
                    if more.contains(other) {
                        let i = choose|i: int| 0 <= i < more.len() && more[i] == other;
                        if i < e {
                            assert(done[i] == other);
                        }
                    }
                }
                seen = seen.insert(edge);
            }
            e += 1;
        }
        proof {
            assert(node.edges().take(width as int) =~= node.edges());
            assert forall|edge: Edge| seen.contains(edge) <==> swept(
                layer@,
                path.states@,
                m + 1,
            ).contains(edge) by {
                if start.contains(edge) {
                    let i = choose|i: int|
                        0 <= i < m && #[trigger] layer@[path.states@[i] as int].edges().contains(
                            edge,
                        );
                    assert(0 <= i < m + 1);
                }
                if node.edges().contains(edge) {
                    assert(layer@[path.states@[m as int] as int].edges().contains(edge));
                }
                if swept(layer@, path.states@, m + 1).contains(edge) {
                    let i = choose|i: int|
                        0 <= i < m + 1 && #[trigger] layer@[path.states@[i] as int].edges().contains(
                            edge,
                        );
                    if i < m {
                        assert(start.contains(edge));
                    }
                }
            }
            assert(seen =~= swept(layer@, path.states@, m + 1));
        }
        m += 1;
    }
    proof {
        let edges = inbound(layer@, path@.members);
        assert forall|edge: Edge| seen.contains(edge) <==> edges.contains(edge) by {
            if seen.contains(edge) {
                let i = choose|i: int|
                    0 <= i < count && #[trigger] layer@[path.states@[i] as int].edges().contains(edge);
                assert(path.states@.contains(path.states@[i]));
                let k = path.states@[i] as int;
                assert(path@.members.contains(k as usize));
                assert(layer@[k].edges().contains(edge));
            }
            if edges.contains(edge) {
                let k = choose|k: int|
                    0 <= k < layer@.len() && path@.members.contains(k as usize) && (
                    #[trigger] layer@[k]).edges().contains(edge);
                assert(path.states@.contains(k as usize));
                let i = choose|i: int| 0 <= i < path.states@.len() && path.states@[i] == k as usize;
                assert(layer@[path.states@[i] as int].edges().contains(edge));
            }
        }
        assert(seen =~= edges);
    }
    let (free, pressed, released) = distribute(&class, &order, Ghost(seen));
    let mut out: Vec<Path> = Vec::new();
    proof {
        assert(cohorts(out@) =~= Seq::<Cohort>::empty());
    }
    branch_into(&mut out, free, &path.inputs, None, Ghost(seen));
    branch_into(&mut out, pressed, &path.inputs, Some(true), Ghost(seen));
    branch_into(&mut out, released, &path.inputs, Some(false), Ghost(seen));
    proof {
        assert(cohorts(out@) =~= retreat_of(layer@, path@));
    }
    out
}

/// Traces every cohort of a list back to the layer before.
pub fn retreat_all(layer: &Vec<Node>, paths: &Vec<Path>) -> (out: Vec<Path>)
    requires
        all_below(cohorts(paths@), layer.len() as int),
    ensures
        cohorts(out@) == retreat_all_of(layer@, cohorts(paths@)),
{
    let mut out: Vec<Path> = Vec::new();
    let mut i: usize = 0;
    proof {
        assert(cohorts(out@) =~= Seq::<Cohort>::empty());
        assert(cohorts(paths@).take(0) =~= Seq::<Cohort>::empty());
    }
    while i < paths.len()
        invariant
            i <= paths.len(),
            all_below(cohorts(paths@), layer.len() as int),
            cohorts(out@) == retreat_all_of(layer@, cohorts(paths@).take(i as int)),
        decreases paths.len() - i,
    {
        proof {
            assert(cohorts(paths@)[i as int].below(layer.len() as int));
        }
        let mut piece = retreat(layer, &paths[i]);
        let ghost before = out@;
        let ghost added = piece@;
        out.append(&mut piece);
        proof {
            let list = cohorts(paths@);
            assert(list.take(i + 1).drop_last() =~= list.take(i as int));
            assert(list.take(i + 1).last() == paths@[i as int]@);
            assert(cohorts(before + added) =~= cohorts(before) + cohorts(added));
        }
        i += 1;
    }
    proof {
        assert(cohorts(paths@).take(paths.len() as int) =~= cohorts(paths@));
    }
    out
}

} // verus!
