//! A table of distinct states, each with the edges that lead into it.
//!
//! States are told apart by value. The table keeps its nodes in the order in
//! which their states first arrived, so that a node's position can serve as
//! its name, and finds a state again through a map keyed by the state's
//! fields packed into one integer.
use crate::lists::{edges_get, edges_len, edges_new, edges_push, Edge, Parents};
use crate::neck::MotherBrain;
use std::collections::HashMap;
use vstd::prelude::*;

verus! {

broadcast use vstd::std_specs::hash::group_hash_axioms;

/// A state of the mechanism together with the edges that lead into it.
pub struct Node {
    /// The state.
    pub state: MotherBrain,
    /// The edges from the layer before.
    pub parents: Parents,
}

impl Node {
    /// The inbound edges, in the order in which they were found.
    pub open spec fn edges(self) -> Seq<Edge> {
        self.parents@
    }

    /// A node for `state` with the given inbound edges.
    pub fn new(state: MotherBrain, edges: &[Edge]) -> (node: Node)
        ensures
            node.state == state,
            node.edges() == edges@,
    {
        let mut parents = edges_new();
        let mut i: usize = 0;
        while i < edges.len()
            invariant
                i <= edges.len(),
                parents@ == edges@.take(i as int),
            decreases edges.len() - i,
        {
            edges_push(&mut parents, edges[i]);
            proof {
                assert(edges@.take(i as int).push(edges@[i as int]) =~= edges@.take(i + 1));
            }
            i += 1;
        }
        proof {
            assert(edges@.take(edges.len() as int) =~= edges@);
        }
        Node { state, parents }
    }

    /// Lists the inbound edges.
    pub fn edge_list(&self) -> (list: Vec<Edge>)
        ensures
            list@ == self.edges(),
    {
        let count = edges_len(&self.parents);
        let mut list: Vec<Edge> = Vec::with_capacity(count);
        let mut i: usize = 0;
        while i < count
            invariant
                i <= count,
                count == self.edges().len(),
                list@ == self.edges().take(i as int),
            decreases count - i,
        {
            list.push(edges_get(&self.parents, i));
            proof {
                assert(self.edges().take(i as int).push(self.edges()[i as int])
                    =~= self.edges().take(i + 1));
            }
            i += 1;
        }
        proof {
            assert(self.edges().take(count as int) =~= self.edges());
        }
        list
    }
}

/// The four fields of a state packed into one integer.
pub open spec fn key_of(state: MotherBrain) -> u64 {
    (state.lower_angle * 0x4_0000 + state.upper_angle * 4 + if state.lower_moving_up {
        2int
    } else {
        0int
    } + if state.upper_moving_up {
        1int
    } else {
        0int
    }) as u64
}

/// States with the same key are the same state.
pub proof fn lemma_key_injective(a: MotherBrain, b: MotherBrain)
    requires
        key_of(a) == key_of(b),
    ensures
        a == b,
{
}

fn state_key(state: &MotherBrain) -> (key: u64)
    ensures
        key == key_of(*state),
{
    let flags: u64 = if state.lower_moving_up {
        2
    } else {
        0
    } + if state.upper_moving_up {
        1
    } else {
        0
    };
    state.lower_angle as u64 * 0x4_0000 + state.upper_angle as u64 * 4 + flags
}

/// No state occurs at two positions.
pub open spec fn distinct_states(nodes: Seq<Node>) -> bool {
    forall|a: int, b: int|
        0 <= a < b < nodes.len() ==> (#[trigger] nodes[a]).state != (#[trigger] nodes[b]).state
}

/// `after` is `before` with `edge` recorded as leading into `state`: the
/// node that holds `state` gains the edge, or, where no node holds it, a new
/// node with that one edge is appended. Every other node stays as it was.
pub open spec fn merged(before: Seq<Node>, after: Seq<Node>, state: MotherBrain, edge: Edge) -> bool {
    ||| exists|k: int|
        {
            &&& 0 <= k < before.len()
            &&& (#[trigger] before[k]).state == state
            &&& after.len() == before.len()
            &&& after[k].state == state
            &&& after[k].edges() == before[k].edges().push(edge)
            &&& forall|j: int| 0 <= j < before.len() && j != k ==> #[trigger] after[j] == before[j]
        }
    ||| {
        &&& forall|k: int| 0 <= k < before.len() ==> (#[trigger] before[k]).state != state
        &&& after.len() == before.len() + 1
        &&& forall|j: int| 0 <= j < before.len() ==> #[trigger] after[j] == before[j]
        &&& after[before.len() as int].state == state
        &&& after[before.len() as int].edges() == seq![edge]
    }
}

/// Distinct states in arrival order, with an index from state to position.
pub struct StateTable {
    nodes: Vec<Node>,
    index: HashMap<u64, usize>,
}

impl StateTable {
    /// The nodes of the table, in arrival order.
    pub closed spec fn nodes(&self) -> Seq<Node> {
        self.nodes@
    }

    /// The index holds exactly the keys of the nodes, each with its
    /// node's position.
    pub closed spec fn wf(&self) -> bool {
        &&& forall|k: int|
            0 <= k < self.nodes@.len() ==> {
                let key = key_of((#[trigger] self.nodes@[k]).state);
                self.index@.contains_key(key) && self.index@[key] == k
            }
        &&& forall|key: u64| #[trigger]
            self.index@.contains_key(key) ==> {
                let k = self.index@[key];
                k < self.nodes@.len() && key_of(self.nodes@[k as int].state) == key
            }
    }

    /// A well-formed table holds no state twice.
    pub proof fn lemma_distinct(&self)
        requires
            self.wf(),
        ensures
            distinct_states(self.nodes()),
    {
    }

    /// An empty table.
    pub fn new() -> (table: StateTable)
        ensures
            table.wf(),
            table.nodes() == Seq::<Node>::empty(),
    {
        StateTable { nodes: Vec::new(), index: HashMap::new() }
    }

    /// Records that `edge` leads into `state`.
    pub fn merge(&mut self, state: MotherBrain, edge: Edge)
        requires
            old(self).wf(),
        ensures
            final(self).wf(),
            merged(old(self).nodes(), final(self).nodes(), state, edge),
    {
        let key = state_key(&state);
        let found: Option<usize> = match self.index.get(&key) {
            Some(at) => Some(*at),
            None => None,
        };
        match found {
            Some(at) => {
                proof {
                    lemma_key_injective(self.nodes@[at as int].state, state);
                }
                let node = &mut self.nodes[at];
                edges_push(&mut node.parents, edge);
                assert(self.nodes@[at as int].state == state);
            },
            None => {
                assert forall|k: int| 0 <= k < self.nodes@.len() implies (
                #[trigger] self.nodes@[k]).state != state by {
                    if self.nodes@[k].state == state {
                        assert(self.index@.contains_key(key_of(self.nodes@[k].state)));
                    }
                }
                let mut parents = edges_new();
                edges_push(&mut parents, edge);
                let at = self.nodes.len();
                self.index.insert(key, at);
                self.nodes.push(Node { state, parents });
                assert(self.nodes@[at as int].edges() =~= seq![edge]);
            },
        }
    }

    /// Gives up the nodes.
    pub fn into_nodes(self) -> (nodes: Vec<Node>)
        requires
            self.wf(),
        ensures
            nodes@ == self.nodes(),
            distinct_states(nodes@),
    {
        proof {
            self.lemma_distinct();
        }
        self.nodes
    }
}

} // verus!
