//! Cohorts: sets of states that can be treated alike, with the inputs that
//! keep them so.
use crate::lists::{members_clone, members_get, members_len, members_new, members_push, Members};
use crate::score::{difficulty_of, score};
use vstd::prelude::*;

verus! {

/// What a [`Path`] stands for: a set of states of one layer, and the inputs
/// that lead from any of them to an accepted end state.
pub struct Cohort {
    /// The states, as positions in their layer.
    pub members: Set<usize>,
    /// The inputs, last frame first. `None` marks a frame on which either
    /// input will do.
    pub inputs: Seq<Option<bool>>,
}

/// A cohort in the making: states of one layer, and the inputs that lead
/// from them to an accepted end state.
pub struct Path {
    /// The states, as positions in their layer.
    pub states: Members,
    /// The inputs found so far, last frame first.
    pub inputs: Vec<Option<bool>>,
}

impl View for Path {
    type V = Cohort;

    open spec fn view(&self) -> Cohort {
        Cohort { members: self.states@.to_set(), inputs: self.inputs@ }
    }
}

/// The cohorts that a list of paths stands for.
pub open spec fn cohorts(paths: Seq<Path>) -> Seq<Cohort> {
    Seq::new(paths.len(), |i: int| paths[i]@)
}

/// Copies a list of inputs.
pub fn copy_inputs(inputs: &Vec<Option<bool>>) -> (copy: Vec<Option<bool>>)
    ensures
        copy@ == inputs@,
{
    let mut copy: Vec<Option<bool>> = Vec::with_capacity(inputs.len());
    let mut i: usize = 0;
    while i < inputs.len()
        invariant
            i <= inputs.len(),
            copy@ == inputs@.take(i as int),
        decreases inputs.len() - i,
    {
        copy.push(inputs[i]);
        proof {
            assert(inputs@.take(i as int).push(inputs@[i as int]) =~= inputs@.take(i + 1));
        }
        i += 1;
    }
    proof {
        assert(inputs@.take(inputs.len() as int) =~= inputs@);
    }
    copy
}

impl Cohort {
    /// The cohort has a member.
    pub open spec fn inhabited(self) -> bool {
        exists|p: usize| self.members.contains(p)
    }

    /// Every member is a position below `bound`.
    pub open spec fn below(self, bound: int) -> bool {
        forall|p: usize| #[trigger] self.members.contains(p) ==> p < bound
    }
}

/// Every cohort of the list has its members below `bound`.
pub open spec fn all_below(list: Seq<Cohort>, bound: int) -> bool {
    forall|i: int| 0 <= i < list.len() ==> (#[trigger] list[i]).below(bound)
}

impl Path {
    /// A path over the given states with the given inputs, last frame
    /// first.
    pub fn new(states: &[usize], inputs: &[Option<bool>]) -> (path: Path)
        ensures
            path.states@ == states@,
            path.inputs@ == inputs@,
    {
        let mut members = members_new();
        let mut i: usize = 0;
        while i < states.len()
            invariant
                i <= states.len(),
                members@ == states@.take(i as int),
            decreases states.len() - i,
        {
            members_push(&mut members, states[i]);
            proof {
                assert(states@.take(i as int).push(states@[i as int]) =~= states@.take(i + 1));
            }
            i += 1;
        }
        let mut kept: Vec<Option<bool>> = Vec::with_capacity(inputs.len());
        let mut j: usize = 0;
        while j < inputs.len()
            invariant
                j <= inputs.len(),
                members@ == states@.take(states.len() as int),
                kept@ == inputs@.take(j as int),
            decreases inputs.len() - j,
        {
            kept.push(inputs[j]);
            proof {
                assert(inputs@.take(j as int).push(inputs@[j as int]) =~= inputs@.take(j + 1));
            }
            j += 1;
        }
        proof {
            assert(states@.take(states.len() as int) =~= states@);
            assert(inputs@.take(inputs.len() as int) =~= inputs@);
        }
        Path { states: members, inputs: kept }
    }

    /// The difficulty of the inputs, read in the order in which they are
    /// kept.
    pub fn difficulty(&self) -> (cost: u128)
        ensures
            cost == difficulty_of(self.inputs@),
    {
        score(self.inputs.as_slice())
    }

    /// The states, as positions in their layer.
    pub fn members(&self) -> (list: Vec<usize>)
        ensures
            list@ == self.states@,
    {
        let count = members_len(&self.states);
        let mut list: Vec<usize> = Vec::with_capacity(count);
        let mut i: usize = 0;
        while i < count
            invariant
                i <= count,
                count == self.states@.len(),
                list@ == self.states@.take(i as int),
            decreases count - i,
        {
            list.push(members_get(&self.states, i));
            proof {
                assert(self.states@.take(i as int).push(self.states@[i as int])
                    =~= self.states@.take(i + 1));
            }
            i += 1;
        }
        proof {
            assert(self.states@.take(count as int) =~= self.states@);
        }
        list
    }

    /// The inputs in the order of play, first frame first.
    pub fn timeline(&self) -> (inputs: Vec<Option<bool>>)
        ensures
            inputs@ == self.inputs@.reverse(),
    {
        let count = self.inputs.len();
        let mut inputs: Vec<Option<bool>> = Vec::with_capacity(count);
        let mut i: usize = 0;
        while i < count
            invariant
                i <= count,
                count == self.inputs@.len(),
                inputs@.len() == i,
                forall|t: int| 0 <= t < i ==> inputs@[t] == self.inputs@[count - 1 - t],
            decreases count - i,
        {
            inputs.push(self.inputs[count - 1 - i]);
            i += 1;
        }
        proof {
            assert(inputs@ =~= self.inputs@.reverse());
        }
        inputs
    }

    /// A copy with the same states and inputs.
    pub fn duplicate(&self) -> (copy: Path)
        ensures
            copy.states@ == self.states@,
            copy.inputs@ == self.inputs@,
            copy@ == self@,
    {
        Path { states: members_clone(&self.states), inputs: copy_inputs(&self.inputs) }
    }
}

} // verus!
