//! The two small inline lists that the graph and the search keep: the
//! inbound edges of a node, and the members of a cohort.
//!
//! Both are `SmallVec`s. The verifier cannot take that type's own
//! declaration, whose parameter is bound by a trait of its crate, so each
//! list is kept in a struct into which the verifier does not look. Their
//! contents are named here as sequences, and what each method does to them
//! is stated on trust.
use smallvec::SmallVec;
use vstd::prelude::*;

verus! {

/// An inbound edge: the index of the parent in the layer before, and the
/// input that leads from it. `None` stands for either input.
pub type Edge = (usize, Option<bool>);

/// The inbound edges of a node: a `SmallVec` with room for four edges
/// before it takes to the heap. What it holds is known only through
/// [`edge_items`].
#[verifier::external_body]
pub struct Parents {
    list: SmallVec<[(usize, Option<bool>); 4]>,
}

/// The members of a cohort, as positions in a layer: a `SmallVec` with room
/// for eight positions before it takes to the heap. What it holds is known
/// only through [`member_items`].
#[verifier::external_body]
pub struct Members {
    list: SmallVec<[usize; 8]>,
}

/// The edges that a list holds, in the order in which they were pushed.
pub uninterp spec fn edge_items(list: Parents) -> Seq<(usize, Option<bool>)>;

/// The indices that a list holds, in the order in which they were pushed.
pub uninterp spec fn member_items(list: Members) -> Seq<usize>;

impl View for Parents {
    type V = Seq<(usize, Option<bool>)>;

    open spec fn view(&self) -> Seq<(usize, Option<bool>)> {
        edge_items(*self)
    }
}

impl View for Members {
    type V = Seq<usize>;

    open spec fn view(&self) -> Seq<usize> {
        member_items(*self)
    }
}

/// `SmallVec::new`: the new list holds nothing.
#[verifier::external_body]
pub(crate) fn edges_new() -> (list: Parents)
    ensures
        edge_items(list) == Seq::<(usize, Option<bool>)>::empty(),
{
    Parents { list: SmallVec::new() }
}

/// `SmallVec::push`: the item is appended, and the items before it stay.
#[verifier::external_body]
pub(crate) fn edges_push(list: &mut Parents, edge: (usize, Option<bool>))
    ensures
        edge_items(*final(list)) == edge_items(*old(list)).push(edge),
{
    list.list.push(edge)
}

/// `SmallVec::len`: the number of items held.
#[verifier::external_body]
pub(crate) fn edges_len(list: &Parents) -> (len: usize)
    ensures
        len == edge_items(*list).len(),
{
    list.list.len()
}

/// Indexing a `SmallVec` within its length: the item at that position.
#[verifier::external_body]
pub(crate) fn edges_get(list: &Parents, at: usize) -> (edge: (usize, Option<bool>))
    requires
        at < edge_items(*list).len(),
    ensures
        edge == edge_items(*list)[at as int],
{
    list.list[at]
}

/// `SmallVec::new`: the new list holds nothing.
#[verifier::external_body]
pub(crate) fn members_new() -> (list: Members)
    ensures
        member_items(list) == Seq::<usize>::empty(),
{
    Members { list: SmallVec::new() }
}

/// `SmallVec::push`: the item is appended, and the items before it stay.
#[verifier::external_body]
pub(crate) fn members_push(list: &mut Members, member: usize)
    ensures
        member_items(*final(list)) == member_items(*old(list)).push(member),
{
    list.list.push(member)
}

/// `SmallVec::len`: the number of items held.
#[verifier::external_body]
pub(crate) fn members_len(list: &Members) -> (len: usize)
    ensures
        len == member_items(*list).len(),
{
    list.list.len()
}

/// `SmallVec::clone`: the copy holds the same items in the same order.
#[verifier::external_body]
pub(crate) fn members_clone(list: &Members) -> (copy: Members)
    ensures
        member_items(copy) == member_items(*list),
{
    Members { list: list.list.clone() }
}

/// Indexing a `SmallVec` within its length: the item at that position.
#[verifier::external_body]
pub(crate) fn members_get(list: &Members, at: usize) -> (member: usize)
    requires
        at < member_items(*list).len(),
    ensures
        member == member_items(*list)[at as int],
{
    list.list[at]
}

} // verus!
