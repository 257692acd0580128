//! The packed edge list of a node: a header naming the owning node, followed by the
//! ids of its neighbors, held in one `HeaderVec` allocation.

use header_vec::HeaderVec;
use vstd::prelude::*;

verus! {

/// `header_vec::HeaderVec`: a vector with a header, as one allocation. What a value of
/// it holds is known through `edge_list_targets` and `edge_list_owner` only.
#[verifier::external_type_specification]
#[verifier::external_body]
#[verifier::reject_recursive_types(H)]
#[verifier::reject_recursive_types(T)]
pub struct ExHeaderVec<H, T>(HeaderVec<H, T>);

/// The neighbor ids held by an edge list, in the order in which they were appended.
pub uninterp spec fn edge_list_targets(list: HeaderVec<usize, usize>) -> Seq<usize>;

/// The node id kept in the header of an edge list.
pub uninterp spec fn edge_list_owner(list: HeaderVec<usize, usize>) -> usize;

/// An edge list without the edges to `target`.
pub open spec fn without(edges: Seq<usize>, target: usize) -> Seq<usize> {
    edges.filter(|edge: usize| edge != target)
}

/// What stays of an edge list of which only the edges that do not lead to `except`
/// are kept: nothing stays where `except` is nothing.
pub open spec fn retained(edges: Seq<usize>, except: Option<usize>) -> Seq<usize> {
    match except {
        Some(target) => without(edges, target),
        None => Seq::empty(),
    }
}

/// Whether an edge is kept: it is if it leads somewhere else than to `except`, and
/// none is where `except` is nothing.
pub(crate) fn stays(edge: &usize, except: Option<usize>) -> (keep: bool)
    ensures
        keep == match except {
            Some(target) => *edge != target,
            None => false,
        },
{
    match except {
        Some(target) => *edge != target,
        None => false,
    }
}

/// `HeaderVec::new`: a list with the given header and no elements.
#[verifier::external_body]
pub(crate) fn edge_list_new(owner: usize) -> (list: HeaderVec<usize, usize>)
    ensures
        edge_list_targets(list) == Seq::<usize>::empty(),
        edge_list_owner(list) == owner,
{
    HeaderVec::new(owner)
}

/// `HeaderVec::push`: the element is appended behind the others and the header stays.
/// Whether the allocation moved is not reported.
#[verifier::external_body]
pub(crate) fn edge_list_push(list: &mut HeaderVec<usize, usize>, target: usize)
    ensures
        edge_list_targets(*final(list)) == edge_list_targets(*old(list)).push(target),
        edge_list_owner(*final(list)) == edge_list_owner(*old(list)),
{
    list.push(target);
}

/// `HeaderVec::len`: the number of elements.
#[verifier::external_body]
pub(crate) fn edge_list_len(list: &HeaderVec<usize, usize>) -> (len: usize)
    ensures
        len == edge_list_targets(*list).len(),
{
    list.len()
}

/// `HeaderVec::as_slice`, indexed: the element at a position within the length.
#[verifier::external_body]
pub(crate) fn edge_list_get(list: &HeaderVec<usize, usize>, index: usize) -> (target: usize)
    requires
        index < edge_list_targets(*list).len(),
    ensures
        target == edge_list_targets(*list)[index as int],
{
    list.as_slice()[index]
}

/// `HeaderVec::deref`: the header.
#[verifier::external_body]
pub(crate) fn edge_list_header(list: &HeaderVec<usize, usize>) -> (owner: usize)
    ensures
        owner == edge_list_owner(*list),
{
    **list
}

/// `HeaderVec::retain` with `stays`: the elements that stay are kept in their order,
/// and the header stays.
#[verifier::external_body]
pub(crate) fn edge_list_retain(list: &mut HeaderVec<usize, usize>, except: Option<usize>)
    ensures
        edge_list_targets(*final(list)) == retained(edge_list_targets(*old(list)), except),
        edge_list_owner(*final(list)) == edge_list_owner(*old(list)),
{
    list.retain(|edge| stays(edge, except));
}

} // verus!
