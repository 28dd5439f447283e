//! The read-only boundary to the `indextree` arena.
//!
//! The arena is used as it is. Its payloads are `usize` keys: the projection hands each key
//! on untouched, and whoever writes the nodes out finds the real payload by it. Nothing here
//! is proved; every other module rests on the contracts stated in this one.

use indextree::{Arena, NodeId};
use vstd::prelude::*;

verus! {

/// `indextree::NodeId`, an opaque handle to a node of an arena.
#[verifier::external_type_specification]
#[verifier::external_body]
pub struct ExNodeId(NodeId);

/// `indextree::Arena`, the storage of all nodes. It is only ever read.
#[verifier::external_type_specification]
#[verifier::external_body]
#[verifier::reject_recursive_types(T)]
pub struct ExArena<T>(Arena<T>);

/// What the projection reads of one node of the arena: its payload, and the links to its
/// first child and to its next sibling.
pub struct Slot {
    pub data: usize,
    pub first_child: Option<NodeId>,
    pub next_sibling: Option<NodeId>,
}

/// The nodes that an arena holds, by identifier. The domain holds the identifiers that index
/// a node of this arena; for each, the slot says what `arena[id]` stores. Nothing is claimed
/// of where the links lead: an arena may hold a link to a node that it lacks, or a cycle.
pub uninterp spec fn arena_slots(arena: Arena<usize>) -> Map<NodeId, Slot>;

/// `Arena::get`, asked only whether it finds a node. It finds one exactly for the identifiers
/// in the domain of `arena_slots`, which are those that `arena[id]` accepts.
#[verifier::external_body]
pub(crate) fn has_node(arena: &Arena<usize>, id: NodeId) -> (held: bool)
    ensures
        held == arena_slots(*arena).dom().contains(id),
{
    arena.get(id).is_some()
}

/// The `data` field of `arena[id]`. Indexing panics for an identifier outside the arena,
/// which `requires` leaves out; for the others the payload stored with the node comes back.
#[verifier::external_body]
pub(crate) fn payload_of<'a>(arena: &'a Arena<usize>, id: NodeId) -> (data: &'a usize)
    requires
        arena_slots(*arena).dom().contains(id),
    ensures
        *data == arena_slots(*arena)[id].data,
{
    &arena[id].data
}

/// `Node::first_child` of `arena[id]`: the link to the first child as the node stores it,
/// absent where the node has no child.
#[verifier::external_body]
pub(crate) fn first_child_of(arena: &Arena<usize>, id: NodeId) -> (child: Option<NodeId>)
    requires
        arena_slots(*arena).dom().contains(id),
    ensures
        child == arena_slots(*arena)[id].first_child,
{
    arena[id].first_child()
}

/// `Node::next_sibling` of `arena[id]`: the link to the next sibling as the node stores it,
/// absent where the node is the last of its siblings.
#[verifier::external_body]
pub(crate) fn next_sibling_of(arena: &Arena<usize>, id: NodeId) -> (sibling: Option<NodeId>)
    requires
        arena_slots(*arena).dom().contains(id),
    ensures
        sibling == arena_slots(*arena)[id].next_sibling,
{
    arena[id].next_sibling()
}

} // verus!
