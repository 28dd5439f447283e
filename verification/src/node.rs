//! The two views over the arena: one node with its children, and a run of siblings.

use crate::arena::{arena_slots, first_child_of, has_node, payload_of, Slot};
use crate::projection::{projects, projects_group, Projection};
use indextree::{Arena, NodeId};
use vstd::prelude::*;

verus! {

/// A run of siblings as a value: where it starts, and the nodes it is read from.
pub struct GroupView {
    pub first: NodeId,
    pub slots: Map<NodeId, Slot>,
}

/// A node as a value: its payload, and the run of its children where it has any.
pub struct NodeView {
    pub data: usize,
    pub children: Option<GroupView>,
}

/// The view of node `id`: the payload stored with it, and a group that starts at its first
/// child exactly when it has one.
pub open spec fn node_view(slots: Map<NodeId, Slot>, id: NodeId) -> NodeView {
    NodeView {
        data: slots[id].data,
        children: match slots[id].first_child {
            Some(first) => Some(GroupView { first, slots }),
            None => None,
        },
    }
}

/// A node and all its following siblings, in arena order.
#[derive(Clone, Copy)]
pub struct SiblingNodes<'a> {
    first: NodeId,
    arena: &'a Arena<usize>,
}

/// A node together with its descendants: the payload of the node, and its children as a
/// sibling group that is absent when there are none.
#[derive(Clone, Copy)]
pub struct Node<'a> {
    data: &'a usize,
    children: Option<SiblingNodes<'a>>,
}

impl<'a> View for SiblingNodes<'a> {
    type V = GroupView;

    closed spec fn view(&self) -> GroupView {
        GroupView { first: self.first, slots: arena_slots(*self.arena) }
    }
}

impl<'a> View for Node<'a> {
    type V = NodeView;

    closed spec fn view(&self) -> NodeView {
        NodeView {
            data: *self.data,
            children: match self.children {
                Some(group) => Some(group@),
                None => None,
            },
        }
    }
}

impl<'a> SiblingNodes<'a> {
    /// The group that starts at `id` and runs forward through its siblings.
    pub fn new(id: NodeId, arena: &'a Arena<usize>) -> (group: Self)
        ensures
            group@ == (GroupView { first: id, slots: arena_slots(*arena) }),
    {
        SiblingNodes { first: id, arena }
    }

    /// The node at which the group starts.
    pub fn first(&self) -> (id: NodeId)
        ensures
            id == self@.first,
    {
        self.first
    }

    /// The arena that the group reads.
    pub fn arena(&self) -> (arena: &'a Arena<usize>)
        ensures
            arena_slots(*arena) == self@.slots,
    {
        self.arena
    }
}

impl<'a> Node<'a> {
    /// The view of node `id` of `arena`.
    pub fn new(id: NodeId, arena: &'a Arena<usize>) -> (node: Self)
        requires
            arena_slots(*arena).dom().contains(id),
        ensures
            node@ == node_view(arena_slots(*arena), id),
    {
        let data = payload_of(arena, id);
        let children = match first_child_of(arena, id) {
            Some(first) => Some(SiblingNodes::new(first, arena)),
            None => None,
        };
        Node { data, children }
    }

    /// The view of node `id` where `arena` holds such a node, and nothing where it does not.
    pub fn get(id: NodeId, arena: &'a Arena<usize>) -> (found: Option<Self>)
        ensures
            found is Some <==> arena_slots(*arena).dom().contains(id),
            found matches Some(node) ==> node@ == node_view(arena_slots(*arena), id),
    {
        if has_node(arena, id) {
            Some(Node::new(id, arena))
        } else {
            None
        }
    }

    /// The payload of the node.
    pub fn data(&self) -> (data: &'a usize)
        ensures
            *data == self@.data,
    {
        self.data
    }

    /// The children of the node, absent when it has none.
    pub fn children(&self) -> (group: Option<SiblingNodes<'a>>)
        ensures
            match group {
                Some(g) => self@.children == Some(g@),
                None => self@.children is None,
            },
    {
        self.children
    }
}

/// The object that a node projects to is laid out as the view of the node says: it holds the
/// payload of the view, no `children` where the view has no group, and otherwise as
/// `children` what the group of the view projects to.
pub proof fn projection_follows_view(slots: Map<NodeId, Slot>, id: NodeId, object: Projection)
    requires
        slots.dom().contains(id),
        object.node == id,
    ensures
        projects(slots, id, object) <==> {
            &&& object.data == node_view(slots, id).data
            &&& match node_view(slots, id).children {
                Some(group) => object.children is Some && projects_group(
                    group.slots,
                    group.first,
                    object.children->0,
                ),
                None => object.children is None,
            }
        },
{
}

} // verus!
