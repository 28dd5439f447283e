//! The nested object that a node of the arena projects to, as a mathematical value, and what
//! holds of it.

use crate::arena::Slot;
use indextree::NodeId;
use vstd::prelude::*;

verus! {

/// One node object: the node's own payload and, where the node has children, the objects of
/// those children in sibling order. `node` says which node of the arena the object stands
/// for; it is no part of what is written out.
pub struct Projection {
    pub node: NodeId,
    pub data: usize,
    pub children: Option<Seq<Projection>>,
}

/// The nodes at the top of each object of `group`, in order.
pub open spec fn heads(group: Seq<Projection>) -> Seq<NodeId> {
    Seq::new(group.len(), |i: int| group[i].node)
}

/// Entry `i` of `ids` is a node of the arena whose next sibling is the entry after it, and
/// which has no next sibling where it is the last entry.
pub open spec fn linked(slots: Map<NodeId, Slot>, ids: Seq<NodeId>, i: int) -> bool {
    &&& slots.dom().contains(ids[i])
    &&& slots[ids[i]].next_sibling == if i + 1 < ids.len() {
        Some(ids[i + 1])
    } else {
        None
    }
}

/// `ids` is `start` followed by all of its forward siblings, up to the one that has no next
/// sibling.
pub open spec fn chain(slots: Map<NodeId, Slot>, start: NodeId, ids: Seq<NodeId>) -> bool {
    &&& ids.len() > 0
    &&& ids[0] == start
    &&& forall|i: int| 0 <= i < ids.len() ==> #[trigger] linked(slots, ids, i)
}

/// `object` is what node `id` projects to.
pub open spec fn projects(slots: Map<NodeId, Slot>, id: NodeId, object: Projection) -> bool
    decreases object,
{
    &&& slots.dom().contains(id)
    &&& object.node == id
    &&& object.data == slots[id].data
    &&& match slots[id].first_child {
        None => object.children is None,
        Some(first) => {
            &&& object.children is Some
            &&& chain(slots, first, heads(object.children->0))
            &&& forall|i: int|
                0 <= i < object.children->0.len() ==> projects(
                    slots,
                    object.children->0[i].node,
                    #[trigger] object.children->0[i],
                )
        },
    }
}

/// `group` is what the sibling group that starts at `first` projects to: one object for the
/// node and for each of its forward siblings, in that order.
pub open spec fn projects_group(
    slots: Map<NodeId, Slot>,
    first: NodeId,
    group: Seq<Projection>,
) -> bool {
    &&& chain(slots, first, heads(group))
    &&& forall|i: int| 0 <= i < group.len() ==> projects(slots, group[i].node, #[trigger] group[i])
}

/// `part` is `object` itself or one of the objects nested in it.
pub open spec fn within(object: Projection, part: Projection) -> bool
    decreases object,
{
    part == object || (object.children matches Some(group) && exists|i: int|
        0 <= i < group.len() && within(#[trigger] group[i], part))
}

/// `id` is the node of `object` or of one of the objects nested in it.
pub open spec fn occurs(object: Projection, id: NodeId) -> bool
    decreases object, 1int,
{
    object.node == id || descendant(object, id)
}

/// `id` is the node of one of the objects nested in `object`: a descendant of its node.
pub open spec fn descendant(object: Projection, id: NodeId) -> bool
    decreases object, 0int,
{
    object.children matches Some(group) && exists|i: int|
        0 <= i < group.len() && occurs(#[trigger] group[i], id)
}

/// The number of node objects in `object`, itself included.
pub open spec fn size(object: Projection) -> nat
    decreases object,
{
    match object.children {
        None => 1,
        Some(group) => 1 + group_size(group),
    }
}

/// The number of node objects in all of `group`.
pub open spec fn group_size(group: Seq<Projection>) -> nat
    decreases group,
{
    if group.len() == 0 {
        0
    } else {
        group_size(group.drop_last()) + size(group.last())
    }
}

proof fn chain_agrees(
    slots: Map<NodeId, Slot>,
    start: NodeId,
    a: Seq<NodeId>,
    b: Seq<NodeId>,
    i: int,
)
    requires
        chain(slots, start, a),
        chain(slots, start, b),
        0 <= i < a.len(),
    ensures
        i < b.len(),
        a[i] == b[i],
    decreases i,
{
    if i > 0 {
        chain_agrees(slots, start, a, b, i - 1);
        assert(linked(slots, a, i - 1));
        assert(linked(slots, b, i - 1));
    }
}

/// A node has one run of forward siblings and no other.
pub proof fn chain_unique(slots: Map<NodeId, Slot>, start: NodeId, a: Seq<NodeId>, b: Seq<NodeId>)
    requires
        chain(slots, start, a),
        chain(slots, start, b),
    ensures
        a == b,
{
    chain_agrees(slots, start, a, b, a.len() - 1);
    chain_agrees(slots, start, b, a, b.len() - 1);
    assert forall|i: int| 0 <= i < a.len() implies a[i] == b[i] by {
        chain_agrees(slots, start, a, b, i);
    }
    assert(a =~= b);
}

/// What is left of a run of siblings from one of its nodes on is the run of that node.
pub proof fn chain_from(slots: Map<NodeId, Slot>, start: NodeId, ids: Seq<NodeId>, j: int)
    requires
        chain(slots, start, ids),
        0 <= j < ids.len(),
    ensures
        chain(slots, ids[j], ids.skip(j)),
{
    let rest = ids.skip(j);
    assert forall|i: int| 0 <= i < rest.len() implies #[trigger] linked(slots, rest, i) by {
        assert(linked(slots, ids, i + j));
    }
}

/// No node comes twice in a run of siblings.
pub proof fn chain_distinct(slots: Map<NodeId, Slot>, start: NodeId, ids: Seq<NodeId>)
    requires
        chain(slots, start, ids),
    ensures
        ids.no_duplicates(),
{
    assert forall|i: int, j: int| 0 <= i < ids.len() && 0 <= j < ids.len() && i != j implies ids[i]
        != ids[j] by {
        if ids[i] == ids[j] {
            chain_from(slots, start, ids, i);
            chain_from(slots, start, ids, j);
            chain_unique(slots, ids[i], ids.skip(i), ids.skip(j));
            assert(ids.skip(i).len() == ids.skip(j).len());
        }
    }
}

/// A node without children projects to its own payload and nothing else, whatever stands
/// around it in the arena.
pub proof fn childless_projection(slots: Map<NodeId, Slot>, id: NodeId, object: Projection)
    requires
        projects(slots, id, object),
        slots[id].first_child is None,
    ensures
        object == (Projection { node: id, data: slots[id].data, children: None }),
{
}

/// A node with children projects to an object whose `children` hold one object for each
/// child, in the order in which the arena links them.
pub proof fn children_in_arena_order(
    slots: Map<NodeId, Slot>,
    id: NodeId,
    object: Projection,
    first: NodeId,
    kids: Seq<NodeId>,
)
    requires
        projects(slots, id, object),
        slots[id].first_child == Some(first),
        chain(slots, first, kids),
    ensures
        object.children is Some,
        object.children->0.len() == kids.len(),
        forall|i: int| 0 <= i < kids.len() ==> (#[trigger] object.children->0[i]).node == kids[i],
{
    let group = object.children->0;
    chain_unique(slots, first, heads(group), kids);
    assert forall|i: int| 0 <= i < kids.len() implies (#[trigger] group[i]).node == kids[i] by {
        assert(heads(group)[i] == group[i].node);
    }
}

/// A node projects to one object and no other.
pub proof fn projection_unique(slots: Map<NodeId, Slot>, id: NodeId, a: Projection, b: Projection)
    requires
        projects(slots, id, a),
        projects(slots, id, b),
    ensures
        a == b,
    decreases a,
{
    match slots[id].first_child {
        None => {},
        Some(first) => {
            let ga = a.children->0;
            let gb = b.children->0;
            chain_unique(slots, first, heads(ga), heads(gb));
            assert(ga.len() == heads(ga).len());
            assert(gb.len() == heads(gb).len());
            assert forall|i: int| 0 <= i < ga.len() implies ga[i] == gb[i] by {
                assert(heads(ga)[i] == ga[i].node);
                assert(heads(gb)[i] == gb[i].node);
                projection_unique(slots, ga[i].node, ga[i], gb[i]);
            }
            assert(ga =~= gb);
        },
    }
}

/// The object nested at place `n` of a node's `children` is the very object that the child
/// at that place projects to when it is taken as a root.
pub proof fn nested_is_standalone(
    slots: Map<NodeId, Slot>,
    id: NodeId,
    object: Projection,
    n: int,
    alone: Projection,
)
    requires
        projects(slots, id, object),
        object.children is Some,
        0 <= n < object.children->0.len(),
        projects(slots, object.children->0[n].node, alone),
    ensures
        alone == object.children->0[n],
{
    projection_unique(slots, object.children->0[n].node, alone, object.children->0[n]);
}

/// The group that starts at a node projects to one object for that node and one for each
/// of its forward siblings, in the order of the arena, and to none for any other node.
pub proof fn group_in_sibling_order(
    slots: Map<NodeId, Slot>,
    first: NodeId,
    group: Seq<Projection>,
    ids: Seq<NodeId>,
)
    requires
        projects_group(slots, first, group),
        chain(slots, first, ids),
    ensures
        group.len() == ids.len(),
        forall|i: int| 0 <= i < ids.len() ==> (#[trigger] group[i]).node == ids[i],
{
    chain_unique(slots, first, heads(group), ids);
    assert forall|i: int| 0 <= i < ids.len() implies (#[trigger] group[i]).node == ids[i] by {
        assert(heads(group)[i] == group[i].node);
    }
}

/// No object of a group holds more node objects than the group as a whole.
pub proof fn group_size_bounds(group: Seq<Projection>, i: int)
    requires
        0 <= i < group.len(),
    ensures
        size(group[i]) <= group_size(group),
    decreases group.len(),
{
    if i < group.len() - 1 {
        group_size_bounds(group.drop_last(), i);
    }
}

/// An object nested in another holds fewer node objects than the one it is nested in.
pub proof fn within_is_smaller(object: Projection, part: Projection)
    requires
        within(object, part),
    ensures
        size(part) <= size(object),
        part != object ==> size(part) < size(object),
    decreases object,
{
    if part != object {
        let group = object.children->0;
        let i = choose|i: int| 0 <= i < group.len() && within(#[trigger] group[i], part);
        group_size_bounds(group, i);
        within_is_smaller(group[i], part);
    }
}

/// What is nested in a nested object is nested in the whole.
pub proof fn within_within(object: Projection, mid: Projection, part: Projection)
    requires
        within(object, mid),
        within(mid, part),
    ensures
        within(object, part),
    decreases object,
{
    if mid != object {
        let group = object.children->0;
        let i = choose|i: int| 0 <= i < group.len() && within(#[trigger] group[i], mid);
        within_within(group[i], mid, part);
    }
}

/// Each object nested in the projection of a node is itself the projection of its node.
pub proof fn within_projects(slots: Map<NodeId, Slot>, id: NodeId, object: Projection, part: Projection)
    requires
        projects(slots, id, object),
        within(object, part),
    ensures
        projects(slots, part.node, part),
    decreases object,
{
    if part != object {
        let group = object.children->0;
        let i = choose|i: int| 0 <= i < group.len() && within(#[trigger] group[i], part);
        within_projects(slots, group[i].node, group[i], part);
    }
}

/// A node that occurs in an object is the node of the object or of something nested in it.
pub proof fn occurrence(object: Projection, id: NodeId) -> (part: Projection)
    requires
        occurs(object, id),
    ensures
        within(object, part),
        part.node == id,
    decreases object,
{
    if object.node == id {
        object
    } else {
        let group = object.children->0;
        let i = choose|i: int| 0 <= i < group.len() && occurs(#[trigger] group[i], id);
        occurrence(group[i], id)
    }
}

/// A descendant stands at some place of the `children` of the object itself or of an object
/// nested in it.
pub proof fn descendant_place(object: Projection, id: NodeId) -> (place: (Projection, int))
    requires
        descendant(object, id),
    ensures
        within(object, place.0),
        place.0.children is Some,
        0 <= place.1 < place.0.children->0.len(),
        place.0.children->0[place.1].node == id,
    decreases object,
{
    let group = object.children->0;
    let i = choose|i: int| 0 <= i < group.len() && occurs(#[trigger] group[i], id);
    if group[i].node == id {
        (object, i)
    } else {
        descendant_place(group[i], id)
    }
}

/// No node is its own descendant in an object that it projects to.
pub proof fn root_is_no_descendant(slots: Map<NodeId, Slot>, id: NodeId, object: Projection)
    requires
        projects(slots, id, object),
    ensures
        !descendant(object, id),
{
    if descendant(object, id) {
        let (holder, m) = descendant_place(object, id);
        let part = holder.children->0[m];
        assert(within(holder, part)) by {
            assert(within(part, part));
        }
        within_within(object, holder, part);
        within_projects(slots, id, object, part);
        projection_unique(slots, id, object, part);
        group_size_bounds(holder.children->0, m);
        within_is_smaller(object, holder);
    }
}

/// The forward run of a node leaves out the siblings that stand before the node: of a run
/// that starts earlier it is the part from the node on, and holds nothing of the part
/// before it.
pub proof fn earlier_siblings_left_out(
    slots: Map<NodeId, Slot>,
    earlier: NodeId,
    run: Seq<NodeId>,
    j: int,
    ids: Seq<NodeId>,
)
    requires
        chain(slots, earlier, run),
        0 <= j < run.len(),
        chain(slots, run[j], ids),
    ensures
        ids == run.skip(j),
        forall|i: int| 0 <= i < j ==> !ids.contains(#[trigger] run[i]),
{
    chain_from(slots, earlier, run, j);
    chain_unique(slots, run[j], ids, run.skip(j));
    chain_distinct(slots, earlier, run);
    assert forall|i: int| 0 <= i < j implies !ids.contains(#[trigger] run[i]) by {
        if ids.contains(run[i]) {
            let m = choose|m: int| 0 <= m < ids.len() && ids[m] == run[i];
            assert(run[m + j] == run[i]);
        }
    }
}

/// The forward run of a node leaves out every ancestor of the node.
pub proof fn ancestors_left_out(
    slots: Map<NodeId, Slot>,
    ancestor: NodeId,
    object: Projection,
    start: NodeId,
    ids: Seq<NodeId>,
)
    requires
        projects(slots, ancestor, object),
        descendant(object, start),
        chain(slots, start, ids),
    ensures
        !ids.contains(ancestor),
{
    if ids.contains(ancestor) {
        let (holder, m) = descendant_place(object, start);
        let group = holder.children->0;
        within_projects(slots, ancestor, object, holder);
        let all = heads(group);
        assert(all[m] == start);
        earlier_siblings_left_out(slots, all[0], all, m, ids);
        let k = choose|k: int| 0 <= k < ids.len() && ids[k] == ancestor;
        assert(all[k + m] == ancestor);
        assert(group[k + m].node == ancestor);
        assert(occurs(group[k + m], ancestor));
        assert(descendant(holder, ancestor));
        if holder != object {
            let part = group[k + m];
            assert(within(holder, part)) by {
                assert(within(part, part));
            }
            within_within(object, holder, part);
            group_size_bounds(group, k + m);
            within_is_smaller(object, holder);
            descendant_from_within(object, part, ancestor);
        }
        root_is_no_descendant(slots, ancestor, object);
    }
}

/// The node of an object nested in another is a descendant of that other.
pub proof fn descendant_from_within(object: Projection, part: Projection, id: NodeId)
    requires
        within(object, part),
        part != object,
        occurs(part, id),
    ensures
        descendant(object, id),
    decreases object,
{
    let group = object.children->0;
    let i = choose|i: int| 0 <= i < group.len() && within(#[trigger] group[i], part);
    if part != group[i] {
        descendant_from_within(group[i], part, id);
    }
    assert(occurs(group[i], id));
}

} // verus!
