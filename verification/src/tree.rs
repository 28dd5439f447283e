//! The node set of the tree under a root, and how the projection of the root counts it.

use crate::arena::Slot;
use crate::projection::{
    descendant, descendant_from_within, descendant_place, group_size, group_size_bounds,
    heads, linked, occurrence, occurs, projection_unique, projects, root_is_no_descendant, size,
    within, within_is_smaller, within_projects, within_within, Projection,
};
use indextree::NodeId;
use vstd::prelude::*;

verus! {

/// The nodes that occur in `object`.
pub open spec fn nodes(object: Projection) -> Set<NodeId> {
    Set::new(|id: NodeId| occurs(object, id))
}

/// `members` holds what `id` links to within the tree under `root`: its first child, and its
/// next sibling unless it is the root.
pub open spec fn keeps_links(
    slots: Map<NodeId, Slot>,
    root: NodeId,
    members: Set<NodeId>,
    id: NodeId,
) -> bool {
    &&& slots[id].first_child matches Some(child) ==> members.contains(child)
    &&& id != root ==> (slots[id].next_sibling matches Some(sibling) ==> members.contains(sibling))
}

/// `members` holds `root` and whatever its members link to.
pub open spec fn closed(slots: Map<NodeId, Slot>, root: NodeId, members: Set<NodeId>) -> bool {
    &&& members.contains(root)
    &&& forall|id: NodeId| members.contains(id) ==> #[trigger] keeps_links(slots, root, members, id)
}

/// `members` is the node set of the tree under `root`: the least set that holds the root,
/// the first child of each member, and the next sibling of each member but the root.
pub open spec fn tree_nodes(slots: Map<NodeId, Slot>, root: NodeId, members: Set<NodeId>) -> bool {
    &&& closed(slots, root, members)
    &&& forall|other: Set<NodeId>| #[trigger] closed(slots, root, other) ==> members.subset_of(other)
}

/// The links of `a` and `b` within the tree under `root` lead to different nodes, unless
/// they are the same link.
pub open spec fn apart(slots: Map<NodeId, Slot>, root: NodeId, a: NodeId, b: NodeId) -> bool {
    &&& slots[a].first_child is Some && slots[a].first_child == slots[b].first_child ==> a == b
    &&& a != root && b != root && slots[a].next_sibling is Some && slots[a].next_sibling
        == slots[b].next_sibling ==> a == b
    &&& b != root && slots[a].first_child is Some ==> slots[a].first_child != slots[b].next_sibling
}

/// No node is linked to twice among `members`: each has one parent and one place among its
/// siblings, as in a tree.
pub open spec fn unshared(slots: Map<NodeId, Slot>, root: NodeId, members: Set<NodeId>) -> bool {
    forall|a: NodeId, b: NodeId|
        members.contains(a) && members.contains(b) ==> #[trigger] apart(slots, root, a, b)
}

/// The nodes that occur in the first `k` objects of `group`.
spec fn group_nodes(group: Seq<Projection>, k: int) -> Set<NodeId> {
    Set::new(|id: NodeId| exists|i: int| 0 <= i < k && occurs(#[trigger] group[i], id))
}

/// `object` is the projection of `root`, and `members` are unshared and hold its nodes.
spec fn settled(
    slots: Map<NodeId, Slot>,
    root: NodeId,
    object: Projection,
    members: Set<NodeId>,
) -> bool {
    &&& projects(slots, root, object)
    &&& unshared(slots, root, members)
    &&& nodes(object).subset_of(members)
}

proof fn occurs_within(object: Projection, part: Projection, id: NodeId)
    requires
        within(object, part),
        occurs(part, id),
    ensures
        occurs(object, id),
    decreases object,
{
    if part != object {
        let group = object.children->0;
        let i = choose|i: int| 0 <= i < group.len() && within(#[trigger] group[i], part);
        occurs_within(group[i], part, id);
    }
}

proof fn child_within(object: Projection, holder: Projection, m: int)
    requires
        within(object, holder),
        holder.children is Some,
        0 <= m < holder.children->0.len(),
    ensures
        within(object, holder.children->0[m]),
        within(holder, holder.children->0[m]),
        size(holder.children->0[m]) < size(holder),
        holder.children->0[m] != object,
{
    let part = holder.children->0[m];
    assert(within(part, part));
    assert(within(holder, part));
    within_within(object, holder, part);
    group_size_bounds(holder.children->0, m);
    within_is_smaller(object, holder);
}

proof fn nested_is_not_root(
    slots: Map<NodeId, Slot>,
    root: NodeId,
    object: Projection,
    part: Projection,
)
    requires
        projects(slots, root, object),
        within(object, part),
        part != object,
    ensures
        part.node != root,
{
    if part.node == root {
        descendant_from_within(object, part, root);
        root_is_no_descendant(slots, root, object);
    }
}

/// An object nested in another stands at some place of the `children` of that other or of
/// something nested in it.
proof fn nested_place(object: Projection, part: Projection) -> (place: (Projection, int))
    requires
        within(object, part),
        part != object,
    ensures
        within(object, place.0),
        place.0.children is Some,
        0 <= place.1 < place.0.children->0.len(),
        place.0.children->0[place.1] == part,
    decreases object,
{
    let group = object.children->0;
    let i = choose|i: int| 0 <= i < group.len() && within(#[trigger] group[i], part);
    if group[i] == part {
        (object, i)
    } else {
        let place = nested_place(group[i], part);
        assert(within(object, place.0));
        place
    }
}

/// The first child of a holder's node is the node at the head of its `children`, and each
/// later one is the next sibling of the one before it.
proof fn child_link(slots: Map<NodeId, Slot>, holder: Projection, m: int)
    requires
        projects(slots, holder.node, holder),
        holder.children is Some,
        0 <= m < holder.children->0.len(),
    ensures
        m == 0 ==> slots[holder.node].first_child == Some(holder.children->0[m].node),
        m > 0 ==> slots[holder.children->0[m - 1].node].next_sibling == Some(
            holder.children->0[m].node,
        ),
{
    let group = holder.children->0;
    let ids = heads(group);
    assert(ids[m] == group[m].node);
    if m > 0 {
        assert(ids[m - 1] == group[m - 1].node);
        assert(linked(slots, ids, m - 1));
    }
}

/// A node stands at one place only: two places that hold the same node are the same place
/// of the same holder.
proof fn same_place(
    slots: Map<NodeId, Slot>,
    root: NodeId,
    object: Projection,
    members: Set<NodeId>,
    h1: Projection,
    m1: int,
    h2: Projection,
    m2: int,
)
    requires
        settled(slots, root, object, members),
        within(object, h1),
        within(object, h2),
        h1.children is Some,
        h2.children is Some,
        0 <= m1 < h1.children->0.len(),
        0 <= m2 < h2.children->0.len(),
        h1.children->0[m1].node == h2.children->0[m2].node,
    ensures
        m1 == m2,
        h1 == h2,
    decreases m1,
{
    let g1 = h1.children->0;
    let g2 = h2.children->0;
    within_projects(slots, root, object, h1);
    within_projects(slots, root, object, h2);
    child_link(slots, h1, m1);
    child_link(slots, h2, m2);
    occurs_within(object, h1, h1.node);
    occurs_within(object, h2, h2.node);
    assert(members.contains(h1.node) && members.contains(h2.node));
    if m1 > 0 {
        child_within(object, h1, m1 - 1);
        nested_is_not_root(slots, root, object, g1[m1 - 1]);
        occurs_within(object, g1[m1 - 1], g1[m1 - 1].node);
        assert(members.contains(g1[m1 - 1].node));
    }
    if m2 > 0 {
        child_within(object, h2, m2 - 1);
        nested_is_not_root(slots, root, object, g2[m2 - 1]);
        occurs_within(object, g2[m2 - 1], g2[m2 - 1].node);
        assert(members.contains(g2[m2 - 1].node));
    }
    if m1 == 0 && m2 == 0 {
        assert(apart(slots, root, h1.node, h2.node));
        projection_unique(slots, h1.node, h1, h2);
    } else if m1 == 0 {
        assert(apart(slots, root, h1.node, g2[m2 - 1].node));
    } else if m2 == 0 {
        assert(apart(slots, root, h2.node, g1[m1 - 1].node));
    } else {
        assert(apart(slots, root, g1[m1 - 1].node, g2[m2 - 1].node));
        same_place(slots, root, object, members, h1, m1 - 1, h2, m2 - 1);
    }
}

/// Two objects of the tree that hold an object in common are nested one in the other.
proof fn nested_or_apart(
    slots: Map<NodeId, Slot>,
    root: NodeId,
    object: Projection,
    members: Set<NodeId>,
    a: Projection,
    b: Projection,
    part: Projection,
)
    requires
        settled(slots, root, object, members),
        within(object, a),
        within(object, b),
        within(a, part),
        within(b, part),
    ensures
        within(a, b) || within(b, a),
    decreases size(a) - size(part),
{
    within_is_smaller(a, part);
    if part != a && part != b {
        let (ha, ma) = nested_place(a, part);
        let (hb, mb) = nested_place(b, part);
        within_within(object, a, ha);
        within_within(object, b, hb);
        same_place(slots, root, object, members, ha, ma, hb, mb);
        group_size_bounds(ha.children->0, ma);
        within_is_smaller(a, ha);
        nested_or_apart(slots, root, object, members, a, b, ha);
    }
}

/// Two children of one node are not nested in each other.
proof fn siblings_not_nested(
    slots: Map<NodeId, Slot>,
    root: NodeId,
    object: Projection,
    members: Set<NodeId>,
    holder: Projection,
    i: int,
    j: int,
)
    requires
        settled(slots, root, object, members),
        within(object, holder),
        holder.children is Some,
        0 <= i < holder.children->0.len(),
        0 <= j < holder.children->0.len(),
        i != j,
    ensures
        !within(holder.children->0[i], holder.children->0[j]),
{
    let group = holder.children->0;
    if within(group[i], group[j]) {
        child_within(object, holder, i);
        child_within(object, holder, j);
        if group[i] == group[j] {
            same_place(slots, root, object, members, holder, i, holder, j);
        } else {
            let (inner, m) = nested_place(group[i], group[j]);
            within_within(object, group[i], inner);
            same_place(slots, root, object, members, inner, m, holder, j);
            within_is_smaller(group[i], inner);
        }
    }
}

/// Two children of one node hold no node in common.
proof fn siblings_share_nothing(
    slots: Map<NodeId, Slot>,
    root: NodeId,
    object: Projection,
    members: Set<NodeId>,
    holder: Projection,
    i: int,
    j: int,
    id: NodeId,
)
    requires
        settled(slots, root, object, members),
        within(object, holder),
        holder.children is Some,
        0 <= i < holder.children->0.len(),
        0 <= j < holder.children->0.len(),
        i != j,
        occurs(holder.children->0[i], id),
    ensures
        !occurs(holder.children->0[j], id),
{
    let group = holder.children->0;
    if occurs(group[j], id) {
        child_within(object, holder, i);
        child_within(object, holder, j);
        let pi = occurrence(group[i], id);
        let pj = occurrence(group[j], id);
        within_within(object, group[i], pi);
        within_within(object, group[j], pj);
        within_projects(slots, root, object, pi);
        within_projects(slots, root, object, pj);
        projection_unique(slots, id, pi, pj);
        nested_or_apart(slots, root, object, members, group[i], group[j], pi);
        siblings_not_nested(slots, root, object, members, holder, i, j);
        siblings_not_nested(slots, root, object, members, holder, j, i);
    }
}

/// Of an object of the tree, the nodes are as many as the node objects.
proof fn count_nodes(
    slots: Map<NodeId, Slot>,
    root: NodeId,
    object: Projection,
    members: Set<NodeId>,
    part: Projection,
)
    requires
        settled(slots, root, object, members),
        within(object, part),
    ensures
        nodes(part).finite(),
        nodes(part).len() == size(part),
    decreases part, 1int, 0int,
{
    match part.children {
        None => {
            assert(nodes(part) =~= Set::empty().insert(part.node));
        },
        Some(group) => {
            count_group(slots, root, object, members, part, group.len() as int);
            assert(group.take(group.len() as int) =~= group);
            let below = group_nodes(group, group.len() as int);
            assert(nodes(part) =~= below.insert(part.node));
            if below.contains(part.node) {
                within_projects(slots, root, object, part);
                root_is_no_descendant(slots, part.node, part);
            }
        },
    }
}

/// Of the first `k` children of an object of the tree, the nodes are as many as the node
/// objects.
proof fn count_group(
    slots: Map<NodeId, Slot>,
    root: NodeId,
    object: Projection,
    members: Set<NodeId>,
    holder: Projection,
    k: int,
)
    requires
        settled(slots, root, object, members),
        within(object, holder),
        holder.children is Some,
        0 <= k <= holder.children->0.len(),
    ensures
        group_nodes(holder.children->0, k).finite(),
        group_nodes(holder.children->0, k).len() == group_size(holder.children->0.take(k)),
    decreases holder, 0int, k,
{
    let group = holder.children->0;
    if k == 0 {
        assert(group_nodes(group, k) =~= Set::empty());
    } else {
        count_group(slots, root, object, members, holder, k - 1);
        child_within(object, holder, k - 1);
        count_nodes(slots, root, object, members, group[k - 1]);
        let before = group_nodes(group, k - 1);
        let last = nodes(group[k - 1]);
        assert(group_nodes(group, k) =~= before + last);
        assert(before.disjoint(last)) by {
            assert forall|id: NodeId| before.contains(id) implies !last.contains(id) by {
                let i = choose|i: int| 0 <= i < k - 1 && occurs(#[trigger] group[i], id);
                siblings_share_nothing(slots, root, object, members, holder, i, k - 1, id);
            }
        }
        vstd::set_lib::lemma_set_disjoint_lens(before, last);
        assert(group.take(k).drop_last() =~= group.take(k - 1));
        assert(group.take(k).last() == group[k - 1]);
    }
}

/// Every node that occurs in an object of the tree is a member of each closed set that
/// holds the object's own node.
proof fn occurring_is_member(
    slots: Map<NodeId, Slot>,
    root: NodeId,
    object: Projection,
    members: Set<NodeId>,
    part: Projection,
    id: NodeId,
)
    requires
        projects(slots, root, object),
        closed(slots, root, members),
        within(object, part),
        members.contains(part.node),
        occurs(part, id),
    ensures
        members.contains(id),
    decreases part, 1int, 0int,
{
    if part.node != id {
        let group = part.children->0;
        let i = choose|i: int| 0 <= i < group.len() && occurs(#[trigger] group[i], id);
        head_is_member(slots, root, object, members, part, i);
        child_within(object, part, i);
        occurring_is_member(slots, root, object, members, group[i], id);
    }
}

/// The node of each child of an object of the tree is a member of each closed set that
/// holds the object's own node.
proof fn head_is_member(
    slots: Map<NodeId, Slot>,
    root: NodeId,
    object: Projection,
    members: Set<NodeId>,
    holder: Projection,
    m: int,
)
    requires
        projects(slots, root, object),
        closed(slots, root, members),
        within(object, holder),
        members.contains(holder.node),
        holder.children is Some,
        0 <= m < holder.children->0.len(),
    ensures
        members.contains(holder.children->0[m].node),
    decreases holder, 0int, m,
{
    within_projects(slots, root, object, holder);
    child_link(slots, holder, m);
    if m == 0 {
        assert(keeps_links(slots, root, members, holder.node));
    } else {
        head_is_member(slots, root, object, members, holder, m - 1);
        child_within(object, holder, m - 1);
        nested_is_not_root(slots, root, object, holder.children->0[m - 1]);
        assert(keeps_links(slots, root, members, holder.children->0[m - 1].node));
    }
}

/// The nodes that occur in the projection of a root hold the root and whatever they link
/// to in the tree under it.
proof fn nodes_are_closed(slots: Map<NodeId, Slot>, root: NodeId, object: Projection)
    requires
        projects(slots, root, object),
    ensures
        closed(slots, root, nodes(object)),
{
    assert forall|id: NodeId| nodes(object).contains(id) implies #[trigger] keeps_links(
        slots,
        root,
        nodes(object),
        id,
    ) by {
        let part = occurrence(object, id);
        within_projects(slots, root, object, part);
        if slots[id].first_child is Some {
            child_link(slots, part, 0);
            let head = part.children->0[0];
            assert(occurs(head, head.node));
            assert(descendant(part, head.node));
            occurs_within(object, part, head.node);
        }
        if id != root && slots[id].next_sibling is Some {
            let (holder, m) = descendant_place(object, id);
            within_projects(slots, root, object, holder);
            let group = holder.children->0;
            let ids = heads(group);
            assert(ids[m] == group[m].node);
            assert(linked(slots, ids, m));
            assert(ids[m + 1] == group[m + 1].node);
            assert(occurs(group[m + 1], group[m + 1].node));
            assert(descendant(holder, group[m + 1].node));
            occurs_within(object, holder, group[m + 1].node);
        }
    }
}

/// The projection of the root of a tree holds one node object for each node of the tree:
/// as many as the node set has members.
pub proof fn projection_counts_nodes(
    slots: Map<NodeId, Slot>,
    root: NodeId,
    object: Projection,
    members: Set<NodeId>,
)
    requires
        projects(slots, root, object),
        tree_nodes(slots, root, members),
        unshared(slots, root, members),
    ensures
        members == nodes(object),
        members.finite(),
        members.len() == size(object),
{
    nodes_are_closed(slots, root, object);
    assert(members.subset_of(nodes(object)));
    assert forall|id: NodeId| nodes(object).contains(id) implies members.contains(id) by {
        occurring_is_member(slots, root, object, members, object, id);
    }
    assert(members =~= nodes(object));
    count_nodes(slots, root, object, members, object);
}

} // verus!
