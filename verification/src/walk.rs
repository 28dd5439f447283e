//! The forward walk over a sibling group, one element per step.
//!
//! The walk decides what happens next; whoever drives it writes each element out and
//! reports back how that went.

use crate::arena::{arena_slots, has_node, next_sibling_of, Slot};
use crate::node::{node_view, Node, NodeView, SiblingNodes};
use crate::projection::{chain, heads, linked, occurs, projects_group, Projection};
use indextree::{Arena, NodeId};
use vstd::prelude::*;

verus! {

/// How the driver fared with what the previous step asked for: opening the sequence before
/// the first step, writing the element after every other.
#[derive(Clone, Copy, Debug, PartialEq, Eq)]
pub enum Outcome {
    Written,
    Failed,
}

/// What the driver does next.
pub enum Step<'a> {
    /// Write this node as the next element of the sequence.
    Element(Node<'a>),
    /// Close the sequence: every sibling has been written.
    End,
    /// Give up and hand on the failure that was reported; nothing more is written.
    Abort,
}

/// A step as a value.
pub enum StepView {
    Element(NodeView),
    End,
    Abort,
}

/// A walk as a value: the sibling that comes next, whether a failure has ended the walk, and
/// the nodes it is read from.
pub struct WalkView {
    pub next: Option<NodeId>,
    pub aborted: bool,
    pub slots: Map<NodeId, Slot>,
}

/// A position in a sibling group.
pub struct Walk<'a> {
    next: Option<NodeId>,
    aborted: bool,
    arena: &'a Arena<usize>,
}

impl<'a> View for Step<'a> {
    type V = StepView;

    open spec fn view(&self) -> StepView {
        match self {
            Step::Element(node) => StepView::Element(node@),
            Step::End => StepView::End,
            Step::Abort => StepView::Abort,
        }
    }
}

impl<'a> View for Walk<'a> {
    type V = WalkView;

    closed spec fn view(&self) -> WalkView {
        WalkView { next: self.next, aborted: self.aborted, slots: arena_slots(*self.arena) }
    }
}

/// The walk can take a step after `last`: it has nothing to read, or the sibling it is about
/// to read is held by the arena.
pub open spec fn ready(walk: WalkView, last: Outcome) -> bool {
    walk.aborted || last is Failed || (walk.next matches Some(id) ==> walk.slots.dom().contains(id))
}

/// One step of the walk. After a failure the walk is over and stays so. Otherwise the next
/// sibling is handed out and the walk moves to the sibling after it, or the walk ends where
/// no sibling is left.
pub open spec fn advance(walk: WalkView, last: Outcome) -> (WalkView, StepView) {
    if walk.aborted || last is Failed {
        (WalkView { aborted: true, ..walk }, StepView::Abort)
    } else {
        match walk.next {
            Some(id) => (
                WalkView { next: walk.slots[id].next_sibling, ..walk },
                StepView::Element(node_view(walk.slots, id)),
            ),
            None => (walk, StepView::End),
        }
    }
}

impl<'a> SiblingNodes<'a> {
    /// A walk that stands before the first node of the group.
    pub fn walk(&self) -> (walk: Walk<'a>)
        ensures
            walk@ == (WalkView { next: Some(self@.first), aborted: false, slots: self@.slots }),
    {
        Walk { next: Some(self.first()), aborted: false, arena: self.arena() }
    }
}

impl<'a> Walk<'a> {
    /// Takes one step, given how the driver fared with the previous one.
    pub fn step(&mut self, last: Outcome) -> (step: Step<'a>)
        requires
            ready(old(self)@, last),
        ensures
            (final(self)@, step@) == advance(old(self)@, last),
    {
        if self.aborted {
            return Step::Abort;
        }
        match last {
            Outcome::Failed => {
                self.aborted = true;
                Step::Abort
            },
            Outcome::Written => match self.next {
                Some(id) => {
                    let node = Node::new(id, self.arena);
                    self.next = next_sibling_of(self.arena, id);
                    Step::Element(node)
                },
                None => Step::End,
            },
        }
    }

    /// Takes one step where the walk is ready for it, and leaves the walk as it is where the
    /// sibling that comes next is not a node of the arena.
    pub fn try_step(&mut self, last: Outcome) -> (step: Option<Step<'a>>)
        ensures
            match step {
                Some(s) => ready(old(self)@, last) && (final(self)@, s@) == advance(
                    old(self)@,
                    last,
                ),
                None => !ready(old(self)@, last) && final(self)@ == old(self)@,
            },
    {
        if !self.aborted {
            match (last, self.next) {
                (Outcome::Written, Some(id)) => {
                    if !has_node(self.arena, id) {
                        return None;
                    }
                },
                _ => {},
            }
        }
        Some(self.step(last))
    }
}

/// The walk after it has taken one step for each entry of `lasts`, where each entry is what
/// the driver reported before that step.
pub open spec fn after(walk: WalkView, lasts: Seq<Outcome>) -> WalkView
    decreases lasts.len(),
{
    if lasts.len() == 0 {
        walk
    } else {
        advance(after(walk, lasts.drop_last()), lasts.last()).0
    }
}

/// The step that the walk takes last when it is driven with `lasts`.
pub open spec fn conclusion(walk: WalkView, lasts: Seq<Outcome>) -> StepView {
    advance(after(walk, lasts.drop_last()), lasts.last()).1
}

/// The walk that stands before `first`.
pub open spec fn walk_from(slots: Map<NodeId, Slot>, first: NodeId) -> WalkView {
    WalkView { next: Some(first), aborted: false, slots }
}

/// The whole of `object` can be written out when the payloads of the nodes in `failing` do
/// not project: its own node is none of them, and each of its children can be written out.
pub open spec fn written(object: Projection, failing: Set<NodeId>) -> bool
    decreases object,
{
    &&& !failing.contains(object.node)
    &&& object.children matches Some(group) ==> forall|i: int|
        0 <= i < group.len() ==> written(#[trigger] group[i], failing)
}

/// While nothing fails, the walk over a group hands out the node at which the group starts
/// and then each forward sibling in turn, is ready for every step, and ends after the
/// sibling that has no next one.
pub proof fn walk_follows_chain(
    slots: Map<NodeId, Slot>,
    first: NodeId,
    ids: Seq<NodeId>,
    lasts: Seq<Outcome>,
)
    requires
        chain(slots, first, ids),
        lasts.len() <= ids.len(),
        forall|i: int| 0 <= i < lasts.len() ==> lasts[i] is Written,
    ensures
        after(walk_from(slots, first), lasts) == (WalkView {
            next: if lasts.len() < ids.len() {
                Some(ids[lasts.len() as int])
            } else {
                None
            },
            aborted: false,
            slots,
        }),
        ready(after(walk_from(slots, first), lasts), Outcome::Written),
        advance(after(walk_from(slots, first), lasts), Outcome::Written).1 == if lasts.len()
            < ids.len() {
            StepView::Element(node_view(slots, ids[lasts.len() as int]))
        } else {
            StepView::End
        },
    decreases lasts.len(),
{
    if lasts.len() > 0 {
        let before = lasts.drop_last();
        walk_follows_chain(slots, first, ids, before);
        assert(linked(slots, ids, before.len() as int));
        assert(lasts.last() is Written);
    }
    if lasts.len() < ids.len() {
        assert(linked(slots, ids, lasts.len() as int));
    }
}

/// Once a failure has been reported the walk is over: it hands out no further element and
/// never ends the sequence, whatever is reported after.
pub proof fn walk_stops_at_failure(walk: WalkView, lasts: Seq<Outcome>, last: Outcome)
    requires
        exists|i: int| 0 <= i < lasts.len() && lasts[i] is Failed,
    ensures
        after(walk, lasts).aborted,
        advance(after(walk, lasts), last) == (after(walk, lasts), StepView::Abort),
    decreases lasts.len(),
{
    let i = choose|i: int| 0 <= i < lasts.len() && lasts[i] is Failed;
    if i < lasts.len() - 1 {
        let before = lasts.drop_last();
        assert(before[i] is Failed);
        walk_stops_at_failure(walk, before, lasts.last());
    }
}

/// The walk over the children of a node ends the sequence exactly when every child was
/// written out whole, and gives up when one of them was not.
pub proof fn walk_ends_iff_all_written(
    slots: Map<NodeId, Slot>,
    first: NodeId,
    group: Seq<Projection>,
    failing: Set<NodeId>,
    verdicts: Seq<Outcome>,
)
    requires
        projects_group(slots, first, group),
        verdicts.len() == group.len(),
        forall|i: int|
            0 <= i < group.len() ==> (verdicts[i] is Written <==> written(
                #[trigger] group[i],
                failing,
            )),
    ensures
        conclusion(walk_from(slots, first), seq![Outcome::Written] + verdicts) == if forall|i: int|
            0 <= i < group.len() ==> written(#[trigger] group[i], failing) {
            StepView::End
        } else {
            StepView::Abort
        },
{
    let lasts = seq![Outcome::Written] + verdicts;
    let before = lasts.drop_last();
    let start = walk_from(slots, first);
    assert(heads(group).len() == group.len());
    if forall|i: int| 0 <= i < group.len() ==> written(#[trigger] group[i], failing) {
        assert forall|i: int| 0 <= i < before.len() implies before[i] is Written by {
            if i > 0 {
                assert(before[i] == verdicts[i - 1]);
                assert(written(group[i - 1], failing));
            }
        }
        assert(lasts.last() is Written) by {
            assert(lasts.last() == verdicts[group.len() - 1]);
            assert(written(group[group.len() - 1], failing));
        }
        walk_follows_chain(slots, first, heads(group), before);
    } else {
        let f = choose|f: int| 0 <= f < group.len() && !written(#[trigger] group[f], failing);
        assert(verdicts[f] is Failed);
        assert(lasts[f + 1] == verdicts[f]);
        if f + 1 < lasts.len() - 1 {
            assert(before[f + 1] is Failed);
            walk_stops_at_failure(start, before, lasts.last());
        }
    }
}

/// A payload that does not project keeps every object in which its node occurs from being
/// written out: the node's own and that of each of its ancestors.
pub proof fn failure_reaches_every_ancestor(object: Projection, failing: Set<NodeId>, id: NodeId)
    requires
        occurs(object, id),
        failing.contains(id),
    ensures
        !written(object, failing),
    decreases object,
{
    if object.node != id {
        let group = object.children->0;
        let i = choose|i: int| 0 <= i < group.len() && occurs(#[trigger] group[i], id);
        failure_reaches_every_ancestor(group[i], failing, id);
    }
}

} // verus!
