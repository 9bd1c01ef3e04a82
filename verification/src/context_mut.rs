//! The context that a computation is polled in.

use vstd::prelude::*;
use crate::context::{output_of, produces};
use crate::dirty::cores_ok;
use crate::expert::{
    unborrow_result, AnchorCore, DirtyHandle, EngineError, Event, Poll, UpdateContext,
};
use crate::generation::Generation;
use crate::graph::Graph;
use crate::height::reaches;
use crate::node::{Node, NodeKey, RecalcState};
use crate::node_guard::NodeGuard;

verus! {

/// Whether a node is part of some observed calculation.
#[derive(Copy, Clone, Eq, PartialEq, Structural, Debug)]
pub enum ObservedState {
    /// The node has been marked as observed.
    Observed,
    /// The node is not marked as observed, but some node that is observed or
    /// necessary has asked for it.
    Necessary,
    /// The node is neither.
    Unnecessary,
}

/// What the record of a node says of its being observed or necessary.
pub open spec fn observed_state<C>(n: Node<C>) -> ObservedState {
    if n.observed {
        ObservedState::Observed
    } else if n.necessary_count > 0 {
        ObservedState::Necessary
    } else {
        ObservedState::Unnecessary
    }
}

/// What a node is told of an input that is ready: `Unchanged` if the input
/// last changed no later than the node was last ready, `Updated` otherwise,
/// and also if the input has never reported a change or the node has never
/// been ready.
pub open spec fn compare_stamps(changed: Option<Generation>, seen: Option<Generation>) -> Poll {
    if changed is Some && seen is Some && changed->0.value() <= seen->0.value() {
        Poll::Unchanged
    } else {
        Poll::Updated
    }
}

/// Compares the stamp of the last change of an input with the stamp at which
/// the node that reads it was last ready.
pub fn stamp_answer(changed: Option<Generation>, seen: Option<Generation>) -> (r: Poll)
    ensures
        r == compare_stamps(changed, seen),
{
    match (changed, seen) {
        (Some(a), Some(b)) => {
            if a.not_after(&b) {
                Poll::Unchanged
            } else {
                Poll::Updated
            }
        },
        _ => Poll::Updated,
    }
}

/// The time `now` is no earlier than the time `was`, where no time is
/// earlier than every time.
pub open spec fn no_earlier(now: Option<Generation>, was: Option<Generation>) -> bool {
    match was {
        None => true,
        Some(w) => now is Some && w.value() <= now->0.value(),
    }
}

impl<C> Graph<C> {
    /// The stamps of every live node are in order: a node that has changed
    /// has been ready since, and no stamp is later than `now`.
    pub open spec fn stamps_ok(&self, now: Generation) -> bool {
        forall|i: int|
            0 <= i < self.nodes@.len() && (#[trigger] self.nodes@[i]).alive() ==> {
                let n = self.nodes@[i];
                &&& n.last_update is Some ==> n.last_ready is Some && n.last_update->0.value()
                    <= n.last_ready->0.value()
                &&& n.last_ready is Some ==> n.last_ready->0.value() <= now.value()
            }
    }

    /// `self` is what `before` may become by a request: no node comes or
    /// goes, heights do not fall, and each node keeps its stamps, its
    /// computation, and whether it is observed.
    pub open spec fn climbed_and_linked(&self, before: &Graph<C>) -> bool {
        &&& self.nodes@.len() == before.nodes@.len()
        &&& self.token == before.token
        &&& self.free_list@ == before.free_list@
        &&& forall|i: int|
            0 <= i < self.nodes@.len() ==> {
                let n = #[trigger] self.nodes@[i];
                let o = before.nodes@[i];
                &&& n.observed == o.observed
                &&& n.token == o.token
                &&& n.last_ready == o.last_ready
                &&& n.last_update == o.last_update
                &&& n.anchor == o.anchor
                &&& n.ptrs.handle_count == o.ptrs.handle_count
                &&& n.ptrs.height >= o.ptrs.height
                &&& n.necessary_count >= o.necessary_count
            }
    }

    /// `self` holds the nodes that `before` holds: no node has come or gone,
    /// each has the stamp, the handles and the mark of being observed that it
    /// had, and stands no lower. No node was last ready, or has last changed,
    /// earlier than in `before`.
    pub open spec fn same_population(&self, before: &Graph<C>) -> bool {
        &&& self.nodes@.len() == before.nodes@.len()
        &&& self.token == before.token
        &&& self.free_list@ == before.free_list@
        &&& self.recalc_queues@.len() == before.recalc_queues@.len()
        &&& forall|i: int|
            0 <= i < self.nodes@.len() ==> {
                let n = #[trigger] self.nodes@[i];
                let o = before.nodes@[i];
                &&& n.token == o.token
                &&& n.observed == o.observed
                &&& n.ptrs.handle_count == o.ptrs.handle_count
                &&& n.ptrs.height >= o.ptrs.height
                &&& no_earlier(n.last_ready, o.last_ready)
                &&& no_earlier(n.last_update, o.last_update)
            }
    }

    /// Holding the same nodes goes on from graph to graph.
    pub proof fn lemma_same_population(&self, mid: &Graph<C>, after: &Graph<C>)
        requires
            mid.same_population(self),
            after.same_population(mid),
        ensures
            after.same_population(self),
    {
        assert forall|i: int| 0 <= i < after.nodes@.len() implies {
            let n = #[trigger] after.nodes@[i];
            let o = self.nodes@[i];
            &&& n.token == o.token
            &&& n.observed == o.observed
            &&& n.ptrs.handle_count == o.ptrs.handle_count
            &&& n.ptrs.height >= o.ptrs.height
            &&& no_earlier(n.last_ready, o.last_ready)
            &&& no_earlier(n.last_update, o.last_update)
        } by {
            let m = mid.nodes@[i];
            assert(m.token == self.nodes@[i].token);
            assert(no_earlier(m.last_ready, self.nodes@[i].last_ready));
            assert(no_earlier(m.last_update, self.nodes@[i].last_update));
        }
    }

    /// A graph stays in order for the engine when one node, which is not
    /// `Needed`, is counted as necessary once more.
    pub proof fn lemma_demand_added(&self, after: &Graph<C>, child: int, now: Generation) where
        C: AnchorCore,

        requires
            after.same_but_necessary(self),
            cores_ok(self),
            self.stamps_ok(now),
            self.demand_scheduled(),
            self.in_range(child),
            after.nodes@[child].ptrs.recalc_state != RecalcState::Needed,
            forall|i: int|
                0 <= i < self.len() && i != child ==> (#[trigger] after.nodes@[i]).necessary_count
                    == self.nodes@[i].necessary_count,
        ensures
            cores_ok(after),
            after.stamps_ok(now),
            after.demand_scheduled(),
    {
        assert forall|i: int| 0 <= i < after.nodes@.len() && (#[trigger] after.nodes@[i]).alive()
            && after.nodes@[i].in_demand() implies after.nodes@[i].ptrs.recalc_state
            != RecalcState::Needed by {
            assert(crate::node::same_but_necessary(after.nodes@[i], self.nodes@[i]));
            if i != child {
                assert(self.nodes@[i].in_demand());
            }
        }
        assert forall|i: int| 0 <= i < after.nodes@.len() implies crate::node::same_but_necessary(
            #[trigger] after.nodes@[i],
            self.nodes@[i],
        ) by {}
    }

    /// The slots whose node lists necessary children.
    pub open spec fn with_children(&self) -> Set<int> {
        Set::new(|i: int| self.in_range(i) && self.nodes@[i].children().len() > 0)
    }

    /// Says whether the node is observed, necessary, or neither.
    pub fn check_observed_raw(&self, node: usize) -> (r: ObservedState)
        requires
            self.in_range(node as int),
        ensures
            r == observed_state(self.nodes@[node as int]),
            (r != ObservedState::Unnecessary) == self.nodes@[node as int].in_demand(),
    {
        if self.nodes[node].observed {
            return ObservedState::Observed;
        }
        if self.nodes[node].necessary_count > 0 {
            ObservedState::Necessary
        } else {
            ObservedState::Unnecessary
        }
    }

    /// `self` is what `before` may become when demand is taken back: nodes
    /// lose necessary children and are counted less, and nothing else
    /// changes.
    pub open spec fn released_from(&self, before: &Graph<C>) -> bool {
        &&& self.same_but_necessary(before)
        &&& forall|i: int|
            0 <= i < self.nodes@.len() ==> {
                &&& (#[trigger] self.nodes@[i]).necessary_count <= before.nodes@[i].necessary_count
                &&& self.nodes@[i].children() == before.nodes@[i].children()
                    || self.nodes@[i].children().len() == 0
            }
    }

    /// `self` is what `before` may become when a request is dropped: nodes
    /// lose necessary children and are counted less, and nothing else
    /// changes.
    pub open spec fn shrunk_from(&self, before: &Graph<C>) -> bool {
        &&& self.same_but_necessary(before)
        &&& forall|i: int|
            0 <= i < self.nodes@.len() ==> (#[trigger] self.nodes@[i]).necessary_count
                <= before.nodes@[i].necessary_count
        &&& forall|i: int, k: NodeKey|
            0 <= i < self.nodes@.len() && #[trigger] self.nodes@[i].children().contains(k)
                ==> before.nodes@[i].children().contains(k)
    }

    /// The node in slot `i` has demand, or holds no necessary children.
    pub open spec fn settled(&self, i: int) -> bool {
        self.nodes@[i].in_demand() || self.nodes@[i].children().len() == 0
    }

    /// The node in slot `i` held necessary children in `before` and holds
    /// none in `self`.
    pub open spec fn gave_up(&self, before: &Graph<C>, i: int) -> bool {
        before.nodes@[i].children().len() > 0 && self.nodes@[i].children().len() == 0
    }

    /// The node in slot `i` has no demand, and is `start` or was a necessary
    /// child of a node that has given up its necessary children.
    pub open spec fn released_by(&self, before: &Graph<C>, start: int, i: int) -> bool {
        &&& !self.nodes@[i].in_demand()
        &&& i == start || (before.alive(i) && exists|p: int|
            0 <= p < before.nodes@.len() && #[trigger] self.gave_up(before, p)
                && before.lists_child(p, before.key_of(i)))
    }

    /// Every node that has given up its necessary children has no demand,
    /// and is `start` or was a necessary child of a node that has given up
    /// its own.
    pub open spec fn released_in_turn(&self, before: &Graph<C>, start: int) -> bool {
        forall|i: int|
            0 <= i < before.nodes@.len() && #[trigger] self.gave_up(before, i) ==> self.released_by(
                before,
                start,
                i,
            )
    }

    /// Every node that was settled in `before` is settled in `self`.
    pub open spec fn still_settled(&self, before: &Graph<C>) -> bool {
        forall|i: int|
            0 <= i < before.nodes@.len() && #[trigger] before.settled(i) ==> self.settled(i)
    }

    /// Releasing twice is releasing.
    pub proof fn lemma_released_twice(&self, mid: &Graph<C>, after: &Graph<C>)
        requires
            mid.released_from(self),
            after.released_from(mid),
        ensures
            after.released_from(self),
            after.with_children().subset_of(self.with_children()),
            self.with_children().finite(),
            after.with_children().len() <= self.with_children().len(),
    {
        assert forall|i: int| 0 <= i < after.nodes@.len() implies crate::node::same_but_necessary(
            #[trigger] after.nodes@[i],
            self.nodes@[i],
        ) && after.nodes@[i].necessary_count <= self.nodes@[i].necessary_count && (
        after.nodes@[i].children() == self.nodes@[i].children() || after.nodes@[i].children().len()
            == 0) by {
            assert(crate::node::same_but_necessary(after.nodes@[i], mid.nodes@[i]));
            assert(crate::node::same_but_necessary(mid.nodes@[i], self.nodes@[i]));
        }
        let all = vstd::set_lib::set_int_range(0, self.len());
        vstd::set_lib::lemma_int_range(0, self.len());
        assert(self.with_children().subset_of(all));
        vstd::set_lib::lemma_len_subset(self.with_children(), all);
        assert(after.with_children().subset_of(self.with_children()));
        vstd::set_lib::lemma_len_subset(after.with_children(), self.with_children());
    }

    /// Looks at a node whose demand may have gone. If the node is neither
    /// observed nor necessary any more, it gives up its necessary children,
    /// and each of them is looked at in turn.
    pub fn update_necessary_children(&mut self, node: usize)
        requires
            old(self).wf(),
            old(self).alive(node as int),
        ensures
            final(self).wf(),
            final(self).released_from(old(self)),
            old(self).nodes@[node as int].in_demand() ==> forall|i: int|
                0 <= i < old(self).len() ==> #[trigger] final(self).nodes@[i]
                    == old(self).nodes@[i],
            !old(self).nodes@[node as int].in_demand()
                ==> final(self).nodes@[node as int].children().len() == 0,
            old(self).nodes@[node as int].children().len() == 0 ==> forall|i: int|
                0 <= i < old(self).len() ==> (#[trigger] final(self).nodes@[i]).necessary_count
                    == old(self).nodes@[i].necessary_count && final(self).nodes@[i].children()
                    == old(self).nodes@[i].children(),
            final(self).settled(node as int),
            final(self).still_settled(old(self)),
            final(self).released_in_turn(old(self), node as int),
        decreases old(self).with_children().len(),
    {
        let ghost before = *self;
        if self.check_observed_raw(node) != ObservedState::Unnecessary {
            proof {
                before.lemma_released_twice(&before, &before);
            }
            return ;
        }
        let children = NodeGuard { ptr: node }.drain_necessary_children(self);
        let ghost drained = *self;
        proof {
            assert(self.released_from(&before));
            before.lemma_released_twice(&before, &drained);
            before.lemma_children_ok(node as int);
            assert forall|i: int|
                0 <= i < before.nodes@.len() && #[trigger] before.settled(i)
                    implies drained.settled(i) || exists|a: int|
                0 <= a < children@.len() && #[trigger] children@[a] == before.key_of(i)
                    && before.alive(i) by {
                assert(crate::node::same_but_necessary(drained.nodes@[i], before.nodes@[i]));
                if drained.nodes@[i].necessary_count != before.nodes@[i].necessary_count {
                    let k = before.key_of(i);
                    assert(before.nodes@[node as int].children().contains(k));
                    let a = choose|a: int|
                        0 <= a < children@.len() && before.nodes@[node as int].children()[a] == k;
                    assert(children@[a] == k);
                }
            }
            assert(drained.released_in_turn(&before, node as int)) by {
                assert forall|i: int|
                    0 <= i < before.nodes@.len() && #[trigger] drained.gave_up(&before, i) implies {
                    &&& !drained.nodes@[i].in_demand()
                    &&& i == node
                } by {
                    assert(crate::node::same_but_necessary(drained.nodes@[i], before.nodes@[i]));
                }
            }
            if children@.len() > 0 {
                assert(drained.with_children().subset_of(before.with_children().remove(node as int)));
                vstd::set_lib::lemma_len_subset(
                    drained.with_children(),
                    before.with_children().remove(node as int),
                );
            }
        }
        let mut j: usize = 0;
        while j < children.len()
            invariant
                j <= children.len(),
                before == *old(self),
                before.alive(node as int),
                self.wf(),
                self.released_from(&before),
                self.nodes@[node as int].children().len() == 0,
                children@.len() > 0 ==> self.with_children().len() < before.with_children().len(),
                children@.len() == 0 ==> self.nodes == drained.nodes,
                children@ == before.nodes@[node as int].children(),
                forall|i: int|
                    0 <= i < before.len() ==> (#[trigger] drained.nodes@[i]).necessary_count
                        == before.nodes@[i].necessary_count - (if before.alive(i)
                        && before.lists_child(node as int, before.key_of(i)) {
                        1int
                    } else {
                        0int
                    }),
                forall|i: int|
                    0 <= i < before.len() && i != node ==> (#[trigger] drained.nodes@[i]).children()
                        == before.nodes@[i].children(),
                drained.nodes@.len() == before.nodes@.len(),
                !before.nodes@[node as int].in_demand(),
                self.released_in_turn(&before, node as int),
                forall|i: int|
                    0 <= i < before.nodes@.len() && #[trigger] before.settled(i) ==> self.settled(i)
                        || exists|a: int|
                        j <= a < children@.len() && #[trigger] children@[a] == before.key_of(i)
                            && before.alive(i),
            decreases children.len() - j,
        {
            let key = children[j];
            let ghost mid = *self;
            if let Some(child) = self.slot_of(key) {
                self.update_necessary_children(child);
                proof {
                    mid.lemma_released_twice(&mid, self);
                    before.lemma_released_twice(&mid, self);
                    before.lemma_released_on(&mid, self, node as int, child as int);
                }
            }
            proof {
                assert forall|i: int|
                    0 <= i < before.nodes@.len() && #[trigger] before.settled(i)
                        implies self.settled(i) || exists|a: int|
                    j + 1 <= a < children@.len() && #[trigger] children@[a] == before.key_of(i)
                        && before.alive(i) by {
                    assert(crate::node::same_but_necessary(mid.nodes@[i], before.nodes@[i]));
                    if mid.settled(i) {
                        assert(self.settled(i));
                    } else {
                        let a = choose|a: int|
                            j <= a < children@.len() && #[trigger] children@[a] == before.key_of(i)
                                && before.alive(i);
                        if a == j {
                            assert(mid.valid_key(key));
                            assert(key.ptr == i);
                            assert(self.settled(i));
                        }
                    }
                }
            }
            j += 1;
        }
    }

    /// Justifications carry over: if the nodes that gave up between `self`
    /// and `mid` are justified from `start`, and those between `mid` and
    /// `after` from `child`, which `start` listed, then all are justified from
    /// `start`.
    pub proof fn lemma_released_on(
        &self,
        mid: &Graph<C>,
        after: &Graph<C>,
        start: int,
        child: int,
    )
        requires
            mid.released_from(self),
            after.released_from(mid),
            mid.released_in_turn(self, start),
            after.released_in_turn(mid, child),
            self.in_range(start),
            self.alive(child),
            self.lists_child(start, self.key_of(child)),
            mid.nodes@[start].children().len() == 0,
        ensures
            after.released_in_turn(self, start),
    {
        assert forall|i: int|
            0 <= i < self.nodes@.len() && #[trigger] after.gave_up(self, i) implies {
            &&& !after.nodes@[i].in_demand()
            &&& i == start || (self.alive(i) && exists|p: int|
                0 <= p < self.nodes@.len() && #[trigger] after.gave_up(self, p)
                    && self.lists_child(p, self.key_of(i)))
        } by {
            assert(crate::node::same_but_necessary(after.nodes@[i], mid.nodes@[i]));
            assert(crate::node::same_but_necessary(mid.nodes@[i], self.nodes@[i]));
            assert(crate::node::same_but_necessary(after.nodes@[start], mid.nodes@[start]));
            assert(after.gave_up(self, start)) by {
                let k = self.key_of(child);
                let a = choose|a: int|
                    0 <= a < self.nodes@[start].children().len()
                        && self.nodes@[start].children()[a] == k;
            }
            if mid.gave_up(self, i) {
                if i != start {
                    let p = choose|p: int|
                        0 <= p < self.nodes@.len() && #[trigger] mid.gave_up(self, p)
                            && self.lists_child(p, self.key_of(i));
                    assert(crate::node::same_but_necessary(after.nodes@[p], mid.nodes@[p]));
                    assert(after.gave_up(self, p));
                }
            } else {
                assert(after.gave_up(mid, i));
                if i == child {
                    assert(after.gave_up(self, start));
                } else {
                    let p = choose|p: int|
                        0 <= p < mid.nodes@.len() && #[trigger] after.gave_up(mid, p)
                            && mid.lists_child(p, mid.key_of(i));
                    assert(crate::node::same_but_necessary(mid.nodes@[p], self.nodes@[p]));
                    assert(mid.nodes@[p].children() == self.nodes@[p].children());
                    assert(after.gave_up(self, p));
                    assert(self.lists_child(p, self.key_of(i)));
                }
            }
        }
    }
}

/// The context of one poll: the graph, the node that is being polled, and
/// whether the poll has met an input that was not ready.
pub struct EngineContextMut<C> {
    pub graph: Graph<C>,
    pub node: usize,
    pub generation: Generation,
    pub pending_on_anchor_get: bool,
    /// What the computation has asked so far.
    pub events: Ghost<Seq<Event>>,
    /// The graph as it was when the poll began.
    pub origin: Ghost<Graph<C>>,
}

impl<C: AnchorCore> EngineContextMut<C> {
    /// The graph.
    pub open spec fn g(&self) -> Graph<C> {
        self.graph
    }

    /// The graph is in order, and the node that is being polled is alive and
    /// has been taken out of the queue.
    pub open spec fn sound(&self) -> bool {
        &&& self.g().wf()
        &&& cores_ok(&self.g())
        &&& self.g().demand_scheduled()
        &&& self.g().stamps_ok(self.generation)
        &&& self.g().alive(self.node as int)
        &&& self.g().nodes@[self.node as int].ptrs.recalc_state == RecalcState::Ready
        &&& self.g().same_population(&self.origin@)
    }

    /// What a request for the node that `key` names does, in a context that
    /// is in order. `after` is the context after the request, `r` the answer.
    ///
    /// An input that stands below the node that is being polled is not
    /// moved. If it is `Ready`, the node becomes a clean parent of it, and
    /// the answer compares the stamps. If it is not, it is queued, the answer
    /// is `Pending`, and the context remembers that; if it cannot be queued
    /// because of its height, the request fails. An input that does not stand
    /// below makes the heights rise: the request fails with `Cycle` or
    /// `HeightLimit`, or the answer is `Pending`. It fails with `Cycle` only
    /// if a path of clean edges leads from the node up to the input, and it
    /// never answers if there is one. With `necessary`, and if
    /// the node is observed or necessary, an answer comes with the input
    /// among the necessary children of the node, unless the input was
    /// `Ready` and heights had to rise.
    ///
    /// Where there is room to rise, an input that does not stand below gives
    /// `Cycle` exactly when such a path leads up to it; otherwise the node
    /// ends one above the input. A request that fails has changed nothing
    /// but heights and marks. An input that was not `Ready` is `Pending`
    /// after an answer. The necessary count of the input grows by one
    /// exactly when it becomes a new necessary child of the node. Whatever
    /// comes of the request, no other node's count, clean parents or state
    /// change, and an input that was `Ready` stays so. The queue changes only
    /// by an input that is put at the front of the queue of its height, and
    /// no node rises to which no path of clean edges leads from the node.
    pub open spec fn requested(
        &self,
        after: &Self,
        key: NodeKey,
        necessary: bool,
        r: Result<Poll, EngineError>,
    ) -> bool {
        let child = key.ptr as int;
        let node = self.node as int;
        let c = self.graph.nodes@[child];
        let n = self.graph.nodes@[node];
        let below = c.ptrs.height < n.ptrs.height;
        let ready = c.ptrs.recalc_state == RecalcState::Ready;
        let wants = necessary && n.in_demand();
        &&& below && ready ==> {
            &&& r == Ok::<Poll, EngineError>(compare_stamps(c.last_update, n.last_ready))
            &&& after.pending_on_anchor_get == self.pending_on_anchor_get
            &&& after.graph.nodes@[child].parents() == (if c.ptrs.clean_parent0 is None {
                seq![self.graph.key_of(node)] + c.parents()
            } else {
                c.parents().push(self.graph.key_of(node))
            })
        }
        &&& below && !ready ==> {
            &&& c.ptrs.recalc_state == RecalcState::Needed && c.ptrs.height
                >= self.graph.max_height() ==> r == Err::<Poll, EngineError>(
                EngineError::HeightLimit,
            )
            &&& c.ptrs.recalc_state == RecalcState::Pending || c.ptrs.height
                < self.graph.max_height() ==> r == Ok::<Poll, EngineError>(Poll::Pending)
            &&& r is Ok ==> after.graph.nodes@[child].parents() == c.parents()
        }
        &&& !below ==> {
            &&& r is Ok ==> r == Ok::<Poll, EngineError>(Poll::Pending)
            &&& r is Err ==> r->Err_0 == EngineError::Cycle || r->Err_0 == EngineError::HeightLimit
            &&& child == node ==> r == Err::<Poll, EngineError>(EngineError::Cycle)
        }
        &&& below ==> forall|i: int|
            0 <= i < self.graph.len() ==> (#[trigger] after.graph.nodes@[i]).ptrs.height
                == self.graph.nodes@[i].ptrs.height
        &&& !below && self.graph.room_to_rise(child, node) ==> {
            &&& reaches(&self.graph, node, child) ==> r == Err::<Poll, EngineError>(
                EngineError::Cycle,
            )
            &&& !reaches(&self.graph, node, child) && ready ==> r == Ok::<Poll, EngineError>(
                Poll::Pending,
            )
            &&& !reaches(&self.graph, node, child) && !ready ==> (r is Err
                <==> c.ptrs.recalc_state == RecalcState::Needed && c.ptrs.height
                >= self.graph.max_height()) && (r is Err ==> r == Err::<Poll, EngineError>(
                EngineError::HeightLimit,
            ))
        }
        &&& forall|i: int|
            0 <= i < self.graph.len() ==> {
                let n = #[trigger] after.graph.nodes@[i];
                let o = self.graph.nodes@[i];
                &&& i != child ==> n.necessary_count == o.necessary_count && n.parents()
                    == o.parents() && n.ptrs.recalc_state == o.ptrs.recalc_state
                &&& i != node ==> n.children() == o.children()
            }
        &&& forall|i: int|
            0 <= i < self.graph.len() && !reaches(&self.graph, node, i) ==> (
            #[trigger] after.graph.nodes@[i]).ptrs.height == self.graph.nodes@[i].ptrs.height
        &&& after.graph.recalc_queues@.len() == self.graph.recalc_queues@.len()
        &&& ready || r is Err ==> after.graph.queues@ == self.graph.queues@
        &&& !ready && r is Ok ==> after.graph.queues@ == (if c.ptrs.recalc_state
            == RecalcState::Pending {
            self.graph.queues@
        } else {
            self.graph.queues@.update(
                c.ptrs.height as int,
                seq![child as usize] + self.graph.queues@[c.ptrs.height as int],
            )
        })
        &&& !(below && ready) ==> after.graph.nodes@[child].parents() == c.parents()
        &&& ready ==> after.graph.nodes@[child].ptrs.recalc_state == RecalcState::Ready
        &&& !wants ==> after.graph.nodes@[child].necessary_count == c.necessary_count
            && after.graph.nodes@[node].children() == n.children()
        &&& r is Ok && !below ==> after.graph.nodes@[node].ptrs.height == c.ptrs.height + 1
        &&& r is Err ==> after.graph.climbed_from(&self.graph)
        &&& r is Ok && !ready ==> after.graph.nodes@[child].ptrs.recalc_state
            == RecalcState::Pending
        &&& r is Ok && wants && (below || !ready) ==> after.graph.nodes@[child].necessary_count
            == c.necessary_count + (if self.graph.lists_child(node, key) {
            0int
        } else {
            1int
        })
        &&& r is Ok ==> !reaches(&self.graph, node, child)
        &&& r == Err::<Poll, EngineError>(EngineError::Cycle) ==> reaches(&self.graph, node, child)
        &&& r == Ok::<Poll, EngineError>(Poll::Pending) ==> after.pending_on_anchor_get
            && after.graph.nodes@[child].ptrs.recalc_state != RecalcState::Needed
        &&& r is Ok ==> {
            &&& after.graph.nodes@[node].ptrs.height > after.graph.nodes@[child].ptrs.height
            &&& after.graph.nodes@[child].ptrs.height == c.ptrs.height
            &&& after.graph.climbed_and_linked(&self.graph)
            &&& wants && (below || !ready) ==> after.graph.lists_child(node, key)
            &&& !wants || (!below && ready) ==> forall|i: int|
                0 <= i < self.graph.len() ==> (#[trigger] after.graph.nodes@[i]).children()
                    == self.graph.nodes@[i].children() && after.graph.nodes@[i].necessary_count
                    == self.graph.nodes@[i].necessary_count
        }
    }

    /// What dropping the request for the node that `key` names does, in a
    /// context that is in order. `after` is the context after it.
    ///
    /// The input is no longer a necessary child of the node that is being
    /// polled, and is counted less if it was one. If that leaves it without
    /// demand, it gives up its own necessary children, and so on. An input
    /// that is still in demand keeps its own, and no other node changes.
    pub open spec fn unrequested(&self, after: &Self, key: NodeKey) -> bool {
        let child = key.ptr as int;
        let node = self.node as int;
        let listed = self.g().lists_child(node, key);
        &&& after.g().shrunk_from(&self.g())
        &&& !after.g().lists_child(node, key)
        &&& after.g().nodes@[child].necessary_count == self.g().nodes@[child].necessary_count - (
        if listed {
            1int
        } else {
            0int
        })
        &&& after.pending_on_anchor_get == self.pending_on_anchor_get
        &&& after.g().nodes@[child].in_demand() ==> forall|i: int|
            0 <= i < self.g().len() ==> (i != node ==> (#[trigger] after.g().nodes@[i]).children()
                == self.g().nodes@[i].children()) && (i != child
                ==> after.g().nodes@[i].necessary_count == self.g().nodes@[i].necessary_count)
        &&& after.g().settled(child)
        &&& forall|i: int|
            0 <= i < self.g().len() && #[trigger] self.g().settled(i) ==> after.g().settled(i)
        &&& forall|i: int|
            0 <= i < self.g().len() && i != node && #[trigger] after.g().gave_up(&self.g(), i)
                ==> after.g().released_by(&self.g(), child, i)
    }

    /// The context of a poll of the node in slot `node`.
    pub fn new(graph: Graph<C>, node: usize, generation: Generation) -> (r: Self)
        ensures
            r.graph == graph,
            r.node == node,
            r.generation == generation,
            !r.pending_on_anchor_get,
            r.events@.len() == 0,
            r.origin@ == graph,
    {
        EngineContextMut {
            graph,
            node,
            generation,
            pending_on_anchor_get: false,
            events: Ghost(Seq::empty()),
            origin: Ghost(graph),
        }
    }

    /// True when a request in this poll has answered `Pending`.
    pub fn pending_on_anchor_get(&self) -> (r: bool)
        ensures
            r == self.pending_on_anchor_get,
    {
        self.pending_on_anchor_get
    }
}

impl<C: AnchorCore> UpdateContext<C::Output> for EngineContextMut<C> {
    type Origin = Graph<C>;

    open spec fn inv(&self) -> bool {
        self.sound()
    }

    open spec fn events(&self) -> Seq<Event> {
        self.events@
    }

    open spec fn origin(&self) -> Graph<C> {
        self.origin@
    }

    open spec fn ready(&self, anchor: NodeKey) -> bool {
        self.graph.valid_key(anchor) && self.graph.nodes@[anchor.ptr as int].ptrs.recalc_state
            == RecalcState::Ready
    }

    open spec fn step(&self, after: &Self, event: Event) -> bool {
        &&& after.node == self.node
        &&& after.generation == self.generation
        &&& after.origin@ == self.origin@
        &&& match event {
            Event::Requested { anchor, necessary, answer } => self.graph.valid_key(anchor)
                && self.requested(after, anchor, necessary, Ok::<Poll, EngineError>(answer)),
            Event::Unrequested { anchor } => self.graph.valid_key(anchor) && self.unrequested(
                after,
                anchor,
            ),
            Event::Refused { anchor, error } => if !self.graph.valid_key(anchor) {
                error == EngineError::StaleKey && after.graph == self.graph
                    && after.pending_on_anchor_get == self.pending_on_anchor_get
            } else {
                exists|necessary: bool| #[trigger]
                    self.requested(after, anchor, necessary, Err::<Poll, EngineError>(error))
            },
        }
    }

    open spec fn gives(&self, anchor: NodeKey, r: Result<C::Output, EngineError>) -> bool {
        if !self.graph.valid_key(anchor) {
            r == Err::<C::Output, EngineError>(EngineError::StaleKey)
        } else if self.graph.nodes@[anchor.ptr as int].ptrs.recalc_state != RecalcState::Ready {
            r == Err::<C::Output, EngineError>(EngineError::NotReady)
        } else {
            produces(&self.graph, anchor.ptr as int, r)
        }
    }

    fn get(&self, anchor: NodeKey) -> (r: Result<&C::Output, EngineError>)
        ensures
            produces(&self.g(), anchor.ptr as int, unborrow_result(r)),
    {
        match self.graph.slot_of(anchor) {
            None => Err(EngineError::StaleKey),
            Some(node) => {
                if self.graph.nodes[node].ptrs.recalc_state != RecalcState::Ready {
                    Err(EngineError::NotReady)
                } else {
                    output_of(&self.graph, node)
                }
            },
        }
    }

    #[verifier::rlimit(60)]
    fn request(&mut self, anchor: NodeKey, necessary: bool) -> (r: Result<Poll, EngineError>)
        ensures
            final(self).node == old(self).node,
            final(self).generation == old(self).generation,
            !old(self).g().valid_key(anchor) ==> r == Err::<Poll, EngineError>(
                EngineError::StaleKey,
            ) && final(self).g() == old(self).g() && final(self).pending_on_anchor_get
                == old(self).pending_on_anchor_get,
            old(self).g().valid_key(anchor) ==> old(self).requested(final(self), anchor, necessary,
                r),
    {
        let child = match self.graph.slot_of(anchor) {
            Some(c) => c,
            None => {
                proof {
                    self.events@ = self.events@.push(
                        Event::Refused { anchor, error: EngineError::StaleKey },
                    );
                }
                return Err(EngineError::StaleKey);
            },
        };
        let ghost before = self.graph;
        let height_already_increased = match self.graph.ensure_height_increases(child, self.node) {
            Ok(v) => v,
            Err(e) => {
                proof {
                    self.events@ = self.events@.push(Event::Refused { anchor, error: e });
                    assert(old(self).requested(
                        &*self,
                        anchor,
                        necessary,
                        Err::<Poll, EngineError>(e),
                    ));
                }
                return Err(e);
            },
        };
        let ghost climbed = self.graph;
        proof {
            assert forall|i: int| 0
                <= i < climbed.nodes@.len() implies crate::height::same_but_climb(
                #[trigger] climbed.nodes@[i],
                before.nodes@[i],
            ) by {}
            assert(cores_ok(&climbed));
            assert(climbed.demand_scheduled());
            assert(climbed.stamps_ok(self.generation));
        }
        let self_is_necessary = self.graph.check_observed_raw(self.node)
            != ObservedState::Unnecessary;
        if self.graph.nodes[child].ptrs.recalc_state != RecalcState::Ready {
            self.pending_on_anchor_get = true;
            if let Err(e) = self.graph.queue_if_fits(child) {
                proof {
                    self.events@ = self.events@.push(Event::Refused { anchor, error: e });
                    assert(old(self).requested(
                        &*self,
                        anchor,
                        necessary,
                        Err::<Poll, EngineError>(e),
                    ));
                }
                return Err(e);
            }
            let ghost queued = self.graph;
            proof {
                assert forall|i: int| 0
                    <= i < queued.nodes@.len() implies crate::queue::same_but_queue(
                    #[trigger] queued.nodes@[i],
                    climbed.nodes@[i],
                ) by {}
                assert(cores_ok(&queued));
                assert(queued.demand_scheduled());
                assert(queued.stamps_ok(self.generation));
            }
            if necessary && self_is_necessary {
                NodeGuard { ptr: self.node }.add_necessary_child(&mut self.graph,
                    NodeGuard { ptr: child });
                proof {
                    queued.lemma_demand_added(&self.graph, child as int, self.generation);
                }
            }
            proof {
                self.events@ = self.events@.push(
                    Event::Requested { anchor, necessary, answer: Poll::Pending },
                );
            }
            Ok(Poll::Pending)
        } else if !height_already_increased {
            self.pending_on_anchor_get = true;
            proof {
                self.events@ = self.events@.push(
                    Event::Requested { anchor, necessary, answer: Poll::Pending },
                );
            }
            Ok(Poll::Pending)
        } else {
            NodeGuard { ptr: child }.add_clean_parent(&mut self.graph,
                NodeGuard { ptr: self.node });
            let ghost linked = self.graph;
            proof {
                assert forall|i: int| 0
                    <= i < linked.nodes@.len() implies crate::node::same_but_parents(
                    #[trigger] linked.nodes@[i],
                    climbed.nodes@[i],
                ) by {}
                assert(cores_ok(&linked));
                assert(linked.demand_scheduled());
                assert(linked.stamps_ok(self.generation));
            }
            if necessary && self_is_necessary {
                NodeGuard { ptr: self.node }.add_necessary_child(&mut self.graph,
                    NodeGuard { ptr: child });
                proof {
                    linked.lemma_demand_added(&self.graph, child as int, self.generation);
                }
            }
            let changed = self.graph.nodes[child].last_update;
            let seen = self.graph.nodes[self.node].last_ready;
            let answer = stamp_answer(changed, seen);
            proof {
                self.events@ = self.events@.push(Event::Requested { anchor, necessary, answer });
            }
            Ok(answer)
        }
    }

    fn unrequest(&mut self, anchor: NodeKey) -> (r: Result<(), EngineError>)
        ensures
            final(self).node == old(self).node,
            final(self).generation == old(self).generation,
            !old(self).g().valid_key(anchor) ==> r == Err::<(), EngineError>(
                EngineError::StaleKey,
            ) && final(self).g() == old(self).g(),
            old(self).g().valid_key(anchor) ==> r is Ok && old(self).unrequested(
                final(self),
                anchor,
            ),
    {
        let child = match self.graph.slot_of(anchor) {
            Some(c) => c,
            None => {
                proof {
                    self.events@ = self.events@.push(
                        Event::Refused { anchor, error: EngineError::StaleKey },
                    );
                }
                return Err(EngineError::StaleKey);
            },
        };
        let ghost before = self.graph;
        NodeGuard { ptr: self.node }.remove_necessary_child(&mut self.graph,
            NodeGuard { ptr: child });
        let ghost removed = self.graph;
        self.graph.update_necessary_children(child);
        proof {
            assert forall|i: int| 0
                <= i < before.nodes@.len() implies crate::node::same_but_necessary(
                #[trigger] self.graph.nodes@[i],
                before.nodes@[i],
            ) && self.graph.nodes@[i].necessary_count <= before.nodes@[i].necessary_count by {
                assert(crate::node::same_but_necessary(self.graph.nodes@[i], removed.nodes@[i]));
                assert(crate::node::same_but_necessary(removed.nodes@[i], before.nodes@[i]));
            }
            assert(cores_ok(&self.graph));
            assert(self.graph.stamps_ok(self.generation));
            assert(self.graph.demand_scheduled());
            if self.graph.nodes@[child as int].in_demand() {
                assert(crate::node::same_but_necessary(
                    self.graph.nodes@[child as int],
                    removed.nodes@[child as int],
                ));
                assert(removed.nodes@[child as int].in_demand());
                assert forall|i: int| 0 <= i < before.len() implies (i != self.node ==> (
                #[trigger] self.graph.nodes@[i]).children() == before.nodes@[i].children()) && (i
                    != child ==> self.graph.nodes@[i].necessary_count
                    == before.nodes@[i].necessary_count) by {
                    assert(self.graph.nodes@[i] == removed.nodes@[i]);
                }
            }
            assert forall|i: int, k: NodeKey|
                0 <= i < self.graph.nodes@.len()
                    && #[trigger] self.graph.nodes@[i].children().contains(
                    k,
                ) implies before.nodes@[i].children().contains(k) by {
                assert(removed.nodes@[i].children().contains(k));
                if i == self.node {
                    assert(removed.nodes@[i].children().to_set().contains(k));
                }
            }
            if !self.graph.lists_child(self.node as int, anchor) {
            } else {
                assert(removed.nodes@[self.node as int].children().contains(anchor));
                assert(removed.nodes@[self.node as int].children().to_set().contains(anchor));
            }
            let at = self.node as int;
            assert forall|i: int|
                0 <= i < before.nodes@.len() && #[trigger] before.settled(i)
                    implies self.graph.settled(i) by {
                assert(crate::node::same_but_necessary(removed.nodes@[i], before.nodes@[i]));
                if i == child {
                } else if i == at {
                    if removed.nodes@[i].children().len() > 0 {
                        let k = removed.nodes@[i].children()[0];
                        assert(removed.nodes@[i].children().contains(k));
                        assert(removed.nodes@[i].children().to_set().contains(k));
                        assert(before.nodes@[i].children().contains(k));
                    }
                    assert(removed.settled(i));
                } else {
                    assert(removed.settled(i));
                }
            }
            assert forall|i: int|
                0 <= i < before.nodes@.len() && i != at && #[trigger] self.graph.gave_up(
                    &before,
                    i,
                ) implies self.graph.released_by(&before, child as int, i) by {
                assert(self.graph.gave_up(&removed, i));
                assert(self.graph.released_by(&removed, child as int, i));
                if i != child {
                    let p = choose|p: int|
                        0 <= p < removed.nodes@.len() && #[trigger] self.graph.gave_up(&removed, p)
                            && removed.lists_child(p, removed.key_of(i));
                    assert(crate::node::same_but_necessary(removed.nodes@[i], before.nodes@[i]));
                    assert(removed.key_of(i) == before.key_of(i));
                    if p == at {
                        let k = before.key_of(i);
                        assert(removed.nodes@[p].children().to_set().contains(k));
                        assert(before.nodes@[p].children().contains(k));
                    }
                    assert(self.graph.gave_up(&before, p));
                    assert(before.lists_child(p, before.key_of(i)));
                }
            }
            self.events@ = self.events@.push(Event::Unrequested { anchor });
        }
        Ok(())
    }

    fn dirty_handle(&mut self) -> (r: DirtyHandle)
        ensures
            r.key == old(self).g().key_of(old(self).node as int),
            *final(self) == *old(self),
    {
        DirtyHandle { key: NodeGuard { ptr: self.node }.key(&self.graph) }
    }
}

} // verus!
