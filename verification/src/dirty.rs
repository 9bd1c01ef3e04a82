//! How the news of a change travels from a node to the nodes that read it.

use vstd::prelude::*;
use crate::expert::{AnchorCore, EngineError};
use crate::generation::Generation;
use crate::graph::Graph;
use crate::node::{same_structure, Node, NodeKey, RecalcState};
use crate::node_guard::NodeGuard;

verus! {

/// What the state of a node is allowed to become while a change spreads.
pub open spec fn dirtied<C>(a: Node<C>, b: Node<C>) -> bool {
    &&& a.observed == b.observed
    &&& a.visited == b.visited
    &&& a.necessary_count == b.necessary_count
    &&& a.token == b.token
    &&& a.last_ready == b.last_ready
    &&& a.last_update == b.last_update
    &&& a.anchor is Some == b.anchor is Some
    &&& a.ptrs.necessary_children == b.ptrs.necessary_children
    &&& a.ptrs.height == b.ptrs.height
    &&& a.ptrs.handle_count == b.ptrs.handle_count
    &&& a.parents() == b.parents() || a.parents().len() == 0
    &&& a.ptrs.recalc_state == b.ptrs.recalc_state || (b.in_demand() && a.ptrs.recalc_state
        == RecalcState::Pending) || (!b.in_demand() && b.ptrs.recalc_state == RecalcState::Ready
        && a.ptrs.recalc_state == RecalcState::Needed)
}

/// What may become of a node while a change spreads: nothing but what its
/// computation remembers changes; or it has demand and is queued; or it has
/// none, was `Ready`, and is `Needed` now and without clean parents.
pub open spec fn spread<C>(a: Node<C>, b: Node<C>) -> bool {
    &&& dirtied(a, b)
    &&& a.parents() == b.parents() || (!b.in_demand() && b.ptrs.recalc_state
        == RecalcState::Ready && a.ptrs.recalc_state == RecalcState::Needed)
}

/// Every computation in the graph can be called.
pub open spec fn cores_ok<C: AnchorCore>(g: &Graph<C>) -> bool {
    forall|i: int|
        0 <= i < g.nodes@.len() && (#[trigger] g.nodes@[i]).anchor is Some
            ==> g.nodes@[i].anchor->0.core_inv()
}

impl<C> Graph<C> {
    /// Every live node that is observed or necessary is ready or queued.
    pub open spec fn demand_scheduled(&self) -> bool {
        forall|i: int|
            0 <= i < self.nodes@.len() && (#[trigger] self.nodes@[i]).alive()
                && self.nodes@[i].in_demand() ==> self.nodes@[i].ptrs.recalc_state
                != RecalcState::Needed
    }

    /// `self` is what `before` may become while a change spreads: no node
    /// comes or goes, and each keeps all but its clean parents, its place in
    /// the queue, and what its computation remembers.
    pub open spec fn dirtied_from(&self, before: &Graph<C>) -> bool {
        &&& self.nodes@.len() == before.nodes@.len()
        &&& self.token == before.token
        &&& self.free_list@ == before.free_list@
        &&& self.recalc_queues@.len() == before.recalc_queues@.len()
        &&& forall|i: int|
            0 <= i < self.nodes@.len() ==> dirtied(#[trigger] self.nodes@[i], before.nodes@[i])
    }

    /// `self` is what `before` may become while a change spreads.
    pub open spec fn spread_from(&self, before: &Graph<C>) -> bool {
        &&& self.dirtied_from(before)
        &&& forall|i: int|
            0 <= i < self.nodes@.len() ==> spread(#[trigger] self.nodes@[i], before.nodes@[i])
    }

    /// The node in slot `i` was `Ready` in `before` and is `Needed` in
    /// `self`.
    pub open spec fn went_stale(&self, before: &Graph<C>, i: int) -> bool {
        before.nodes@[i].ptrs.recalc_state == RecalcState::Ready
            && self.nodes@[i].ptrs.recalc_state == RecalcState::Needed
    }

    /// The node in slot `i` has another state in `self` than in `before`.
    pub open spec fn touched(&self, before: &Graph<C>, i: int) -> bool {
        self.nodes@[i].ptrs.recalc_state != before.nodes@[i].ptrs.recalc_state
    }

    /// No clean parent that the node in slot `i` had in `before` is `Ready`
    /// in `self`.
    pub open spec fn warned(&self, before: &Graph<C>, i: int) -> bool {
        forall|j: int|
            0 <= j < before.nodes@[i].parents().len() && before.valid_key(
                #[trigger] before.nodes@[i].parents()[j],
            ) ==> self.nodes@[before.nodes@[i].parents()[j].ptr as int].ptrs.recalc_state
                != RecalcState::Ready
    }

    /// The change has gone on from the node in slot `c`: it is `start`, or it
    /// went stale.
    pub open spec fn passed(&self, before: &Graph<C>, start: int, c: int) -> bool {
        c == start || self.went_stale(before, c)
    }

    /// The node in slot `i` is `start`, or was a clean parent of `start` or
    /// of a node that went stale.
    pub open spec fn traced(&self, before: &Graph<C>, start: int, i: int) -> bool {
        i == start || (before.alive(i) && exists|c: int|
            0 <= c < before.nodes@.len() && #[trigger] self.passed(before, start, c)
                && before.nodes@[c].parents().contains(before.key_of(i)))
    }

    /// The change has spread from `start` as far as it has to and no
    /// further: no clean parent of a node that went stale is still `Ready`,
    /// and every node whose state has changed is `start`, or was a clean
    /// parent of `start` or of a node that went stale.
    pub open spec fn spread_in_turn(&self, before: &Graph<C>, start: int) -> bool {
        &&& forall|i: int|
            0 <= i < before.nodes@.len() && #[trigger] self.went_stale(before, i) ==> self.warned(
                before,
                i,
            )
        &&& forall|i: int|
            0 <= i < before.nodes@.len() && #[trigger] self.touched(before, i) ==> self.traced(
                before,
                start,
                i,
            )
    }

    /// `self` is what `before` may become while a change spreads from
    /// `start`, whose own state is set by the caller.
    pub open spec fn spread_above(&self, before: &Graph<C>, start: int) -> bool {
        &&& self.dirtied_from(before)
        &&& forall|i: int|
            0 <= i < self.nodes@.len() && i != start ==> spread(
                #[trigger] self.nodes@[i],
                before.nodes@[i],
            )
    }

    /// Spreading on: `self` has become `mid` while a change spread from
    /// `start`, whose clean parent `p` was then told; from there `after` has
    /// come while the change spread from `p`. Then the change has spread in
    /// turn from `start`, but for the clean parents of `start` that were not
    /// looked at yet.
    pub proof fn lemma_spread_on(
        &self,
        mid: &Graph<C>,
        told: &Graph<C>,
        after: &Graph<C>,
        start: int,
        p: int,
    )
        requires
            self.in_range(start),
            self.in_range(p),
            p != start,
            mid.spread_above(self, start),
            after.spread_from(told),
            after.nodes@[start] == told.nodes@[start],
            told.dirtied_from(mid),
            forall|i: int|
                0 <= i < mid.nodes@.len() ==> (#[trigger] told.nodes@[i]).ptrs == mid.nodes@[i].ptrs
                    && dirtied(told.nodes@[i], mid.nodes@[i]),
            self.alive(p),
            self.nodes@[start].parents().contains(self.key_of(p)),
            after.spread_in_turn(told, p),
            forall|i: int|
                0 <= i < told.nodes@.len() && i != p && #[trigger] after.touched(told, i)
                    ==> after.went_stale(told, p),
            forall|i: int|
                0 <= i < self.nodes@.len() && i != start && #[trigger] mid.went_stale(self, i)
                    ==> mid.warned(self, i),
            forall|i: int|
                0 <= i < self.nodes@.len() && #[trigger] mid.touched(self, i) ==> mid.traced(
                    self,
                    start,
                    i,
                ),
        ensures
            after.spread_above(self, start),
            forall|i: int|
                0 <= i < self.nodes@.len() && i != start && #[trigger] after.went_stale(self, i)
                    ==> after.warned(self, i),
            forall|i: int|
                0 <= i < self.nodes@.len() && #[trigger] after.touched(self, i) ==> after.traced(
                    self,
                    start,
                    i,
                ),
    {
        self.lemma_dirtied_twice(mid, told);
        self.lemma_dirtied_twice(told, after);
        assert forall|i: int| 0 <= i < self.nodes@.len() && i != start implies spread(
            #[trigger] after.nodes@[i],
            self.nodes@[i],
        ) by {
            assert(spread(after.nodes@[i], told.nodes@[i]));
            assert(spread(mid.nodes@[i], self.nodes@[i]));
            assert(told.nodes@[i].ptrs == mid.nodes@[i].ptrs);
            assert(dirtied(told.nodes@[i], mid.nodes@[i]));
        }
        assert forall|i: int|
            0 <= i < self.nodes@.len() && i != start && #[trigger] after.went_stale(
                self,
                i,
            ) implies after.warned(self, i) by {
            assert(spread(after.nodes@[i], told.nodes@[i]));
            assert(spread(mid.nodes@[i], self.nodes@[i]));
            assert(told.nodes@[i].ptrs == mid.nodes@[i].ptrs);
            assert forall|j: int|
                0 <= j < self.nodes@[i].parents().len() && self.valid_key(
                    #[trigger] self.nodes@[i].parents()[j],
                ) implies after.nodes@[self.nodes@[i].parents()[j].ptr as int].ptrs.recalc_state
                != RecalcState::Ready by {
                let k = self.nodes@[i].parents()[j];
                let q = k.ptr as int;
                assert(dirtied(after.nodes@[q], told.nodes@[q]));
                assert(dirtied(mid.nodes@[q], self.nodes@[q]));
                assert(told.nodes@[q].ptrs == mid.nodes@[q].ptrs);
                assert(dirtied(told.nodes@[q], mid.nodes@[q]));
                if mid.went_stale(self, i) {
                    assert(mid.warned(self, i));
                } else {
                    assert(after.went_stale(told, i));
                    assert(after.warned(told, i));
                    assert(told.nodes@[i].parents() == self.nodes@[i].parents());
                    assert(told.valid_key(k));
                }
            }
        }
        assert forall|i: int|
            0 <= i < self.nodes@.len() && #[trigger] after.touched(self, i) implies after.traced(
            self,
            start,
            i,
        ) by {
            assert(dirtied(after.nodes@[i], told.nodes@[i]));
            assert(dirtied(mid.nodes@[i], self.nodes@[i]));
            assert(told.nodes@[i].ptrs == mid.nodes@[i].ptrs);
            assert(dirtied(told.nodes@[i], mid.nodes@[i]));
            if i != start {
                if mid.touched(self, i) {
                    assert(mid.traced(self, start, i));
                    let c = choose|c: int|
                        0 <= c < self.nodes@.len() && #[trigger] mid.passed(self, start, c)
                            && self.nodes@[c].parents().contains(self.key_of(i));
                    if c != start {
                        assert(spread(after.nodes@[c], told.nodes@[c]));
                        assert(told.nodes@[c].ptrs == mid.nodes@[c].ptrs);
                        assert(dirtied(told.nodes@[c], mid.nodes@[c]));
                        assert(spread(mid.nodes@[c], self.nodes@[c]));
                        assert(after.went_stale(self, c));
                    }
                    assert(after.passed(self, start, c));
                } else {
                    assert(after.touched(told, i));
                    assert(after.traced(told, p, i));
                    if i == p {
                        assert(after.passed(self, start, start));
                    } else {
                        let c = choose|c: int|
                            0 <= c < told.nodes@.len() && #[trigger] after.passed(told, p, c)
                                && told.nodes@[c].parents().contains(told.key_of(i));
                        assert(told.nodes@[c].ptrs == mid.nodes@[c].ptrs);
                        assert(dirtied(told.nodes@[c], mid.nodes@[c]));
                        assert(told.key_of(i) == self.key_of(i));
                        if c == start {
                            assert(told.nodes@[c].parents().len() == 0 || told.nodes@[c].parents()
                                == self.nodes@[c].parents()) by {
                                assert(dirtied(mid.nodes@[c], self.nodes@[c]));
                            }
                        } else {
                            assert(spread(mid.nodes@[c], self.nodes@[c]));
                            assert(after.went_stale(told, c));
                            assert(told.nodes@[c].parents() == self.nodes@[c].parents());
                            assert(after.went_stale(self, c));
                        }
                        assert(after.passed(self, start, c));
                    }
                }
            }
        }
    }

    /// A change that spreads and spreads again has spread.
    pub proof fn lemma_spread_twice(&self, mid: &Graph<C>, after: &Graph<C>)
        requires
            mid.spread_from(self),
            after.spread_from(mid),
        ensures
            after.spread_from(self),
    {
        self.lemma_dirtied_twice(mid, after);
        assert forall|i: int| 0 <= i < after.nodes@.len() implies spread(
            #[trigger] after.nodes@[i],
            self.nodes@[i],
        ) by {
            assert(spread(after.nodes@[i], mid.nodes@[i]));
            assert(spread(mid.nodes@[i], self.nodes@[i]));
        }
    }

    /// Spreading twice is spreading.
    pub proof fn lemma_dirtied_twice(&self, mid: &Graph<C>, after: &Graph<C>)
        requires
            mid.dirtied_from(self),
            after.dirtied_from(mid),
        ensures
            after.dirtied_from(self),
    {
        assert forall|i: int| 0 <= i < after.nodes@.len() implies dirtied(
            #[trigger] after.nodes@[i],
            self.nodes@[i],
        ) by {
            assert(dirtied(after.nodes@[i], mid.nodes@[i]));
            assert(dirtied(mid.nodes@[i], self.nodes@[i]));
        }
    }

    /// Marks a node that was `Ready` as in need of recalculation.
    pub fn needs_recalc(&mut self, node: usize)
        requires
            old(self).wf(),
            old(self).alive(node as int),
        ensures
            final(self).wf(),
            final(self).same_frame(old(self)),
            forall|i: int|
                0 <= i < old(self).len() && i != node ==> #[trigger] final(self).nodes@[i]
                    == old(self).nodes@[i],
            crate::queue::same_but_queue(
                final(self).nodes@[node as int],
                old(self).nodes@[node as int],
            ),
            final(self).nodes@[node as int].ptrs.prev == old(self).nodes@[node as int].ptrs.prev,
            final(self).nodes@[node as int].ptrs.next == old(self).nodes@[node as int].ptrs.next,
            final(self).nodes@[node as int].ptrs.recalc_state
                == (if old(self).nodes@[node as int].ptrs.recalc_state == RecalcState::Ready {
                RecalcState::Needed
            } else {
                old(self).nodes@[node as int].ptrs.recalc_state
            }),
    {
        if self.nodes[node].ptrs.recalc_state != RecalcState::Ready {
            return ;
        }
        let ghost before = *self;
        self.nodes[node].ptrs.recalc_state = RecalcState::Needed;
        proof {
            before.lemma_restate(self, node);
        }
    }

    /// The invariant survives when a node that is not queued changes between
    /// `Ready` and `Needed`.
    pub proof fn lemma_restate(&self, after: &Graph<C>, node: usize)
        requires
            self.wf(),
            self.alive(node as int),
            after.same_frame(self),
            self.nodes@[node as int].ptrs.recalc_state != RecalcState::Pending,
            after.nodes@[node as int].ptrs.recalc_state != RecalcState::Pending,
            forall|i: int|
                self.in_range(i) && i != node ==> #[trigger] after.nodes@[i] == self.nodes@[i],
            crate::queue::same_but_queue(after.nodes@[node as int], self.nodes@[node as int]),
            after.nodes@[node as int].ptrs.prev == self.nodes@[node as int].ptrs.prev,
            after.nodes@[node as int].ptrs.next == self.nodes@[node as int].ptrs.next,
        ensures
            after.wf(),
    {
        assert(after.same_but_queues(self)) by {
            assert forall|i: int| 0 <= i < after.nodes@.len() implies crate::queue::same_but_queue(
                #[trigger] after.nodes@[i],
                self.nodes@[i],
            ) by {}
        }
        self.lemma_queue_frame(after);
        self.lemma_not_queued(node);
        reveal(Graph::<_>::wf_queues);
        assert forall|i: usize|
            after.in_range(i as int) && (#[trigger] after.nodes@[i as int]).ptrs.recalc_state
                == RecalcState::Pending implies after.queued(i) by {
            assert(self.queued(i));
            let (h, k) = choose|h: int, k: int|
                self.queue_pos(h, k) && #[trigger] self.queues@[h][k] == i;
            assert(after.queue_pos(h, k) && after.queues@[h][k] == i);
        }
        assert forall|h: int, k: int| after.queue_pos(h, k) implies {
            let i = #[trigger] after.queues@[h][k];
            &&& after.alive(i as int)
            &&& after.nodes@[i as int].ptrs.recalc_state == RecalcState::Pending
            &&& h <= after.nodes@[i as int].ptrs.height
        } by {
            assert(self.queue_pos(h, k));
        }
        assert forall|h: int, k: int, k2: int|
            after.queue_pos(h, k) && after.queue_pos(h, k2) && k2 == k + 1 implies {
            &&& after.nodes@[#[trigger] after.queues@[h][k] as int].ptrs.next == Some(
                after.queues@[h][k2],
            )
            &&& after.nodes@[#[trigger] after.queues@[h][k2] as int].ptrs.prev == Some(
                after.queues@[h][k],
            )
        } by {
            assert(self.queue_pos(h, k) && self.queue_pos(h, k2));
        }
        assert forall|h: int| 0
            <= h < after.queues@.len() implies match #[trigger] after.recalc_queues@[h] {
            None => after.queues@[h].len() == 0,
            Some(i) => after.queues@[h].len() > 0 && after.queues@[h][0] == i
                && after.nodes@[i as int].ptrs.prev is None,
        } by {
            if self.queues@[h].len() > 0 {
                assert(self.queue_pos(h, 0));
            }
        }
        assert forall|h: int|
            0 <= h < after.queues@.len() && (#[trigger] after.queues@[h]).len() > 0 implies {
            &&& after.nodes@[after.queues@[h][after.queues@[h].len() - 1] as int].ptrs.next is None
            &&& after.recalc_min_height <= h <= after.recalc_max_height
        } by {
            assert(self.queue_pos(h, self.queues@[h].len() - 1));
        }
    }
}

impl<C: AnchorCore> Graph<C> {
    /// `self` is what `before` becomes when the computation in slot `parent`
    /// is told that its input `child` may have changed, and `r` what telling
    /// it returns. Nothing changes but that computation, which is afterwards
    /// what its own `mark_dirty` makes of it.
    pub open spec fn told_from(
        &self,
        before: &Graph<C>,
        parent: int,
        child: NodeKey,
        r: Result<(), EngineError>,
    ) -> bool {
        &&& self.wf()
        &&& cores_ok(self)
        &&& self.same_structure(before)
        &&& self.dirtied_from(before)
        &&& forall|i: int|
            0 <= i < before.len() && i != parent ==> #[trigger] self.nodes@[i]
                == before.nodes@[i]
        &&& self.nodes@[parent].ptrs == before.nodes@[parent].ptrs
        &&& self.nodes@[parent].observed == before.nodes@[parent].observed
        &&& self.nodes@[parent].last_ready
            == before.nodes@[parent].last_ready
        &&& self.nodes@[parent].last_update
            == before.nodes@[parent].last_update
        &&& match before.nodes@[parent].anchor {
            None => r is Ok && self.nodes@[parent].anchor is None,
            Some(core) => self.nodes@[parent].anchor is Some && core.marks(
                child,
                &self.nodes@[parent].anchor->0,
                r,
            ),
            }
    }

    /// `self` is what `before` becomes when the news of a change of the node
    /// that `id` names is passed to the clean parent that `key` names, and
    /// `r` says how that ended. A key that names no live node is passed
    /// over. Otherwise the parent is told; if its computation refuses, that
    /// is the end. If not, the parent is marked dirty.
    pub open spec fn passed_to(
        &self,
        before: &Graph<C>,
        key: NodeKey,
        id: NodeKey,
        r: Result<(), EngineError>,
    ) -> bool {
        if !before.valid_key(key) {
            *self == *before && r is Ok
        } else {
            exists|told: Graph<C>, rt: Result<(), EngineError>|
                {
                    &&& #[trigger] told.told_from(before, key.ptr as int, id, rt)
                    &&& match rt {
                        Err(e) => r == Err::<(), EngineError>(e) && *self == told,
                        Ok(_) => self.dirtied_by(&told, key.ptr as int, r),
                    }
                }
        }
    }

    /// `self` is `before` without the clean parents of the node in slot
    /// `node`.
    pub open spec fn drained_from(&self, before: &Graph<C>, node: int) -> bool {
        &&& self.same_but_parents(before)
        &&& self.nodes@[node].parents().len() == 0
        &&& forall|i: int|
            0 <= i < before.len() && i != node ==> #[trigger] self.nodes@[i] == before.nodes@[i]
    }

    /// `self` is what `before` becomes when the node in slot `node`, whose
    /// output has changed, forgets its clean parents and passes the news on
    /// to each of them in turn, and `r` says how that ended.
    pub open spec fn skipped_from(
        &self,
        before: &Graph<C>,
        node: int,
        r: Result<(), EngineError>,
    ) -> bool {
        exists|drained: Graph<C>|
            {
                &&& #[trigger] drained.drained_from(before, node)
                &&& news_spread(
                    &drained,
                    self,
                    before.nodes@[node].parents(),
                    before.key_of(node),
                    r,
                )
            }
    }
}

/// The graphs of `trail` lead from `before` to `after`: each is what the one
/// before it becomes when the news is passed to the next of the first `n`
/// parents without an error.
pub open spec fn news_trail<C: AnchorCore>(
    trail: Seq<Graph<C>>,
    before: &Graph<C>,
    after: &Graph<C>,
    parents: Seq<NodeKey>,
    id: NodeKey,
    n: nat,
) -> bool {
    &&& trail.len() == n + 1
    &&& trail[0] == *before
    &&& trail[n as int] == *after
    &&& forall|i: int|
        0 <= i < n ==> (#[trigger] trail[i + 1]).passed_to(
            &trail[i],
            parents[i],
            id,
            Ok::<(), EngineError>(()),
        )
}

/// `after` is what `before` becomes when the news of a change of the node
/// that `id` names is passed to each of the parents in turn, and `r` says
/// how that ended: with all parents served, or with the error of the first
/// one that could not be.
pub open spec fn news_spread<C: AnchorCore>(
    before: &Graph<C>,
    after: &Graph<C>,
    parents: Seq<NodeKey>,
    id: NodeKey,
    r: Result<(), EngineError>,
) -> bool {
    match r {
        Ok(_) => exists|trail: Seq<Graph<C>>| #[trigger]
            news_trail(trail, before, after, parents, id, parents.len()),
        Err(e) => exists|trail: Seq<Graph<C>>, mid: Graph<C>, n: nat|
            {
                &&& n < parents.len()
                &&& #[trigger] news_trail(trail, before, &mid, parents, id, n)
                &&& after.passed_to(&mid, parents[n as int], id, Err::<(), EngineError>(e))
            },
    }
}

/// Tells the computation in slot `parent`, if there is one, that its input
/// `child` may have changed: the computation is afterwards what its own
/// `mark_dirty` makes of it, and what that returns is returned.
pub fn tell_parent<C: AnchorCore>(graph: &mut Graph<C>, parent: usize, child: NodeKey) -> (r:
    Result<(), EngineError>)
    requires
        old(graph).wf(),
        cores_ok(old(graph)),
        old(graph).alive(parent as int),
    ensures
        final(graph).told_from(old(graph), parent as int, child, r),
{
    let ghost before = *graph;
    let taken = graph.nodes[parent].anchor.take();
    match taken {
        None => {
            proof {
                reveal(Graph::<_>::wf_dead);
                assert(graph.nodes@ =~= before.nodes@);
                before.lemma_keep(graph);
            }
            Ok(())
        },
        Some(mut core) => {
            let r = core.mark_dirty(child);
            graph.nodes[parent].anchor = Some(core);
            proof {
                reveal(Graph::<_>::wf_dead);
                assert forall|j: int| 0 <= j < graph.nodes@.len() implies same_structure(
                    #[trigger] graph.nodes@[j],
                    before.nodes@[j],
                ) by {}
                before.lemma_keep(graph);
            }
            r
        },
    }
}

impl<C: AnchorCore> Graph<C> {
    /// What marking the node in slot `next` dirty makes of the graph, as far
    /// as it can be said without the steps that it takes. `self` is the
    /// graph after it, `before` the graph before it, and `r` what it returns.
    ///
    /// A node that is observed or necessary is queued for recalculation, and
    /// nothing else changes; that fails with `HeightLimit` exactly when the
    /// node is not queued yet and stands at or above the maximum height. Any
    /// other node that is not `Ready` is left as it is. One that is `Ready`
    /// becomes `Needed` and forgets its clean parents, each of which is told
    /// and marked in turn.
    pub open spec fn dirtied_by(
        &self,
        before: &Graph<C>,
        next: int,
        r: Result<(), EngineError>,
    ) -> bool {
        &&& self.wf()
        &&& cores_ok(self)
        &&& self.demand_scheduled()
        &&& self.dirtied_from(before)
        &&& self.spread_from(before)
        &&& r is Ok ==> self.spread_in_turn(before, next)
        &&& forall|i: int|
            0 <= i < before.len() && i != next && #[trigger] self.touched(before, i)
                ==> self.went_stale(before, next)
        &&& forall|i: int|
            0 <= i < before.len()
                && before.nodes@[i].ptrs.height < before.nodes@[next].ptrs.height
                ==> #[trigger] self.nodes@[i] == before.nodes@[i]
        &&& r is Ok ==> self.nodes@[next].ptrs.recalc_state != RecalcState::Ready
        &&& before.nodes@[next].in_demand() ==> {
            &&& self.same_but_queues(before)
            &&& r is Ok ==> self.nodes@[next].ptrs.recalc_state
                == RecalcState::Pending
            &&& r is Err <==> before.nodes@[next].ptrs.recalc_state
                != RecalcState::Pending && before.nodes@[next].ptrs.height
                    >= before.max_height()
            &&& r is Err ==> r == Err::<(), EngineError>(EngineError::HeightLimit) && *self
                == *before
        }
        &&& !before.nodes@[next].in_demand()
            && before.nodes@[next].ptrs.recalc_state != RecalcState::Ready ==> r is Ok
            && *self
            == *before
        &&& !before.nodes@[next].in_demand()
            && before.nodes@[next].ptrs.recalc_state == RecalcState::Ready
            ==> self.nodes@[next].ptrs.recalc_state == RecalcState::Needed
            && self.nodes@[next].parents().len() == 0
        &&& !before.nodes@[next].in_demand() && before.nodes@[next].ptrs.recalc_state
            == RecalcState::Ready && (forall|a: int|
            0 <= a < before.nodes@[next].parents().len() ==> !before.valid_key(
                #[trigger] before.nodes@[next].parents()[a],
            )) ==> r is Ok
    }

    /// `self` is `before` but that the node in slot `node`, which was
    /// `Ready`, is `Needed`.
    pub open spec fn stale_from(&self, before: &Graph<C>, node: int) -> bool {
        &&& self.same_frame(before)
        &&& forall|i: int|
            0 <= i < before.len() && i != node ==> #[trigger] self.nodes@[i] == before.nodes@[i]
        &&& crate::queue::same_but_queue(self.nodes@[node], before.nodes@[node])
        &&& self.nodes@[node].ptrs.prev == before.nodes@[node].ptrs.prev
        &&& self.nodes@[node].ptrs.next == before.nodes@[node].ptrs.next
        &&& self.nodes@[node].ptrs.recalc_state == RecalcState::Needed
    }

    /// `self` is what `before` becomes when the node in slot `next` is marked
    /// dirty, and `r` what marking it returns: what `dirtied_by` says, and
    /// for a node without demand that was `Ready`, that the node has become
    /// `Needed`, has forgotten its clean parents, and has passed the news on
    /// to each of them in turn.
    pub open spec fn marked_from(
        &self,
        before: &Graph<C>,
        next: int,
        r: Result<(), EngineError>,
    ) -> bool {
        &&& self.dirtied_by(before, next, r)
        &&& !before.nodes@[next].in_demand() && before.nodes@[next].ptrs.recalc_state
            == RecalcState::Ready ==> exists|stale: Graph<C>|
            {
                &&& #[trigger] stale.stale_from(before, next)
                &&& self.skipped_from(&stale, next, r)
            }
    }
}

/// Spreads the news that the output of `next` may have changed. A node that
/// is observed or necessary is queued for recalculation. Any other node that
/// was `Ready` becomes `Needed`, forgets its clean parents, and the news goes
/// on to each of them.
pub fn mark_dirty0<C: AnchorCore>(graph: &mut Graph<C>, next: usize) -> (r: Result<
    (),
    EngineError,
>)
    requires
        old(graph).wf(),
        cores_ok(old(graph)),
        old(graph).demand_scheduled(),
        old(graph).alive(next as int),
    ensures
        final(graph).marked_from(old(graph), next as int, r),
    decreases usize::MAX - old(graph).nodes@[next as int].ptrs.height, 1nat,
{
    let ghost before = *graph;
    let id = NodeGuard { ptr: next }.key(graph);
    if graph.nodes[next].observed || graph.nodes[next].necessary_count > 0 {
        let r = graph.queue_if_fits(next);
        proof {
            assert forall|i: int| 0 <= i < graph.nodes@.len() implies spread(
                #[trigger] graph.nodes@[i],
                before.nodes@[i],
            ) && dirtied(graph.nodes@[i], before.nodes@[i]) && (graph.nodes@[i].anchor
                == before.nodes@[i].anchor) && (i != next ==> !graph.touched(&before, i)) by {
                assert(crate::queue::same_but_queue(graph.nodes@[i], before.nodes@[i]));
                if i != next && before.nodes@[next as int].ptrs.recalc_state
                    != RecalcState::Pending && r is Ok {
                    assert(graph.nodes@[i].ptrs.recalc_state
                        == before.nodes@[i].ptrs.recalc_state);
                }
            }
        }
        return r;
    }
    if graph.nodes[next].ptrs.recalc_state != RecalcState::Ready {
        proof {
            before.lemma_dirtied_twice(&before, &before);
        }
        return Ok(());
    }
    graph.needs_recalc(next);
    let ghost g1 = *graph;
    let parents = NodeGuard { ptr: next }.drain_clean_parents(graph);
    let ghost g2 = *graph;
    proof {
        g1.lemma_parents_ok(next as int);
        assert forall|i: int| 0 <= i < graph.nodes@.len() implies spread(
            #[trigger] graph.nodes@[i],
            before.nodes@[i],
        ) && dirtied(graph.nodes@[i], before.nodes@[i]) && (graph.nodes@[i].anchor
            == before.nodes@[i].anchor) && (i != next ==> graph.nodes@[i]
            == before.nodes@[i]) by {
            assert(crate::node::same_but_parents(g2.nodes@[i], g1.nodes@[i]));
            assert(crate::queue::same_but_queue(g1.nodes@[i], before.nodes@[i]));
        }
        assert(cores_ok(graph));
    }
    let spread_on = spread_to_parents(graph, next, &parents, id, Ghost(before));
    proof {
        assert(g1.stale_from(&before, next as int));
        assert(g2.drained_from(&g1, next as int));
        assert(g1.nodes@[next as int].parents() == before.nodes@[next as int].parents()) by {
            assert(crate::queue::same_but_queue(g1.nodes@[next as int],
                before.nodes@[next as int]));
        }
        assert(g1.key_of(next as int) == id);
        assert(graph.skipped_from(&g1, next as int, spread_on));
        assert forall|i: int| 0 <= i < graph.nodes@.len() implies spread(
            #[trigger] graph.nodes@[i],
            before.nodes@[i],
        ) by {}
    }
    spread_on
}

/// Tells each clean parent that `start` had in `before`, and spreads the
/// news of the change on from it. Keys that name no live node are passed
/// over: where no key names one, nothing changes and nothing can fail.
#[verifier::rlimit(40)]
fn spread_to_parents<C: AnchorCore>(
    graph: &mut Graph<C>,
    start: usize,
    parents: &Vec<NodeKey>,
    id: NodeKey,
    Ghost(before): Ghost<Graph<C>>,
) -> (r: Result<(), EngineError>)
    requires
        old(graph).wf(),
        cores_ok(old(graph)),
        old(graph).demand_scheduled(),
        before.wf(),
        before.alive(start as int),
        old(graph).spread_above(&before, start as int),
        old(graph).nodes@[start as int].parents().len() == 0,
        parents@ == before.nodes@[start as int].parents(),
        forall|i: int|
            0 <= i < before.nodes@.len() && i != start ==> #[trigger] old(graph).nodes@[i]
                == before.nodes@[i],
    ensures
        final(graph).wf(),
        cores_ok(final(graph)),
        final(graph).demand_scheduled(),
        final(graph).spread_above(&before, start as int),
        final(graph).nodes@[start as int] == old(graph).nodes@[start as int],
        forall|i: int|
            0 <= i < before.len() && before.nodes@[i].ptrs.height
                < before.nodes@[start as int].ptrs.height ==> #[trigger] final(graph).nodes@[i]
                == old(graph).nodes@[i],
        r is Ok ==> {
            &&& final(graph).warned(&before, start as int)
            &&& forall|i: int|
                0 <= i < before.nodes@.len() && i != start && #[trigger] final(graph).went_stale(
                    &before,
                    i,
                ) ==> final(graph).warned(&before, i)
            &&& forall|i: int|
                0 <= i < before.nodes@.len() && #[trigger] final(graph).touched(&before, i)
                    ==> final(graph).traced(&before, start as int, i)
        },
        (forall|a: int| 0 <= a < parents@.len() ==> !old(graph).valid_key(#[trigger] parents@[a]))
            ==> r is Ok && *final(graph) == *old(graph),
        news_spread(old(graph), final(graph), parents@, id, r),
    decreases usize::MAX - before.nodes@[start as int].ptrs.height, 0nat,
{
    let ghost entry = *graph;
    proof {
        before.lemma_parents_ok(start as int);
        assert forall|i: int| 0 <= i < before.nodes@.len() implies !graph.touched(&before, i)
            || i == start by {}
        assert forall|a: int|
            0 <= a < parents@.len() && graph.valid_key(
                #[trigger] parents@[a],
            ) implies before.nodes@[parents@[a].ptr as int].ptrs.height
            > before.nodes@[start as int].ptrs.height by {
            let k = parents@[a];
            assert(before.nodes@[start as int].parents()[a] == k);
            assert(dirtied(graph.nodes@[k.ptr as int], before.nodes@[k.ptr as int]));
            assert(before.valid_key(k));
        }
    }
    let mut j: usize = 0;
    let ghost mut trail = seq![*graph];
    while j < parents.len()
        invariant
            j <= parents.len(),
            entry == *old(graph),
            news_trail(trail, &entry, graph, parents@, id, j as nat),
            (forall|a: int| 0 <= a < j ==> !entry.valid_key(#[trigger] parents@[a])) ==> *graph
                == entry,
            forall|i: int|
                0 <= i < before.nodes@.len() && i != start ==> #[trigger] entry.nodes@[i]
                    == before.nodes@[i],
            before.alive(start as int),
            before.wf(),
            graph.wf(),
            cores_ok(graph),
            graph.demand_scheduled(),
            graph.dirtied_from(&before),
            graph.spread_above(&before, start as int),
            parents@ == before.nodes@[start as int].parents(),
            entry.nodes@[start as int].parents().len() == 0,
            entry.nodes@.len() == before.nodes@.len(),
            forall|i: int|
                0 <= i < before.len() && before.nodes@[i].ptrs.height
                    < before.nodes@[start as int].ptrs.height ==> #[trigger] graph.nodes@[i]
                    == before.nodes@[i],
            graph.nodes@[start as int] == entry.nodes@[start as int],
            forall|a: int|
                0 <= a < parents@.len() && graph.valid_key(#[trigger] parents@[a])
                    ==> before.nodes@[parents@[a].ptr as int].ptrs.height
                    > before.nodes@[start as int].ptrs.height,
            forall|i: int|
                0 <= i < before.nodes@.len() && i != start && #[trigger] graph.went_stale(&before,
                    i)
                    ==> graph.warned(&before, i),
            forall|i: int|
                0 <= i < before.nodes@.len() && #[trigger] graph.touched(&before, i)
                    ==> graph.traced(&before, start as int, i),
            forall|a: int|
                0 <= a < j && before.valid_key(#[trigger] parents@[a])
                    ==> graph.nodes@[parents@[a].ptr as int].ptrs.recalc_state
                    != RecalcState::Ready,
        decreases parents.len() - j,
    {
        let key = parents[j];
        let ghost mid = *graph;
        proof {
            assert forall|i: int| 0 <= i < before.nodes@.len() implies (
            #[trigger] mid.nodes@[i]).alive() == before.nodes@[i].alive() && mid.nodes@[i].token
                == before.nodes@[i].token by {
                assert(dirtied(mid.nodes@[i], before.nodes@[i]));
            }
        }
        if let Some(p) = graph.slot_of(key) {
            proof {
                assert(dirtied(mid.nodes@[p as int], before.nodes@[p as int]));
            }
            let told = tell_parent(graph, p, id);
            proof {
                before.lemma_dirtied_twice(&mid, graph);
                assert(graph.demand_scheduled()) by {
                    assert forall|i: int|
                        0 <= i < graph.nodes@.len() && (#[trigger] graph.nodes@[i]).alive()
                            && graph.nodes@[i].in_demand()
                            implies graph.nodes@[i].ptrs.recalc_state != RecalcState::Needed by {
                        assert(mid.nodes@[i].alive() && mid.nodes@[i].in_demand());
                    }
                }
                assert(dirtied(mid.nodes@[p as int], before.nodes@[p as int]));
                assert(p != start);
                assert(graph.nodes@[start as int] == mid.nodes@[start as int]);
                assert forall|i: int| 0 <= i < graph.nodes@.len() implies (i != start ==> spread(
                    #[trigger] graph.nodes@[i],
                    before.nodes@[i],
                )) && graph.nodes@[i].ptrs == mid.nodes@[i].ptrs && dirtied(
                    graph.nodes@[i],
                    mid.nodes@[i],
                ) by {
                    if i != start {
                        assert(spread(mid.nodes@[i], before.nodes@[i]));
                    }
                    assert(crate::node::same_structure(graph.nodes@[i], mid.nodes@[i]));
                }
                assert forall|i: int|
                    0 <= i < before.nodes@.len() && i != start && #[trigger] graph.went_stale(
                        &before,
                        i,
                    ) implies graph.warned(&before, i) by {
                    assert(mid.went_stale(&before, i));
                    assert(mid.warned(&before, i));
                    assert forall|a: int|
                        0 <= a < before.nodes@[i].parents().len() && before.valid_key(
                            #[trigger] before.nodes@[i].parents()[a],
                        )
                            implies graph.nodes@[before.nodes@[i].parents()[a].ptr as int].ptrs.recalc_state
                        != RecalcState::Ready by {
                        let q = before.nodes@[i].parents()[a].ptr as int;
                        assert(graph.nodes@[q].ptrs == mid.nodes@[q].ptrs);
                    }
                }
                assert forall|i: int|
                    0 <= i < before.nodes@.len() && #[trigger] graph.touched(
                        &before,
                        i,
                    ) implies graph.traced(&before, start as int, i) by {
                    assert(mid.touched(&before, i));
                    assert(mid.traced(&before, start as int, i));
                    if i != start {
                        let c = choose|c: int|
                            0 <= c < before.nodes@.len() && #[trigger] mid.passed(
                                &before,
                                start as int,
                                c,
                            ) && before.nodes@[c].parents().contains(before.key_of(i));
                        assert(graph.nodes@[c].ptrs == mid.nodes@[c].ptrs);
                        assert(graph.passed(&before, start as int, c));
                    }
                }
                assert forall|a: int|
                    0 <= a < j && before.valid_key(
                        #[trigger] parents@[a],
                    ) implies graph.nodes@[parents@[a].ptr as int].ptrs.recalc_state
                    != RecalcState::Ready by {
                    let q = parents@[a].ptr as int;
                    assert(graph.nodes@[q].ptrs == mid.nodes@[q].ptrs);
                }
            }
            if let Err(e) = told {
                proof {
                    assert(graph.told_from(&mid, key.ptr as int, id, told));
                    assert(graph.passed_to(&mid, key, id, Err::<(), EngineError>(e)));
                    assert(news_trail(trail, &entry, &mid, parents@, id, j as nat));
                }
                return Err(e);
            }
            let ghost told_graph = *graph;
            let spread_on = mark_dirty0(graph, p);
            proof {
                before.lemma_dirtied_twice(&told_graph, graph);
                assert(dirtied(told_graph.nodes@[start as int], before.nodes@[start as int]));
                assert(graph.nodes@[start as int] == told_graph.nodes@[start as int]);
                assert(dirtied(graph.nodes@[start as int], told_graph.nodes@[start as int]));
                assert forall|a: int|
                    0 <= a < parents@.len() && graph.valid_key(
                        #[trigger] parents@[a],
                    ) implies before.nodes@[parents@[a].ptr as int].ptrs.height
                    > before.nodes@[start as int].ptrs.height by {
                    let k = parents@[a];
                    assert(dirtied(graph.nodes@[k.ptr as int], mid.nodes@[k.ptr as int]));
                    assert(mid.valid_key(k));
                }
                if spread_on is Ok {
                    assert(before.alive(p as int));
                    assert(before.valid_key(key));
                    assert(before.key_of(p as int) == key);
                    assert(before.nodes@[start as int].parents()[j as int] == key);
                    assert forall|i: int|
                        0 <= i < told_graph.nodes@.len() && i != p && #[trigger] graph.touched(
                            &told_graph,
                            i,
                        ) implies graph.went_stale(&told_graph, p as int) by {}
                    before.lemma_spread_on(&mid, &told_graph, graph, start as int, p as int);
                    assert forall|a: int|
                        0 <= a < j + 1 && before.valid_key(
                            #[trigger] parents@[a],
                        ) implies graph.nodes@[parents@[a].ptr as int].ptrs.recalc_state
                        != RecalcState::Ready by {
                        let q = parents@[a].ptr as int;
                        assert(spread(graph.nodes@[q], told_graph.nodes@[q]));
                    }
                }
            }
            proof {
                assert(told_graph.told_from(&mid, key.ptr as int, id, told));
                assert(graph.passed_to(&mid, key, id, spread_on));
            }
            if let Err(e) = spread_on {
                proof {
                    assert(news_trail(trail, &entry, &mid, parents@, id, j as nat));
                }
                return Err(e);
            }
        }
        proof {
            assert(graph.passed_to(&mid, key, id, Ok::<(), EngineError>(())));
            trail = trail.push(*graph);
        }
        j += 1;
    }
    proof {
        assert(graph.warned(&before, start as int)) by {
            assert forall|a: int|
                0 <= a < before.nodes@[start as int].parents().len() && before.valid_key(
                    #[trigger] before.nodes@[start as int].parents()[a],
                )
                    implies graph.nodes@[before.nodes@[start as int].parents()[a].ptr as int].ptrs.recalc_state
                != RecalcState::Ready by {
                assert(parents@[a] == before.nodes@[start as int].parents()[a]);
            }
        }
        assert(news_trail(trail, &entry, graph, parents@, id, parents@.len()));
    }
    Ok(())
}


/// Spreads the news of a change that starts at `node`. With `skip_self`, the
/// output of `node` is known to have changed and `node` itself is up to
/// date: its clean parents are forgotten, told, and marked. Without it,
/// `node` itself is marked.
pub fn mark_dirty<C: AnchorCore>(graph: &mut Graph<C>, node: usize, skip_self: bool) -> (r:
    Result<(), EngineError>)
    requires
        old(graph).wf(),
        cores_ok(old(graph)),
        old(graph).demand_scheduled(),
        old(graph).alive(node as int),
    ensures
        final(graph).wf(),
        cores_ok(final(graph)),
        final(graph).demand_scheduled(),
        final(graph).dirtied_from(old(graph)),
        final(graph).spread_above(old(graph), node as int),
        r is Ok ==> final(graph).spread_in_turn(old(graph), node as int),
        !skip_self ==> final(graph).spread_from(old(graph)),
        r is Ok && skip_self ==> final(graph).warned(old(graph), node as int),
        skip_self ==> final(graph).nodes@[node as int].parents().len() == 0
            && final(graph).nodes@[node as int].ptrs.recalc_state
                == old(graph).nodes@[node as int].ptrs.recalc_state,
        r is Ok && !skip_self ==> final(graph).nodes@[node as int].ptrs.recalc_state
            != RecalcState::Ready,
        !skip_self ==> final(graph).marked_from(old(graph), node as int, r),
        skip_self ==> final(graph).skipped_from(old(graph), node as int, r),
        skip_self && (forall|a: int|
            0 <= a < old(graph).nodes@[node as int].parents().len() ==> !old(graph).valid_key(
                #[trigger] old(graph).nodes@[node as int].parents()[a],
            )) ==> r is Ok && forall|i: int|
            0 <= i < old(graph).len() && i != node ==> #[trigger] final(graph).nodes@[i]
                == old(graph).nodes@[i],
{
    if !skip_self {
        return mark_dirty0(graph, node);
    }
    let ghost before = *graph;
    let id = NodeGuard { ptr: node }.key(graph);
    let parents = NodeGuard { ptr: node }.drain_clean_parents(graph);
    let ghost g1 = *graph;
    proof {
        before.lemma_parents_ok(node as int);
        assert forall|i: int| 0 <= i < graph.nodes@.len() implies dirtied(
            #[trigger] graph.nodes@[i],
            before.nodes@[i],
        ) && (graph.nodes@[i].anchor == before.nodes@[i].anchor) by {
            assert(crate::node::same_but_parents(g1.nodes@[i], before.nodes@[i]));
        }
        assert(cores_ok(graph));
    }
    let r = spread_to_parents(graph, node, &parents, id, Ghost(before));
    proof {
        assert(g1.drained_from(&before, node as int));
    }
    r
}

} // verus!
