//! The engine: stabilization and the operations that users call.

use vstd::prelude::*;
use crate::anchor::{Anchor, AnchorHandle};
use crate::context::{output_of, produces};
use crate::context_mut::{EngineContextMut, ObservedState};
use crate::dirty::{cores_ok, mark_dirty};
use crate::expert::{given, unborrow_result, walked, AnchorCore, DirtyHandle, EngineError, Poll,
    UpdateContext};
use crate::generation::Generation;
use crate::graph::Graph;
use crate::node::{same_structure, Node, NodeKey, RecalcState};

verus! {

/// `after` is what `before` becomes when the mark `key` is read, and `r` what
/// reading it returns: a key that names a live node has that node marked
/// dirty, any other key is passed over.
pub open spec fn mark_read<C: AnchorCore>(
    before: &Graph<C>,
    after: &Graph<C>,
    key: NodeKey,
    r: Result<(), EngineError>,
) -> bool {
    if before.valid_key(key) {
        after.marked_from(before, key.ptr as int, r)
    } else {
        *after == *before && r is Ok
    }
}

/// The graphs of `trail` lead from `before` to `after`: each is what the one
/// before it becomes when the next of the first `n` marks is read without an
/// error.
pub open spec fn marks_trail<C: AnchorCore>(
    trail: Seq<Graph<C>>,
    before: &Graph<C>,
    after: &Graph<C>,
    marks: Seq<NodeKey>,
    n: nat,
) -> bool {
    &&& trail.len() == n + 1
    &&& trail[0] == *before
    &&& trail[n as int] == *after
    &&& forall|i: int|
        0 <= i < n ==> mark_read(
            &#[trigger] trail[i],
            &trail[i + 1],
            marks[i],
            Ok::<(), EngineError>(()),
        )
}

/// `after` is what `before` becomes when the first `n` of the marks have
/// been read, one after the other, each without an error.
pub open spec fn marks_read<C: AnchorCore>(
    before: &Graph<C>,
    after: &Graph<C>,
    marks: Seq<NodeKey>,
    n: nat,
) -> bool {
    exists|trail: Seq<Graph<C>>| #[trigger] marks_trail(trail, before, after, marks, n)
}

/// `after` is `before` but for the computation of the node in slot `node`,
/// which is `core`.
pub open spec fn holds_core<C>(
    after: &Graph<C>,
    before: &Graph<C>,
    node: int,
    core: Option<C>,
) -> bool {
    &&& after.same_frame(before)
    &&& forall|i: int|
        0 <= i < before.nodes@.len() && i != node ==> #[trigger] after.nodes@[i]
            == before.nodes@[i]
    &&& after.nodes@[node] == (Node { anchor: core, ..before.nodes@[node] })
}

/// The execution engine. It owns the graph, the list of dirty marks that
/// inputs have left since the last stabilization, and the generation
/// counter.
pub struct Engine<C> {
    pub graph: Graph<C>,
    pub dirty_marks: Vec<NodeKey>,
    /// The current stabilization.
    pub generation: Generation,
    /// The number of nodes that one stabilization may take from the queue.
    pub max_steps: u64,
}

impl<C: AnchorCore> Engine<C> {
    /// The invariant of the engine between operations.
    pub open spec fn wf(&self) -> bool {
        &&& self.graph.wf()
        &&& cores_ok(&self.graph)
        &&& self.graph.demand_scheduled()
        &&& self.graph.stamps_ok(self.generation)
        &&& self.generation.wf()
    }

    /// Nothing waits for recalculation and no input has left a mark.
    pub open spec fn quiescent(&self) -> bool {
        self.graph.queue_is_empty() && self.dirty_marks@.len() == 0
    }

    /// Every live node that is observed or necessary is `Ready`.
    pub open spec fn demand_ready(&self) -> bool {
        forall|i: int|
            0 <= i < self.graph.nodes@.len() && (#[trigger] self.graph.nodes@[i]).alive()
                && self.graph.nodes@[i].in_demand() ==> self.graph.nodes@[i].ptrs.recalc_state
                == RecalcState::Ready
    }

    /// `self` is what `before` becomes by a stabilization that succeeds: the
    /// engine is in order and at rest in the next generation, it holds the
    /// nodes that it held, what is in demand is ready, and if `before` was at
    /// rest already, no node has changed.
    pub open spec fn stabilized_from(&self, before: &Engine<C>) -> bool {
        &&& self.wf()
        &&& self.quiescent()
        &&& self.demand_ready()
        &&& !before.generation.is_last_spec()
        &&& self.generation == before.generation.successor()
        &&& self.max_steps == before.max_steps
        &&& self.graph.same_population(&before.graph)
        &&& before.quiescent() ==> self.graph.nodes == before.graph.nodes
    }

    /// `self` is what `before` becomes by a `get` of `key` that succeeds: as
    /// by a stabilization, and the node that `key` names is `Ready`. If it
    /// was so in `before`, and `before` was at rest, no node has changed.
    pub open spec fn got_from(&self, before: &Engine<C>, key: NodeKey) -> bool {
        &&& self.wf()
        &&& self.quiescent()
        &&& self.demand_ready()
        &&& !before.generation.is_last_spec()
        &&& self.generation == before.generation.successor()
        &&& self.max_steps == before.max_steps
        &&& self.graph.same_population(&before.graph)
        &&& self.graph.valid_key(key)
        &&& self.graph.nodes@[key.ptr as int].ptrs.recalc_state == RecalcState::Ready
        &&& before.quiescent() && before.graph.valid_key(key)
            && before.graph.nodes@[key.ptr as int].ptrs.recalc_state
            == RecalcState::Ready ==> self.graph.nodes == before.graph.nodes
    }

    /// The engine is at rest, a generation is left, and `key` names a live
    /// node that is `Ready`: a `get` of `key` has nothing to recalculate.
    pub open spec fn at_rest_with(&self, key: NodeKey) -> bool {
        &&& self.quiescent()
        &&& !self.generation.is_last_spec()
        &&& self.graph.valid_key(key)
        &&& self.graph.nodes@[key.ptr as int].ptrs.recalc_state == RecalcState::Ready
    }

    /// When nothing is queued, what is in demand is ready.
    pub proof fn lemma_demand_ready(&self)
        requires
            self.wf(),
            self.graph.queue_is_empty(),
        ensures
            self.demand_ready(),
    {
        assert forall|i: int|
            0 <= i < self.graph.nodes@.len() && (#[trigger] self.graph.nodes@[i]).alive()
                && self.graph.nodes@[i].in_demand() implies self.graph.nodes@[i].ptrs.recalc_state
            == RecalcState::Ready by {
            if self.graph.nodes@[i].ptrs.recalc_state == RecalcState::Pending {
                self.graph.lemma_queued(i as usize);
                let (h, k) = choose|h: int, k: int|
                    self.graph.queue_pos(h, k) && #[trigger] self.graph.queues@[h][k] == i as usize;
                assert(self.graph.queues@[h].len() == 0);
            }
        }
    }

    /// An engine with maximum height 256.
    pub fn new() -> (r: Self)
        ensures
            r.wf(),
            r.quiescent(),
            r.graph.len() == 0,
            r.graph.max_height() == 256,
            r.graph.token == 0,
            r.graph.free_list@.len() == 0,
            r.generation.value() == 1,
            r.max_steps == u64::MAX,
    {
        Self::new_with_max_height(256)
    }

    /// An engine whose queue takes heights below `max_height`.
    pub fn new_with_max_height(max_height: usize) -> (r: Self)
        ensures
            r.wf(),
            r.quiescent(),
            r.graph.len() == 0,
            r.graph.max_height() == max_height,
            r.graph.token == 0,
            r.graph.free_list@.len() == 0,
            r.generation.value() == 1,
            r.max_steps == u64::MAX,
    {
        Engine {
            graph: Graph::new(max_height),
            dirty_marks: Vec::new(),
            generation: Generation::new(),
            max_steps: u64::MAX,
        }
    }

    /// Puts a computation into the graph and returns its anchor.
    pub fn mount(&mut self, inner: C) -> (r: Anchor)
        requires
            old(self).wf(),
            inner.core_inv(),
        ensures
            final(self).wf(),
            final(self).graph.inserted_from(&old(self).graph, r.data.node_key),
            final(self).graph.valid_key(r.data.node_key),
            !old(self).graph.known_key(r.data.node_key),
            final(self).graph.nodes@[r.data.node_key.ptr as int].is_fresh(),
            final(self).graph.nodes@[r.data.node_key.ptr as int].anchor == Some(inner),
            final(self).graph.queues == old(self).graph.queues,
            final(self).dirty_marks == old(self).dirty_marks,
            final(self).generation == old(self).generation,
            final(self).max_steps == old(self).max_steps,
            forall|i: int|
                old(self).graph.alive(i) ==> #[trigger] final(self).graph.nodes@[i]
                    == old(self).graph.nodes@[i],
    {
        let ghost before = self.graph;
        let handle = self.graph.insert(inner);
        proof {
            let at = handle.node_key.ptr as int;
            assert forall|i: int| 0 <= i < self.graph.nodes@.len() && i
                != at implies before.in_range(
                i,
            ) && crate::queue::same_but_queue(#[trigger] self.graph.nodes@[i], before.nodes@[i])
                && self.graph.nodes@[i].ptrs.recalc_state == before.nodes@[i].ptrs.recalc_state by {
                if !before.alive(i) {
                    before.lemma_dead(i);
                    self.graph.lemma_dead(i);
                }
            }
        }
        Anchor::new_from_core(handle)
    }

    /// Says whether the node in a slot is observed, necessary, or neither.
    pub fn check_observed_raw(&self, node: crate::node_guard::NodeGuard) -> (r: ObservedState)
        requires
            self.graph.in_range(node.ptr as int),
        ensures
            r == crate::context_mut::observed_state(self.graph.nodes@[node.ptr as int]),
    {
        self.graph.check_observed_raw(node.ptr)
    }

    /// Says whether an anchor is observed, necessary, or neither.
    pub fn check_observed(&self, anchor: &Anchor) -> (r: Result<ObservedState, EngineError>)
        requires
            self.wf(),
        ensures
            match r {
                Ok(s) => self.graph.valid_key(anchor.data.node_key) && s
                    == crate::context_mut::observed_state(
                    self.graph.nodes@[anchor.data.node_key.ptr as int],
                ),
                Err(e) => !self.graph.valid_key(anchor.data.node_key) && e == EngineError::StaleKey,
            },
    {
        match self.graph.slot_of(anchor.key()) {
            None => Err(EngineError::StaleKey),
            Some(node) => Ok(self.graph.check_observed_raw(node)),
        }
    }

    /// Polls the computation of a node that has just been taken from the
    /// queue. Returns `false` if the calculation is still pending, and the
    /// node has to be queued again.
    pub fn recalculate(&mut self, node: usize) -> (r: Result<bool, EngineError>)
        requires
            old(self).wf(),
            old(self).graph.alive(node as int),
            old(self).graph.nodes@[node as int].ptrs.recalc_state == RecalcState::Ready,
        ensures
            final(self).dirty_marks == old(self).dirty_marks,
            final(self).generation == old(self).generation,
            final(self).max_steps == old(self).max_steps,
            final(self).recalculated_from(old(self), node as int, r),
            r is Ok ==> {
                &&& final(self).wf()
                &&& final(self).graph.alive(node as int)
                &&& final(self).graph.nodes@[node as int].ptrs.recalc_state == RecalcState::Ready
                &&& final(self).graph.same_population(&old(self).graph)
            },
            r == Ok::<bool, EngineError>(true) ==> final(self).graph.nodes@[node as int].last_ready
                == Some(old(self).generation),
    {
        let ghost before = self.graph;
        let taken = self.graph.nodes[node].anchor.take();
        let mut core = match taken {
            None => {
                return Err(EngineError::NotReady);
            },
            Some(c) => c,
        };
        proof {
            reveal(Graph::<_>::wf_dead);
            assert forall|j: int| 0 <= j < self.graph.nodes@.len() implies same_structure(
                #[trigger] self.graph.nodes@[j],
                before.nodes@[j],
            ) by {}
            before.lemma_keep(&self.graph);
        }
        let mut polled_graph = Graph::new(0);
        std::mem::swap(&mut polled_graph, &mut self.graph);
        let ghost taken_out = polled_graph;
        let mut ecx = EngineContextMut::new(polled_graph, node, self.generation);
        let ghost held = core;
        let ghost start = ecx;
        let poll = core.poll_updated(&mut ecx);
        let ghost made = core;
        let ghost ctx = ecx;
        proof {
            assert(old(self).polls_in(&start, node as int));
            assert(held.polls(&made, start.events@, ctx.events@, given(&ctx), poll));
        }
        std::mem::swap(&mut ecx.graph, &mut self.graph);
        let pending = ecx.pending_on_anchor_get();
        let at: usize = ecx.node;
        let stamp = ecx.generation;
        match poll {
            Err(e) => {
                proof {
                    assert(self.settled_from(
                        old(self),
                        node as int,
                        made,
                        &ctx,
                        poll,
                        Err::<bool, EngineError>(e),
                    ));
                }
                Err(e)
            },
            Ok(answer) => {
                if at != node || !(stamp == self.generation) {
                    proof {
                        assert(self.settled_from(
                            old(self),
                            node as int,
                            made,
                            &ctx,
                            poll,
                            Err::<bool, EngineError>(EngineError::StaleKey),
                        ));
                    }
                    return Err(EngineError::StaleKey);
                }
                let ghost polled = self.graph;
                self.graph.nodes[node].anchor = Some(core);
                let ghost mid = *self;
                proof {
                    assert(taken_out.same_population(&before));
                    before.lemma_same_population(&taken_out, &polled);
                    assert(self.graph.same_population(&polled));
                    before.lemma_same_population(&polled, &self.graph);
                    reveal(Graph::<_>::wf_dead);
                    assert forall|j: int| 0 <= j < self.graph.nodes@.len() implies same_structure(
                        #[trigger] self.graph.nodes@[j],
                        polled.nodes@[j],
                    ) by {}
                    polled.lemma_keep(&self.graph);
                }
                if answer == Poll::Pending && !pending {
                    return Err(EngineError::PendingWithoutRequest);
                }
                let r = self.finish_poll(node, answer, pending);
                proof {
                    assert(holds_core(&mid.graph, &ctx.graph, node as int, Some(made)));
                    assert(self.settled_from(old(self), node as int, made, &ctx, poll, r));
                }
                r
            },
        }
    }

    /// `self` is what `before` becomes when the poll of the node in slot
    /// `node` is settled, and `r` what settling it returns. `answer` is what
    /// the computation has answered, and `pending` says whether a request in
    /// that poll has answered `Pending`.
    ///
    /// `Updated`: the clean parents of the node are forgotten, told and
    /// marked dirty, each in turn, and the node has last changed and last
    /// been ready now; an error of telling or marking a parent is returned.
    /// `Unchanged`: the node has last been ready now. Either way the
    /// calculation is complete. `Pending`: the calculation is not complete,
    /// and nothing changes.
    pub open spec fn finished_from(
        &self,
        before: &Engine<C>,
        node: int,
        answer: Poll,
        pending: bool,
        r: Result<bool, EngineError>,
    ) -> bool {
        &&& self.wf()
        &&& self.dirty_marks == before.dirty_marks
        &&& self.generation == before.generation
        &&& self.max_steps == before.max_steps
        &&& self.graph.alive(node)
        &&& self.graph.same_population(&before.graph)
        &&& r is Ok ==> self.graph.nodes@[node].ptrs.recalc_state
            == RecalcState::Ready
        &&& match answer {
            Poll::Pending => self.graph == before.graph && r == Ok::<bool, EngineError>(false),
            Poll::Unchanged => {
                &&& r == Ok::<bool, EngineError>(true)
                &&& self.graph.same_structure(&before.graph)
                &&& self.graph.nodes@[node].last_ready == Some(
                    before.generation,
                )
                &&& self.graph.nodes@[node].last_update
                    == before.graph.nodes@[node].last_update
                &&& self.graph.nodes@[node].observed
                    == before.graph.nodes@[node].observed
                &&& self.graph.nodes@[node] == (Node {
                    last_ready: Some(before.generation),
                    ..before.graph.nodes@[node]
                })
                &&& self.graph.same_frame(&before.graph)
                &&& forall|i: int|
                    0 <= i < before.graph.len() && i != node
                        ==> #[trigger] self.graph.nodes@[i] == before.graph.nodes@[i]
            },
            Poll::Updated => r is Ok ==> {
                &&& r == Ok::<bool, EngineError>(true)
                &&& self.graph.nodes@[node].last_ready == Some(
                    before.generation,
                )
                &&& self.graph.nodes@[node].last_update == Some(
                    before.generation,
                )
                &&& self.graph.nodes@[node].parents().len() == 0
                &&& forall|i: int|
                    0 <= i < before.graph.len() && i != node ==> crate::dirty::spread(
                        #[trigger] self.graph.nodes@[i],
                        before.graph.nodes@[i],
                    )
                &&& self.graph.spread_in_turn(&before.graph, node)
                &&& self.graph.warned(&before.graph, node)
            },
        }
        &&& answer == Poll::Updated ==> exists|spread: Graph<C>, rs: Result<(), EngineError>|
            {
                &&& #[trigger] spread.skipped_from(&before.graph, node, rs)
                &&& match rs {
                    Err(e) => r == Err::<bool, EngineError>(e) && self.graph == spread,
                    Ok(_) => r == Ok::<bool, EngineError>(true) && self.graph.same_frame(&spread)
                        && self.graph.nodes@[node] == (Node {
                        last_ready: Some(before.generation),
                        last_update: Some(before.generation),
                        ..spread.nodes@[node]
                    }) && forall|i: int|
                        0 <= i < before.graph.len() && i != node
                            ==> #[trigger] self.graph.nodes@[i] == spread.nodes@[i],
                }
            }
    }

    /// The context in which the node in slot `node` is polled: it holds the
    /// graph without the computation of that node, and has been asked
    /// nothing yet.
    pub open spec fn polls_in(&self, ctx: &EngineContextMut<C>, node: int) -> bool {
        &&& holds_core(&ctx.graph, &self.graph, node, None)
        &&& ctx.node == node
        &&& ctx.generation == self.generation
        &&& !ctx.pending_on_anchor_get
        &&& ctx.events@.len() == 0
        &&& ctx.origin@ == ctx.graph
    }

    /// What becomes of the engine once the computation of the node in slot
    /// `node` has been polled. `made` is the computation after the poll, `ctx`
    /// the context after it, and `poll` its answer.
    ///
    /// If the poll has failed, so does the recalculation, and the graph is
    /// left as the poll has left it, without the computation. If the context
    /// is no longer that of the node, the recalculation fails with
    /// `StaleKey`. Otherwise the computation is put back. An answer of
    /// `Pending` without a request that has answered `Pending` is refused
    /// with `PendingWithoutRequest`; any other poll is settled.
    pub open spec fn settled_from(
        &self,
        before: &Engine<C>,
        node: int,
        made: C,
        ctx: &EngineContextMut<C>,
        poll: Result<Poll, EngineError>,
        r: Result<bool, EngineError>,
    ) -> bool {
        match poll {
            Err(e) => r == Err::<bool, EngineError>(e) && self.graph == ctx.graph,
            Ok(answer) => if ctx.node != node || ctx.generation != before.generation {
                r == Err::<bool, EngineError>(EngineError::StaleKey) && self.graph == ctx.graph
            } else if answer == Poll::Pending && !ctx.pending_on_anchor_get {
                r == Err::<bool, EngineError>(EngineError::PendingWithoutRequest) && holds_core(
                    &self.graph,
                    &ctx.graph,
                    node,
                    Some(made),
                )
            } else {
                exists|mid: Engine<C>|
                    {
                        &&& #[trigger] holds_core(&mid.graph, &ctx.graph, node, Some(made))
                        &&& mid.dirty_marks == before.dirty_marks
                        &&& mid.generation == before.generation
                        &&& mid.max_steps == before.max_steps
                        &&& self.finished_from(&mid, node, answer, ctx.pending_on_anchor_get, r)
                    }
            },
        }
    }

    /// `self` is what `before` becomes by a recalculation of the node in slot
    /// `node`, and `r` what the recalculation returns.
    ///
    /// A node without a computation is refused with `NotReady`. Otherwise
    /// the computation is polled in a context of its own, and what it makes
    /// of itself and of the context, and answers, decides the rest. The
    /// context after the poll is what its requests and unrequests, one after
    /// the other, have made of the context before it.
    pub open spec fn recalculated_from(
        &self,
        before: &Engine<C>,
        node: int,
        r: Result<bool, EngineError>,
    ) -> bool {
        match before.graph.nodes@[node].anchor {
            None => r == Err::<bool, EngineError>(EngineError::NotReady) && holds_core(
                &self.graph,
                &before.graph,
                node,
                None,
            ),
            Some(core) => exists|
                made: C,
                start: EngineContextMut<C>,
                ctx: EngineContextMut<C>,
                poll: Result<Poll, EngineError>,
            |
                {
                    &&& before.polls_in(&start, node)
                    &&& #[trigger] core.polls(&made, start.events@, ctx.events@, given(&ctx), poll)
                    &&& ctx.origin@ == start.origin@
                    &&& walked::<C::Output, EngineContextMut<C>>(&start, &ctx)
                    &&& poll is Ok ==> ctx.sound()
                    &&& self.settled_from(before, node, made, &ctx, poll, r)
                },
        }
    }

    /// Settles the poll of a node whose computation has answered `answer`.
    /// `pending` says whether a request in that poll has answered `Pending`.
    pub fn finish_poll(&mut self, node: usize, answer: Poll, pending: bool) -> (r: Result<
        bool,
        EngineError,
    >)
        requires
            old(self).wf(),
            old(self).graph.alive(node as int),
            old(self).graph.nodes@[node as int].ptrs.recalc_state == RecalcState::Ready,
            answer == Poll::Pending ==> pending,
        ensures
            final(self).finished_from(old(self), node as int, answer, pending, r),
    {
        let ghost before = self.graph;
        proof {
            assert(before.same_population(&before));
        }
        match answer {
            Poll::Pending => Ok(false),
            Poll::Updated => {
                let spread_on = mark_dirty(&mut self.graph, node, true);
                proof {
                    assert forall|j: int| 0
                        <= j < before.nodes@.len() implies crate::dirty::dirtied(
                        #[trigger] self.graph.nodes@[j],
                        before.nodes@[j],
                    ) by {}
                    assert(self.graph.same_population(&before));
                }
                proof {
                    assert(self.graph.skipped_from(&before, node as int, spread_on));
                }
                if let Err(e) = spread_on {
                    return Err(e);
                }
                let ghost spread = self.graph;
                self.graph.nodes[node].last_update = Some(self.generation);
                self.graph.nodes[node].last_ready = Some(self.generation);
                proof {
                    reveal(Graph::<_>::wf_dead);
                    assert forall|j: int| 0 <= j < self.graph.nodes@.len() implies same_structure(
                        #[trigger] self.graph.nodes@[j],
                        spread.nodes@[j],
                    ) by {}
                    spread.lemma_keep(&self.graph);
                    assert forall|j: int|
                        0 <= j < spread.nodes@.len() && j != node implies crate::dirty::spread(
                        #[trigger] spread.nodes@[j],
                        before.nodes@[j],
                    ) by {}
                    assert forall|j: int|
                        0 <= j < before.nodes@.len() implies self.graph.went_stale(&before, j)
                        == spread.went_stale(&before, j) && (#[trigger] self.graph.touched(
                        &before,
                        j,
                    )) == spread.touched(&before, j) && self.graph.passed(&before, node as int, j)
                        == spread.passed(&before, node as int, j) by {}
                    assert forall|j: int|
                        0 <= j < before.nodes@.len() && #[trigger] self.graph.went_stale(
                            &before,
                            j,
                        ) implies self.graph.warned(&before, j) by {
                        assert(spread.went_stale(&before, j));
                        assert(spread.warned(&before, j));
                    }
                    assert forall|j: int|
                        0 <= j < before.nodes@.len() && #[trigger] self.graph.touched(
                            &before,
                            j,
                        ) implies self.graph.traced(&before, node as int, j) by {
                        assert(spread.touched(&before, j));
                        assert(spread.traced(&before, node as int, j));
                        if j != node {
                            let c = choose|c: int|
                                0 <= c < before.nodes@.len() && #[trigger] spread.passed(
                                    &before,
                                    node as int,
                                    c,
                                ) && before.nodes@[c].parents().contains(before.key_of(j));
                            assert(self.graph.passed(&before, node as int, c));
                        }
                    }
                    assert(spread.warned(&before, node as int));
                    assert(self.graph.warned(&before, node as int));
                }
                Ok(true)
            },
            Poll::Unchanged => {
                self.graph.nodes[node].last_ready = Some(self.generation);
                proof {
                    reveal(Graph::<_>::wf_dead);
                    assert forall|j: int| 0 <= j < self.graph.nodes@.len() implies same_structure(
                        #[trigger] self.graph.nodes@[j],
                        before.nodes@[j],
                    ) by {}
                    before.lemma_keep(&self.graph);
                }
                Ok(true)
            },
        }
    }

    /// Takes nodes from the queue, lowest first, and recalculates each, until
    /// the queue is empty. A node whose height has grown since it was queued
    /// is not recalculated but queued again, at its height. Neither reads the
    /// dirty marks nor moves to a new generation.
    pub fn stabilize0(&mut self) -> (r: Result<(), EngineError>)
        requires
            old(self).wf(),
        ensures
            final(self).dirty_marks == old(self).dirty_marks,
            final(self).generation == old(self).generation,
            final(self).max_steps == old(self).max_steps,
            r is Ok ==> final(self).wf() && final(self).graph.queue_is_empty()
                && final(self).graph.same_population(&old(self).graph),
            old(self).graph.queue_is_empty() ==> r is Ok && final(self).graph.nodes
                == old(self).graph.nodes,
            final(self).ran_out_from(old(self), r),
    {
        let mut steps: u64 = 0;
        let ghost mut trail = seq![*self];
        proof {
            assert(self.graph.same_population(&old(self).graph));
        }
        while steps < self.max_steps
            invariant
                self.wf(),
                self.dirty_marks == old(self).dirty_marks,
                self.generation == old(self).generation,
                self.max_steps == old(self).max_steps,
                steps == 0 ==> self.graph == old(self).graph,
                steps > 0 ==> !old(self).graph.queue_is_empty(),
                self.graph.same_population(&old(self).graph),
                self.steps_trail(trail, old(self), steps as nat),
                steps <= self.max_steps,
            decreases self.max_steps - steps,
        {
            let ghost before = self.graph;
            let ghost last = *self;
            match self.graph.recalc_pop_next() {
                None => {
                    proof {
                        self.lemma_requeued(&before);
                        assert(last.steps_trail(trail, old(self), steps as nat));
                        assert(last.ran_from(old(self), steps as nat));
                    }
                    return Ok(());
                },
                Some((height, node)) => {
                    proof {
                        self.lemma_requeued(&before);
                    }
                    let ghost popped = *self;
                    let at_height = self.graph.height(node) == height;
                    let complete = if at_height {
                        let done = self.recalculate(node);
                        let ghost polled = *self;
                        match done {
                            Ok(done) => {
                                if done {
                                    proof {
                                        assert(polled.recalculated_from(
                                            &popped,
                                            node as int,
                                            Ok::<bool, EngineError>(true),
                                        ));
                                        assert(self.polled_from(
                                            &popped,
                                            node as int,
                                            Ok::<(), EngineError>(()),
                                        ));
                                    }
                                }
                                done
                            },
                            Err(e) => {
                                proof {
                                    assert(polled.recalculated_from(&popped, node as int, done));
                                    assert(self.polled_from(
                                        &popped,
                                        node as int,
                                        Err::<(), EngineError>(e),
                                    ));
                                    assert(self.stepped_from(&last, Err::<(), EngineError>(e)));
                                    assert(last.steps_trail(trail, old(self), steps as nat));
                                    assert(last.ran_from(old(self), steps as nat));
                                }
                                return Err(e);
                            },
                        }
                    } else {
                        false
                    };
                    if !complete {
                        let ghost polled = *self;
                        let queued = self.graph.queue_if_fits(node);
                        proof {
                            if at_height {
                                assert(polled.recalculated_from(
                                    &popped,
                                    node as int,
                                    Ok::<bool, EngineError>(false),
                                ));
                                assert(self.polled_from(&popped, node as int, queued));
                            }
                            assert(self.stepped_from(&last, queued));
                            assert(last.steps_trail(trail, old(self), steps as nat));
                            assert(last.ran_from(old(self), steps as nat));
                        }
                        if let Err(e) = queued {
                            return Err(e);
                        }
                        proof {
                            self.lemma_requeued(&polled.graph);
                        }
                    }
                    proof {
                        assert(self.stepped_from(&last, Ok::<(), EngineError>(())));
                        trail = trail.push(*self);
                    }
                },
            }
            steps = steps + 1;
        }
        let ghost before = self.graph;
        let ghost last = *self;
        match self.graph.recalc_pop_next() {
            None => {
                proof {
                    self.lemma_requeued(&before);
                    assert(last.steps_trail(trail, old(self), steps as nat));
                    assert(last.ran_from(old(self), steps as nat));
                }
                Ok(())
            },
            Some((height, node)) => {
                let ghost popped = self.graph;
                let queued = self.graph.queue_if_fits(node);
                proof {
                    assert(popped.popped_from(&last.graph, Some((height, node))));
                    assert(self.graph.queued_from(&popped, node as int, queued));
                    assert(self.stopped_from(&last));
                    assert(last.steps_trail(trail, old(self), steps as nat));
                    assert(last.ran_from(old(self), steps as nat));
                }
                Err(EngineError::StepLimit)
            },
        }
    }

    /// The engine stays in order when nodes only change their place in the
    /// queue, and none that is in demand becomes `Needed`.
    pub proof fn lemma_requeued(&self, before: &Graph<C>)
        requires
            self.graph.same_but_queues(before),
            self.graph.wf(),
            cores_ok(before),
            before.demand_scheduled(),
            before.stamps_ok(self.generation),
            self.generation.wf(),
            forall|i: int|
                0 <= i < before.len() ==> (#[trigger] self.graph.nodes@[i]).ptrs.recalc_state
                    == before.nodes@[i].ptrs.recalc_state || self.graph.nodes@[i].ptrs.recalc_state
                    != RecalcState::Needed,
        ensures
            self.wf(),
    {
        assert forall|i: int| 0 <= i < before.len() implies crate::queue::same_but_queue(
            #[trigger] self.graph.nodes@[i],
            before.nodes@[i],
        ) by {}
    }

    /// The two engines differ in their graphs only.
    pub open spec fn same_settings(&self, before: &Engine<C>) -> bool {
        &&& self.dirty_marks == before.dirty_marks
        &&& self.generation == before.generation
        &&& self.max_steps == before.max_steps
    }

    /// `self` is what `before` becomes when its dirty marks are read, and `r`
    /// what reading them returns. The marks are read in their order. If all
    /// are read without an error, the graph is what reading all of them
    /// makes of it. Otherwise the graph is what the marks before one of them
    /// made of it and then the reading of that one, which has failed with
    /// the error returned. Either way the list of marks is empty.
    pub open spec fn swept_from(&self, before: &Engine<C>, r: Result<(), EngineError>) -> bool {
        let marks = before.dirty_marks@;
        &&& self.generation == before.generation
        &&& self.max_steps == before.max_steps
        &&& self.dirty_marks@.len() == 0
        &&& self.wf()
        &&& self.graph.spread_from(&before.graph)
        &&& match r {
            Ok(_) => marks_read(&before.graph, &self.graph, marks, marks.len()),
            Err(e) => exists|mid: Graph<C>, n: nat|
                {
                    &&& n < marks.len()
                    &&& #[trigger] marks_read(&before.graph, &mid, marks, n)
                    &&& mark_read(&mid, &self.graph, marks[n as int], Err::<(), EngineError>(e))
                },
        }
    }

    /// `self` is what `before` becomes by one step of a stabilization, and
    /// `r` says how the step ended.
    ///
    /// The first node of the lowest queue that is not empty is taken out. If
    /// it stands at the height of that queue, it is recalculated; an error of
    /// that ends the step, and a calculation that is not complete has the
    /// node queued again. If it stands elsewhere, it is not polled but queued
    /// again. An error of queueing ends the step too.
    pub open spec fn stepped_from(&self, before: &Engine<C>, r: Result<(), EngineError>) -> bool {
        &&& self.same_settings(before)
        &&& exists|popped: Engine<C>, h: usize, n: usize|
            {
                &&& #[trigger] popped.graph.popped_from(&before.graph, Some((h, n)))
                &&& popped.same_settings(before)
                &&& if popped.graph.nodes@[n as int].ptrs.height == h {
                    self.polled_from(&popped, n as int, r)
                } else {
                    self.graph.queued_from(&popped.graph, n as int, r)
                }
            }
    }

    /// What becomes of the engine in a step whose node, in slot `node`, is
    /// recalculated.
    pub open spec fn polled_from(
        &self,
        popped: &Engine<C>,
        node: int,
        r: Result<(), EngineError>,
    ) -> bool {
        exists|polled: Engine<C>, done: Result<bool, EngineError>|
            {
                &&& #[trigger] polled.recalculated_from(popped, node, done)
                &&& polled.same_settings(popped)
                &&& match done {
                    Err(e) => r == Err::<(), EngineError>(e) && self.graph == polled.graph,
                    Ok(complete) => if complete {
                        r is Ok && self.graph == polled.graph
                    } else {
                        self.graph.queued_from(&polled.graph, node, r)
                    },
                }
            }
    }

    /// The engines of `trail` lead from `before` to `self`: each is what the
    /// one before it becomes by one step of a stabilization that has not
    /// ended in an error.
    pub open spec fn steps_trail(&self, trail: Seq<Engine<C>>, before: &Engine<C>, n: nat) -> bool {
        &&& trail.len() == n + 1
        &&& trail[0] == *before
        &&& trail[n as int] == *self
        &&& forall|i: int|
            0 <= i < n ==> (#[trigger] trail[i + 1]).stepped_from(
                &trail[i],
                Ok::<(), EngineError>(()),
            )
    }

    /// `self` is what `before` becomes by `n` steps of a stabilization, none
    /// of which has ended in an error.
    pub open spec fn ran_from(&self, before: &Engine<C>, n: nat) -> bool {
        exists|trail: Seq<Engine<C>>| #[trigger] self.steps_trail(trail, before, n)
    }

    /// Steps begin with a first step, and go on from what it has made.
    pub proof fn lemma_ran_first(&self, before: &Engine<C>, n: nat)
        requires
            self.ran_from(before, n),
            n > 0,
        ensures
            exists|first: Engine<C>| #[trigger]
                first.stepped_from(before, Ok::<(), EngineError>(())) && self.ran_from(
                    &first,
                    (n - 1) as nat,
                ),
    {
        let trail = choose|trail: Seq<Engine<C>>| #[trigger] self.steps_trail(trail, before, n);
        let first = trail[1];
        let rest = trail.drop_first();
        assert(trail[0int + 1].stepped_from(&trail[0int], Ok::<(), EngineError>(())));
        assert forall|i: int| 0 <= i < n - 1 implies (#[trigger] rest[i + 1]).stepped_from(
            &rest[i],
            Ok::<(), EngineError>(()),
        ) by {
            assert(trail[(i + 1) + 1].stepped_from(&trail[i + 1], Ok::<(), EngineError>(())));
        }
        assert(self.steps_trail(rest, &first, (n - 1) as nat));
    }

    /// No step has been taken: the engine is what it was.
    pub proof fn lemma_ran_nowhere(&self, before: &Engine<C>)
        requires
            self.ran_from(before, 0),
        ensures
            *self == *before,
    {
        let trail = choose|trail: Seq<Engine<C>>| #[trigger] self.steps_trail(trail, before, 0);
    }

    /// The step limit is met with a node still in the queue: the node has
    /// been taken out and queued again.
    pub open spec fn stopped_from(&self, last: &Engine<C>) -> bool {
        exists|popped: Graph<C>, h: usize, n: usize, rq: Result<(), EngineError>|
            {
                &&& #[trigger] popped.popped_from(&last.graph, Some((h, n)))
                &&& #[trigger] self.graph.queued_from(&popped, n as int, rq)
            }
    }

    /// `self` is what `before` becomes when what is queued is recalculated,
    /// and `r` what that returns.
    ///
    /// Steps are taken until the queue is empty, which is success; or until
    /// one ends in an error, which is returned; or until as many steps are
    /// taken as the engine allows and a node is still queued, which is
    /// `StepLimit`.
    pub open spec fn ran_out_from(&self, before: &Engine<C>, r: Result<(), EngineError>) -> bool {
        &&& self.same_settings(before)
        &&& exists|last: Engine<C>, n: nat|
            {
                &&& n <= before.max_steps
                &&& #[trigger] last.ran_from(before, n)
                &&& match r {
                    Ok(_) => self.graph.popped_from(&last.graph, None),
                    Err(e) => {
                        ||| n < before.max_steps && self.stepped_from(
                            &last,
                            Err::<(), EngineError>(e),
                        )
                        ||| n == before.max_steps && e == EngineError::StepLimit
                            && self.stopped_from(&last)
                    },
                }
            }
    }

    /// `self` is what `before` becomes by a stabilization, and `r` what the
    /// stabilization returns.
    ///
    /// In the last generation it is refused with `GenerationLimit`, and
    /// nothing changes. Otherwise the dirty marks are read; an error of that
    /// is returned. Then the engine moves to the next generation and
    /// recalculates what is queued.
    pub open spec fn stabilized_by(&self, before: &Engine<C>, r: Result<(), EngineError>) -> bool {
        if before.generation.is_last_spec() {
            r == Err::<(), EngineError>(EngineError::GenerationLimit) && *self == *before
        } else {
            exists|swept: Engine<C>, rs: Result<(), EngineError>|
                {
                    &&& #[trigger] swept.swept_from(before, rs)
                    &&& match rs {
                        Err(e) => r == Err::<(), EngineError>(e) && *self == swept,
                        Ok(_) => self.turned_from(&swept, r),
                    }
                }
        }
    }

    /// `self` is what `swept` becomes when it moves to the next generation
    /// and recalculates what is queued.
    pub open spec fn turned_from(&self, swept: &Engine<C>, r: Result<(), EngineError>) -> bool {
        exists|turned: Engine<C>|
            {
                &&& turned.graph == swept.graph
                &&& turned.dirty_marks == swept.dirty_marks
                &&& turned.max_steps == swept.max_steps
                &&& turned.generation == swept.generation.successor()
                &&& #[trigger] self.ran_out_from(&turned, r)
            }
    }

    /// What reading the output of the node that `key` names gives: `StaleKey`
    /// if it names no live node, `NotReady` if the node is not `Ready`, and
    /// otherwise what its computation gives.
    pub open spec fn read_at(&self, key: NodeKey, r: Result<C::Output, EngineError>) -> bool {
        if !self.graph.valid_key(key) {
            r == Err::<C::Output, EngineError>(EngineError::StaleKey)
        } else if self.graph.nodes@[key.ptr as int].ptrs.recalc_state != RecalcState::Ready {
            r == Err::<C::Output, EngineError>(EngineError::NotReady)
        } else {
            produces(&self.graph, key.ptr as int, r)
        }
    }

    /// `self` is what `before` becomes by a `get` of `key`, and `r` what the
    /// `get` returns.
    ///
    /// The engine is stabilized; an error of that is returned. A key that
    /// names no live node is refused with `StaleKey`. A node that is `Ready`
    /// then is read. Any other node is fetched.
    pub open spec fn got_by(
        &self,
        before: &Engine<C>,
        key: NodeKey,
        r: Result<C::Output, EngineError>,
    ) -> bool {
        exists|stable: Engine<C>, rs: Result<(), EngineError>|
            {
                &&& #[trigger] stable.stabilized_by(before, rs)
                &&& match rs {
                    Err(e) => r == Err::<C::Output, EngineError>(e) && *self == stable,
                    Ok(_) => if !stable.graph.valid_key(key)
                        || stable.graph.nodes@[key.ptr as int].ptrs.recalc_state
                        == RecalcState::Ready {
                        *self == stable && self.read_at(key, r)
                    } else {
                        self.fetched_from(&stable, key, r)
                    },
                }
            }
    }

    /// `self` is what `stable` becomes when the node that `key` names, which
    /// is not `Ready`, is queued, what is queued is recalculated in the same
    /// generation, and the node is read. An error of queueing or of
    /// recalculating is returned.
    pub open spec fn fetched_from(
        &self,
        stable: &Engine<C>,
        key: NodeKey,
        r: Result<C::Output, EngineError>,
    ) -> bool {
        exists|queued: Engine<C>, rq: Result<(), EngineError>|
            {
                &&& #[trigger] queued.graph.queued_from(&stable.graph, key.ptr as int, rq)
                &&& queued.same_settings(stable)
                &&& match rq {
                    Err(e) => r == Err::<C::Output, EngineError>(e) && *self == queued,
                    Ok(_) => exists|r0: Result<(), EngineError>|
                        {
                            &&& #[trigger] self.ran_out_from(&queued, r0)
                            &&& match r0 {
                                Err(e) => r == Err::<C::Output, EngineError>(e),
                                Ok(_) => self.read_at(key, r),
                            }
                        },
                }
            }
    }

    /// Spreads the news of every change that an input has reported since the
    /// last stabilization, and clears the list of those reports. A report of
    /// a node that is gone is passed over.
    pub fn update_dirty_marks(&mut self) -> (r: Result<(), EngineError>)
        requires
            old(self).wf(),
        ensures
            final(self).generation == old(self).generation,
            final(self).max_steps == old(self).max_steps,
            final(self).dirty_marks@.len() == 0,
            final(self).wf(),
            final(self).graph.spread_from(&old(self).graph),
            old(self).dirty_marks@.len() == 0 ==> r is Ok && final(self).graph == old(self).graph,
            final(self).swept_from(old(self), r),
    {
        let mut marks: Vec<NodeKey> = Vec::new();
        std::mem::swap(&mut marks, &mut self.dirty_marks);
        proof {
            old(self).graph.lemma_dirtied_twice(&old(self).graph, &old(self).graph);
        }
        let mut j: usize = 0;
        let ghost mut trail = seq![self.graph];
        while j < marks.len()
            invariant
                j <= marks.len(),
                self.wf(),
                self.generation == old(self).generation,
                self.max_steps == old(self).max_steps,
                self.dirty_marks@.len() == 0,
                self.graph.dirtied_from(&old(self).graph),
                self.graph.spread_from(&old(self).graph),
                marks@ == old(self).dirty_marks@,
                marks@.len() == 0 ==> self.graph == old(self).graph,
                marks_trail(trail, &old(self).graph, &self.graph, marks@, j as nat),
            decreases marks.len() - j,
        {
            let key = marks[j];
            let ghost read = self.graph;
            if let Some(node) = self.graph.slot_of(key) {
                let ghost mid = self.graph;
                let spread = mark_dirty(&mut self.graph, node, false);
                proof {
                    old(self).graph.lemma_dirtied_twice(&mid, &self.graph);
                    old(self).graph.lemma_spread_twice(&mid, &self.graph);
                    assert forall|i: int| 0 <= i < mid.nodes@.len() implies crate::dirty::dirtied(
                        #[trigger] self.graph.nodes@[i],
                        mid.nodes@[i],
                    ) by {}
                }
                if let Err(e) = spread {
                    proof {
                        assert(mark_read(&read, &self.graph, marks@[j as int], spread));
                        assert(marks_read(&old(self).graph, &read, marks@, j as nat));
                    }
                    return Err(e);
                }
            }
            proof {
                assert(mark_read(&read, &self.graph, marks@[j as int], Ok::<(), EngineError>(())));
                trail = trail.push(self.graph);
            }
            j += 1;
        }
        proof {
            assert(marks_read(&old(self).graph, &self.graph, marks@, marks@.len()));
        }
        Ok(())
    }

    /// Brings every observed node up to date: reads the dirty marks, moves to
    /// the next generation, and recalculates what is queued. `get` calls this
    /// by itself. In the last generation it is refused, and nothing changes.
    pub fn stabilize(&mut self) -> (r: Result<(), EngineError>)
        requires
            old(self).wf(),
        ensures
            final(self).max_steps == old(self).max_steps,
            r is Ok ==> final(self).stabilized_from(old(self)),
            old(self).quiescent() && !old(self).generation.is_last_spec() ==> r is Ok,
            final(self).stabilized_by(old(self), r),
    {
        if self.generation.is_last() {
            return Err(EngineError::GenerationLimit);
        }
        let swept = self.update_dirty_marks();
        let ghost swept_engine = *self;
        if let Err(e) = swept {
            return Err(e);
        }
        let ghost marked = self.graph;
        proof {
            assert forall|i: int| 0 <= i < marked.nodes@.len() implies crate::dirty::dirtied(
                #[trigger] marked.nodes@[i],
                old(self).graph.nodes@[i],
            ) by {}
            assert(marked.same_population(&old(self).graph));
        }
        self.generation.increment();
        let ghost turned = *self;
        let r = self.stabilize0();
        proof {
            if r is Ok {
                self.lemma_demand_ready();
                old(self).graph.lemma_same_population(&marked, &self.graph);
            }
            assert(self.ran_out_from(&turned, r));
            assert(self.turned_from(&swept_engine, r));
            assert(swept_engine.swept_from(old(self), swept));
        }
        r
    }

    /// `self` is what `before` becomes when the node that `key` names is
    /// marked as observed: the node is observed and, unless it was `Ready`,
    /// queued. Nothing else changes but places in the queue.
    pub open spec fn observed_from(&self, before: &Engine<C>, key: NodeKey) -> bool {
        let node = key.ptr as int;
        let was = before.graph.nodes@[node];
        &&& self.graph.len() == before.graph.len()
        &&& self.graph.nodes@[node].observed
        &&& self.graph.nodes@[node].ptrs.recalc_state == (if was.ptrs.recalc_state
            == RecalcState::Ready {
            RecalcState::Ready
        } else {
            RecalcState::Pending
        })
        &&& forall|i: int|
            0 <= i < before.graph.len() ==> {
                let n = #[trigger] self.graph.nodes@[i];
                let o = before.graph.nodes@[i];
                &&& n.necessary_count == o.necessary_count
                &&& n.children() == o.children()
                &&& n.parents() == o.parents()
                &&& n.ptrs.height == o.ptrs.height
                &&& n.last_ready == o.last_ready
                &&& n.last_update == o.last_update
                &&& n.token == o.token
                &&& n.alive() == o.alive()
                &&& i != node ==> n.observed == o.observed && n.ptrs.recalc_state
                    == o.ptrs.recalc_state
            }
    }

    /// `self` is what `before` becomes when the mark of being observed is
    /// taken from the node that `key` names: the node is not observed, and
    /// nodes may have lost necessary children and be counted less. If the
    /// node is still necessary, or had no necessary children, none has.
    pub open spec fn unobserved_from(&self, before: &Engine<C>, key: NodeKey) -> bool {
        let node = key.ptr as int;
        let was = before.graph.nodes@[node];
        &&& self.graph.len() == before.graph.len()
        &&& !self.graph.nodes@[node].observed
        &&& was.necessary_count == 0 ==> self.graph.nodes@[node].children().len() == 0
        &&& self.graph.settled(node)
        &&& forall|i: int|
            0 <= i < before.graph.len() && i != node && #[trigger] before.graph.settled(i)
                ==> self.graph.settled(i)
        &&& self.graph.released_in_turn(&before.graph, node)
        &&& (was.necessary_count > 0 || was.children().len() == 0) ==> forall|i: int|
            0 <= i < before.graph.len() ==> (#[trigger] self.graph.nodes@[i]).necessary_count
                == before.graph.nodes@[i].necessary_count && self.graph.nodes@[i].children()
                == before.graph.nodes@[i].children()
        &&& forall|i: int|
            0 <= i < before.graph.len() ==> {
                let n = #[trigger] self.graph.nodes@[i];
                let o = before.graph.nodes@[i];
                &&& n.necessary_count <= o.necessary_count
                &&& n.children() == o.children() || n.children().len() == 0
                &&& n.parents() == o.parents()
                &&& n.ptrs.height == o.ptrs.height
                &&& n.ptrs.recalc_state == o.ptrs.recalc_state
                &&& n.last_ready == o.last_ready
                &&& n.last_update == o.last_update
                &&& n.token == o.token
                &&& n.alive() == o.alive()
                &&& n.anchor == o.anchor
                &&& i != node ==> n.observed == o.observed
            }
    }

    /// Marks an anchor as observed. Observed nodes are brought up to date by
    /// every stabilization, whichever anchor is asked for. Fails, and changes
    /// nothing, if the key names no node, or if the node would have to be
    /// queued at a height that is not below the maximum.
    pub fn mark_observed(&mut self, anchor: &Anchor) -> (r: Result<(), EngineError>)
        requires
            old(self).wf(),
        ensures
            final(self).wf(),
            final(self).dirty_marks == old(self).dirty_marks,
            final(self).generation == old(self).generation,
            final(self).max_steps == old(self).max_steps,
            r is Err ==> final(self).graph == old(self).graph,
            r is Ok ==> final(self).observed_from(old(self), anchor.data.node_key),
            match r {
                Ok(_) => old(self).graph.valid_key(anchor.data.node_key),
                Err(e) => if !old(self).graph.valid_key(anchor.data.node_key) {
                    e == EngineError::StaleKey
                } else {
                    e == EngineError::HeightLimit
                        && old(self).graph.nodes@[anchor.data.node_key.ptr as int].ptrs.recalc_state
                        == RecalcState::Needed
                            && old(self).graph.nodes@[anchor.data.node_key.ptr as int].ptrs.height
                            >= old(self).graph.max_height()
                },
            },
            old(self).graph.valid_key(anchor.data.node_key)
                && (old(self).graph.nodes@[anchor.data.node_key.ptr as int].ptrs.recalc_state
                != RecalcState::Needed
                || old(self).graph.nodes@[anchor.data.node_key.ptr as int].ptrs.height < old(self).graph.max_height()) ==> r is Ok,
    {
        let node = match self.graph.slot_of(anchor.key()) {
            Some(n) => n,
            None => {
                return Err(EngineError::StaleKey);
            },
        };
        let ghost before = self.graph;
        if self.graph.recalc_state(node) != RecalcState::Ready {
            if let Err(e) = self.graph.queue_if_fits(node) {
                return Err(e);
            }
        }
        let ghost queued = self.graph;
        self.graph.nodes[node].observed = true;
        proof {
            reveal(Graph::<_>::wf_dead);
            assert forall|j: int| 0 <= j < self.graph.nodes@.len() implies same_structure(
                #[trigger] self.graph.nodes@[j],
                queued.nodes@[j],
            ) && crate::queue::same_but_queue(queued.nodes@[j], before.nodes@[j]) by {}
            queued.lemma_keep(&self.graph);
        }
        Ok(())
    }

    /// Takes the mark of being observed from an anchor. If that leaves the
    /// node without demand, it gives up its necessary children, and so on
    /// down the graph.
    pub fn mark_unobserved(&mut self, anchor: &Anchor) -> (r: Result<(), EngineError>)
        requires
            old(self).wf(),
        ensures
            final(self).wf(),
            final(self).dirty_marks == old(self).dirty_marks,
            final(self).generation == old(self).generation,
            final(self).max_steps == old(self).max_steps,
            r is Ok <==> old(self).graph.valid_key(anchor.data.node_key),
            r is Err ==> r == Err::<(), EngineError>(EngineError::StaleKey) && final(self).graph
                == old(self).graph,
            r is Ok ==> final(self).unobserved_from(old(self), anchor.data.node_key),
    {
        let node = match self.graph.slot_of(anchor.key()) {
            Some(n) => n,
            None => {
                return Err(EngineError::StaleKey);
            },
        };
        let ghost before = self.graph;
        self.graph.nodes[node].observed = false;
        let ghost cleared = self.graph;
        proof {
            reveal(Graph::<_>::wf_dead);
            assert forall|j: int| 0 <= j < self.graph.nodes@.len() implies same_structure(
                #[trigger] self.graph.nodes@[j],
                before.nodes@[j],
            ) by {}
            before.lemma_keep(&self.graph);
        }
        self.graph.update_necessary_children(node);
        proof {
            assert forall|j: int| 0
                <= j < self.graph.nodes@.len() implies crate::node::same_but_necessary(
                #[trigger] self.graph.nodes@[j],
                cleared.nodes@[j],
            ) && self.graph.nodes@[j].necessary_count <= cleared.nodes@[j].necessary_count by {}
            let was = before.nodes@[node as int];
            assert(!self.graph.nodes@[node as int].observed);
            assert(was.necessary_count == 0 ==> self.graph.nodes@[node as int].children().len()
                == 0);
            if was.necessary_count > 0 || was.children().len() == 0 {
                assert forall|i: int| 0 <= i < before.len() implies (
                #[trigger] self.graph.nodes@[i]).necessary_count == before.nodes@[i].necessary_count
                    && self.graph.nodes@[i].children() == before.nodes@[i].children() by {
                    assert(cleared.nodes@[i].necessary_count == before.nodes@[i].necessary_count);
                    assert(cleared.nodes@[i].children() == before.nodes@[i].children());
                    if was.necessary_count > 0 {
                        assert(cleared.nodes@[node as int].in_demand());
                        assert(self.graph.nodes@[i] == cleared.nodes@[i]);
                    } else {
                        assert(cleared.nodes@[node as int].children().len() == 0);
                        assert(self.graph.nodes@[i].necessary_count
                            == cleared.nodes@[i].necessary_count);
                    }
                }
            }
            assert forall|i: int| 0 <= i < before.len() implies {
                let n = #[trigger] self.graph.nodes@[i];
                let o = before.nodes@[i];
                &&& n.necessary_count <= o.necessary_count
                &&& n.children() == o.children() || n.children().len() == 0
                &&& n.parents() == o.parents()
                &&& n.ptrs.height == o.ptrs.height
                &&& n.ptrs.recalc_state == o.ptrs.recalc_state
                &&& n.last_ready == o.last_ready
                &&& n.last_update == o.last_update
                &&& n.token == o.token
                &&& n.alive() == o.alive()
                &&& i != node ==> n.observed == o.observed
            } by {
                assert(crate::node::same_but_necessary(self.graph.nodes@[i], cleared.nodes@[i]));
            }
            assert(cores_ok(&self.graph));
            assert(self.graph.demand_scheduled());
            assert(self.graph.stamps_ok(self.generation));
            assert forall|i: int|
                0 <= i < before.len() && i != node && #[trigger] before.settled(i)
                    implies self.graph.settled(i) by {
                assert(cleared.settled(i));
            }
            assert(self.graph.released_in_turn(&before, node as int)) by {
                assert forall|i: int|
                    0 <= i < before.nodes@.len() && #[trigger] self.graph.gave_up(
                        &before,
                        i,
                    ) implies self.graph.released_by(&before, node as int, i) by {
                    assert(self.graph.gave_up(&cleared, i));
                    assert(self.graph.released_by(&cleared, node as int, i));
                    if i != node {
                        let p = choose|p: int|
                            0 <= p < cleared.nodes@.len() && #[trigger] self.graph.gave_up(
                                &cleared,
                                p,
                            ) && cleared.lists_child(p, cleared.key_of(i));
                        assert(self.graph.gave_up(&before, p));
                        assert(before.lists_child(p, before.key_of(i)));
                    }
                }
            }
        }
        Ok(())
    }

    /// Brings the graph up to date as far as `anchor` needs it, and borrows
    /// the output of `anchor`: stabilizes and, if the node is not `Ready`
    /// then, queues it and recalculates what is queued once more, in the same
    /// generation.
    ///
    /// In an engine at rest, a node that is `Ready` is read as it stands: no
    /// node changes, and what comes back is what reading the output of the
    /// node gives, a value or an error. A key that names no live node is
    /// refused there with `StaleKey`.
    pub fn get_ref(&mut self, anchor: &Anchor) -> (r: Result<&C::Output, EngineError>)
        requires
            old(self).wf(),
        ensures
            final(self).max_steps == old(self).max_steps,
            r is Ok ==> final(self).got_from(old(self), anchor.data.node_key) && produces(
                &final(self).graph,
                anchor.data.node_key.ptr as int,
                unborrow_result(r),
            ),
            old(self).generation.is_last_spec() ==> r is Err,
            old(self).at_rest_with(anchor.data.node_key) ==> final(self).got_from(
                old(self),
                anchor.data.node_key,
            ) && produces(
                &final(self).graph,
                anchor.data.node_key.ptr as int,
                unborrow_result(r),
            ),
            old(self).quiescent() && !old(self).generation.is_last_spec()
                && !old(self).graph.valid_key(anchor.data.node_key) ==> r == Err::<
                &C::Output,
                EngineError,
            >(EngineError::StaleKey) && final(self).stabilized_from(old(self)),
            final(self).got_by(old(self), anchor.data.node_key, unborrow_result(r)),
    {
        let ghost key = anchor.data.node_key;
        let stabilized = self.stabilize();
        let ghost settled = *self;
        if let Err(e) = stabilized {
            proof {
                assert(settled.stabilized_by(old(self), stabilized));
            }
            return Err(e);
        }
        proof {
            assert(self.stabilized_from(old(self)));
            assert(self.graph.same_population(&old(self).graph));
            assert(settled.stabilized_by(old(self), stabilized));
        }
        let node = match self.graph.slot_of(anchor.key()) {
            Some(n) => n,
            None => {
                proof {
                    assert(self.read_at(
                        key,
                        Err::<C::Output, EngineError>(EngineError::StaleKey),
                    ));
                }
                return Err(EngineError::StaleKey);
            },
        };
        let ghost fetched = self.graph.nodes@[node as int].ptrs.recalc_state != RecalcState::Ready;
        if self.graph.recalc_state(node) != RecalcState::Ready {
            let ghost stable = self.graph;
            let queueing = self.graph.queue_if_fits(node);
            let ghost lined = *self;
            proof {
                assert(lined.graph.queued_from(&settled.graph, key.ptr as int, queueing));
            }
            if let Err(e) = queueing {
                proof {
                    assert(self.fetched_from(&settled, key, Err::<C::Output, EngineError>(e)));
                }
                return Err(e);
            }
            let ghost queued = self.graph;
            proof {
                self.lemma_requeued(&stable);
                assert forall|i: int| 0
                    <= i < stable.nodes@.len() implies crate::queue::same_but_queue(
                    #[trigger] queued.nodes@[i],
                    stable.nodes@[i],
                ) by {}
                assert(queued.same_population(&stable));
                old(self).graph.lemma_same_population(&stable, &queued);
            }
            let ran = self.stabilize0();
            proof {
                assert(self.ran_out_from(&lined, ran));
            }
            if let Err(e) = ran {
                proof {
                    assert(self.fetched_from(&settled, key, Err::<C::Output, EngineError>(e)));
                }
                return Err(e);
            }
            proof {
                old(self).graph.lemma_same_population(&queued, &self.graph);
            }
            let r = match self.graph.slot_of(anchor.key()) {
                None => Err(EngineError::StaleKey),
                Some(target) => {
                    if self.graph.recalc_state(target) != RecalcState::Ready {
                        Err(EngineError::NotReady)
                    } else {
                        output_of(&self.graph, target)
                    }
                },
            };
            proof {
                self.lemma_demand_ready();
                assert(self.read_at(key, unborrow_result(r)));
                assert(self.fetched_from(&settled, key, unborrow_result(r)));
            }
            return r;
        }
        proof {
            self.lemma_demand_ready();
        }
        let r = output_of(&self.graph, node);
        proof {
            assert(self.read_at(key, unborrow_result(r)));
        }
        r
    }

    /// Brings the graph up to date as far as `anchor` needs it, and returns
    /// a copy of the output of `anchor`.
    pub fn get(&mut self, anchor: &Anchor) -> (r: Result<C::Output, EngineError>) where
        C::Output: Clone,

        requires
            old(self).wf(),
        ensures
            final(self).max_steps == old(self).max_steps,
            r is Ok ==> final(self).got_from(old(self), anchor.data.node_key) && exists|
                v: C::Output,
            |
                #[trigger] produces(
                    &final(self).graph,
                    anchor.data.node_key.ptr as int,
                    Ok::<C::Output, EngineError>(v),
                ) && cloned(v, r->Ok_0),
            old(self).generation.is_last_spec() ==> r is Err,
            old(self).at_rest_with(anchor.data.node_key) ==> final(self).got_from(
                old(self),
                anchor.data.node_key,
            ) && (r is Err ==> produces(
                &final(self).graph,
                anchor.data.node_key.ptr as int,
                Err::<C::Output, EngineError>(r->Err_0),
            )),
            old(self).quiescent() && !old(self).generation.is_last_spec()
                && !old(self).graph.valid_key(anchor.data.node_key) ==> r == Err::<
                C::Output,
                EngineError,
            >(EngineError::StaleKey) && final(self).stabilized_from(old(self)),
            match r {
                Err(e) => final(self).got_by(
                    old(self),
                    anchor.data.node_key,
                    Err::<C::Output, EngineError>(e),
                ),
                Ok(copy) => exists|v: C::Output| #[trigger]
                    final(self).got_by(
                        old(self),
                        anchor.data.node_key,
                        Ok::<C::Output, EngineError>(v),
                    ) && cloned(v, copy),
            },
    {
        match self.get_ref(anchor) {
            Ok(v) => {
                let copy = v.clone();
                proof {
                    assert(produces(
                        &self.graph,
                        anchor.data.node_key.ptr as int,
                        Ok::<C::Output, EngineError>(*v),
                    ) && cloned(*v, copy));
                }
                Ok(copy)
            },
            Err(e) => Err(e),
        }
    }

    /// What offering `value` to the computation in slot `node` makes of the
    /// engine. A node whose computation is missing refuses with `NotReady`.
    /// What the computation makes of the value, it makes of itself. If it
    /// refuses, so does the engine. If it takes the value and holds a dirty
    /// handle, the key of the handle is put on the list of dirty marks.
    pub open spec fn was_set(
        &self,
        after: &Self,
        node: int,
        value: C::Output,
        r: Result<(), EngineError>,
    ) -> bool {
        match self.graph.nodes@[node].anchor {
            None => r == Err::<(), EngineError>(EngineError::NotReady) && after.dirty_marks@
                == self.dirty_marks@ && after.graph.nodes@[node].anchor is None,
            Some(core) => after.graph.nodes@[node].anchor is Some && exists|
                told: Result<Option<DirtyHandle>, EngineError>,
            |
                {
                    &&& #[trigger] core.assigns(value, &after.graph.nodes@[node].anchor->0, told)
                    &&& match told {
                        Err(e) => r == Err::<(), EngineError>(e) && after.dirty_marks@
                            == self.dirty_marks@,
                        Ok(None) => r is Ok && after.dirty_marks@ == self.dirty_marks@,
                        Ok(Some(handle)) => r is Ok && after.dirty_marks@
                            == self.dirty_marks@.push(handle.key),
                    }
                },
        }
    }

    /// Takes a new value for an input from outside the graph. The input
    /// remembers the value; if it has been polled before, the change is put
    /// on the list of dirty marks, which the next stabilization reads.
    pub fn set(&mut self, anchor: &Anchor, value: C::Output) -> (r: Result<(), EngineError>)
        requires
            old(self).wf(),
        ensures
            final(self).wf(),
            final(self).generation == old(self).generation,
            final(self).max_steps == old(self).max_steps,
            final(self).graph.same_structure(&old(self).graph),
            !old(self).graph.valid_key(anchor.data.node_key) ==> r == Err::<(), EngineError>(
                EngineError::StaleKey,
            ),
            old(self).graph.valid_key(anchor.data.node_key) ==> old(self).was_set(
                final(self),
                anchor.data.node_key.ptr as int,
                value,
                r,
            ),
            forall|i: int|
                0 <= i < old(self).graph.len() ==> {
                    let n = #[trigger] final(self).graph.nodes@[i];
                    let o = old(self).graph.nodes@[i];
                    &&& n.observed == o.observed
                    &&& n.last_ready == o.last_ready
                    &&& n.last_update == o.last_update
                    &&& n.ptrs == o.ptrs
                    &&& i != anchor.data.node_key.ptr ==> n == o
                },
    {
        let node = match self.graph.slot_of(anchor.key()) {
            Some(n) => n,
            None => {
                proof {
                    reveal(Graph::<_>::wf_dead);
                }
                return Err(EngineError::StaleKey);
            },
        };
        let ghost before = self.graph;
        let taken = self.graph.nodes[node].anchor.take();
        let mut core = match taken {
            None => {
                proof {
                    reveal(Graph::<_>::wf_dead);
                    assert forall|j: int| 0 <= j < self.graph.nodes@.len() implies same_structure(
                        #[trigger] self.graph.nodes@[j],
                        before.nodes@[j],
                    ) by {}
                    before.lemma_keep(&self.graph);
                }
                return Err(EngineError::NotReady);
            },
            Some(c) => c,
        };
        let ghost held = core;
        let answer = core.assign(value);
        let ghost made = core;
        self.graph.nodes[node].anchor = Some(core);
        proof {
            reveal(Graph::<_>::wf_dead);
            assert forall|j: int| 0 <= j < self.graph.nodes@.len() implies same_structure(
                #[trigger] self.graph.nodes@[j],
                before.nodes@[j],
            ) by {}
            before.lemma_keep(&self.graph);
        }
        if let Ok(Some(handle)) = answer {
            self.mark_dirty(&handle);
        }
        proof {
            assert(self.graph.nodes@[node as int].anchor == Some(made));
            assert(held.assigns(value, &made, answer));
            assert(old(self).graph.nodes@[node as int].anchor == Some(held));
            assert(old(self).graph.nodes@[node as int].anchor->0.assigns(
                value,
                &self.graph.nodes@[node as int].anchor->0,
                answer,
            ));
        }
        match answer {
            Err(e) => Err(e),
            Ok(_) => Ok(()),
        }
    }

    /// Takes the report of an input that its output may have changed. The
    /// next stabilization will look at the node again.
    pub fn mark_dirty(&mut self, handle: &DirtyHandle)
        ensures
            final(self).graph == old(self).graph,
            final(self).generation == old(self).generation,
            final(self).max_steps == old(self).max_steps,
            final(self).dirty_marks@ == old(self).dirty_marks@.push(handle.key),
    {
        self.dirty_marks.push(handle.key);
    }

    /// Makes one more anchor to the node of `anchor`, which keeps the node
    /// alive as `anchor` does.
    pub fn clone_anchor(&mut self, anchor: &Anchor) -> (r: Anchor)
        requires
            old(self).wf(),
        ensures
            final(self).wf(),
            r.data.node_key == anchor.data.node_key,
            final(self).dirty_marks == old(self).dirty_marks,
            final(self).generation == old(self).generation,
            final(self).max_steps == old(self).max_steps,
            final(self).graph.same_structure(&old(self).graph),
            old(self).graph.valid_key(anchor.data.node_key) ==> final(self).graph.valid_key(
                anchor.data.node_key,
            ) && final(self).graph.nodes@[anchor.data.node_key.ptr as int].ptrs.handle_count == (
            if old(self).graph.nodes@[anchor.data.node_key.ptr as int].ptrs.handle_count
                < usize::MAX {
                old(self).graph.nodes@[anchor.data.node_key.ptr as int].ptrs.handle_count + 1
            } else {
                usize::MAX as int
            }),
    {
        let ghost before = self.graph;
        let handle = self.graph.clone_handle(&anchor.data);
        proof {
            assert forall|j: int| 0 <= j < self.graph.nodes@.len() implies same_structure(
                #[trigger] self.graph.nodes@[j],
                before.nodes@[j],
            ) by {}
            assert(cores_ok(&self.graph));
            assert(self.graph.demand_scheduled());
            assert(self.graph.stamps_ok(self.generation));
        }
        Anchor::new_from_core(handle)
    }

    /// Gives an anchor back. When it was the last one to its node, the node
    /// is freed and its computation is returned; the caller gives back the
    /// anchors that the computation holds.
    pub fn drop_anchor(&mut self, anchor: Anchor) -> (r: Option<C>)
        requires
            old(self).wf(),
        ensures
            final(self).wf(),
            final(self).dirty_marks == old(self).dirty_marks,
            final(self).generation == old(self).generation,
            final(self).max_steps == old(self).max_steps,
            final(self).graph.len() == old(self).graph.len(),
            forall|i: int|
                0 <= i < old(self).graph.len() ==> (#[trigger] final(self).graph.nodes@[i]).token
                    == old(self).graph.nodes@[i].token
                        && final(self).graph.nodes@[i].ptrs.handle_count
                        == old(self).graph.nodes@[i].ptrs.handle_count
                    - (if old(self).graph.valid_key(anchor.data.node_key) && i
                    == anchor.data.node_key.ptr {
                    1int
                } else {
                    0int
                }),
            r is Some <==> old(self).graph.valid_key(anchor.data.node_key)
                && old(self).graph.nodes@[anchor.data.node_key.ptr as int].ptrs.handle_count == 1
                && old(self).graph.nodes@[anchor.data.node_key.ptr as int].anchor is Some,
            r is Some ==> r == old(self).graph.nodes@[anchor.data.node_key.ptr as int].anchor,
            forall|i: int|
                0 <= i < old(self).graph.len() && (#[trigger] final(self).graph.nodes@[i]).alive()
                    ==> final(self).graph.nodes@[i].anchor == old(self).graph.nodes@[i].anchor,
            old(self).graph.valid_key(anchor.data.node_key)
                && old(self).graph.nodes@[anchor.data.node_key.ptr as int].ptrs.handle_count == 1
                ==> final(self).graph.freed_from(&old(self).graph, anchor.data.node_key.ptr)
                && !final(self).graph.valid_key(anchor.data.node_key),
            old(self).graph.valid_key(anchor.data.node_key)
                && old(self).graph.nodes@[anchor.data.node_key.ptr as int].ptrs.handle_count > 1
                ==> final(self).graph.valid_key(anchor.data.node_key)
                && final(self).graph.same_structure(
                &old(self).graph,
            ),
    {
        let ghost before = self.graph;
        let freed = self.graph.drop_handle(anchor.data);
        proof {
            let key = anchor.data.node_key;
            if before.valid_key(key) {
                let at = key.ptr as int;
                if before.nodes@[at].ptrs.handle_count == 1 {
                    assert forall|i: int|
                        0 <= i < self.graph.nodes@.len()
                            && (#[trigger] self.graph.nodes@[i]).anchor is Some
                            implies self.graph.nodes@[i].anchor->0.core_inv() by {
                        if self.graph.nodes@[i].alive() {
                            assert(crate::free_list::same_core(
                                self.graph.nodes@[i],
                                before.nodes@[i],
                            ));
                        } else {
                            self.graph.lemma_dead(i);
                        }
                    }
                    assert(self.graph.demand_scheduled()) by {
                        assert forall|i: int|
                            0 <= i < self.graph.nodes@.len() && (
                            #[trigger] self.graph.nodes@[i]).alive()
                                && self.graph.nodes@[i].in_demand()
                                implies self.graph.nodes@[i].ptrs.recalc_state
                            != RecalcState::Needed by {
                            assert(crate::free_list::same_core(
                                self.graph.nodes@[i],
                                before.nodes@[i],
                            ));
                        }
                    }
                    assert(self.graph.stamps_ok(self.generation)) by {
                        assert forall|i: int|
                            0 <= i < self.graph.nodes@.len() && (
                            #[trigger] self.graph.nodes@[i]).alive() implies {
                            let n = self.graph.nodes@[i];
                            &&& n.last_update is Some ==> n.last_ready is Some
                                && n.last_update->0.value() <= n.last_ready->0.value()
                            &&& n.last_ready is Some ==> n.last_ready->0.value()
                                <= self.generation.value()
                        } by {
                            assert(crate::free_list::same_core(
                                self.graph.nodes@[i],
                                before.nodes@[i],
                            ));
                        }
                    }
                } else {
                    assert forall|j: int| 0 <= j < self.graph.nodes@.len() implies same_structure(
                        #[trigger] self.graph.nodes@[j],
                        before.nodes@[j],
                    ) by {}
                }
            } else {
                assert(self.graph.nodes@ =~= before.nodes@);
            }
        }
        freed
    }

    /// A description of the state of the graph, for debugging. It is empty.
    pub fn debug_state(&self) -> (r: String)
        ensures
            r@.len() == 0,
    {
        String::new()
    }
}

} // verus!
