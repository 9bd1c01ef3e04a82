//! What a read returns, as it follows from what the engine's steps are.
//!
//! The contracts of the engine say what a `get` does step by step. Here it
//! is shown what that comes to for a node whose computation asks nothing of
//! its context, such as a constant or an input, and for a map over such a
//! node.

use vstd::prelude::*;
use crate::computation::Computation;
use crate::constant::Constant;
use crate::context::produces;
use crate::context_mut::EngineContextMut;
use crate::engine::{marks_trail, Engine};
use crate::expert::{
    given, lemma_walked_back, one_call, walked, AnchorCore, Asked, EngineError, Event, Given, Poll,
    UpdateContext,
};
use crate::height::reaches;
use crate::inputs::{answer_at, asked_all, found_after, read_all, read_upto, refused_one};
use crate::map::MapAnchor;
use crate::graph::Graph;
use crate::node::{NodeKey, RecalcState};
use crate::queue::same_but_queue;
use crate::variable::VarAnchor;

verus! {

/// Reading the output of the computation gives `val` and nothing else.
pub open spec fn reads_as<C: AnchorCore>(core: C, val: C::Output) -> bool {
    &&& core.source() is None
    &&& forall|r: Result<C::Output, EngineError>| #[trigger]
        core.output_is(None, r) ==> r == Ok::<C::Output, EngineError>(val)
}

/// A poll of the computation asks nothing of its context, completes, and
/// leaves a computation that reads as `val`.
pub open spec fn quiet<C: AnchorCore>(core: C, val: C::Output) -> bool {
    forall|made: C, before: Asked, events: Asked, gives: Given<C::Output>, poll: Result<Poll,
        EngineError>| #[trigger]
        core.polls(&made, before, events, gives, poll) ==> events == before && poll is Ok
            && poll->Ok_0
            != Poll::Pending && reads_as(made, val)
}

/// The node in slot `node` is alive, has no clean parents, and holds a
/// computation that is quiet and settles on `val`.
pub open spec fn holds_quiet<C: AnchorCore>(e: &Engine<C>, node: int, val: C::Output) -> bool {
    &&& e.graph.in_range(node)
    &&& e.graph.nodes@[node].alive()
    &&& e.graph.nodes@[node].parents().len() == 0
    &&& e.graph.nodes@[node].anchor is Some
    &&& quiet(e.graph.nodes@[node].anchor->0, val)
}

/// The node in slot `node` is alive and `Ready`, and holds a computation
/// that reads as `val`.
pub open spec fn holds_value<C: AnchorCore>(e: &Engine<C>, node: int, val: C::Output) -> bool {
    &&& e.graph.in_range(node)
    &&& e.graph.nodes@[node].alive()
    &&& e.graph.nodes@[node].ptrs.recalc_state == RecalcState::Ready
    &&& e.graph.nodes@[node].anchor is Some
    &&& reads_as(e.graph.nodes@[node].anchor->0, val)
}

/// Recalculating a node whose computation is quiet completes the
/// calculation, and the node then holds a computation that reads as the
/// value.
pub proof fn lemma_quiet_recalculates<C: AnchorCore>(
    before: &Engine<C>,
    after: &Engine<C>,
    node: int,
    val: C::Output,
    r: Result<bool, EngineError>,
)
    requires
        holds_quiet(before, node, val),
        before.graph.nodes@[node].ptrs.recalc_state == RecalcState::Ready,
        after.recalculated_from(before, node, r),
    ensures
        r == Ok::<bool, EngineError>(true),
        holds_value(after, node, val),
        after.graph.same_frame(&before.graph),
        after.graph.nodes@[node].token == before.graph.nodes@[node].token,
        after.graph.nodes@[node].ptrs.height == before.graph.nodes@[node].ptrs.height,
        forall|i: int|
            0 <= i < before.graph.len() && i != node ==> #[trigger] after.graph.nodes@[i]
                == before.graph.nodes@[i],
{
    let core = before.graph.nodes@[node].anchor->0;
    let (made, start, ctx, poll) = choose|
        made: C,
        start: EngineContextMut<C>,
        ctx: EngineContextMut<C>,
        poll: Result<Poll, EngineError>,
    |
        {
            &&& before.polls_in(&start, node)
            &&& #[trigger] core.polls(&made, start.events@, ctx.events@, given(&ctx), poll)
            &&& ctx.origin@ == start.origin@
            &&& walked::<C::Output, EngineContextMut<C>>(&start, &ctx)
            &&& poll is Ok ==> ctx.sound()
            &&& after.settled_from(before, node, made, &ctx, poll, r)
        };
    lemma_walked_back::<C::Output, EngineContextMut<C>>(&start, &ctx);
    assert(ctx == start);
}

/// A step of a stabilization takes a node from the queue: something is
/// queued before it.
pub proof fn lemma_step_needs_work<C: AnchorCore>(before: &Engine<C>, after: &Engine<C>,
    r: Result<(), EngineError>)
    requires
        after.stepped_from(before, r),
    ensures
        !before.graph.queue_is_empty(),
{
}

/// With nothing queued no step is taken.
pub proof fn lemma_rest_runs_nowhere<C: AnchorCore>(before: &Engine<C>, last: &Engine<C>, n: nat)
    requires
        last.ran_from(before, n),
        before.graph.queue_is_empty(),
    ensures
        n == 0,
        *last == *before,
{
    if n > 0 {
        last.lemma_ran_first(before, n);
        let first = choose|first: Engine<C>| #[trigger]
            first.stepped_from(before, Ok::<(), EngineError>(())) && last.ran_from(&first, (n
                - 1) as nat);
        lemma_step_needs_work(before, &first, Ok::<(), EngineError>(()));
    } else {
        last.lemma_ran_nowhere(before);
    }
}

/// With nothing queued, recalculating what is queued succeeds and changes
/// no node and no queue.
pub proof fn lemma_rest_runs_out<C: AnchorCore>(before: &Engine<C>, after: &Engine<C>,
    r: Result<(), EngineError>)
    requires
        after.ran_out_from(before, r),
        before.graph.queue_is_empty(),
    ensures
        r is Ok,
        after.same_settings(before),
        after.graph.popped_from(&before.graph, None),
{
    let (last, n) = choose|last: Engine<C>, n: nat|
        {
            &&& n <= before.max_steps
            &&& #[trigger] last.ran_from(before, n)
            &&& match r {
                Ok(_) => after.graph.popped_from(&last.graph, None),
                Err(e) => {
                    ||| n < before.max_steps && after.stepped_from(&last, Err::<(), EngineError>(e))
                    ||| n == before.max_steps && e == EngineError::StepLimit
                        && after.stopped_from(&last)
                },
            }
        };
    lemma_rest_runs_nowhere(before, &last, n);
    if r is Err {
        if n < before.max_steps && after.stepped_from(&last, Err::<(), EngineError>(r->Err_0)) {
            lemma_step_needs_work(&last, after, Err::<(), EngineError>(r->Err_0));
        }
    }
}

/// A stabilization of an engine at rest succeeds, moves to the next
/// generation, and changes no node and no queue.
pub proof fn lemma_rest_stabilizes<C: AnchorCore>(before: &Engine<C>, stable: &Engine<C>,
    rs: Result<(), EngineError>)
    requires
        stable.stabilized_by(before, rs),
        before.quiescent(),
        !before.generation.is_last_spec(),
    ensures
        rs is Ok,
        stable.max_steps == before.max_steps,
        stable.generation == before.generation.successor(),
        stable.graph.popped_from(&before.graph, None),
{
    let (swept, rs0) = choose|swept: Engine<C>, rs0: Result<(), EngineError>|
        {
            &&& #[trigger] swept.swept_from(before, rs0)
            &&& match rs0 {
                Err(e) => rs == Err::<(), EngineError>(e) && *stable == swept,
                Ok(_) => stable.turned_from(&swept, rs),
            }
        };
    assert(rs0 is Ok);
    let trail = choose|trail: Seq<Graph<C>>| #[trigger]
        marks_trail(trail, &before.graph, &swept.graph, before.dirty_marks@, 0);
    assert(swept.graph == before.graph);
    let turned = choose|turned: Engine<C>|
        {
            &&& turned.graph == swept.graph
            &&& turned.dirty_marks == swept.dirty_marks
            &&& turned.max_steps == swept.max_steps
            &&& turned.generation == swept.generation.successor()
            &&& #[trigger] stable.ran_out_from(&turned, rs)
        };
    lemma_rest_runs_out(&turned, stable, rs);
}


/// Only the node in slot `node` waits in the queue, at its height.
pub open spec fn alone_in_queue<C>(g: &Graph<C>, node: int) -> bool {
    let h = g.nodes@[node].ptrs.height as int;
    &&& 0 <= h < g.queues@.len()
    &&& g.queues@[h] == seq![node as usize]
    &&& forall|j: int| 0 <= j < g.queues@.len() && j != h ==> (#[trigger] g.queues@[j]).len() == 0
}

/// A step that finds only a quiet node in the queue makes that node
/// `Ready` and leaves nothing queued.
pub proof fn lemma_quiet_step<C: AnchorCore>(
    q: &Engine<C>,
    x: &Engine<C>,
    node: int,
    val: C::Output,
    rr: Result<(), EngineError>,
)
    requires
        holds_quiet(q, node, val),
        alone_in_queue(&q.graph, node),
        x.stepped_from(q, rr),
    ensures
        rr is Ok,
        holds_value(x, node, val),
        x.same_settings(q),
        x.graph.queue_is_empty(),
        x.graph.nodes@[node].token == q.graph.nodes@[node].token,
{
    let height = q.graph.nodes@[node].ptrs.height as int;
    let (popped, h, n) = choose|popped: Engine<C>, h: usize, n: usize|
        {
            &&& #[trigger] popped.graph.popped_from(&q.graph, Some((h, n)))
            &&& popped.same_settings(q)
            &&& if popped.graph.nodes@[n as int].ptrs.height == h {
                x.polled_from(&popped, n as int, rr)
            } else {
                x.graph.queued_from(&popped.graph, n as int, rr)
            }
        };
    assert(h == height) by {
        if h != height {
            assert(q.graph.queues@[h as int].len() == 0);
        }
    }
    assert(n == node);
    assert(same_but_queue(popped.graph.nodes@[node], q.graph.nodes@[node]));
    assert(popped.graph.queues@[height] =~= Seq::<usize>::empty());
    assert(popped.graph.queue_is_empty()) by {
        assert forall|j: int| 0 <= j < popped.graph.queues@.len() implies (
        #[trigger] popped.graph.queues@[j]).len() == 0 by {
            if j != height {
                assert(q.graph.queues@[j].len() == 0);
            }
        }
    }
    let (polled, done) = choose|polled: Engine<C>, done: Result<bool, EngineError>|
        {
            &&& #[trigger] polled.recalculated_from(&popped, node, done)
            &&& polled.same_settings(&popped)
            &&& match done {
                Err(e) => rr == Err::<(), EngineError>(e) && x.graph == polled.graph,
                Ok(complete) => if complete {
                    rr is Ok && x.graph == polled.graph
                } else {
                    x.graph.queued_from(&polled.graph, node, rr)
                },
            }
        };
    lemma_quiet_recalculates(&popped, &polled, node, val, done);
}

/// Recalculating what is queued, when that is only a quiet node, succeeds
/// and makes the node `Ready`.
pub proof fn lemma_quiet_run<C: AnchorCore>(
    q: &Engine<C>,
    after: &Engine<C>,
    node: int,
    val: C::Output,
    r0: Result<(), EngineError>,
)
    requires
        holds_quiet(q, node, val),
        alone_in_queue(&q.graph, node),
        q.max_steps >= 1,
        after.ran_out_from(q, r0),
    ensures
        r0 is Ok,
        holds_value(after, node, val),
        after.graph.nodes@[node].token == q.graph.nodes@[node].token,
{
    let (last, n) = choose|last: Engine<C>, n: nat|
        {
            &&& n <= q.max_steps
            &&& #[trigger] last.ran_from(q, n)
            &&& match r0 {
                Ok(_) => after.graph.popped_from(&last.graph, None),
                Err(e) => {
                    ||| n < q.max_steps && after.stepped_from(&last, Err::<(), EngineError>(e))
                    ||| n == q.max_steps && e == EngineError::StepLimit && after.stopped_from(
                        &last,
                    )
                },
            }
        };
    let height = q.graph.nodes@[node].ptrs.height as int;
    assert(q.graph.queues@[height].len() == 1);
    if n == 0 {
        last.lemma_ran_nowhere(q);
        if r0 is Err {
            lemma_quiet_step(q, after, node, val, Err::<(), EngineError>(r0->Err_0));
        }
    } else {
        last.lemma_ran_first(q, n);
        let step = choose|step: Engine<C>| #[trigger]
            step.stepped_from(q, Ok::<(), EngineError>(())) && last.ran_from(
                &step,
                (n - 1) as nat,
            );
        lemma_quiet_step(q, &step, node, val, Ok::<(), EngineError>(()));
        lemma_rest_runs_nowhere(&step, &last, (n - 1) as nat);
        if r0 is Err {
            if n < q.max_steps && after.stepped_from(&last, Err::<(), EngineError>(r0->Err_0)) {
                lemma_step_needs_work(&last, after, Err::<(), EngineError>(r0->Err_0));
            }
        }
    }
}

/// A `get` of a node that is not yet calculated and whose computation is
/// quiet, in an engine at rest that has a generation and a step left,
/// returns the value on which the computation settles.
pub proof fn a_quiet_node_reads_as_its_value<C: AnchorCore>(
    before: &Engine<C>,
    after: &Engine<C>,
    key: NodeKey,
    val: C::Output,
    r: Result<C::Output, EngineError>,
)
    requires
        before.wf(),
        before.quiescent(),
        !before.generation.is_last_spec(),
        before.max_steps >= 1,
        before.graph.valid_key(key),
        before.graph.nodes@[key.ptr as int].ptrs.recalc_state == RecalcState::Needed,
        before.graph.nodes@[key.ptr as int].ptrs.height < before.graph.max_height(),
        holds_quiet(before, key.ptr as int, val),
        after.got_by(before, key, r),
    ensures
        r == Ok::<C::Output, EngineError>(val),
{
    let node = key.ptr as int;
    let (stable, rs) = choose|stable: Engine<C>, rs: Result<(), EngineError>|
        {
            &&& #[trigger] stable.stabilized_by(before, rs)
            &&& match rs {
                Err(e) => r == Err::<C::Output, EngineError>(e) && *after == stable,
                Ok(_) => if !stable.graph.valid_key(key)
                    || stable.graph.nodes@[key.ptr as int].ptrs.recalc_state
                    == RecalcState::Ready {
                    *after == stable && after.read_at(key, r)
                } else {
                    after.fetched_from(&stable, key, r)
                },
            }
        };
    lemma_rest_stabilizes(before, &stable, rs);
    assert(stable.graph.nodes == before.graph.nodes);
    assert(stable.graph.valid_key(key));
    let (queued, rq) = choose|queued: Engine<C>, rq: Result<(), EngineError>|
        {
            &&& #[trigger] queued.graph.queued_from(&stable.graph, key.ptr as int, rq)
            &&& queued.same_settings(&stable)
            &&& match rq {
                Err(e) => r == Err::<C::Output, EngineError>(e) && *after == queued,
                Ok(_) => exists|r0: Result<(), EngineError>|
                    {
                        &&& #[trigger] after.ran_out_from(&queued, r0)
                        &&& match r0 {
                            Err(e) => r == Err::<C::Output, EngineError>(e),
                            Ok(_) => after.read_at(key, r),
                        }
                    },
            }
        };
    assert(rq is Ok);
    let r0 = choose|r0: Result<(), EngineError>|
        {
            &&& #[trigger] after.ran_out_from(&queued, r0)
            &&& match r0 {
                Err(e) => r == Err::<C::Output, EngineError>(e),
                Ok(_) => after.read_at(key, r),
            }
        };
    assert(same_but_queue(queued.graph.nodes@[node], stable.graph.nodes@[node]));
    let height = stable.graph.nodes@[node].ptrs.height as int;
    assert(stable.graph.queues@[height] =~= Seq::<usize>::empty());
    assert(queued.graph.queues@[height] =~= seq![node as usize]);
    assert(alone_in_queue(&queued.graph, node));
    lemma_quiet_run(&queued, after, node, val, r0);
    assert(after.graph.valid_key(key));
    assert(after.read_at(key, r));
    assert(produces(&after.graph, node, r));
}


/// A constant asks nothing and settles on its value.
pub proof fn a_constant_is_quiet<
    V: PartialEq,
    M: Fn(&Vec<&V>) -> V,
    N: Fn(&mut V, &Vec<&V>) -> bool,
    R: for <'any>Fn(&'any V) -> &'any V,
    P: Fn(&V) -> bool,
    T: Fn(&Vec<&V>) -> NodeKey,
>(val: V, first_poll: bool)
    ensures
        quiet(Computation::<V, M, N, R, P, T>::Constant(Constant { val, first_poll }), val),
{
}

/// An input asks nothing and settles on the value that was set last.
pub proof fn an_input_is_quiet<
    V: PartialEq,
    M: Fn(&Vec<&V>) -> V,
    N: Fn(&mut V, &Vec<&V>) -> bool,
    R: for <'any>Fn(&'any V) -> &'any V,
    P: Fn(&V) -> bool,
    T: Fn(&Vec<&V>) -> NodeKey,
>(input: VarAnchor<V>, val: V)
    requires
        input.latest() == Some(val),
    ensures
        quiet(Computation::<V, M, N, R, P, T>::Variable(input), val),
{
}

/// A read of a constant that is not yet calculated gives the value of the
/// constant.
pub proof fn a_constant_reads_as_its_value<
    V: PartialEq,
    M: Fn(&Vec<&V>) -> V,
    N: Fn(&mut V, &Vec<&V>) -> bool,
    R: for <'any>Fn(&'any V) -> &'any V,
    P: Fn(&V) -> bool,
    T: Fn(&Vec<&V>) -> NodeKey,
>(
    before: &Engine<Computation<V, M, N, R, P, T>>,
    after: &Engine<Computation<V, M, N, R, P, T>>,
    key: NodeKey,
    val: V,
    first_poll: bool,
    r: Result<V, EngineError>,
)
    requires
        before.wf(),
        before.quiescent(),
        !before.generation.is_last_spec(),
        before.max_steps >= 1,
        before.graph.valid_key(key),
        before.graph.nodes@[key.ptr as int].ptrs.recalc_state == RecalcState::Needed,
        before.graph.nodes@[key.ptr as int].ptrs.height < before.graph.max_height(),
        before.graph.nodes@[key.ptr as int].parents().len() == 0,
        before.graph.nodes@[key.ptr as int].anchor == Some(
            Computation::<V, M, N, R, P, T>::Constant(Constant { val, first_poll }),
        ),
        after.got_by(before, key, r),
    ensures
        r == Ok::<V, EngineError>(val),
{
    a_constant_is_quiet::<V, M, N, R, P, T>(val, first_poll);
    a_quiet_node_reads_as_its_value(before, after, key, val, r);
}

/// A read of an input that is not yet calculated gives the value that was
/// set last.
pub proof fn an_input_reads_as_the_value_set_last<
    V: PartialEq,
    M: Fn(&Vec<&V>) -> V,
    N: Fn(&mut V, &Vec<&V>) -> bool,
    R: for <'any>Fn(&'any V) -> &'any V,
    P: Fn(&V) -> bool,
    T: Fn(&Vec<&V>) -> NodeKey,
>(
    before: &Engine<Computation<V, M, N, R, P, T>>,
    after: &Engine<Computation<V, M, N, R, P, T>>,
    key: NodeKey,
    input: VarAnchor<V>,
    val: V,
    r: Result<V, EngineError>,
)
    requires
        before.wf(),
        before.quiescent(),
        !before.generation.is_last_spec(),
        before.max_steps >= 1,
        before.graph.valid_key(key),
        before.graph.nodes@[key.ptr as int].ptrs.recalc_state == RecalcState::Needed,
        before.graph.nodes@[key.ptr as int].ptrs.height < before.graph.max_height(),
        before.graph.nodes@[key.ptr as int].parents().len() == 0,
        before.graph.nodes@[key.ptr as int].anchor == Some(
            Computation::<V, M, N, R, P, T>::Variable(input),
        ),
        input.latest() == Some(val),
        after.got_by(before, key, r),
    ensures
        r == Ok::<V, EngineError>(val),
{
    an_input_is_quiet::<V, M, N, R, P, T>(input, val);
    a_quiet_node_reads_as_its_value(before, after, key, val, r);
}

/// The computation is a map by `f` of the one input that `input` names, and
/// holds no value yet.
pub open spec fn fresh_map<V, M, N, R, P, T>(
    core: Computation<V, M, N, R, P, T>,
    f: M,
    input: NodeKey,
) -> bool {
    core matches Computation::Mapped(m) && m.f == f && m.output is None && m.output_stale
        && m.anchors@.len() == 1 && m.anchors@[0].data.node_key == input
}

/// The first poll of a map whose input is not calculated and does not stand
/// below: the input is queued, the map rises to one above it, and the
/// calculation is not complete.
pub proof fn lemma_map_asks_first<
    V: PartialEq,
    M: Fn(&Vec<&V>) -> V,
    N: Fn(&mut V, &Vec<&V>) -> bool,
    R: for <'any>Fn(&'any V) -> &'any V,
    P: Fn(&V) -> bool,
    T: Fn(&Vec<&V>) -> NodeKey,
>(
    b: &Engine<Computation<V, M, N, R, P, T>>,
    x: &Engine<Computation<V, M, N, R, P, T>>,
    m: int,
    f: M,
    ki: NodeKey,
    done: Result<bool, EngineError>,
)
    requires
        b.graph.alive(m),
        b.graph.nodes@[m].ptrs.recalc_state == RecalcState::Ready,
        b.graph.nodes@[m].anchor is Some,
        fresh_map(b.graph.nodes@[m].anchor->0, f, ki),
        b.graph.valid_key(ki),
        b.graph.queues@.len() == b.graph.max_height(),
        ki.ptr != m,
        b.graph.nodes@[ki.ptr as int].ptrs.recalc_state == RecalcState::Needed,
        b.graph.nodes@[ki.ptr as int].ptrs.height < b.graph.max_height(),
        b.graph.nodes@[ki.ptr as int].ptrs.height >= b.graph.nodes@[m].ptrs.height,
        b.graph.room_to_rise(ki.ptr as int, m),
        b.graph.nodes@[m].parents().len() == 0,
        x.recalculated_from(b, m, done),
    ensures
        done == Ok::<bool, EngineError>(false),
        x.graph.nodes@[m].anchor == b.graph.nodes@[m].anchor,
        x.graph.nodes@[m].ptrs.height == b.graph.nodes@[ki.ptr as int].ptrs.height + 1,
        x.graph.nodes@[ki.ptr as int].ptrs.recalc_state == RecalcState::Pending,
        x.graph.queues@ == b.graph.queues@.update(
            b.graph.nodes@[ki.ptr as int].ptrs.height as int,
            seq![ki.ptr] + b.graph.queues@[b.graph.nodes@[ki.ptr as int].ptrs.height as int],
        ),
        x.graph.recalc_queues@.len() == b.graph.recalc_queues@.len(),
        x.graph.nodes@.len() == b.graph.nodes@.len(),
        x.graph.wf(),
        forall|j: int|
            0 <= j < b.graph.nodes@.len() ==> {
                let n = #[trigger] x.graph.nodes@[j];
                let o = b.graph.nodes@[j];
                &&& n.token == o.token
                &&& n.alive() == o.alive()
                &&& n.anchor == o.anchor
                &&& n.parents() == o.parents()
                &&& n.last_ready == o.last_ready
                &&& n.last_update == o.last_update
                &&& j != m ==> n.ptrs.height == o.ptrs.height
                &&& j != ki.ptr ==> n.ptrs.recalc_state == o.ptrs.recalc_state
            },
{
    let i = ki.ptr as int;
    let core = b.graph.nodes@[m].anchor->0;
    let (made, start, ctx, poll) = choose|
        made: Computation<V, M, N, R, P, T>,
        start: EngineContextMut<Computation<V, M, N, R, P, T>>,
        ctx: EngineContextMut<Computation<V, M, N, R, P, T>>,
        poll: Result<Poll, EngineError>,
    |
        {
            &&& b.polls_in(&start, m)
            &&& #[trigger] core.polls(&made, start.events@, ctx.events@, given(&ctx), poll)
            &&& ctx.origin@ == start.origin@
            &&& walked::<V, EngineContextMut<Computation<V, M, N, R, P, T>>>(&start, &ctx)
            &&& poll is Ok ==> ctx.sound()
            &&& x.settled_from(b, m, made, &ctx, poll, done)
        };
    reveal(MapAnchor::<_, _>::polled);
    lemma_walked_back::<V, EngineContextMut<Computation<V, M, N, R, P, T>>>(&start, &ctx);
    assert(ctx.events@.len() == 1);
    let mid = choose|mid: EngineContextMut<Computation<V, M, N, R, P, T>>|
        #[trigger] walked::<V, EngineContextMut<Computation<V, M, N, R, P, T>>>(&start, &mid)
            && one_call::<V, EngineContextMut<Computation<V, M, N, R, P, T>>>(&mid, &ctx);
    lemma_walked_back::<V, EngineContextMut<Computation<V, M, N, R, P, T>>>(&start, &mid);
    assert(mid == start);
    assert(start.step(&ctx, ctx.events@.last()));
    let g = start.graph;
    // the graph of the context is that of the engine, without the computation
    assert forall|j: int| 0 <= j < g.nodes@.len() implies (#[trigger] g.nodes@[j]).ptrs
        == b.graph.nodes@[j].ptrs && g.nodes@[j].token == b.graph.nodes@[j].token by {}
    assert(g.room_to_rise(i, m));
    assert(g.nodes@[m].parents() == b.graph.nodes@[m].parents());
    assert forall|j: int| j != m implies !reaches(&g, m, j) by {
        if reaches(&g, m, j) {
            g.lemma_reach_alone(m, j);
        }
    }
    let e = ctx.events@.last();
    assert(ctx.events@[0] == e);
    let inner = b.graph.nodes@[m].anchor->0->Mapped_0;
    let empty = Seq::<Event>::empty();
    assert(start.events@ =~= empty);
    match poll {
        Ok(answer) => {
            assert(asked_all(empty, ctx.events@, inner.anchors@));
            assert(ctx.events@[empty.len() as int + 0] == e);
            assert(e matches Event::Requested { anchor, necessary, .. } && anchor == ki
                && necessary);
            assert(poll == Ok::<Poll, EngineError>(Poll::Pending));
        },
        Err(error) => {
            if refused_one(empty, ctx.events@, inner.anchors@, error) {
                assert(e == Event::Refused { anchor: ki, error });
                let necessary = choose|necessary: bool| #[trigger]
                    start.requested(&ctx, ki, necessary, Err::<Poll, EngineError>(error));
                assert(false);
            } else {
                assert(asked_all(empty, ctx.events@, inner.anchors@));
                assert(ctx.events@[empty.len() as int + 0] == e);
                assert(e matches Event::Requested { anchor, necessary, answer } && anchor == ki
                    && necessary && answer == Poll::Pending);
                assert(answer_at(ctx.events@, 0) == Poll::Pending);
                assert(found_after(empty, ctx.events@).pending);
                assert(false);
            }
        },
    }
}


/// `out` is what `f` makes of the one value `val`.
pub open spec fn made_of<V, M: Fn(&Vec<&V>) -> V>(f: M, val: V, out: V) -> bool {
    exists|values: Vec<&V>| #[trigger]
        call_ensures(f, (&values,), out) && values@.len() == 1 && *values@[0] == val
}

/// The node in slot `node` is alive and `Ready`, and holds a computation
/// that reads as what `f` makes of `val`.
pub open spec fn holds_made<V, M: Fn(&Vec<&V>) -> V, N, R, P, T>(e: &Engine<Computation<V, M, N, R,
    P, T>>, node: int, f: M, val: V) -> bool where V: PartialEq,
    N: Fn(&mut V, &Vec<&V>) -> bool,
    R: for <'any>Fn(&'any V) -> &'any V,
    P: Fn(&V) -> bool,
    T: Fn(&Vec<&V>) -> NodeKey {
    &&& e.graph.in_range(node)
    &&& e.graph.nodes@[node].alive()
    &&& e.graph.nodes@[node].ptrs.recalc_state == RecalcState::Ready
    &&& e.graph.nodes@[node].anchor is Some
    &&& exists|out: V| #[trigger] made_of(f, val, out) && reads_as(e.graph.nodes@[node].anchor->0,
        out)
}

/// The poll of a map without a value whose input is `Ready` and stands
/// below: the map takes what its function makes of the value of the input,
/// and the calculation is complete.
pub proof fn lemma_map_reads_then<
    V: PartialEq,
    M: Fn(&Vec<&V>) -> V,
    N: Fn(&mut V, &Vec<&V>) -> bool,
    R: for <'any>Fn(&'any V) -> &'any V,
    P: Fn(&V) -> bool,
    T: Fn(&Vec<&V>) -> NodeKey,
>(
    b: &Engine<Computation<V, M, N, R, P, T>>,
    x: &Engine<Computation<V, M, N, R, P, T>>,
    m: int,
    f: M,
    ki: NodeKey,
    val: V,
    done: Result<bool, EngineError>,
)
    requires
        b.graph.alive(m),
        b.graph.nodes@[m].ptrs.recalc_state == RecalcState::Ready,
        b.graph.nodes@[m].anchor is Some,
        fresh_map(b.graph.nodes@[m].anchor->0, f, ki),
        b.graph.nodes@[m].parents().len() == 0,
        b.graph.valid_key(ki),
        ki.ptr != m,
        holds_value(b, ki.ptr as int, val),
        b.graph.nodes@[ki.ptr as int].ptrs.height < b.graph.nodes@[m].ptrs.height,
        x.recalculated_from(b, m, done),
    ensures
        done == Ok::<bool, EngineError>(true),
        holds_made(x, m, f, val),
        x.graph.queues@ == b.graph.queues@,
        x.graph.recalc_queues@.len() == b.graph.recalc_queues@.len(),
        x.graph.nodes@.len() == b.graph.nodes@.len(),
        x.graph.nodes@[m].token == b.graph.nodes@[m].token,
{
    let i = ki.ptr as int;
    let core = b.graph.nodes@[m].anchor->0;
    let (made, start, ctx, poll) = choose|
        made: Computation<V, M, N, R, P, T>,
        start: EngineContextMut<Computation<V, M, N, R, P, T>>,
        ctx: EngineContextMut<Computation<V, M, N, R, P, T>>,
        poll: Result<Poll, EngineError>,
    |
        {
            &&& b.polls_in(&start, m)
            &&& #[trigger] core.polls(&made, start.events@, ctx.events@, given(&ctx), poll)
            &&& ctx.origin@ == start.origin@
            &&& walked::<V, EngineContextMut<Computation<V, M, N, R, P, T>>>(&start, &ctx)
            &&& poll is Ok ==> ctx.sound()
            &&& x.settled_from(b, m, made, &ctx, poll, done)
        };
    reveal(MapAnchor::<_, _>::polled);
    lemma_walked_back::<V, EngineContextMut<Computation<V, M, N, R, P, T>>>(&start, &ctx);
    assert(ctx.events@.len() == 1);
    let mid = choose|mid: EngineContextMut<Computation<V, M, N, R, P, T>>|
        #[trigger] walked::<V, EngineContextMut<Computation<V, M, N, R, P, T>>>(&start, &mid)
            && one_call::<V, EngineContextMut<Computation<V, M, N, R, P, T>>>(
            &mid,
            &ctx,
        );
    lemma_walked_back::<V, EngineContextMut<Computation<V, M, N, R, P, T>>>(&start, &mid);
    assert(mid == start);
    assert(start.step(&ctx, ctx.events@.last()));
    let g = start.graph;
    assert forall|j: int| 0 <= j < g.nodes@.len() implies (#[trigger] g.nodes@[j]).ptrs
        == b.graph.nodes@[j].ptrs && g.nodes@[j].token == b.graph.nodes@[j].token by {}
    let e = ctx.events@.last();
    assert(ctx.events@[0] == e);
    let inner = b.graph.nodes@[m].anchor->0->Mapped_0;
    let empty = Seq::<Event>::empty();
    assert(start.events@ =~= empty);
    assert(g.nodes@[i] == b.graph.nodes@[i]);
    match poll {
        Ok(answer) => {
            assert(asked_all(empty, ctx.events@, inner.anchors@));
            assert(ctx.events@[empty.len() as int + 0] == e);
            assert(e matches Event::Requested { anchor, necessary, .. } && anchor == ki
                && necessary);
            let asked = answer_at(ctx.events@, 0);
            assert(asked != Poll::Pending);
            assert(!found_after(empty, ctx.events@).pending) by {
                if found_after(empty, ctx.events@).pending {
                    let k = choose|k: int|
                        0 <= k < ctx.events@.len() && #[trigger] answer_at(
                            ctx.events@,
                            k,
                        ) == Poll::Pending;
                    assert(k == 0);
                }
            }
            let after_map = made->Mapped_0;
            let (values, new_val) = choose|values: Vec<&V>, new_val: V|
                {
                    &&& #[trigger] read_all(given(&ctx), inner.anchors@, values)
                    &&& #[trigger] call_ensures(inner.f, (&values,), new_val)
                    &&& answer == Poll::Updated ==> after_map.output == Some(new_val)
                    &&& answer == Poll::Unchanged ==> after_map.output == inner.output
                    &&& inner.output is None ==> answer == Poll::Updated
                };
            assert(given(&ctx).contains((inner.anchors@[0].data.node_key, Ok::<V,
                EngineError>(*values@[0]))));
            assert(ctx.gives(ki, Ok::<V, EngineError>(*values@[0])));
            assert(ctx.graph.nodes@[i].anchor == b.graph.nodes@[i].anchor);
            assert(*values@[0] == val);
            assert(made_of(f, val, new_val));
            assert(reads_as(made, new_val));
        },
        Err(error) => {
            if refused_one(empty, ctx.events@, inner.anchors@, error) {
                assert(e == Event::Refused { anchor: ki, error });
                let necessary = choose|necessary: bool| #[trigger]
                    start.requested(&ctx, ki, necessary, Err::<Poll, EngineError>(error));
                assert(false);
            } else {
                assert(asked_all(empty, ctx.events@, inner.anchors@));
                assert(ctx.events@[empty.len() as int + 0] == e);
                let k = choose|k: int|
                    {
                        &&& 0 <= k < inner.anchors@.len()
                        &&& #[trigger] read_upto(given(&ctx), inner.anchors@, k)
                        &&& given(&ctx).contains(
                            (inner.anchors@[k].data.node_key, Err::<V, EngineError>(error)),
                        )
                    };
                assert(ctx.gives(ki, Err::<V, EngineError>(error)));
                assert(ctx.graph.nodes@[i].anchor == b.graph.nodes@[i].anchor);
                assert(false);
            }
        },
    }
}


/// The node that `km` names holds a map by `f` of the node that `ki` names,
/// has no value yet and no clean parents, and the input stands at height 0.
pub open spec fn map_over<
    V: PartialEq,
    M: Fn(&Vec<&V>) -> V,
    N: Fn(&mut V, &Vec<&V>) -> bool,
    R: for <'any>Fn(&'any V) -> &'any V,
    P: Fn(&V) -> bool,
    T: Fn(&Vec<&V>) -> NodeKey,
>(e: &Engine<Computation<V, M, N, R, P, T>>, ki: NodeKey, km: NodeKey, f: M) -> bool {
    let i = ki.ptr as int;
    let m = km.ptr as int;
    &&& i != m
    &&& e.graph.valid_key(ki)
    &&& e.graph.valid_key(km)
    &&& e.graph.nodes@[m].anchor is Some
    &&& fresh_map(e.graph.nodes@[m].anchor->0, f, ki)
    &&& e.graph.nodes@[m].parents().len() == 0
    &&& e.graph.nodes@[i].ptrs.height == 0
    &&& e.graph.queues@.len() == e.graph.max_height()
}

/// Only the map waits in the queue, at height 0, and its input is not
/// calculated yet.
pub open spec fn map_waits<
    V: PartialEq,
    M: Fn(&Vec<&V>) -> V,
    N: Fn(&mut V, &Vec<&V>) -> bool,
    R: for <'any>Fn(&'any V) -> &'any V,
    P: Fn(&V) -> bool,
    T: Fn(&Vec<&V>) -> NodeKey,
>(e: &Engine<Computation<V, M, N, R, P, T>>, ki: NodeKey, km: NodeKey, f: M, val: V) -> bool {
    let i = ki.ptr as int;
    let m = km.ptr as int;
    &&& map_over(e, ki, km, f)
    &&& e.graph.max_height() >= 2
    &&& holds_quiet(e, i, val)
    &&& e.graph.nodes@[i].ptrs.recalc_state == RecalcState::Needed
    &&& e.graph.nodes@[m].ptrs.height == 0
    &&& alone_in_queue(&e.graph, m)
    &&& forall|j: int| 0 <= j < e.graph.nodes@.len()
        ==> (#[trigger] e.graph.nodes@[j]).ptrs.height < usize::MAX
}

/// The input waits in the queue at height 0 and the map at height 1.
pub open spec fn both_wait<
    V: PartialEq,
    M: Fn(&Vec<&V>) -> V,
    N: Fn(&mut V, &Vec<&V>) -> bool,
    R: for <'any>Fn(&'any V) -> &'any V,
    P: Fn(&V) -> bool,
    T: Fn(&Vec<&V>) -> NodeKey,
>(e: &Engine<Computation<V, M, N, R, P, T>>, ki: NodeKey, km: NodeKey, f: M, val: V) -> bool {
    let i = ki.ptr as int;
    let m = km.ptr as int;
    &&& map_over(e, ki, km, f)
    &&& e.graph.max_height() >= 2
    &&& holds_quiet(e, i, val)
    &&& e.graph.nodes@[m].ptrs.height == 1
    &&& e.graph.queues@[0] == seq![i as usize]
    &&& e.graph.queues@[1] == seq![m as usize]
    &&& forall|j: int| 2 <= j < e.graph.queues@.len() ==> (#[trigger] e.graph.queues@[j]).len() == 0
}

/// The input is calculated, and only the map waits in the queue, at height 1.
pub open spec fn map_waits_again<
    V: PartialEq,
    M: Fn(&Vec<&V>) -> V,
    N: Fn(&mut V, &Vec<&V>) -> bool,
    R: for <'any>Fn(&'any V) -> &'any V,
    P: Fn(&V) -> bool,
    T: Fn(&Vec<&V>) -> NodeKey,
>(e: &Engine<Computation<V, M, N, R, P, T>>, ki: NodeKey, km: NodeKey, f: M, val: V) -> bool {
    let i = ki.ptr as int;
    let m = km.ptr as int;
    &&& map_over(e, ki, km, f)
    &&& e.graph.max_height() >= 2
    &&& holds_value(e, i, val)
    &&& e.graph.nodes@[m].ptrs.height == 1
    &&& alone_in_queue(&e.graph, m)
}

/// Nothing waits in the queue, and the map holds what `f` makes of `val`.
pub open spec fn map_done<
    V: PartialEq,
    M: Fn(&Vec<&V>) -> V,
    N: Fn(&mut V, &Vec<&V>) -> bool,
    R: for <'any>Fn(&'any V) -> &'any V,
    P: Fn(&V) -> bool,
    T: Fn(&Vec<&V>) -> NodeKey,
>(e: &Engine<Computation<V, M, N, R, P, T>>, km: NodeKey, f: M, val: V) -> bool {
    &&& e.graph.valid_key(km)
    &&& e.graph.queue_is_empty()
    &&& holds_made(e, km.ptr as int, f, val)
}

/// The first step: the map is polled, and then both wait.
pub proof fn lemma_map_step_one<
    V: PartialEq,
    M: Fn(&Vec<&V>) -> V,
    N: Fn(&mut V, &Vec<&V>) -> bool,
    R: for <'any>Fn(&'any V) -> &'any V,
    P: Fn(&V) -> bool,
    T: Fn(&Vec<&V>) -> NodeKey,
>(q: &Engine<Computation<V, M, N, R, P, T>>, x: &Engine<Computation<V, M, N, R, P, T>>,
    ki: NodeKey, km: NodeKey, f: M, val: V, rr: Result<(), EngineError>)
    requires
        map_waits(q, ki, km, f, val),
        x.stepped_from(q, rr),
    ensures
        rr is Ok,
        both_wait(x, ki, km, f, val),
        x.same_settings(q),
{
    let i = ki.ptr as int;
    let m = km.ptr as int;
    let (popped, h, n) = choose|popped: Engine<Computation<V, M, N, R, P, T>>, h: usize, n: usize|
        {
            &&& #[trigger] popped.graph.popped_from(&q.graph, Some((h, n)))
            &&& popped.same_settings(q)
            &&& if popped.graph.nodes@[n as int].ptrs.height == h {
                x.polled_from(&popped, n as int, rr)
            } else {
                x.graph.queued_from(&popped.graph, n as int, rr)
            }
        };
    assert(h == 0) by {
        if h != 0 {
            assert(q.graph.queues@[h as int].len() == 0);
        }
    }
    assert(n == m);
    assert(same_but_queue(popped.graph.nodes@[m], q.graph.nodes@[m]));
    assert(same_but_queue(popped.graph.nodes@[i], q.graph.nodes@[i]));
    assert(popped.graph.queues@[0] =~= Seq::<usize>::empty());
    let (polled, done) = choose|polled: Engine<Computation<V, M, N, R, P, T>>, done: Result<bool,
        EngineError>|
        {
            &&& #[trigger] polled.recalculated_from(&popped, m, done)
            &&& polled.same_settings(&popped)
            &&& match done {
                Err(e) => rr == Err::<(), EngineError>(e) && x.graph == polled.graph,
                Ok(complete) => if complete {
                    rr is Ok && x.graph == polled.graph
                } else {
                    x.graph.queued_from(&polled.graph, m, rr)
                },
            }
        };
    assert(popped.graph.room_to_rise(i, m)) by {
        assert forall|j: int| 0 <= j < popped.graph.nodes@.len() implies (
        #[trigger] popped.graph.nodes@[j]).ptrs.height + popped.graph.nodes@[i].ptrs.height + 1
            - popped.graph.nodes@[m].ptrs.height <= usize::MAX by {
            assert(same_but_queue(popped.graph.nodes@[j], q.graph.nodes@[j]));
        }
    }
    lemma_map_asks_first(&popped, &polled, m, f, ki, done);
    assert(polled.graph.queues@[0] =~= seq![i as usize]);
    assert(same_but_queue(x.graph.nodes@[m], polled.graph.nodes@[m]));
    assert(same_but_queue(x.graph.nodes@[i], polled.graph.nodes@[i]));
    assert(x.graph.queues@[1] =~= seq![m as usize]) by {
        assert(q.graph.queues@[1].len() == 0);
    }
    assert forall|j: int| 2
        <= j < x.graph.queues@.len() implies (#[trigger] x.graph.queues@[j]).len() == 0 by {
        assert(q.graph.queues@[j].len() == 0);
    }
}

/// The second step: the input is calculated.
pub proof fn lemma_map_step_two<
    V: PartialEq,
    M: Fn(&Vec<&V>) -> V,
    N: Fn(&mut V, &Vec<&V>) -> bool,
    R: for <'any>Fn(&'any V) -> &'any V,
    P: Fn(&V) -> bool,
    T: Fn(&Vec<&V>) -> NodeKey,
>(q: &Engine<Computation<V, M, N, R, P, T>>, x: &Engine<Computation<V, M, N, R, P, T>>,
    ki: NodeKey, km: NodeKey, f: M, val: V, rr: Result<(), EngineError>)
    requires
        both_wait(q, ki, km, f, val),
        x.stepped_from(q, rr),
    ensures
        rr is Ok,
        map_waits_again(x, ki, km, f, val),
        x.same_settings(q),
{
    let i = ki.ptr as int;
    let m = km.ptr as int;
    let (popped, h, n) = choose|popped: Engine<Computation<V, M, N, R, P, T>>, h: usize, n: usize|
        {
            &&& #[trigger] popped.graph.popped_from(&q.graph, Some((h, n)))
            &&& popped.same_settings(q)
            &&& if popped.graph.nodes@[n as int].ptrs.height == h {
                x.polled_from(&popped, n as int, rr)
            } else {
                x.graph.queued_from(&popped.graph, n as int, rr)
            }
        };
    assert(h == 0) by {
        if h != 0 {
            assert(q.graph.queues@[0].len() == 0);
        }
    }
    assert(n == i);
    assert(same_but_queue(popped.graph.nodes@[m], q.graph.nodes@[m]));
    assert(same_but_queue(popped.graph.nodes@[i], q.graph.nodes@[i]));
    assert(popped.graph.queues@[0] =~= Seq::<usize>::empty());
    let (polled, done) = choose|polled: Engine<Computation<V, M, N, R, P, T>>, done: Result<bool,
        EngineError>|
        {
            &&& #[trigger] polled.recalculated_from(&popped, i, done)
            &&& polled.same_settings(&popped)
            &&& match done {
                Err(e) => rr == Err::<(), EngineError>(e) && x.graph == polled.graph,
                Ok(complete) => if complete {
                    rr is Ok && x.graph == polled.graph
                } else {
                    x.graph.queued_from(&polled.graph, i, rr)
                },
            }
        };
    lemma_quiet_recalculates(&popped, &polled, i, val, done);
    assert(polled.graph.nodes@[m] == popped.graph.nodes@[m]);
    assert(alone_in_queue(&x.graph, m)) by {
        assert forall|j: int| 0 <= j < x.graph.queues@.len() && j
            != 1 implies (#[trigger] x.graph.queues@[j]).len() == 0 by {
            if j >= 2 {
                assert(q.graph.queues@[j].len() == 0);
            }
        }
    }
}

/// The third step: the map is calculated.
pub proof fn lemma_map_step_three<
    V: PartialEq,
    M: Fn(&Vec<&V>) -> V,
    N: Fn(&mut V, &Vec<&V>) -> bool,
    R: for <'any>Fn(&'any V) -> &'any V,
    P: Fn(&V) -> bool,
    T: Fn(&Vec<&V>) -> NodeKey,
>(q: &Engine<Computation<V, M, N, R, P, T>>, x: &Engine<Computation<V, M, N, R, P, T>>,
    ki: NodeKey, km: NodeKey, f: M, val: V, rr: Result<(), EngineError>)
    requires
        map_waits_again(q, ki, km, f, val),
        x.stepped_from(q, rr),
    ensures
        rr is Ok,
        map_done(x, km, f, val),
        x.same_settings(q),
{
    let i = ki.ptr as int;
    let m = km.ptr as int;
    let (popped, h, n) = choose|popped: Engine<Computation<V, M, N, R, P, T>>, h: usize, n: usize|
        {
            &&& #[trigger] popped.graph.popped_from(&q.graph, Some((h, n)))
            &&& popped.same_settings(q)
            &&& if popped.graph.nodes@[n as int].ptrs.height == h {
                x.polled_from(&popped, n as int, rr)
            } else {
                x.graph.queued_from(&popped.graph, n as int, rr)
            }
        };
    assert(h == 1) by {
        if h != 1 {
            assert(q.graph.queues@[h as int].len() == 0);
        }
    }
    assert(n == m);
    assert(same_but_queue(popped.graph.nodes@[m], q.graph.nodes@[m]));
    assert(same_but_queue(popped.graph.nodes@[i], q.graph.nodes@[i]));
    assert(popped.graph.queues@[1] =~= Seq::<usize>::empty());
    assert(popped.graph.queue_is_empty()) by {
        assert forall|j: int| 0
            <= j < popped.graph.queues@.len() implies (#[trigger] popped.graph.queues@[j]).len()
            == 0 by {
            if j != 1 {
                assert(q.graph.queues@[j].len() == 0);
            }
        }
    }
    let (polled, done) = choose|polled: Engine<Computation<V, M, N, R, P, T>>, done: Result<bool,
        EngineError>|
        {
            &&& #[trigger] polled.recalculated_from(&popped, m, done)
            &&& polled.same_settings(&popped)
            &&& match done {
                Err(e) => rr == Err::<(), EngineError>(e) && x.graph == polled.graph,
                Ok(complete) => if complete {
                    rr is Ok && x.graph == polled.graph
                } else {
                    x.graph.queued_from(&polled.graph, m, rr)
                },
            }
        };
    lemma_map_reads_then(&popped, &polled, m, f, ki, val, done);
}


/// How a run of steps has ended that has led to `last`: with nothing left
/// in the queue, or with a step that has failed, or, if `limit` holds, with
/// a node still in the queue.
pub open spec fn ended<C: AnchorCore>(
    after: &Engine<C>,
    last: &Engine<C>,
    r0: Result<(), EngineError>,
    limit: bool,
) -> bool {
    match r0 {
        Ok(_) => after.graph.popped_from(&last.graph, None),
        Err(e) => {
            ||| after.stepped_from(last, Err::<(), EngineError>(e))
            ||| limit && e == EngineError::StepLimit && after.stopped_from(last)
        },
    }
}

/// Steps that begin when only the map waits end after the one that
/// calculates it.
pub proof fn lemma_map_run_three<
    V: PartialEq,
    M: Fn(&Vec<&V>) -> V,
    N: Fn(&mut V, &Vec<&V>) -> bool,
    R: for <'any>Fn(&'any V) -> &'any V,
    P: Fn(&V) -> bool,
    T: Fn(&Vec<&V>) -> NodeKey,
>(s: &Engine<Computation<V, M, N, R, P, T>>, last: &Engine<Computation<V, M, N, R, P, T>>,
    after: &Engine<Computation<V, M, N, R, P, T>>, k: nat, limit: bool, ki: NodeKey, km: NodeKey,
    f: M, val: V, r0: Result<(), EngineError>)
    requires
        map_waits_again(s, ki, km, f, val),
        last.ran_from(s, k),
        ended(after, last, r0, limit),
        limit ==> k >= 1,
    ensures
        r0 is Ok,
        after.graph.valid_key(km),
        holds_made(after, km.ptr as int, f, val),
{
    let m = km.ptr as int;
    assert(s.graph.queues@[1].len() == 1);
    if k == 0 {
        last.lemma_ran_nowhere(s);
        if r0 is Err {
            lemma_map_step_three(s, after, ki, km, f, val, Err::<(), EngineError>(r0->Err_0));
        }
    } else {
        last.lemma_ran_first(s, k);
        let three = choose|three: Engine<Computation<V, M, N, R, P, T>>| #[trigger]
            three.stepped_from(s, Ok::<(), EngineError>(())) && last.ran_from(
                &three,
                (k - 1) as nat,
            );
        lemma_map_step_three(s, &three, ki, km, f, val, Ok::<(), EngineError>(()));
        lemma_rest_runs_nowhere(&three, last, (k - 1) as nat);
        if r0 is Err {
            if after.stepped_from(last, Err::<(), EngineError>(r0->Err_0)) {
                lemma_step_needs_work(last, after, Err::<(), EngineError>(r0->Err_0));
            }
        }
    }
}

/// Steps that begin when both wait end after two.
pub proof fn lemma_map_run_two<
    V: PartialEq,
    M: Fn(&Vec<&V>) -> V,
    N: Fn(&mut V, &Vec<&V>) -> bool,
    R: for <'any>Fn(&'any V) -> &'any V,
    P: Fn(&V) -> bool,
    T: Fn(&Vec<&V>) -> NodeKey,
>(s: &Engine<Computation<V, M, N, R, P, T>>, last: &Engine<Computation<V, M, N, R, P, T>>,
    after: &Engine<Computation<V, M, N, R, P, T>>, k: nat, limit: bool, ki: NodeKey, km: NodeKey,
    f: M, val: V, r0: Result<(), EngineError>)
    requires
        both_wait(s, ki, km, f, val),
        last.ran_from(s, k),
        ended(after, last, r0, limit),
        limit ==> k >= 2,
    ensures
        r0 is Ok,
        after.graph.valid_key(km),
        holds_made(after, km.ptr as int, f, val),
{
    assert(s.graph.queues@[0].len() == 1);
    if k == 0 {
        last.lemma_ran_nowhere(s);
        if r0 is Err {
            lemma_map_step_two(s, after, ki, km, f, val, Err::<(), EngineError>(r0->Err_0));
        }
    } else {
        last.lemma_ran_first(s, k);
        let two = choose|two: Engine<Computation<V, M, N, R, P, T>>| #[trigger]
            two.stepped_from(s, Ok::<(), EngineError>(())) && last.ran_from(&two, (k - 1) as nat);
        lemma_map_step_two(s, &two, ki, km, f, val, Ok::<(), EngineError>(()));
        lemma_map_run_three(&two, last, after, (k - 1) as nat, limit, ki, km, f, val, r0);
    }
}

/// Steps that begin when the map waits alone, its input not calculated,
/// end after three.
pub proof fn lemma_map_run_one<
    V: PartialEq,
    M: Fn(&Vec<&V>) -> V,
    N: Fn(&mut V, &Vec<&V>) -> bool,
    R: for <'any>Fn(&'any V) -> &'any V,
    P: Fn(&V) -> bool,
    T: Fn(&Vec<&V>) -> NodeKey,
>(s: &Engine<Computation<V, M, N, R, P, T>>, last: &Engine<Computation<V, M, N, R, P, T>>,
    after: &Engine<Computation<V, M, N, R, P, T>>, k: nat, limit: bool, ki: NodeKey, km: NodeKey,
    f: M, val: V, r0: Result<(), EngineError>)
    requires
        map_waits(s, ki, km, f, val),
        last.ran_from(s, k),
        ended(after, last, r0, limit),
        limit ==> k >= 3,
    ensures
        r0 is Ok,
        after.graph.valid_key(km),
        holds_made(after, km.ptr as int, f, val),
{
    assert(s.graph.queues@[0].len() == 1);
    if k == 0 {
        last.lemma_ran_nowhere(s);
        if r0 is Err {
            lemma_map_step_one(s, after, ki, km, f, val, Err::<(), EngineError>(r0->Err_0));
        }
    } else {
        last.lemma_ran_first(s, k);
        let one = choose|one: Engine<Computation<V, M, N, R, P, T>>| #[trigger]
            one.stepped_from(s, Ok::<(), EngineError>(())) && last.ran_from(&one, (k - 1) as nat);
        lemma_map_step_one(s, &one, ki, km, f, val, Ok::<(), EngineError>(()));
        lemma_map_run_two(&one, last, after, (k - 1) as nat, limit, ki, km, f, val, r0);
    }
}

/// Recalculating what is queued, when that is a map whose input is not
/// calculated, succeeds and leaves the map with what its function makes of
/// the value of the input.
pub proof fn lemma_map_run<
    V: PartialEq,
    M: Fn(&Vec<&V>) -> V,
    N: Fn(&mut V, &Vec<&V>) -> bool,
    R: for <'any>Fn(&'any V) -> &'any V,
    P: Fn(&V) -> bool,
    T: Fn(&Vec<&V>) -> NodeKey,
>(q: &Engine<Computation<V, M, N, R, P, T>>, after: &Engine<Computation<V, M, N, R, P, T>>,
    ki: NodeKey, km: NodeKey, f: M, val: V, r0: Result<(), EngineError>)
    requires
        map_waits(q, ki, km, f, val),
        q.max_steps >= 3,
        after.ran_out_from(q, r0),
    ensures
        r0 is Ok,
        after.graph.valid_key(km),
        holds_made(after, km.ptr as int, f, val),
{
    let (last, n) = choose|last: Engine<Computation<V, M, N, R, P, T>>, n: nat|
        {
            &&& n <= q.max_steps
            &&& #[trigger] last.ran_from(q, n)
            &&& match r0 {
                Ok(_) => after.graph.popped_from(&last.graph, None),
                Err(e) => {
                    ||| n < q.max_steps && after.stepped_from(&last, Err::<(), EngineError>(e))
                    ||| n == q.max_steps && e == EngineError::StepLimit && after.stopped_from(
                        &last,
                    )
                },
            }
        };
    lemma_map_run_one(q, &last, after, n, n == q.max_steps, ki, km, f, val, r0);
}

/// A `get` of a map that is not yet calculated, over one input that is not
/// yet calculated either and whose computation is quiet, in an engine at
/// rest, returns what the function of the map makes of the value on which
/// the input settles.
pub proof fn a_map_reads_as_what_its_function_makes<
    V: PartialEq,
    M: Fn(&Vec<&V>) -> V,
    N: Fn(&mut V, &Vec<&V>) -> bool,
    R: for <'any>Fn(&'any V) -> &'any V,
    P: Fn(&V) -> bool,
    T: Fn(&Vec<&V>) -> NodeKey,
>(
    before: &Engine<Computation<V, M, N, R, P, T>>,
    after: &Engine<Computation<V, M, N, R, P, T>>,
    ki: NodeKey,
    km: NodeKey,
    f: M,
    val: V,
    r: Result<V, EngineError>,
)
    requires
        before.wf(),
        before.quiescent(),
        !before.generation.is_last_spec(),
        before.max_steps >= 3,
        before.graph.max_height() >= 2,
        map_over(before, ki, km, f),
        holds_quiet(before, ki.ptr as int, val),
        before.graph.nodes@[ki.ptr as int].ptrs.recalc_state == RecalcState::Needed,
        before.graph.nodes@[km.ptr as int].ptrs.recalc_state == RecalcState::Needed,
        before.graph.nodes@[km.ptr as int].ptrs.height == 0,
        forall|j: int|
            0 <= j < before.graph.nodes@.len() ==> (#[trigger] before.graph.nodes@[j]).ptrs.height
                < usize::MAX,
        after.got_by(before, km, r),
    ensures
        r is Ok,
        made_of(f, val, r->Ok_0),
{
    let i = ki.ptr as int;
    let m = km.ptr as int;
    let (stable, rs) = choose|stable: Engine<Computation<V, M, N, R, P, T>>, rs: Result<(),
        EngineError>|
        {
            &&& #[trigger] stable.stabilized_by(before, rs)
            &&& match rs {
                Err(e) => r == Err::<V, EngineError>(e) && *after == stable,
                Ok(_) => if !stable.graph.valid_key(km)
                    || stable.graph.nodes@[km.ptr as int].ptrs.recalc_state
                    == RecalcState::Ready {
                    *after == stable && after.read_at(km, r)
                } else {
                    after.fetched_from(&stable, km, r)
                },
            }
        };
    lemma_rest_stabilizes(before, &stable, rs);
    assert(stable.graph.nodes == before.graph.nodes);
    assert(stable.graph.valid_key(km));
    let (queued, rq) = choose|queued: Engine<Computation<V, M, N, R, P, T>>, rq: Result<(),
        EngineError>|
        {
            &&& #[trigger] queued.graph.queued_from(&stable.graph, km.ptr as int, rq)
            &&& queued.same_settings(&stable)
            &&& match rq {
                Err(e) => r == Err::<V, EngineError>(e) && *after == queued,
                Ok(_) => exists|r0: Result<(), EngineError>|
                    {
                        &&& #[trigger] after.ran_out_from(&queued, r0)
                        &&& match r0 {
                            Err(e) => r == Err::<V, EngineError>(e),
                            Ok(_) => after.read_at(km, r),
                        }
                    },
            }
        };
    assert(rq is Ok);
    let r0 = choose|r0: Result<(), EngineError>|
        {
            &&& #[trigger] after.ran_out_from(&queued, r0)
            &&& match r0 {
                Err(e) => r == Err::<V, EngineError>(e),
                Ok(_) => after.read_at(km, r),
            }
        };
    assert(same_but_queue(queued.graph.nodes@[m], stable.graph.nodes@[m]));
    assert(same_but_queue(queued.graph.nodes@[i], stable.graph.nodes@[i]));
    assert(stable.graph.queues@[0] =~= Seq::<usize>::empty());
    assert(queued.graph.queues@[0] =~= seq![m as usize]);
    assert(alone_in_queue(&queued.graph, m));
    assert forall|j: int| 0 <= j < queued.graph.nodes@.len() implies (
    #[trigger] queued.graph.nodes@[j]).ptrs.height < usize::MAX by {
        assert(same_but_queue(queued.graph.nodes@[j], stable.graph.nodes@[j]));
    }
    assert(map_waits(&queued, ki, km, f, val));
    lemma_map_run(&queued, after, ki, km, f, val, r0);
    assert(after.read_at(km, r));
    assert(produces(&after.graph, m, r));
    let out = choose|out: V| #[trigger]
        made_of(f, val, out) && reads_as(after.graph.nodes@[m].anchor->0, out);
    assert(r == Ok::<V, EngineError>(out));
}


/// Only the map waits in the queue, its input is not calculated, and the
/// queue takes no height but 0.
pub open spec fn map_has_no_room<
    V: PartialEq,
    M: Fn(&Vec<&V>) -> V,
    N: Fn(&mut V, &Vec<&V>) -> bool,
    R: for <'any>Fn(&'any V) -> &'any V,
    P: Fn(&V) -> bool,
    T: Fn(&Vec<&V>) -> NodeKey,
>(
    e: &Engine<Computation<V, M, N, R, P, T>>,
    ki: NodeKey,
    km: NodeKey,
    f: M,
    val: V,
) -> bool {
    let i = ki.ptr as int;
    let m = km.ptr as int;
    &&& map_over(e, ki, km, f)
    &&& e.graph.max_height() == 1
    &&& holds_quiet(e, i, val)
    &&& e.graph.nodes@[i].ptrs.recalc_state == RecalcState::Needed
    &&& e.graph.nodes@[m].ptrs.height == 0
    &&& alone_in_queue(&e.graph, m)
    &&& forall|j: int|
        0 <= j < e.graph.nodes@.len() ==> (#[trigger] e.graph.nodes@[j]).ptrs.height < usize::MAX
}

/// The step that polls a map for which the queue has no room: the map rises
/// to the maximum height and cannot be queued again.
pub proof fn lemma_map_step_refused<
    V: PartialEq,
    M: Fn(&Vec<&V>) -> V,
    N: Fn(&mut V, &Vec<&V>) -> bool,
    R: for <'any>Fn(&'any V) -> &'any V,
    P: Fn(&V) -> bool,
    T: Fn(&Vec<&V>) -> NodeKey,
>(
    q: &Engine<Computation<V, M, N, R, P, T>>,
    x: &Engine<Computation<V, M, N, R, P, T>>,
    ki: NodeKey,
    km: NodeKey,
    f: M,
    val: V,
    rr: Result<(), EngineError>,
)
    requires
        map_has_no_room(q, ki, km, f, val),
        x.stepped_from(q, rr),
    ensures
        rr == Err::<(), EngineError>(EngineError::HeightLimit),
{
    let i = ki.ptr as int;
    let m = km.ptr as int;
    let (popped, h, n) = choose|popped: Engine<Computation<V, M, N, R, P, T>>, h: usize, n: usize|
        {
            &&& #[trigger] popped.graph.popped_from(&q.graph, Some((h, n)))
            &&& popped.same_settings(q)
            &&& if popped.graph.nodes@[n as int].ptrs.height == h {
                x.polled_from(&popped, n as int, rr)
            } else {
                x.graph.queued_from(&popped.graph, n as int, rr)
            }
        };
    assert(h == 0);
    assert(n == m);
    assert(same_but_queue(popped.graph.nodes@[m], q.graph.nodes@[m]));
    assert(same_but_queue(popped.graph.nodes@[i], q.graph.nodes@[i]));
    let (polled, done) = choose|polled: Engine<Computation<V, M, N, R, P, T>>, done: Result<bool,
        EngineError>|
        {
            &&& #[trigger] polled.recalculated_from(&popped, m, done)
            &&& polled.same_settings(&popped)
            &&& match done {
                Err(e) => rr == Err::<(), EngineError>(e) && x.graph == polled.graph,
                Ok(complete) => if complete {
                    rr is Ok && x.graph == polled.graph
                } else {
                    x.graph.queued_from(&polled.graph, m, rr)
                },
            }
        };
    assert(popped.graph.room_to_rise(i, m)) by {
        assert forall|j: int| 0 <= j < popped.graph.nodes@.len() implies (
        #[trigger] popped.graph.nodes@[j]).ptrs.height + popped.graph.nodes@[i].ptrs.height + 1
            - popped.graph.nodes@[m].ptrs.height <= usize::MAX by {
            assert(same_but_queue(popped.graph.nodes@[j], q.graph.nodes@[j]));
        }
    }
    lemma_map_asks_first(&popped, &polled, m, f, ki, done);
}

/// A `get` of a map over an input, none of them calculated, in an engine at
/// rest whose queue takes no height but 0, is refused with `HeightLimit`:
/// the map has to stand at height 1.
pub proof fn a_map_without_room_is_refused<
    V: PartialEq,
    M: Fn(&Vec<&V>) -> V,
    N: Fn(&mut V, &Vec<&V>) -> bool,
    R: for <'any>Fn(&'any V) -> &'any V,
    P: Fn(&V) -> bool,
    T: Fn(&Vec<&V>) -> NodeKey,
>(
    before: &Engine<Computation<V, M, N, R, P, T>>,
    after: &Engine<Computation<V, M, N, R, P, T>>,
    ki: NodeKey,
    km: NodeKey,
    f: M,
    val: V,
    r: Result<V, EngineError>,
)
    requires
        before.wf(),
        before.quiescent(),
        !before.generation.is_last_spec(),
        before.max_steps >= 1,
        before.graph.max_height() == 1,
        map_over(before, ki, km, f),
        holds_quiet(before, ki.ptr as int, val),
        before.graph.nodes@[ki.ptr as int].ptrs.recalc_state == RecalcState::Needed,
        before.graph.nodes@[km.ptr as int].ptrs.recalc_state == RecalcState::Needed,
        before.graph.nodes@[km.ptr as int].ptrs.height == 0,
        forall|j: int|
            0 <= j < before.graph.nodes@.len() ==> (#[trigger] before.graph.nodes@[j]).ptrs.height
                < usize::MAX,
        after.got_by(before, km, r),
    ensures
        r == Err::<V, EngineError>(EngineError::HeightLimit),
{
    let i = ki.ptr as int;
    let m = km.ptr as int;
    let (stable, rs) = choose|stable: Engine<Computation<V, M, N, R, P, T>>, rs: Result<(),
        EngineError>|
        {
            &&& #[trigger] stable.stabilized_by(before, rs)
            &&& match rs {
                Err(e) => r == Err::<V, EngineError>(e) && *after == stable,
                Ok(_) => if !stable.graph.valid_key(km)
                    || stable.graph.nodes@[km.ptr as int].ptrs.recalc_state
                    == RecalcState::Ready {
                    *after == stable && after.read_at(km, r)
                } else {
                    after.fetched_from(&stable, km, r)
                },
            }
        };
    lemma_rest_stabilizes(before, &stable, rs);
    assert(stable.graph.nodes == before.graph.nodes);
    assert(stable.graph.valid_key(km));
    let (queued, rq) = choose|queued: Engine<Computation<V, M, N, R, P, T>>, rq: Result<(),
        EngineError>|
        {
            &&& #[trigger] queued.graph.queued_from(&stable.graph, km.ptr as int, rq)
            &&& queued.same_settings(&stable)
            &&& match rq {
                Err(e) => r == Err::<V, EngineError>(e) && *after == queued,
                Ok(_) => exists|r0: Result<(), EngineError>|
                    {
                        &&& #[trigger] after.ran_out_from(&queued, r0)
                        &&& match r0 {
                            Err(e) => r == Err::<V, EngineError>(e),
                            Ok(_) => after.read_at(km, r),
                        }
                    },
            }
        };
    assert(rq is Ok);
    let r0 = choose|r0: Result<(), EngineError>|
        {
            &&& #[trigger] after.ran_out_from(&queued, r0)
            &&& match r0 {
                Err(e) => r == Err::<V, EngineError>(e),
                Ok(_) => after.read_at(km, r),
            }
        };
    assert(same_but_queue(queued.graph.nodes@[m], stable.graph.nodes@[m]));
    assert(same_but_queue(queued.graph.nodes@[i], stable.graph.nodes@[i]));
    assert(stable.graph.queues@[0] =~= Seq::<usize>::empty());
    assert(queued.graph.queues@[0] =~= seq![m as usize]);
    assert(alone_in_queue(&queued.graph, m));
    assert forall|j: int| 0 <= j < queued.graph.nodes@.len() implies (
    #[trigger] queued.graph.nodes@[j]).ptrs.height < usize::MAX by {
        assert(same_but_queue(queued.graph.nodes@[j], stable.graph.nodes@[j]));
    }
    assert(map_has_no_room(&queued, ki, km, f, val));
    let (last, n) = choose|last: Engine<Computation<V, M, N, R, P, T>>, n: nat|
        {
            &&& n <= queued.max_steps
            &&& #[trigger] last.ran_from(&queued, n)
            &&& match r0 {
                Ok(_) => after.graph.popped_from(&last.graph, None),
                Err(e) => {
                    ||| n < queued.max_steps && after.stepped_from(
                        &last,
                        Err::<(), EngineError>(e),
                    )
                    ||| n == queued.max_steps && e == EngineError::StepLimit
                        && after.stopped_from(&last)
                },
            }
        };
    assert(queued.graph.queues@[0].len() == 1);
    if n == 0 {
        last.lemma_ran_nowhere(&queued);
        if r0 is Err {
            lemma_map_step_refused(&queued, after, ki, km, f, val, Err::<(),
                EngineError>(r0->Err_0));
        }
    } else {
        last.lemma_ran_first(&queued, n);
        let one = choose|one: Engine<Computation<V, M, N, R, P, T>>| #[trigger]
            one.stepped_from(&queued, Ok::<(), EngineError>(())) && last.ran_from(
                &one,
                (n - 1) as nat,
            );
        lemma_map_step_refused(&queued, &one, ki, km, f, val, Ok::<(), EngineError>(()));
    }
}

} // verus!
