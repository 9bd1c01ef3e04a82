//! The contract between the engine and the computations it runs.
//!
//! Unless you write your own computation node you will not need anything from
//! here but [`Poll`].

use vstd::prelude::*;
use crate::node::NodeKey;

verus! {

/// Whether a value is ready for reading, and if it is, whether it has changed
/// since it was last read.
#[derive(Copy, Clone, Eq, PartialEq, Structural, Debug)]
pub enum Poll {
    /// The value is ready. Either this is the first read, or the value has
    /// changed since the last read.
    Updated,
    /// The value is ready and has not changed since the last read.
    Unchanged,
    /// The value is not ready; it has been queued for recalculation.
    Pending,
}

/// The ways in which the engine refuses to go on. Each one is a programming
/// error in the graph that was built or in a computation.
#[derive(Copy, Clone, Eq, PartialEq, Structural, Debug)]
pub enum EngineError {
    /// A requested edge would close a cycle.
    Cycle,
    /// A node was queued at a height at or above the configured maximum.
    HeightLimit,
    /// The output of a node was asked for while the node was not ready.
    NotReady,
    /// A computation reads the output of a node that does not stand below
    /// its own.
    NotRequested,
    /// A computation reported `Pending` without having requested an input
    /// that was not ready.
    PendingWithoutRequest,
    /// A node without inputs was told that one of its inputs is dirty.
    NoInputs,
    /// A key does not name a node of this graph that is alive.
    StaleKey,
    /// A value was offered to a node that takes none from outside.
    NotAnInput,
    /// The generation counter has run out.
    GenerationLimit,
    /// Stabilization took more steps than the engine allows.
    StepLimit,
}

/// A handle by which a node whose output depends on something outside the
/// graph says that its output may have changed. Handing it to
/// `Engine::mark_dirty` puts the node's key on the engine's list of dirty
/// marks, which the next stabilization reads and clears.
#[derive(Copy, Clone, Eq, PartialEq, Structural, Debug)]
pub struct DirtyHandle {
    pub key: NodeKey,
}

/// The value behind a borrowed value that may be missing.
pub open spec fn unborrow<V>(v: Option<&V>) -> Option<V> {
    match v {
        Some(x) => Some(*x),
        None => None,
    }
}

/// The value behind a borrowed result.
pub open spec fn unborrow_result<V>(r: Result<&V, EngineError>) -> Result<V, EngineError> {
    match r {
        Ok(x) => Ok(*x),
        Err(e) => Err(e),
    }
}

/// What a computation has asked of its context during a poll.
pub enum Event {
    /// It has requested `anchor` and was answered `answer`.
    Requested { anchor: NodeKey, necessary: bool, answer: Poll },
    /// It has unrequested `anchor`.
    Unrequested { anchor: NodeKey },
    /// It has requested or unrequested `anchor`, and the context has refused
    /// with `error`.
    Refused { anchor: NodeKey, error: EngineError },
}

/// The event that a request for `anchor` leaves which has returned `r`.
pub open spec fn answered(anchor: NodeKey, necessary: bool, r: Result<Poll, EngineError>) -> Event {
    match r {
        Ok(answer) => Event::Requested { anchor, necessary, answer },
        Err(error) => Event::Refused { anchor, error },
    }
}

/// The event that an unrequest of `anchor` leaves which has returned `r`.
pub open spec fn dropped(anchor: NodeKey, r: Result<(), EngineError>) -> Event {
    match r {
        Ok(_) => Event::Unrequested { anchor },
        Err(error) => Event::Refused { anchor, error },
    }
}

/// The context that a computation is given while it is polled. Through it
/// the computation asks for its inputs.
pub trait UpdateContext<V>: Sized {
    /// What the context was made for. It stays the same for as long as the
    /// context lives.
    type Origin;

    /// The context can be used: an earlier call on it has not failed.
    spec fn inv(&self) -> bool;

    /// What the context was made for.
    spec fn origin(&self) -> Self::Origin;

    /// The requests and unrequests that the context has been asked for so
    /// far, in their order, each with what came of it.
    spec fn events(&self) -> Seq<Event>;

    /// `r` is what `get` may return for `anchor` now.
    spec fn gives(&self, anchor: NodeKey, r: Result<V, EngineError>) -> bool;

    /// The value of `anchor` can be read now: a request for it has said that
    /// it is ready.
    spec fn ready(&self, anchor: NodeKey) -> bool;

    /// `after` is what the context becomes by the call that `event` records.
    spec fn step(&self, after: &Self, event: Event) -> bool;

    /// Gives the value of `anchor`, of which `request` has said that it is
    /// ready.
    fn get(&self, anchor: NodeKey) -> (r: Result<&V, EngineError>)
        requires
            self.inv(),
            self.ready(anchor),
        ensures
            self.gives(anchor, unborrow_result(r)),
    ;

    /// Says whether the output of `anchor` is ready, and if so whether it has
    /// changed since the node that is being polled was last ready. If it is
    /// not ready, it is queued for recalculation and the answer is
    /// `Pending`.
    ///
    /// With `necessary` set, `anchor` becomes necessary if the node that is
    /// being polled is observed or necessary.
    ///
    /// The context records the request with its answer, or with the error
    /// with which it has refused.
    fn request(&mut self, anchor: NodeKey, necessary: bool) -> (r: Result<Poll, EngineError>)
        requires
            old(self).inv(),
        ensures
            final(self).origin() == old(self).origin(),
            final(self).events() == old(self).events().push(answered(anchor, necessary, r)),
            old(self).step(final(self), answered(anchor, necessary, r)),
            r is Ok ==> final(self).inv(),
            r is Ok && r->Ok_0 != Poll::Pending ==> final(self).ready(anchor),
            r is Ok ==> forall|k: NodeKey| old(self).ready(k) ==> #[trigger] final(self).ready(k),
    ;

    /// Drops an earlier request: `anchor` is no longer necessary on behalf of
    /// the node that is being polled.
    /// The context records this too, or the error with which it has refused.
    fn unrequest(&mut self, anchor: NodeKey) -> (r: Result<(), EngineError>)
        requires
            old(self).inv(),
        ensures
            final(self).origin() == old(self).origin(),
            final(self).events() == old(self).events().push(dropped(anchor, r)),
            old(self).step(final(self), dropped(anchor, r)),
            r is Ok ==> final(self).inv(),
            r is Ok ==> forall|k: NodeKey| old(self).ready(k) ==> #[trigger] final(self).ready(k),
    ;

    /// A handle by which the node that is being polled can later say that
    /// its output may have changed for a reason outside the graph.
    fn dirty_handle(&mut self) -> (r: DirtyHandle)
        requires
            old(self).inv(),
        ensures
            *final(self) == *old(self),
    ;
}

/// `after` is what `before` becomes by one call that the context records:
/// the record of the call is the last of its events.
pub open spec fn one_call<V, U: UpdateContext<V>>(before: &U, after: &U) -> bool {
    &&& after.events().len() == before.events().len() + 1
    &&& after.events().drop_last() == before.events()
    &&& before.step(after, after.events().last())
}

/// The context at place `i` of `trail` leads to the next by one call.
pub open spec fn linked<V, U: UpdateContext<V>>(trail: Seq<U>, i: int) -> bool {
    one_call::<V, U>(&trail[i], &trail[i + 1])
}

/// The contexts of `trail` lead from `before` to `after`, each to the next
/// by one call.
pub open spec fn calls_trail<V, U: UpdateContext<V>>(trail: Seq<U>, before: &U, after: &U) -> bool {
    &&& trail.len() >= 1
    &&& trail[0] == *before
    &&& trail[trail.len() - 1] == *after
    &&& forall|i: int| 0 <= i < trail.len() - 1 ==> #[trigger] linked::<V, U>(trail, i)
}

/// `after` is what `before` becomes by the calls that it has recorded since,
/// one after the other.
pub open spec fn walked<V, U: UpdateContext<V>>(before: &U, after: &U) -> bool {
    exists|trail: Seq<U>| #[trigger] calls_trail::<V, U>(trail, before, after)
}

/// A context that has been asked nothing more is what it was.
pub proof fn lemma_walked_none<V, U: UpdateContext<V>>(ctx: &U)
    ensures
        walked::<V, U>(ctx, ctx),
{
    let trail = seq![*ctx];
    assert(calls_trail::<V, U>(trail, ctx, ctx));
}

/// One call is calls one after the other.
pub proof fn lemma_walked_one<V, U: UpdateContext<V>>(before: &U, after: &U)
    requires
        after.events().drop_last() =~= before.events(),
        after.events().len() == before.events().len() + 1,
        before.step(after, after.events().last()),
    ensures
        walked::<V, U>(before, after),
{
    lemma_walked_none::<V, U>(before);
    lemma_walked_on::<V, U>(before, before, after);
}

/// One more call goes on from where the calls before it have led.
pub proof fn lemma_walked_on<V, U: UpdateContext<V>>(before: &U, mid: &U, after: &U)
    requires
        walked::<V, U>(before, mid),
        one_call::<V, U>(mid, after),
    ensures
        walked::<V, U>(before, after),
{
    let trail = choose|trail: Seq<U>| #[trigger] calls_trail::<V, U>(trail, before, mid);
    let longer = trail.push(*after);
    assert forall|i: int| 0 <= i < longer.len() - 1 implies #[trigger] linked::<V, U>(
        longer,
        i,
    ) by {
        if i < trail.len() - 1 {
            assert(linked::<V, U>(trail, i));
        }
    }
    assert(calls_trail::<V, U>(longer, before, after));
}

/// Calls that follow on calls are calls one after the other.
pub proof fn lemma_walked_twice<V, U: UpdateContext<V>>(before: &U, mid: &U, after: &U)
    requires
        walked::<V, U>(before, mid),
        walked::<V, U>(mid, after),
    ensures
        walked::<V, U>(before, after),
{
    let first = choose|trail: Seq<U>| #[trigger] calls_trail::<V, U>(trail, before, mid);
    let second = choose|trail: Seq<U>| #[trigger] calls_trail::<V, U>(trail, mid, after);
    let joined = first + second.drop_first();
    assert forall|i: int| 0 <= i < joined.len() - 1 implies #[trigger] linked::<V, U>(
        joined,
        i,
    ) by {
        if i < first.len() - 1 {
            assert(linked::<V, U>(first, i));
        } else {
            let j = i - (first.len() - 1);
            assert(linked::<V, U>(second, j));
            assert(joined[i] == second[j]);
            assert(joined[i + 1] == second[j + 1]);
        }
    }
    assert(calls_trail::<V, U>(joined, before, after));
}

/// Along a trail every context has recorded one call more than the one
/// before it.
pub proof fn lemma_trail_counts<V, U: UpdateContext<V>>(
    trail: Seq<U>,
    before: &U,
    after: &U,
    i: int,
)
    requires
        calls_trail::<V, U>(trail, before, after),
        0 <= i < trail.len(),
    ensures
        trail[i].events().len() == before.events().len() + i,
    decreases i,
{
    if i > 0 {
        lemma_trail_counts::<V, U>(trail, before, after, i - 1);
        assert(linked::<V, U>(trail, i - 1));
    }
}

/// A context that has recorded no call since is the context that it was.
/// One that has recorded calls has come by its last call from a context to
/// which the calls before have led.
pub proof fn lemma_walked_back<V, U: UpdateContext<V>>(before: &U, after: &U)
    requires
        walked::<V, U>(before, after),
    ensures
        after.events().len() >= before.events().len(),
        after.events().len() == before.events().len() ==> *after == *before,
        after.events().len() > before.events().len() ==> exists|mid: U|
            #[trigger] walked::<V, U>(before, &mid) && one_call::<V, U>(&mid, after),
{
    let trail = choose|trail: Seq<U>| #[trigger] calls_trail::<V, U>(trail, before, after);
    let n = trail.len() as int;
    lemma_trail_counts::<V, U>(trail, before, after, n - 1);
    if n > 1 {
        let shorter = trail.drop_last();
        let mid = trail[n - 2];
        assert forall|i: int| 0 <= i < shorter.len() - 1 implies #[trigger] linked::<V, U>(
            shorter,
            i,
        ) by {
            assert(linked::<V, U>(trail, i));
        }
        assert(calls_trail::<V, U>(shorter, before, &mid));
        assert(linked::<V, U>(trail, n - 2));
        assert(walked::<V, U>(before, &mid) && one_call::<V, U>(&mid, after));
    }
}

/// What a context gives: the pairs of an anchor and a result of which
/// `gives` holds.
pub type Given<V> = Set<(NodeKey, Result<V, EngineError>)>;

/// The log of what a context has been asked.
pub type Asked = Seq<Event>;

/// What the context gives now.
pub open spec fn given<V, U: UpdateContext<V>>(ctx: &U) -> Given<V> {
    Set::new(|p: (NodeKey, Result<V, EngineError>)| ctx.gives(p.0, p.1))
}

/// What every computation in the graph implements.
pub trait AnchorCore: Sized {
    /// The type of the values in the graph.
    type Output;

    /// The computation can be called.
    spec fn core_inv(&self) -> bool;

    /// `after` and `r` are what `mark_dirty` may make of the computation and
    /// return when it is told of `child_key`.
    spec fn marks(&self, child_key: NodeKey, after: &Self, r: Result<(), EngineError>) -> bool;

    /// Called by the engine to say that the input `child_key` may have
    /// changed. A computation that still cares about that input asks for it
    /// again when it is polled next.
    fn mark_dirty(&mut self, child_key: NodeKey) -> (r: Result<(), EngineError>)
        requires
            old(self).core_inv(),
        ensures
            final(self).core_inv(),
            old(self).marks(child_key, final(self), r),
    ;

    /// What a poll may do. `after` is the computation after the poll, `r`
    /// its answer, `before` what the context had been asked before the poll,
    /// `events` what it has been asked after it, and `gives` what it gives
    /// then.
    spec fn polls(
        &self,
        after: &Self,
        before: Asked,
        events: Asked,
        gives: Given<Self::Output>,
        r: Result<Poll, EngineError>,
    ) -> bool;

    /// Called by the engine to bring the output up to date. Answers `Pending`
    /// if a requested input was `Pending`; otherwise it finishes and answers
    /// `Updated` or `Unchanged`. It changes the context by requests and
    /// unrequests only.
    fn poll_updated<U: UpdateContext<Self::Output>>(&mut self, ctx: &mut U) -> (r: Result<
        Poll,
        EngineError,
    >)
        requires
            old(self).core_inv(),
            old(ctx).inv(),
        ensures
            final(self).core_inv(),
            final(ctx).origin() == old(ctx).origin(),
            r is Ok ==> final(ctx).inv(),
            old(self).polls(
                final(self),
                old(ctx).events(),
                final(ctx).events(),
                given(final(ctx)),
                r,
            ),
            walked::<Self::Output, U>(old(ctx), final(ctx)),
    ;

    /// The anchor that `output_source` names.
    spec fn source(&self) -> Option<NodeKey>;

    /// `r` is what `output` may return when it is given `upstream`.
    spec fn output_is(
        &self,
        upstream: Option<Self::Output>,
        r: Result<Self::Output, EngineError>,
    ) -> bool;

    /// The anchor whose output this computation passes on or looks into, for
    /// a computation that holds no output of its own.
    fn output_source(&self) -> (r: Option<NodeKey>)
        requires
            self.core_inv(),
        ensures
            r == self.source(),
    ;

    /// The current output. `upstream` is the output of the anchor that
    /// `output_source` names, where it names one. Only called after the last
    /// poll has answered `Updated` or `Unchanged`.
    fn output<'a>(&'a self, upstream: Option<&'a Self::Output>) -> (r: Result<
        &'a Self::Output,
        EngineError,
    >)
        requires
            self.core_inv(),
        ensures
            self.output_is(unborrow(upstream), unborrow_result(r)),
    ;

    /// `after` and `r` are what `assign` may make of the computation and
    /// return when it is offered `value`.
    spec fn assigns(
        &self,
        value: Self::Output,
        after: &Self,
        r: Result<Option<DirtyHandle>, EngineError>,
    ) -> bool;

    /// Offers a new value from outside the graph. A computation that is an
    /// input takes it and returns the dirty handle that it holds, if any; all
    /// others refuse with `NotAnInput`.
    fn assign(&mut self, value: Self::Output) -> (r: Result<Option<DirtyHandle>, EngineError>)
        requires
            old(self).core_inv(),
        ensures
            final(self).core_inv(),
            old(self).assigns(value, final(self), r),
    ;
}

} // verus!
