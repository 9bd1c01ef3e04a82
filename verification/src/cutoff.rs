//! A node that holds back changes that do not matter.

use std::marker::PhantomData;
use vstd::prelude::*;
use crate::anchor::Anchor;
use crate::expert::{answered, given, lemma_walked_one, AnchorCore, Asked, DirtyHandle, EngineError,
    Event, Given, Poll, UpdateContext};
use crate::node::NodeKey;

verus! {

/// The computation of an anchor that passes on the value of its input, but
/// reports a change of it only if a predicate on the new value holds. The
/// first value of the input is always reported.
pub struct Cutoff<F, V> {
    pub anchor: Anchor,
    pub f: F,
    /// Set until the first value of the input has been reported.
    pub first_calc: bool,
    pub phantom: PhantomData<V>,
}

/// What a cutoff answers. As long as its input has not changed it says what
/// the input says. When the input has changed, it reports the change if
/// `passes` holds or if this is the first calculation, and otherwise says
/// `Unchanged`.
pub open spec fn cutoff_answer(upstream: Poll, passes: bool, first_calc: bool) -> Poll {
    if upstream != Poll::Updated {
        upstream
    } else if passes || first_calc {
        Poll::Updated
    } else {
        Poll::Unchanged
    }
}

impl<F, V> Cutoff<F, V> {
    /// A cutoff of `anchor` by the predicate `f`, which has reported nothing
    /// yet.
    pub fn new(anchor: Anchor, f: F) -> (r: Self)
        ensures
            r.anchor == anchor,
            r.f == f,
            r.first_calc,
    {
        Cutoff { anchor, f, first_calc: true, phantom: PhantomData }
    }

    /// What a poll does. `after` is the computation after the poll, `before`
    /// what the context was asked before the poll, `events` what it was
    /// asked after it, `gives` what it gives then, and `r` the answer.
    ///
    /// The input is requested. Unless it answers `Updated`, the node answers
    /// what the input answers. If it does, the predicate is asked of the
    /// value that the context gives for the input, and the node answers by
    /// the rule of `cutoff_answer`.
    pub open spec fn polled(
        &self,
        after: &Self,
        before: Seq<Event>,
        events: Seq<Event>,
        gives: Given<V>,
        r: Poll,
    ) -> bool where F: Fn(&V) -> bool {
        let key = self.anchor.data.node_key;
        exists|upstream: Poll|
            {
                &&& events == before.push(
                    #[trigger] answered(key, true, Ok::<Poll, EngineError>(upstream)),
                )
                &&& upstream != Poll::Updated ==> r == upstream && after.first_calc
                    == self.first_calc
                &&& upstream == Poll::Updated ==> !after.first_calc && exists|
                    value: V,
                    passes: bool,
                |
                    {
                        &&& #[trigger] gives.contains((key, Ok::<V, EngineError>(value)))
                        &&& #[trigger] call_ensures(self.f, (&value,), passes)
                        &&& r == cutoff_answer(upstream, passes, self.first_calc)
                    }
            }
    }

    /// What a poll does that fails with `error`: nothing to the computation.
    /// Either the context has refused the request for the input with that
    /// error, or the input has answered `Updated` and the context gives that
    /// error for its value.
    pub open spec fn failed(
        &self,
        after: &Self,
        before: Seq<Event>,
        events: Seq<Event>,
        gives: Given<V>,
        error: EngineError,
    ) -> bool {
        let key = self.anchor.data.node_key;
        &&& after.first_calc == self.first_calc
        &&& {
            ||| events == before.push(Event::Refused { anchor: key, error })
            ||| events == before.push(
                Event::Requested { anchor: key, necessary: true, answer: Poll::Updated },
            ) && gives.contains((key, Err::<V, EngineError>(error)))
        }
    }

    /// Settles a poll in which the input has reported a change, and the
    /// predicate says `passes` of the new value: the change is reported if
    /// it passes, or if it is the first. From now on the first value has
    /// been reported.
    pub fn settle(&mut self, passes: bool) -> (r: Poll)
        ensures
            r == cutoff_answer(Poll::Updated, passes, old(self).first_calc),
            !final(self).first_calc,
            final(self).anchor == old(self).anchor,
            final(self).f == old(self).f,
    {
        let answer = decide(Poll::Updated, passes, self.first_calc);
        self.first_calc = false;
        answer
    }
}

impl<V, F: Fn(&V) -> bool> AnchorCore for Cutoff<F, V> {
    type Output = V;

    open spec fn core_inv(&self) -> bool {
        forall|v: &V| call_requires(self.f, (v,))
    }

    open spec fn marks(&self, child_key: NodeKey, after: &Self, r: Result<(),
        EngineError>) -> bool {
        &&& r is Ok
        &&& *after == *self
    }

    fn mark_dirty(&mut self, child_key: NodeKey) -> (r: Result<(), EngineError>) {
        Ok(())
    }

    open spec fn polls(
        &self,
        after: &Self,
        before: Asked,
        events: Asked,
        gives: Given<V>,
        r: Result<Poll, EngineError>,
    ) -> bool {
        &&& after.anchor == self.anchor
        &&& after.f == self.f
        &&& match r {
            Ok(answer) => self.polled(after, before, events,
            gives, answer),
            Err(error) => self.failed(after, before, events,
            gives, error),
        }
    }

    fn poll_updated<U: UpdateContext<V>>(&mut self, ctx: &mut U) -> (r: Result<
        Poll,
        EngineError,
    >) {
        let ghost before = *ctx;
        let asked = ctx.request(self.anchor.key(), true);
        proof {
            lemma_walked_one::<V, U>(&before, &*ctx);
        }
        let upstream_poll = match asked {
            Ok(p) => p,
            Err(e) => {
                return Err(e);
            },
        };
        if upstream_poll != Poll::Updated {
            proof {
                assert(ctx.events() == old(ctx).events().push(
                    Event::Requested {
                        anchor: self.anchor.data.node_key,
                        necessary: true,
                        answer: upstream_poll,
                    },
                ));
            }
            return Ok(upstream_poll);
        }
        let val = match ctx.get(self.anchor.key()) {
            Ok(v) => v,
            Err(e) => {
                return Err(e);
            },
        };
        let passes = (self.f)(val);
        let answer = self.settle(passes);
        proof {
            assert(given(&*ctx).contains(
                (self.anchor.data.node_key, Ok::<V, EngineError>(*val)),
            ) && call_ensures(self.f, (val,), passes));
            assert(ctx.events() == old(ctx).events().push(
                Event::Requested {
                    anchor: self.anchor.data.node_key,
                    necessary: true,
                    answer: upstream_poll,
                },
            ));
        }
        Ok(answer)
    }

    open spec fn source(&self) -> Option<NodeKey> {
        Some(self.anchor.data.node_key)
    }

    open spec fn output_is(&self, upstream: Option<V>, r: Result<V, EngineError>) -> bool {
        match upstream {
            Some(v) => r == Ok::<V, EngineError>(v),
            None => r == Err::<V, EngineError>(EngineError::NotReady),
        }
    }

    fn output_source(&self) -> (r: Option<NodeKey>) {
        Some(self.anchor.key())
    }

    fn output<'a>(&'a self, upstream: Option<&'a V>) -> (r: Result<&'a V, EngineError>) {
        match upstream {
            Some(v) => Ok(v),
            None => Err(EngineError::NotReady),
        }
    }

    open spec fn assigns(
        &self,
        value: V,
        after: &Self,
        r: Result<Option<DirtyHandle>, EngineError>,
    ) -> bool {
        *after == *self && r == Err::<Option<DirtyHandle>, EngineError>(EngineError::NotAnInput)
    }

    fn assign(&mut self, value: V) -> (r: Result<Option<DirtyHandle>, EngineError>) {
        Err(EngineError::NotAnInput)
    }
}

/// The answer of a cutoff whose input has answered `upstream`, and whose
/// predicate says `passes` of the input's value.
pub fn decide(upstream: Poll, passes: bool, first_calc: bool) -> (r: Poll)
    ensures
        r == cutoff_answer(upstream, passes, first_calc),
{
    match upstream {
        Poll::Updated => if passes || first_calc {
            Poll::Updated
        } else {
            Poll::Unchanged
        },
        other => other,
    }
}

} // verus!
