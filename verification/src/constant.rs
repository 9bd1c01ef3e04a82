//! A node whose value never changes.

use vstd::prelude::*;
use crate::expert::{lemma_walked_none, AnchorCore, Asked, DirtyHandle, EngineError, Given, Poll,
    UpdateContext};
use crate::node::NodeKey;

verus! {

/// The computation of an anchor with a value that is fixed once and for all.
pub struct Constant<V> {
    pub val: V,
    pub first_poll: bool,
}

impl<V> Constant<V> {
    /// The computation of a constant that has not been polled yet.
    pub fn new_raw_testing(val: V) -> (r: Constant<V>)
        ensures
            r.val == val,
            r.first_poll,
    {
        Constant { val, first_poll: true }
    }

    /// What a poll answers: `Updated` the first time, `Unchanged` ever
    /// after.
    pub open spec fn answer(first_poll: bool) -> Poll {
        if first_poll {
            Poll::Updated
        } else {
            Poll::Unchanged
        }
    }
}

impl<V> AnchorCore for Constant<V> {
    type Output = V;

    open spec fn core_inv(&self) -> bool {
        true
    }

    open spec fn marks(&self, child_key: NodeKey, after: &Self, r: Result<(),
        EngineError>) -> bool {
        &&& r == Err::<(), EngineError>(EngineError::NoInputs)
        &&& *after == *self
    }

    fn mark_dirty(&mut self, child_key: NodeKey) -> (r: Result<(), EngineError>) {
        Err(EngineError::NoInputs)
    }

    open spec fn polls(
        &self,
        after: &Self,
        before: Asked,
        events: Asked,
        gives: Given<V>,
        r: Result<Poll, EngineError>,
    ) -> bool {
        &&& r == Ok::<Poll, EngineError>(Self::answer(self.first_poll))
        &&& !after.first_poll
        &&& after.val == self.val
        &&& events == before
    }

    fn poll_updated<U: UpdateContext<V>>(&mut self, ctx: &mut U) -> (r: Result<Poll, EngineError>)
        ensures
            *final(ctx) == *old(ctx),
    {
        proof {
            lemma_walked_none::<V, U>(&*ctx);
        }
        let res = if self.first_poll {
            Poll::Updated
        } else {
            Poll::Unchanged
        };
        self.first_poll = false;
        Ok(res)
    }

    open spec fn source(&self) -> Option<NodeKey> {
        None
    }

    open spec fn output_is(&self, upstream: Option<V>, r: Result<V, EngineError>) -> bool {
        r == Ok::<V, EngineError>(self.val)
    }

    fn output_source(&self) -> (r: Option<NodeKey>) {
        None
    }

    fn output<'a>(&'a self, upstream: Option<&'a V>) -> (r: Result<&'a V, EngineError>) {
        Ok(&self.val)
    }

    open spec fn assigns(
        &self,
        value: V,
        after: &Self,
        r: Result<Option<DirtyHandle>, EngineError>,
    ) -> bool {
        *after == *self && r == Err::<Option<DirtyHandle>, EngineError>(EngineError::NotAnInput)
    }

    fn assign(&mut self, value: V) -> (r: Result<Option<DirtyHandle>, EngineError>) {
        Err(EngineError::NotAnInput)
    }
}

} // verus!
