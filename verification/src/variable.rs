//! An input: a node whose value is set from outside the graph.

use vstd::prelude::*;
use crate::expert::{lemma_walked_none, AnchorCore, Asked, DirtyHandle, EngineError, Given, Poll,
    UpdateContext};
use crate::node::NodeKey;

verus! {

/// The computation of an input. It holds the value that the graph reads, the
/// value that was set last if the graph has not read it yet, and, once it has
/// been polled, the handle by which it reports a new value.
pub struct VarAnchor<V> {
    pub dirty_handle: Option<DirtyHandle>,
    /// The value that was set and has not been read yet.
    pub pending: Option<V>,
    /// The value that the last poll has read.
    pub value: Option<V>,
}

impl<V> VarAnchor<V> {
    /// The computation of an input that holds `value` and has not been polled
    /// yet.
    pub fn new(value: V) -> (r: VarAnchor<V>)
        ensures
            r.dirty_handle is None,
            r.pending == Some(value),
            r.value is None,
    {
        VarAnchor { dirty_handle: None, pending: Some(value), value: None }
    }

    /// True when a value was set since the last poll.
    pub open spec fn value_changed(&self) -> bool {
        self.pending is Some
    }

    /// The value that was set last.
    pub open spec fn latest(&self) -> Option<V> {
        if self.pending is Some {
            self.pending
        } else {
            self.value
        }
    }
}

impl<V> AnchorCore for VarAnchor<V> {
    type Output = V;

    open spec fn core_inv(&self) -> bool {
        true
    }

    open spec fn marks(&self, child_key: NodeKey, after: &Self, r: Result<(),
        EngineError>) -> bool {
        &&& r == Err::<(), EngineError>(EngineError::NoInputs)
        &&& *after == *self
    }

    fn mark_dirty(&mut self, child_key: NodeKey) -> (r: Result<(), EngineError>) {
        Err(EngineError::NoInputs)
    }

    open spec fn polls(
        &self,
        after: &Self,
        before: Asked,
        events: Asked,
        gives: Given<V>,
        r: Result<Poll, EngineError>,
    ) -> bool {
        &&& r == Ok::<Poll, EngineError>(
            if self.value_changed() {
                Poll::Updated
            } else {
                Poll::Unchanged
            },
        )
        &&& after.pending is None
        &&& after.value == self.latest()
        &&& after.dirty_handle is Some
        &&& self.dirty_handle is Some ==> after.dirty_handle == self.dirty_handle
        &&& events == before
    }

    fn poll_updated<U: UpdateContext<V>>(&mut self, ctx: &mut U) -> (r: Result<Poll, EngineError>)
        ensures
            *final(ctx) == *old(ctx),
    {
        if self.dirty_handle.is_none() {
            self.dirty_handle = Some(ctx.dirty_handle());
        }
        proof {
            lemma_walked_none::<V, U>(&*ctx);
        }
        let set = self.pending.take();
        match set {
            Some(v) => {
                self.value = Some(v);
                Ok(Poll::Updated)
            },
            None => Ok(Poll::Unchanged),
        }
    }

    open spec fn source(&self) -> Option<NodeKey> {
        None
    }

    open spec fn output_is(&self, upstream: Option<V>, r: Result<V, EngineError>) -> bool {
        match self.value {
            Some(v) => r == Ok::<V, EngineError>(v),
            None => r == Err::<V, EngineError>(EngineError::NotReady),
        }
    }

    fn output_source(&self) -> (r: Option<NodeKey>) {
        None
    }

    fn output<'a>(&'a self, upstream: Option<&'a V>) -> (r: Result<&'a V, EngineError>) {
        match &self.value {
            Some(v) => Ok(v),
            None => Err(EngineError::NotReady),
        }
    }

    open spec fn assigns(
        &self,
        value: V,
        after: &Self,
        r: Result<Option<DirtyHandle>, EngineError>,
    ) -> bool {
        &&& r == Ok::<Option<DirtyHandle>, EngineError>(self.dirty_handle)
        &&& after.pending == Some(value)
        &&& after.value == self.value
        &&& after.dirty_handle == self.dirty_handle
    }

    fn assign(&mut self, value: V) -> (r: Result<Option<DirtyHandle>, EngineError>) {
        self.pending = Some(value);
        Ok(self.dirty_handle)
    }
}

} // verus!
