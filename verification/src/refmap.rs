//! A node that looks into the value of another node.

use std::marker::PhantomData;
use vstd::prelude::*;
use crate::anchor::Anchor;
use crate::expert::{answered, lemma_walked_one, AnchorCore, Asked, DirtyHandle, EngineError, Given,
    Poll, UpdateContext};
use crate::node::NodeKey;

verus! {

/// The computation of an anchor whose value is a part of the value of its
/// input. It holds no value of its own: the function is called on the
/// input's value each time the output is read.
pub struct RefMap<F, V> {
    pub anchor: Anchor,
    pub f: F,
    pub phantom: PhantomData<V>,
}

impl<F, V> RefMap<F, V> {
    /// A node that shows the part of the value of `anchor` that `f` points
    /// to.
    pub fn new(anchor: Anchor, f: F) -> (r: Self)
        ensures
            r.anchor == anchor,
            r.f == f,
    {
        RefMap { anchor, f, phantom: PhantomData }
    }
}

impl<V, F: for <'any>Fn(&'any V) -> &'any V> AnchorCore for RefMap<F, V> {
    type Output = V;

    open spec fn core_inv(&self) -> bool {
        forall|v: &V| call_requires(self.f, (v,))
    }

    open spec fn marks(&self, child_key: NodeKey, after: &Self, r: Result<(),
        EngineError>) -> bool {
        &&& r is Ok
        &&& *after == *self
    }

    fn mark_dirty(&mut self, child_key: NodeKey) -> (r: Result<(), EngineError>) {
        Ok(())
    }

    open spec fn polls(
        &self,
        after: &Self,
        before: Asked,
        events: Asked,
        gives: Given<V>,
        r: Result<Poll, EngineError>,
    ) -> bool {
        &&& *after == *self
        &&& events == before.push(
            answered(self.anchor.data.node_key, true, r),
        )
    }

    fn poll_updated<U: UpdateContext<V>>(&mut self, ctx: &mut U) -> (r: Result<
        Poll,
        EngineError,
    >) {
        let ghost before = *ctx;
        let r = ctx.request(self.anchor.key(), true);
        proof {
            lemma_walked_one::<V, U>(&before, &*ctx);
        }
        r
    }

    open spec fn source(&self) -> Option<NodeKey> {
        Some(self.anchor.data.node_key)
    }

    open spec fn output_is(&self, upstream: Option<V>, r: Result<V, EngineError>) -> bool {
        match upstream {
            Some(v) => r is Ok && call_ensures(self.f, (&v,), &r->Ok_0),
            None => r == Err::<V, EngineError>(EngineError::NotReady),
        }
    }

    fn output_source(&self) -> (r: Option<NodeKey>) {
        Some(self.anchor.key())
    }

    fn output<'a>(&'a self, upstream: Option<&'a V>) -> (r: Result<&'a V, EngineError>) {
        match upstream {
            Some(v) => Ok((self.f)(v)),
            None => Err(EngineError::NotReady),
        }
    }

    open spec fn assigns(
        &self,
        value: V,
        after: &Self,
        r: Result<Option<DirtyHandle>, EngineError>,
    ) -> bool {
        *after == *self && r == Err::<Option<DirtyHandle>, EngineError>(EngineError::NotAnInput)
    }

    fn assign(&mut self, value: V) -> (r: Result<Option<DirtyHandle>, EngineError>) {
        Err(EngineError::NotAnInput)
    }
}

} // verus!
