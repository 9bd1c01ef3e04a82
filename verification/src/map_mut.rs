//! A node that updates its value in place from the values of other nodes.

use vstd::prelude::*;
use crate::anchor::Anchor;
use crate::expert::{lemma_walked_none, AnchorCore, Asked, DirtyHandle, EngineError, Given, Poll,
    UpdateContext};
use crate::inputs::{asked_all, failed_on, found_after, get_all, request_all};
use crate::node::NodeKey;

verus! {

/// The computation of an anchor whose value is changed in place by a
/// function of the values of its inputs. The function says whether it has
/// changed the value, and the node reports what the function says.
pub struct MapMut<F, V> {
    pub anchors: Vec<Anchor>,
    pub f: F,
    pub output: V,
    pub output_stale: bool,
}

impl<F, V> MapMut<F, V> {
    /// A node that holds `initial` and lets `f` change it from the values of
    /// `anchors`.
    pub fn new(anchors: Vec<Anchor>, f: F, initial: V) -> (r: Self)
        ensures
            r.anchors == anchors,
            r.f == f,
            r.output == initial,
            r.output_stale,
    {
        MapMut { anchors, f, output: initial, output_stale: true }
    }

    /// What a poll answers in which the function was called: what the
    /// function says of the value, changed or not.
    pub open spec fn answer(did_update: bool) -> Poll {
        if did_update {
            Poll::Updated
        } else {
            Poll::Unchanged
        }
    }

    /// The answer of a poll in which the function has said `did_update`.
    pub fn settle(did_update: bool) -> (r: Poll)
        ensures
            r == Self::answer(did_update),
    {
        if did_update {
            Poll::Updated
        } else {
            Poll::Unchanged
        }
    }
}

impl<F: Fn(&mut V, &Vec<&V>) -> bool, V> AnchorCore for MapMut<F, V> {
    type Output = V;

    open spec fn core_inv(&self) -> bool {
        forall|out: &mut V, args: &Vec<&V>|
            args@.len() == self.anchors@.len() ==> call_requires(self.f, (out, args))
    }

    open spec fn marks(&self, child_key: NodeKey, after: &Self, r: Result<(),
        EngineError>) -> bool {
        &&& r is Ok
        &&& after.output_stale
        &&& after.anchors == self.anchors
        &&& after.f == self.f
        &&& after.output == self.output
    }

    fn mark_dirty(&mut self, child_key: NodeKey) -> (r: Result<(), EngineError>) {
        self.output_stale = true;
        Ok(())
    }

    open spec fn polls(
        &self,
        after: &Self,
        before: Asked,
        events: Asked,
        gives: Given<V>,
        r: Result<Poll, EngineError>,
    ) -> bool {
        &&& after.anchors == self.anchors
        &&& after.f == self.f
        &&& !self.output_stale ==> r == Ok::<Poll, EngineError>(Poll::Unchanged)
            && *after == *self && events == before
        &&& r is Ok && r->Ok_0 != Poll::Pending ==> !after.output_stale
        &&& r == Ok::<Poll, EngineError>(Poll::Pending) ==> after.output == self.output
            && after.output_stale
        &&& r is Ok && self.output_stale ==> {
            let found = found_after(before, events);
            &&& asked_all(before, events, self.anchors@)
            &&& (r->Ok_0 == Poll::Pending) == found.pending
            &&& !found.pending && !found.updated ==> r->Ok_0 == Poll::Unchanged
                && after.output == self.output
        }        &&& r is Err ==> after.output == self.output && failed_on(
            before,
            events,
            gives,
            self.anchors@,
            r->Err_0,
        )
    }

    fn poll_updated<U: UpdateContext<V>>(&mut self, ctx: &mut U) -> (r: Result<Poll, EngineError>)
        ensures
            !old(self).output_stale ==> *final(ctx) == *old(ctx),
    {
        if !self.output_stale {
            proof {
                lemma_walked_none::<V, U>(&*ctx);
            }
            return Ok(Poll::Unchanged);
        }
        let found = match request_all(ctx, &self.anchors) {
            Ok(f) => f,
            Err(e) => {
                return Err(e);
            },
        };
        if found.pending {
            return Ok(Poll::Pending);
        }
        self.output_stale = false;
        if found.updated {
            let values = match get_all(&*ctx, &self.anchors) {
                Ok(v) => v,
                Err(e) => {
                    return Err(e);
                },
            };
            let did_update = (self.f)(&mut self.output, &values);
            return Ok(Self::settle(did_update));
        }
        Ok(Poll::Unchanged)
    }

    open spec fn source(&self) -> Option<NodeKey> {
        None
    }

    open spec fn output_is(&self, upstream: Option<V>, r: Result<V, EngineError>) -> bool {
        r == Ok::<V, EngineError>(self.output)
    }

    fn output_source(&self) -> (r: Option<NodeKey>) {
        None
    }

    fn output<'a>(&'a self, upstream: Option<&'a V>) -> (r: Result<&'a V, EngineError>) {
        Ok(&self.output)
    }

    open spec fn assigns(
        &self,
        value: V,
        after: &Self,
        r: Result<Option<DirtyHandle>, EngineError>,
    ) -> bool {
        *after == *self && r == Err::<Option<DirtyHandle>, EngineError>(EngineError::NotAnInput)
    }

    fn assign(&mut self, value: V) -> (r: Result<Option<DirtyHandle>, EngineError>) {
        Err(EngineError::NotAnInput)
    }
}

} // verus!
