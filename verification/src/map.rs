//! A node that computes its value from the values of other nodes.

use vstd::prelude::*;
use vstd::std_specs::cmp::PartialEqSpec;
use crate::anchor::Anchor;
use crate::expert::{given, lemma_walked_none, AnchorCore, Asked, DirtyHandle, EngineError, Event,
    Given, Poll, UpdateContext};
use crate::inputs::{asked_all, failed_on, found_after, get_all, read_all, request_all};
use crate::node::NodeKey;

verus! {

/// The computation of an anchor whose value is a function of the values of
/// its inputs. The function is called again whenever an input has changed,
/// and the node reports a change only if the new value differs from the one
/// before.
pub struct MapAnchor<F, V> {
    pub anchors: Vec<Anchor>,
    pub f: F,
    pub output: Option<V>,
    pub output_stale: bool,
}

impl<F, V> MapAnchor<F, V> {
    /// A node that holds `f` of the values of `anchors`, and has computed
    /// nothing yet.
    pub fn new(anchors: Vec<Anchor>, f: F) -> (r: Self)
        ensures
            r.anchors == anchors,
            r.f == f,
            r.output is None,
            r.output_stale,
    {
        MapAnchor { anchors, f, output: None, output_stale: true }
    }
}

/// True when `new_val` is not the value that the node holds: the node holds
/// none, or its value is not equal to `new_val`.
pub open spec fn differs<V: PartialEq>(output: Option<V>, new_val: V) -> bool {
    match output {
        None => true,
        Some(held) => !new_val.eq_spec(&held),
    }
}

impl<F: Fn(&Vec<&V>) -> V, V: PartialEq> MapAnchor<F, V> {
    /// What a poll does that has to look at the inputs. `after` is the
    /// computation after the poll, `before` what the context was asked before
    /// the poll, `events` what it was asked after it, `gives` what it gives
    /// then, and `r` the answer.
    ///
    /// Every input is requested. If one of them is pending, so is the node,
    /// and it changes nothing. Otherwise the node is no longer stale. If it
    /// holds no value yet, or an input has changed, the function is called on
    /// the values that the context gives for the inputs; the node reports a
    /// change if the result differs from the value that it holds, and then
    /// takes the result. If no input has changed, nothing has changed.
    #[verifier::opaque]
    pub open spec fn polled(
        &self,
        after: &Self,
        before: Seq<Event>,
        events: Seq<Event>,
        gives: Given<V>,
        r: Poll,
    ) -> bool {
        let found = found_after(before, events);
        &&& asked_all(before, events, self.anchors@)
        &&& after.anchors == self.anchors
        &&& after.f == self.f
        &&& found.pending ==> r == Poll::Pending && after.output == self.output
            && after.output_stale == self.output_stale
        &&& !found.pending ==> !after.output_stale && r != Poll::Pending
        &&& !found.pending && self.output is Some && !found.updated ==> r == Poll::Unchanged
            && after.output == self.output
        &&& !found.pending && (self.output is None || found.updated) ==> exists|
            values: Vec<&V>,
            new_val: V,
        |
            {
                &&& #[trigger] read_all(gives, self.anchors@, values)
                &&& #[trigger] call_ensures(self.f, (&values,), new_val)
                &&& r == Poll::Updated ==> after.output == Some(new_val)
                &&& r == Poll::Unchanged ==> after.output == self.output
                &&& V::obeys_eq_spec() ==> (r == Poll::Updated) == differs(self.output, new_val)
                &&& self.output is None ==> r == Poll::Updated
            }
    }
}

impl<F, V: PartialEq> MapAnchor<F, V> {
    /// Settles a poll in which the function has computed `new_val`: if it
    /// differs from the value that the node holds, the node takes it and
    /// reports a change.
    pub fn settle(&mut self, new_val: V) -> (r: Poll)
        ensures
            r != Poll::Pending,
            r == Poll::Updated ==> final(self).output == Some(new_val),
            r == Poll::Unchanged ==> final(self).output == old(self).output,
            V::obeys_eq_spec() ==> (r == Poll::Updated) == differs(old(self).output, new_val),
            old(self).output is None ==> r == Poll::Updated,
            final(self).anchors == old(self).anchors,
            final(self).f == old(self).f,
            final(self).output_stale == old(self).output_stale,
            final(self).output is Some,
    {
        let changed = match &self.output {
            None => true,
            Some(held) => !new_val.eq(held),
        };
        if changed {
            self.output = Some(new_val);
            Poll::Updated
        } else {
            Poll::Unchanged
        }
    }
}

impl<F: Fn(&Vec<&V>) -> V, V: PartialEq> AnchorCore for MapAnchor<F, V> {
    type Output = V;

    open spec fn core_inv(&self) -> bool {
        forall|args: &Vec<&V>| args@.len() == self.anchors@.len() ==> call_requires(self.f, (args,))
    }

    open spec fn marks(&self, child_key: NodeKey, after: &Self, r: Result<(),
        EngineError>) -> bool {
        &&& r is Ok
        &&& after.output_stale
        &&& after.anchors == self.anchors
        &&& after.f == self.f
        &&& after.output == self.output
    }

    fn mark_dirty(&mut self, child_key: NodeKey) -> (r: Result<(), EngineError>) {
        self.output_stale = true;
        Ok(())
    }

    open spec fn polls(
        &self,
        after: &Self,
        before: Asked,
        events: Asked,
        gives: Given<V>,
        r: Result<Poll, EngineError>,
    ) -> bool {
        &&& after.anchors == self.anchors
        &&& after.f == self.f
        &&& !self.output_stale && self.output is Some ==> r == Ok::<Poll, EngineError>(
            Poll::Unchanged,
        ) && *after == *self && events == before
        &&& r is Ok && r->Ok_0 != Poll::Pending ==> after.output is Some
            && !after.output_stale
        &&& r == Ok::<Poll, EngineError>(Poll::Pending) ==> after.output == self.output
            && after.output_stale == self.output_stale
        &&& r is Ok && (self.output_stale || self.output is None) ==> self.polled(
            after,
            before,
            events,
            gives,
            r->Ok_0,
        )        &&& r is Err ==> after.output == self.output && failed_on(
            before,
            events,
            gives,
            self.anchors@,
            r->Err_0,
        )
    }

    fn poll_updated<U: UpdateContext<V>>(&mut self, ctx: &mut U) -> (r: Result<Poll, EngineError>)
        ensures
            !old(self).output_stale && old(self).output is Some ==> *final(ctx) == *old(ctx),
    {
        proof {
            reveal(MapAnchor::<_, _>::polled);
        }
        if !self.output_stale && self.output.is_some() {
            proof {
                lemma_walked_none::<V, U>(&*ctx);
            }
            return Ok(Poll::Unchanged);
        }
        let found = match request_all(ctx, &self.anchors) {
            Ok(f) => f,
            Err(e) => {
                return Err(e);
            },
        };
        if found.pending {
            return Ok(Poll::Pending);
        }
        self.output_stale = false;
        if self.output.is_none() || found.updated {
            let values = match get_all(&*ctx, &self.anchors) {
                Ok(v) => v,
                Err(e) => {
                    return Err(e);
                },
            };
            let new_val = (self.f)(&values);
            let ghost computed = new_val;
            let answer = self.settle(new_val);
            proof {
                assert(read_all(given(&*ctx), self.anchors@, values) && call_ensures(
                    self.f,
                    (&values,),
                    computed,
                ));
            }
            return Ok(answer);
        }
        Ok(Poll::Unchanged)
    }

    open spec fn source(&self) -> Option<NodeKey> {
        None
    }

    open spec fn output_is(&self, upstream: Option<V>, r: Result<V, EngineError>) -> bool {
        match self.output {
            Some(v) => r == Ok::<V, EngineError>(v),
            None => r == Err::<V, EngineError>(EngineError::NotReady),
        }
    }

    fn output_source(&self) -> (r: Option<NodeKey>) {
        None
    }

    fn output<'a>(&'a self, upstream: Option<&'a V>) -> (r: Result<&'a V, EngineError>) {
        match &self.output {
            Some(v) => Ok(v),
            None => Err(EngineError::NotReady),
        }
    }

    open spec fn assigns(
        &self,
        value: V,
        after: &Self,
        r: Result<Option<DirtyHandle>, EngineError>,
    ) -> bool {
        *after == *self && r == Err::<Option<DirtyHandle>, EngineError>(EngineError::NotAnInput)
    }

    fn assign(&mut self, value: V) -> (r: Result<Option<DirtyHandle>, EngineError>) {
        Err(EngineError::NotAnInput)
    }
}

} // verus!
