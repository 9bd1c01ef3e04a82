//! A node whose input is chosen by the values of other nodes.

use std::marker::PhantomData;
use vstd::prelude::*;
use crate::anchor::Anchor;
use crate::expert::{answered, given, lemma_walked_one, lemma_walked_twice, AnchorCore, Asked,
    DirtyHandle, EngineError, Event, Given, Poll, UpdateContext};
use crate::inputs::{
    asked_all, found_after, get_all, missing_one, read_all, refused_one, request_all,
};
use crate::node::NodeKey;

verus! {

/// The computation of an anchor that passes on the value of another anchor,
/// which a function of the values of its inputs chooses. The function is
/// called again whenever an input has changed; an anchor that it no longer
/// chooses is unrequested.
pub struct Then<F, V> {
    pub anchors: Vec<Anchor>,
    pub f: F,
    /// The anchor that the function has chosen last.
    pub f_anchor: Option<NodeKey>,
    pub lhs_stale: bool,
    pub phantom: PhantomData<V>,
}

/// True when `key` is the key of one of the anchors.
pub open spec fn names_one(anchors: Seq<Anchor>, key: NodeKey) -> bool {
    exists|i: int| 0 <= i < anchors.len() && anchors[i].data.node_key == key
}

/// Says whether `key` is the key of one of the anchors.
pub fn is_input(anchors: &Vec<Anchor>, key: NodeKey) -> (r: bool)
    ensures
        r == names_one(anchors@, key),
{
    let mut i: usize = 0;
    while i < anchors.len()
        invariant
            i <= anchors.len(),
            forall|j: int| 0 <= j < i ==> anchors@[j].data.node_key != key,
        decreases anchors.len() - i,
    {
        if anchors[i].key() == key {
            return true;
        }
        i += 1;
    }
    false
}

impl<V, F: Fn(&Vec<&V>) -> NodeKey> Then<F, V> {
    /// The function has chosen `chosen` for values that a context has given
    /// for the inputs.
    pub open spec fn chose(&self, chosen: NodeKey) -> bool {
        exists|gave: Given<V>, values: Vec<&V>|
            {
                &&& #[trigger] read_all(gave, self.anchors@, values)
                &&& #[trigger] call_ensures(self.f, (&values,), chosen)
            }
    }

    /// What a poll does. `after` is the computation after the poll, `before`
    /// what the context was asked before the poll, `events` what it was
    /// asked after it, `gives` what it gives then, and `r` the answer.
    ///
    /// A node that has chosen an anchor, and none of whose inputs was marked
    /// dirty since, requests that anchor and answers what it answers.
    /// Otherwise every input is requested; if the context refuses one, its
    /// error is the answer and the node changes nothing. What follows when
    /// all were asked is said by `went_on`.
    #[verifier::opaque]
    pub open spec fn polled(
        &self,
        after: &Self,
        before: Seq<Event>,
        events: Seq<Event>,
        gives: Given<V>,
        r: Result<Poll, EngineError>,
    ) -> bool {
        if self.f_anchor is Some && !self.lhs_stale {
            &&& after.f_anchor == self.f_anchor
            &&& !after.lhs_stale
            &&& events == before.push(answered(self.f_anchor->0, true, r))
        } else {
            ||| {
                &&& r is Err
                &&& refused_one(before, events, self.anchors@, r->Err_0)
                &&& after.f_anchor == self.f_anchor
                &&& after.lhs_stale == self.lhs_stale
            }
            ||| exists|asked: Seq<Event>|
                {
                    &&& #[trigger] asked_all(before, asked, self.anchors@)
                    &&& self.went_on(after, before, asked, events, gives, r)
                }
        }
    }

    /// What a poll does once the inputs have been requested, which has made
    /// `asked` what the context was asked.
    ///
    /// If an input is pending, so is the node, and it changes nothing. If
    /// not, the node is no longer stale. If it has chosen before and no input
    /// has changed, it requests the anchor that it has chosen and answers
    /// what that answers. Otherwise the function chooses again, from the
    /// values that the context gives for the inputs; if the context has no
    /// value for one of them, its error is the answer.
    pub open spec fn went_on(
        &self,
        after: &Self,
        before: Seq<Event>,
        asked: Seq<Event>,
        events: Seq<Event>,
        gives: Given<V>,
        r: Result<Poll, EngineError>,
    ) -> bool {
        let found = found_after(before, asked);
        if found.pending {
            &&& r == Ok::<Poll, EngineError>(Poll::Pending)
            &&& events == asked
            &&& after.f_anchor == self.f_anchor
            &&& after.lhs_stale == self.lhs_stale
        } else if self.f_anchor is Some && !found.updated {
            &&& !after.lhs_stale
            &&& after.f_anchor == self.f_anchor
            &&& events == asked.push(answered(self.f_anchor->0, true, r))
        } else {
            &&& !after.lhs_stale
            &&& {
                ||| {
                    &&& r is Err
                    &&& events == asked
                    &&& missing_one(gives, self.anchors@, r->Err_0)
                    &&& after.f_anchor == self.f_anchor
                }
                ||| exists|chosen: NodeKey|
                    {
                        &&& #[trigger] self.chose(chosen)
                        &&& self.passed_to(after, asked, events, gives, chosen, r)
                    }
            }
        }
    }

    /// What a poll does once the function has chosen `chosen`. An anchor
    /// that was chosen before and is not chosen now is unrequested; if the
    /// context refuses that, its error is the answer and the node keeps the
    /// anchor that it had. Then the node takes the chosen anchor, requests
    /// it, and answers what it answers.
    pub open spec fn passed_to(
        &self,
        after: &Self,
        asked: Seq<Event>,
        events: Seq<Event>,
        gives: Given<V>,
        chosen: NodeKey,
        r: Result<Poll, EngineError>,
    ) -> bool {
        if self.f_anchor is Some && self.f_anchor->0 != chosen {
            ||| {
                &&& r is Err
                &&& after.f_anchor == self.f_anchor
                &&& events == asked.push(
                    Event::Refused { anchor: self.f_anchor->0, error: r->Err_0 },
                )
            }
            ||| {
                &&& after.f_anchor == Some(chosen)
                &&& events
                    == asked.push(Event::Unrequested { anchor: self.f_anchor->0 }).push(
                    answered(chosen, true, r),
                )
            }
        } else {
            &&& after.f_anchor == Some(chosen)
            &&& events == asked.push(answered(chosen, true, r))
        }
    }
}

impl<F, V> Then<F, V> {
    /// A node that passes on the anchor that `f` chooses from the values of
    /// `anchors`, and has chosen nothing yet.
    pub fn new(anchors: Vec<Anchor>, f: F) -> (r: Self)
        ensures
            r.anchors == anchors,
            r.f == f,
            r.f_anchor is None,
            r.lhs_stale,
    {
        Then { anchors, f, f_anchor: None, lhs_stale: true, phantom: PhantomData }
    }
}

impl<V, F: Fn(&Vec<&V>) -> NodeKey> AnchorCore for Then<F, V> {
    type Output = V;

    open spec fn core_inv(&self) -> bool {
        forall|args: &Vec<&V>| args@.len() == self.anchors@.len() ==> call_requires(self.f, (args,))
    }

    open spec fn marks(&self, child_key: NodeKey, after: &Self, r: Result<(),
        EngineError>) -> bool {
        &&& r is Ok
        &&& after.lhs_stale == (self.lhs_stale || names_one(
            self.anchors@,
            child_key,
        ))
        &&& after.anchors == self.anchors
        &&& after.f == self.f
        &&& after.f_anchor == self.f_anchor
    }

    fn mark_dirty(&mut self, child_key: NodeKey) -> (r: Result<(), EngineError>) {
        if is_input(&self.anchors, child_key) {
            self.lhs_stale = true;
        }
        Ok(())
    }

    open spec fn polls(
        &self,
        after: &Self,
        before: Asked,
        events: Asked,
        gives: Given<V>,
        r: Result<Poll, EngineError>,
    ) -> bool {
        &&& after.anchors == self.anchors
        &&& after.f == self.f
        &&& r is Ok && r->Ok_0 != Poll::Pending ==> after.f_anchor is Some
            && !after.lhs_stale
        &&& self.polled(after, before, events,
            gives, r)
    }

    fn poll_updated<U: UpdateContext<V>>(&mut self, ctx: &mut U) -> (r: Result<
        Poll,
        EngineError,
    >) {
        let ghost start = *self;
        let ghost before = ctx.events();
        proof {
            reveal(Then::<_, _>::polled);
        }
        if self.f_anchor.is_none() || self.lhs_stale {
            let found = match request_all(ctx, &self.anchors) {
                Ok(f) => f,
                Err(e) => {
                    return Err(e);
                },
            };
            let ghost asked = ctx.events();
            if found.pending {
                proof {
                    assert(start.went_on(
                        self,
                        before,
                        asked,
                        ctx.events(),
                        given(&*ctx),
                        Ok::<Poll, EngineError>(Poll::Pending),
                    ));
                }
                return Ok(Poll::Pending);
            }
            self.lhs_stale = false;
            if self.f_anchor.is_none() || found.updated {
                let ghost at = *ctx;
                let values = match get_all(&*ctx, &self.anchors) {
                    Ok(v) => v,
                    Err(e) => {
                        proof {
                            assert(start.went_on(
                                self,
                                before,
                                asked,
                                ctx.events(),
                        given(&*ctx),
                                Err::<Poll, EngineError>(e),
                            ));
                        }
                        return Err(e);
                    },
                };
                let new_anchor = (self.f)(&values);
                proof {
                    assert(read_all(given(&at), start.anchors@, values) && call_ensures(
                        start.f,
                        (&values,),
                        new_anchor,
                    ));
                    assert(start.chose(new_anchor));
                }
                match self.f_anchor {
                    Some(outdated) => {
                        if outdated != new_anchor {
                            let ghost chosen_at = *ctx;
                            let gone = ctx.unrequest(outdated);
                            proof {
                                lemma_walked_one::<V, U>(&chosen_at, &*ctx);
                                lemma_walked_twice::<V, U>(old(ctx), &chosen_at, &*ctx);
                            }
                            if let Err(e) = gone {
                                proof {
                                    let r = Err::<Poll, EngineError>(e);
                                    assert(start.passed_to(self, asked, ctx.events(),
                        given(&*ctx), new_anchor, r));
                                    assert(start.went_on(self, before, asked, ctx.events(),
                        given(&*ctx), r));
                                }
                                return Err(e);
                            }
                        }
                    },
                    None => {},
                }
                self.f_anchor = Some(new_anchor);
            }
            let ghost chose_again = start.f_anchor is None || found.updated;
            let ghost passing = *ctx;
            let answer = match self.f_anchor {
                Some(chosen) => ctx.request(chosen, true),
                None => Err(EngineError::NotReady),
            };
            proof {
                lemma_walked_one::<V, U>(&passing, &*ctx);
                lemma_walked_twice::<V, U>(old(ctx), &passing, &*ctx);
                if chose_again {
                    assert(start.chose(self.f_anchor->0));
                    assert(start.passed_to(self, asked, ctx.events(),
                        given(&*ctx), self.f_anchor->0, answer));
                }
                assert(start.went_on(self, before, asked, ctx.events(),
                        given(&*ctx), answer));
            }
            answer
        } else {
            let ghost passing = *ctx;
            let answer = match self.f_anchor {
                Some(chosen) => ctx.request(chosen, true),
                None => Err(EngineError::NotReady),
            };
            proof {
                lemma_walked_one::<V, U>(&passing, &*ctx);
            }
            answer
        }
    }

    open spec fn source(&self) -> Option<NodeKey> {
        self.f_anchor
    }

    open spec fn output_is(&self, upstream: Option<V>, r: Result<V, EngineError>) -> bool {
        match upstream {
            Some(v) => r == Ok::<V, EngineError>(v),
            None => r == Err::<V, EngineError>(EngineError::NotReady),
        }
    }

    fn output_source(&self) -> (r: Option<NodeKey>) {
        self.f_anchor
    }

    fn output<'a>(&'a self, upstream: Option<&'a V>) -> (r: Result<&'a V, EngineError>) {
        match upstream {
            Some(v) => Ok(v),
            None => Err(EngineError::NotReady),
        }
    }

    open spec fn assigns(
        &self,
        value: V,
        after: &Self,
        r: Result<Option<DirtyHandle>, EngineError>,
    ) -> bool {
        *after == *self && r == Err::<Option<DirtyHandle>, EngineError>(EngineError::NotAnInput)
    }

    fn assign(&mut self, value: V) -> (r: Result<Option<DirtyHandle>, EngineError>) {
        Err(EngineError::NotAnInput)
    }
}

} // verus!
