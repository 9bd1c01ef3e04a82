//! The computations that come with the library, as one type.

use vstd::prelude::*;
use crate::anchor::Anchor;
use crate::constant::Constant;
use crate::cutoff::Cutoff;
use crate::expert::{
    given, AnchorCore, Asked, DirtyHandle, EngineError, Given, Poll, UpdateContext,
};
use crate::map::MapAnchor;
use crate::map_mut::MapMut;
use crate::node::NodeKey;
use crate::refmap::RefMap;
use crate::then_node::Then;
use crate::variable::VarAnchor;

verus! {

/// One of the computations that come with the library. A graph holds
/// computations of one type; this is the type to use for a graph that mixes
/// the kinds below. `V` is the type of the values, the other parameters are
/// the types of the functions that the kinds of the same letter hold.
pub enum Computation<V, M, N, R, P, T> {
    Constant(Constant<V>),
    Variable(VarAnchor<V>),
    Mapped(MapAnchor<M, V>),
    MapMut(MapMut<N, V>),
    RefMap(RefMap<R, V>),
    Cutoff(Cutoff<P, V>),
    Then(Then<T, V>),
}

impl<
    V: PartialEq,
    M: Fn(&Vec<&V>) -> V,
    N: Fn(&mut V, &Vec<&V>) -> bool,
    R: for <'any>Fn(&'any V) -> &'any V,
    P: Fn(&V) -> bool,
    T: Fn(&Vec<&V>) -> NodeKey,
> AnchorCore for Computation<V, M, N, R, P, T> {
    type Output = V;

    open spec fn core_inv(&self) -> bool {
        match self {
            Computation::Constant(c) => c.core_inv(),
            Computation::Variable(c) => c.core_inv(),
            Computation::Mapped(c) => c.core_inv(),
            Computation::MapMut(c) => c.core_inv(),
            Computation::RefMap(c) => c.core_inv(),
            Computation::Cutoff(c) => c.core_inv(),
            Computation::Then(c) => c.core_inv(),
        }
    }

    open spec fn source(&self) -> Option<NodeKey> {
        match self {
            Computation::Constant(c) => c.source(),
            Computation::Variable(c) => c.source(),
            Computation::Mapped(c) => c.source(),
            Computation::MapMut(c) => c.source(),
            Computation::RefMap(c) => c.source(),
            Computation::Cutoff(c) => c.source(),
            Computation::Then(c) => c.source(),
        }
    }

    open spec fn output_is(&self, upstream: Option<V>, r: Result<V, EngineError>) -> bool {
        match self {
            Computation::Constant(c) => c.output_is(upstream, r),
            Computation::Variable(c) => c.output_is(upstream, r),
            Computation::Mapped(c) => c.output_is(upstream, r),
            Computation::MapMut(c) => c.output_is(upstream, r),
            Computation::RefMap(c) => c.output_is(upstream, r),
            Computation::Cutoff(c) => c.output_is(upstream, r),
            Computation::Then(c) => c.output_is(upstream, r),
        }
    }

    open spec fn marks(&self, child_key: NodeKey, after: &Self, r: Result<(),
        EngineError>) -> bool {
        match (*self, *after) {
            (Computation::Constant(a), Computation::Constant(b)) => a.marks(child_key, &b, r),
            (Computation::Variable(a), Computation::Variable(b)) => a.marks(child_key, &b, r),
            (Computation::Mapped(a), Computation::Mapped(b)) => a.marks(child_key, &b, r),
            (Computation::MapMut(a), Computation::MapMut(b)) => a.marks(child_key, &b, r),
            (Computation::RefMap(a), Computation::RefMap(b)) => a.marks(child_key, &b, r),
            (Computation::Cutoff(a), Computation::Cutoff(b)) => a.marks(child_key, &b, r),
            (Computation::Then(a), Computation::Then(b)) => a.marks(child_key, &b, r),
            _ => false,
        }
    }

    fn mark_dirty(&mut self, child_key: NodeKey) -> (r: Result<(), EngineError>) {
        match self {
            Computation::Constant(c) => c.mark_dirty(child_key),
            Computation::Variable(c) => c.mark_dirty(child_key),
            Computation::Mapped(c) => c.mark_dirty(child_key),
            Computation::MapMut(c) => c.mark_dirty(child_key),
            Computation::RefMap(c) => c.mark_dirty(child_key),
            Computation::Cutoff(c) => c.mark_dirty(child_key),
            Computation::Then(c) => c.mark_dirty(child_key),
        }
    }

    open spec fn polls(
        &self,
        after: &Self,
        before: Asked,
        events: Asked,
        gives: Given<V>,
        r: Result<Poll, EngineError>,
    ) -> bool {
        match (*self, *after) {
            (Computation::Constant(a), Computation::Constant(b)) => a.polls(&b, before, events,
            gives, r),
            (Computation::Variable(a), Computation::Variable(b)) => a.polls(&b, before, events,
            gives, r),
            (Computation::Mapped(a), Computation::Mapped(b)) => a.polls(&b, before, events,
            gives, r),
            (Computation::MapMut(a), Computation::MapMut(b)) => a.polls(&b, before, events,
            gives, r),
            (Computation::RefMap(a), Computation::RefMap(b)) => a.polls(&b, before, events,
            gives, r),
            (Computation::Cutoff(a), Computation::Cutoff(b)) => a.polls(&b, before, events,
            gives, r),
            (Computation::Then(a), Computation::Then(b)) => a.polls(&b, before, events,
            gives, r),
            _ => false,
        }
    }

    fn poll_updated<U: UpdateContext<V>>(&mut self, ctx: &mut U) -> (r: Result<
        Poll,
        EngineError,
    >) {
        let ghost before = ctx.events();
        match self {
            Computation::Constant(c) => {
                let ghost was = *c;
                let r = c.poll_updated(ctx);
                proof {
                    assert(was.polls(&*c, before, ctx.events(), given(&*ctx), r));
                }
                r
            },
            Computation::Variable(c) => {
                let ghost was = *c;
                let r = c.poll_updated(ctx);
                proof {
                    assert(was.polls(&*c, before, ctx.events(), given(&*ctx), r));
                }
                r
            },
            Computation::Mapped(c) => {
                let ghost was = *c;
                let r = c.poll_updated(ctx);
                proof {
                    assert(was.polls(&*c, before, ctx.events(), given(&*ctx), r));
                }
                r
            },
            Computation::MapMut(c) => {
                let ghost was = *c;
                let r = c.poll_updated(ctx);
                proof {
                    assert(was.polls(&*c, before, ctx.events(), given(&*ctx), r));
                }
                r
            },
            Computation::RefMap(c) => {
                let ghost was = *c;
                let r = c.poll_updated(ctx);
                proof {
                    assert(was.polls(&*c, before, ctx.events(), given(&*ctx), r));
                }
                r
            },
            Computation::Cutoff(c) => {
                let ghost was = *c;
                let r = c.poll_updated(ctx);
                proof {
                    assert(was.polls(&*c, before, ctx.events(), given(&*ctx), r));
                }
                r
            },
            Computation::Then(c) => {
                let ghost was = *c;
                let r = c.poll_updated(ctx);
                proof {
                    assert(was.polls(&*c, before, ctx.events(), given(&*ctx), r));
                }
                r
            },
        }
    }

    fn output_source(&self) -> (r: Option<NodeKey>) {
        match self {
            Computation::Constant(c) => c.output_source(),
            Computation::Variable(c) => c.output_source(),
            Computation::Mapped(c) => c.output_source(),
            Computation::MapMut(c) => c.output_source(),
            Computation::RefMap(c) => c.output_source(),
            Computation::Cutoff(c) => c.output_source(),
            Computation::Then(c) => c.output_source(),
        }
    }

    fn output<'a>(&'a self, upstream: Option<&'a V>) -> (r: Result<&'a V, EngineError>) {
        match self {
            Computation::Constant(c) => c.output(upstream),
            Computation::Variable(c) => c.output(upstream),
            Computation::Mapped(c) => c.output(upstream),
            Computation::MapMut(c) => c.output(upstream),
            Computation::RefMap(c) => c.output(upstream),
            Computation::Cutoff(c) => c.output(upstream),
            Computation::Then(c) => c.output(upstream),
        }
    }

    open spec fn assigns(
        &self,
        value: V,
        after: &Self,
        r: Result<Option<DirtyHandle>, EngineError>,
    ) -> bool {
        match (*self, *after) {
            (Computation::Variable(a), Computation::Variable(b)) => a.assigns(value, &b, r),
            (a, b) => b == a && !(a is Variable) && r == Err::<
                Option<DirtyHandle>,
                EngineError,
            >(EngineError::NotAnInput),
        }
    }

    fn assign(&mut self, value: V) -> (r: Result<Option<DirtyHandle>, EngineError>)
    {
        match self {
            Computation::Constant(c) => c.assign(value),
            Computation::Variable(c) => c.assign(value),
            Computation::Mapped(c) => c.assign(value),
            Computation::MapMut(c) => c.assign(value),
            Computation::RefMap(c) => c.assign(value),
            Computation::Cutoff(c) => c.assign(value),
            Computation::Then(c) => c.assign(value),
        }
    }
}

impl<V, M, N, R, P, T> Computation<V, M, N, R, P, T> {
    /// The anchors that the computation holds: its inputs.
    pub open spec fn inputs(&self) -> Seq<Anchor> {
        match self {
            Computation::Constant(_) => Seq::empty(),
            Computation::Variable(_) => Seq::empty(),
            Computation::Mapped(c) => c.anchors@,
            Computation::MapMut(c) => c.anchors@,
            Computation::RefMap(c) => seq![c.anchor],
            Computation::Cutoff(c) => seq![c.anchor],
            Computation::Then(c) => c.anchors@,
        }
    }

    /// Takes the computation apart and hands out the anchors that it holds,
    /// for the caller to give back.
    pub fn into_anchors(self) -> (r: Vec<Anchor>)
        ensures
            r@ == self.inputs(),
    {
        match self {
            Computation::Constant(_) => Vec::new(),
            Computation::Variable(_) => Vec::new(),
            Computation::Mapped(c) => c.anchors,
            Computation::MapMut(c) => c.anchors,
            Computation::RefMap(c) => {
                let mut v = Vec::new();
                v.push(c.anchor);
                v
            },
            Computation::Cutoff(c) => {
                let mut v = Vec::new();
                v.push(c.anchor);
                v
            },
            Computation::Then(c) => c.anchors,
        }
    }
}

} // verus!
