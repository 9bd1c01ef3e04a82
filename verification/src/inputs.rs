//! Asking for the inputs of a node, and reading their values.

use vstd::prelude::*;
use crate::anchor::Anchor;
use crate::expert::{
    given, lemma_walked_none, lemma_walked_on, one_call, walked, EngineError, Event, Given, Poll,
    UpdateContext,
};
use crate::node::NodeKey;

verus! {

/// What a node that reads several inputs has found when it asked for them.
pub struct Found {
    /// An input was not ready.
    pub pending: bool,
    /// An input has changed.
    pub updated: bool,
}

/// The answer of the request that event `i` records.
pub open spec fn answer_at(events: Seq<Event>, i: int) -> Poll {
    match events[i] {
        Event::Requested { answer, .. } => answer,
        _ => Poll::Unchanged,
    }
}

/// What the requests from event `from` on have found: something is pending
/// if one answer was `Pending`, and updated if one was `Updated`.
pub open spec fn found_from(events: Seq<Event>, from: int) -> Found {
    Found {
        pending: exists|i: int|
            from <= i < events.len() && #[trigger] answer_at(events, i) == Poll::Pending,
        updated: exists|i: int|
            from <= i < events.len() && #[trigger] answer_at(events, i) == Poll::Updated,
    }
}

/// `after` is `before` followed by one request for each of the anchors, in
/// their order, each marked necessary.
pub open spec fn asked_all(before: Seq<Event>, after: Seq<Event>, anchors: Seq<Anchor>) -> bool {
    &&& after.len() == before.len() + anchors.len()
    &&& after.subrange(0, before.len() as int) == before
    &&& forall|i: int|
        0 <= i < anchors.len() ==> match #[trigger] after[before.len() + i] {
            Event::Requested { anchor, necessary, .. } => anchor == anchors[i].data.node_key
                && necessary,
            _ => false,
        }
}

/// The values are what the context gives for the anchors, in their order.
pub open spec fn read_all<V>(gives: Given<V>, anchors: Seq<Anchor>, values: Vec<&V>) -> bool {
    &&& values@.len() == anchors.len()
    &&& forall|i: int|
        0 <= i < anchors.len() ==> gives.contains(
            ((#[trigger] anchors[i]).data.node_key, Ok::<V, EngineError>(*values@[i])),
        )
}

/// `after` is `before` followed by one request for each of the anchors that
/// stand before one of them, each marked necessary, and by the request for
/// that one, which the context has refused with `error`.
pub open spec fn refused_one(
    before: Seq<Event>,
    after: Seq<Event>,
    anchors: Seq<Anchor>,
    error: EngineError,
) -> bool {
    exists|i: int|
        {
            &&& 0 <= i < anchors.len()
            &&& after.len() > 0
            &&& #[trigger] asked_all(before, after.drop_last(), anchors.subrange(0, i))
            &&& after.last() == Event::Refused { anchor: anchors[i].data.node_key, error }
        }
}

/// The context gives a value for `key`.
pub open spec fn has_value<V>(gives: Given<V>, key: NodeKey) -> bool {
    exists|v: V| #[trigger] gives.contains((key, Ok::<V, EngineError>(v)))
}

/// The context gives a value for each of the first `n` anchors.
pub open spec fn read_upto<V>(gives: Given<V>, anchors: Seq<Anchor>, n: int) -> bool {
    forall|j: int| 0 <= j < n ==> has_value(gives, (#[trigger] anchors[j]).data.node_key)
}

/// The context gives a value for each of the anchors that stand before one
/// of them, and for that one it gives `error`.
pub open spec fn missing_one<V>(gives: Given<V>, anchors: Seq<Anchor>, error: EngineError) -> bool {
    exists|i: int|
        {
            &&& 0 <= i < anchors.len()
            &&& #[trigger] read_upto(gives, anchors, i)
            &&& gives.contains((anchors[i].data.node_key, Err::<V, EngineError>(error)))
        }
}

/// What a poll has met that asks for all the anchors, then reads their
/// values, and fails with `error`: either the context has refused one of the
/// requests, or all were asked, none is pending, and the context has no value
/// for one of the anchors.
pub open spec fn failed_on<V>(
    before: Seq<Event>,
    events: Seq<Event>,
    gives: Given<V>,
    anchors: Seq<Anchor>,
    error: EngineError,
) -> bool {
    ||| refused_one(before, events, anchors, error)
    ||| {
        &&& asked_all(before, events, anchors)
        &&& !found_after(before, events).pending
        &&& missing_one(gives, anchors, error)
    }
}

/// What the requests after the events in `before` have found.
pub open spec fn found_after(before: Seq<Event>, all: Seq<Event>) -> Found {
    found_from(all, before.len() as int)
}

/// Adds one more answer to what has been found.
pub fn note(found: Found, answer: Poll) -> (r: Found)
    ensures
        r.pending == (found.pending || answer == Poll::Pending),
        r.updated == (found.updated || answer == Poll::Updated),
{
    match answer {
        Poll::Pending => Found { pending: true, updated: found.updated },
        Poll::Updated => Found { pending: found.pending, updated: true },
        Poll::Unchanged => found,
    }
}

/// Asks for every input in turn, each marked necessary, and says what was
/// found. Every input is asked for, also after one was found pending. If
/// the context refuses a request, no more is asked, and its error is
/// returned.
pub fn request_all<V, U: UpdateContext<V>>(ctx: &mut U, anchors: &Vec<Anchor>) -> (r: Result<
    Found,
    EngineError,
>)
    requires
        old(ctx).inv(),
    ensures
        final(ctx).origin() == old(ctx).origin(),
        match r {
            Ok(found) => {
                &&& final(ctx).inv()
                &&& asked_all(old(ctx).events(), final(ctx).events(), anchors@)
                &&& found == found_after(old(ctx).events(), final(ctx).events())
            },
            Err(error) => refused_one(old(ctx).events(), final(ctx).events(), anchors@, error),
        },
        walked::<V, U>(old(ctx), final(ctx)),
        r is Ok && !r->Ok_0.pending ==> forall|i: int|
            0 <= i < anchors@.len() ==> final(ctx).ready((#[trigger] anchors@[i]).data.node_key),
{
    let mut found = Found { pending: false, updated: false };
    let ghost start = ctx.events();
    let mut i: usize = 0;
    proof {
        assert(ctx.events().subrange(0, start.len() as int) =~= start);
        lemma_walked_none::<V, U>(&*ctx);
    }
    while i < anchors.len()
        invariant
            i <= anchors.len(),
            ctx.inv(),
            walked::<V, U>(old(ctx), &*ctx),
            !found.pending ==> forall|j: int|
                0 <= j < i ==> ctx.ready((#[trigger] anchors@[j]).data.node_key),
            ctx.origin() == old(ctx).origin(),
            start == old(ctx).events(),
            asked_all(start, ctx.events(), anchors@.subrange(0, i as int)),
            found == found_from(ctx.events(), start.len() as int),
        decreases anchors.len() - i,
    {
        let ghost before = ctx.events();
        let ghost mid = *ctx;
        let asked = ctx.request(anchors[i].key(), true);
        proof {
            assert(ctx.events().drop_last() =~= before);
            assert(one_call::<V, U>(&mid, &*ctx));
            lemma_walked_on::<V, U>(old(ctx), &mid, &*ctx);
        }
        let answer = match asked {
            Ok(a) => a,
            Err(e) => {
                proof {
                    assert(ctx.events().drop_last() =~= before);
                    assert(asked_all(
                        start,
                        ctx.events().drop_last(),
                        anchors@.subrange(0, i as int),
                    ));
                }
                return Err(e);
            },
        };
        let ghost known = found;
        found = note(found, answer);
        proof {
            let after = ctx.events();
            let done = anchors@.subrange(0, i as int);
            let more = anchors@.subrange(0, i as int + 1);
            assert(after.subrange(0, start.len() as int) =~= before.subrange(
                0,
                start.len() as int,
            ));
            assert forall|j: int| 0 <= j < more.len() implies match #[trigger] after[start.len()
                + j] {
                Event::Requested { anchor, necessary, .. } => anchor == more[j].data.node_key
                    && necessary,
                _ => false,
            } by {
                if j < i {
                    assert(after[start.len() + j] == before[start.len() + j]);
                    assert(done[j] == more[j]);
                }
            }
            assert(answer_at(after, before.len() as int) == answer);
            let from = start.len() as int;
            assert(found_from(after, from).pending == (known.pending || answer
                == Poll::Pending)) by {
                if known.pending {
                    let j = choose|j: int|
                        from <= j < before.len() && #[trigger] answer_at(before, j)
                            == Poll::Pending;
                    assert(answer_at(after, j) == Poll::Pending);
                }
                if found_from(after, from).pending {
                    let j = choose|j: int|
                        from <= j < after.len() && #[trigger] answer_at(after, j) == Poll::Pending;
                    if j < before.len() {
                        assert(answer_at(before, j) == Poll::Pending);
                    }
                }
            }
            assert(found_from(after, from).updated == (known.updated || answer
                == Poll::Updated)) by {
                if known.updated {
                    let j = choose|j: int|
                        from <= j < before.len() && #[trigger] answer_at(before, j)
                            == Poll::Updated;
                    assert(answer_at(after, j) == Poll::Updated);
                }
                if found_from(after, from).updated {
                    let j = choose|j: int|
                        from <= j < after.len() && #[trigger] answer_at(after, j) == Poll::Updated;
                    if j < before.len() {
                        assert(answer_at(before, j) == Poll::Updated);
                    }
                }
            }
        }
        i += 1;
    }
    proof {
        assert(anchors@.subrange(0, anchors@.len() as int) =~= anchors@);
    }
    Ok(found)
}

/// Borrows the outputs of all the inputs, in their order, each of which has
/// to be ready. If the context has no value for one of them, the error that
/// it gives for the first such input is returned.
pub fn get_all<'a, V, U: UpdateContext<V>>(ctx: &'a U, anchors: &Vec<Anchor>) -> (r: Result<
    Vec<&'a V>,
    EngineError,
>)
    requires
        ctx.inv(),
        forall|i: int| 0 <= i < anchors@.len()
            ==> ctx.ready((#[trigger] anchors@[i]).data.node_key),
    ensures
        match r {
            Ok(values) => read_all(given(ctx), anchors@, values),
            Err(error) => missing_one(given(ctx), anchors@, error),
        },
{
    let mut values: Vec<&'a V> = Vec::new();
    let mut i: usize = 0;
    while i < anchors.len()
        invariant
            i <= anchors.len(),
            ctx.inv(),
            values@.len() == i,
            forall|j: int|
                0 <= j < anchors@.len() ==> ctx.ready((#[trigger] anchors@[j]).data.node_key),
            forall|j: int|
                0 <= j < i ==> ctx.gives(
                    (#[trigger] anchors@[j]).data.node_key,
                    Ok::<V, EngineError>(*values@[j]),
                ),
        decreases anchors.len() - i,
    {
        match ctx.get(anchors[i].key()) {
            Ok(v) => {
                values.push(v);
            },
            Err(e) => {
                proof {
                    assert forall|j: int| 0 <= j < i implies has_value(
                        given(ctx),
                        (#[trigger] anchors@[j]).data.node_key,
                    ) by {
                        assert(given(ctx).contains(
                            (anchors@[j].data.node_key, Ok::<V, EngineError>(*values@[j])),
                        ));
                    }
                    assert(read_upto(given(ctx), anchors@, i as int));
                }
                return Err(e);
            },
        }
        i += 1;
    }
    Ok(values)
}

} // verus!
