//! What holds of the engine as a whole.

use vstd::prelude::*;
use crate::computation::Computation;
use crate::context::{outputs, produces};
use crate::context_mut::{no_earlier, observed_state};
use crate::engine::Engine;
use crate::expert::{AnchorCore, EngineError};
use crate::graph::Graph;
use crate::height::{clean_edge, clean_path, clean_parent_stands_higher};
use crate::node::{NodeKey, RecalcState};
use crate::reading::lemma_rest_stabilizes;

verus! {

/// Along clean edges the height grows with every step, so no path of clean
/// edges comes back to where it began: the clean edges hold no cycle.
pub proof fn clean_edges_hold_no_cycle<C>(graph: &Graph<C>, path: Seq<int>)
    requires
        graph.wf(),
        path.len() >= 2,
        clean_path(graph, path),
    ensures
        graph.nodes@[path[path.len() - 1]].ptrs.height >= graph.nodes@[path[0]].ptrs.height
            + path.len() - 1,
        path[path.len() - 1] != path[0],
{
    crate::height::lemma_paths_climb(graph, path);
}

/// A clean parent stands strictly higher than its child.
pub proof fn clean_parents_stand_higher<C>(graph: &Graph<C>, child: int, parent: int)
    requires
        graph.wf(),
        clean_edge(graph, child, parent),
    ensures
        graph.nodes@[parent].ptrs.height > graph.nodes@[child].ptrs.height,
{
    clean_parent_stands_higher(graph, child, parent);
}

/// After a stabilization, every live node that is observed or necessary is
/// `Ready`; it was last ready in the current generation or before, and last
/// changed when it was last ready or before.
pub proof fn demand_is_ready_after_stabilize<C: AnchorCore>(
    before: &Engine<C>,
    after: &Engine<C>,
    i: int,
)
    requires
        after.stabilized_from(before),
        after.graph.alive(i),
        after.graph.nodes@[i].in_demand(),
    ensures
        after.graph.nodes@[i].ptrs.recalc_state == RecalcState::Ready,
        after.graph.nodes@[i].last_ready is Some ==> after.graph.nodes@[i].last_ready->0.value()
            <= after.generation.value(),
        after.graph.nodes@[i].last_update is Some ==> after.graph.nodes@[i].last_ready is Some
            && after.graph.nodes@[i].last_update->0.value()
            <= after.graph.nodes@[i].last_ready->0.value(),
{
}

/// A stabilization neither mounts nor frees a node: every key names after
/// it what it named before, and no node is observed that was not, or the
/// other way round.
pub proof fn stabilize_keeps_the_nodes<C: AnchorCore>(
    before: &Engine<C>,
    after: &Engine<C>,
    key: NodeKey,
)
    requires
        after.stabilized_from(before),
    ensures
        after.graph.valid_key(key) == before.graph.valid_key(key),
        after.graph.len() == before.graph.len(),
        after.graph.valid_key(key) ==> after.graph.nodes@[key.ptr as int].observed
            == before.graph.nodes@[key.ptr as int].observed,
{
    if before.graph.in_range(key.ptr as int) {
        assert(after.graph.nodes@[key.ptr as int].token
            == before.graph.nodes@[key.ptr as int].token);
    }
}

/// Over a stabilization no stamp goes back: every node was last ready, and
/// has last changed, no earlier than before.
pub proof fn stabilize_turns_no_stamp_back<C: AnchorCore>(
    before: &Engine<C>,
    after: &Engine<C>,
    i: int,
)
    requires
        after.stabilized_from(before),
        0 <= i < before.graph.len(),
    ensures
        no_earlier(after.graph.nodes@[i].last_ready, before.graph.nodes@[i].last_ready),
        no_earlier(after.graph.nodes@[i].last_update, before.graph.nodes@[i].last_update),
{
    assert(after.graph.nodes@[i].token == before.graph.nodes@[i].token);
}

/// A second `get` of the same anchor, with no `set` in between, changes no
/// node: what every node last computed, and when it last changed, stay as
/// they were.
pub proof fn repeated_get_changes_no_node<C: AnchorCore>(
    start: &Engine<C>,
    first: &Engine<C>,
    second: &Engine<C>,
    key: NodeKey,
)
    requires
        first.got_from(start, key),
        second.got_from(first, key),
    ensures
        second.graph.nodes == first.graph.nodes,
        forall|i: int|
            0 <= i < first.graph.len() ==> (#[trigger] second.graph.nodes@[i]).last_update
                == first.graph.nodes@[i].last_update,
{
}

/// A second stabilization, with no change in between, changes no node: the
/// outputs and the stamps of the last change stay as they were.
pub proof fn double_stabilize_changes_no_node<C: AnchorCore>(
    start: &Engine<C>,
    first: &Engine<C>,
    second: &Engine<C>,
)
    requires
        first.stabilized_from(start),
        second.stabilized_from(first),
    ensures
        second.graph.nodes == first.graph.nodes,
        forall|i: int|
            0 <= i < first.graph.len() ==> (#[trigger] second.graph.nodes@[i]).last_update
                == first.graph.nodes@[i].last_update,
{
}

/// Marking a node as observed and taking the mark back leaves every node
/// observed, necessary or unnecessary as it was, with the necessary count
/// and the necessary children that it had. This is said of a node that was
/// not observed before and that, if it was not necessary, had no necessary
/// children.
pub proof fn observing_and_back_restores_necessity<C: AnchorCore>(
    start: &Engine<C>,
    observed: &Engine<C>,
    back: &Engine<C>,
    key: NodeKey,
)
    requires
        start.wf(),
        start.graph.valid_key(key),
        !start.graph.nodes@[key.ptr as int].observed,
        start.graph.nodes@[key.ptr as int].necessary_count > 0
            || start.graph.nodes@[key.ptr as int].children().len() == 0,
        observed.observed_from(start, key),
        back.unobserved_from(observed, key),
    ensures
        forall|i: int|
            0 <= i < start.graph.len() ==> {
                &&& observed_state(#[trigger] back.graph.nodes@[i]) == observed_state(
                    start.graph.nodes@[i],
                )
                &&& back.graph.nodes@[i].necessary_count == start.graph.nodes@[i].necessary_count
                &&& back.graph.nodes@[i].children() == start.graph.nodes@[i].children()
            },
{
    assert forall|i: int| 0 <= i < start.graph.len() implies {
        &&& observed_state(#[trigger] back.graph.nodes@[i]) == observed_state(
            start.graph.nodes@[i],
        )
        &&& back.graph.nodes@[i].necessary_count == start.graph.nodes@[i].necessary_count
        &&& back.graph.nodes@[i].children() == start.graph.nodes@[i].children()
    } by {
        let o = observed.graph.nodes@[i];
        assert(o.necessary_count == start.graph.nodes@[i].necessary_count);
    }
}

/// A key whose node has been freed names nothing, also after the slot of
/// the node has been given to a new node: the key of the new node is another
/// key.
pub proof fn stale_key_names_nothing<C>(
    freed: &Graph<C>,
    reused: &Graph<C>,
    stale: NodeKey,
    fresh: NodeKey,
)
    requires
        freed.wf(),
        freed.known_key(stale),
        !freed.valid_key(stale),
        reused.inserted_from(freed, fresh),
    ensures
        fresh != stale,
        !reused.valid_key(stale),
        reused.valid_key(fresh),
{
}

/// The computation gives one output at most for what it is handed.
pub open spec fn one_valued<C: AnchorCore>(core: C) -> bool {
    forall|up: Option<C::Output>, a: Result<C::Output, EngineError>, b: Result<C::Output,
        EngineError>|
        #[trigger] core.output_is(up, a) && #[trigger] core.output_is(up, b) ==> a == b
}

/// Every computation in the graph gives one output at most.
pub open spec fn all_one_valued<C: AnchorCore>(graph: &Graph<C>) -> bool {
    forall|i: int|
        0 <= i < graph.nodes@.len() && (#[trigger] graph.nodes@[i]).anchor is Some ==> one_valued(
            graph.nodes@[i].anchor->0,
        )
}

/// In two graphs that hold the same nodes, whose computations each give one
/// output at most, reading the output of a node gives the same.
pub proof fn lemma_one_output<C: AnchorCore>(
    first: &Graph<C>,
    second: &Graph<C>,
    node: int,
    a: Result<C::Output, EngineError>,
    b: Result<C::Output, EngineError>,
)
    requires
        second.nodes@ == first.nodes@,
        all_one_valued(first),
        first.in_range(node),
        produces(first, node, a),
        produces(second, node, b),
    ensures
        a == b,
    decreases first.nodes@[node].ptrs.height,
{
    match first.nodes@[node].anchor {
        None => {},
        Some(core) => {
            assert(one_valued(core));
            match core.source() {
                None => {},
                Some(key) => {
                    let source = key.ptr as int;
                    if first.valid_key(key) && first.nodes@[source].ptrs.recalc_state
                        == RecalcState::Ready && first.nodes@[source].ptrs.height
                        < first.nodes@[node].ptrs.height {
                        let ua = choose|u: Result<C::Output, EngineError>|
                            #[trigger] outputs(first, source).contains(u) && match u {
                                Err(e) => a == Err::<C::Output, EngineError>(e),
                                Ok(v) => core.output_is(Some(v), a),
                            };
                        let ub = choose|u: Result<C::Output, EngineError>|
                            #[trigger] outputs(second, source).contains(u) && match u {
                                Err(e) => b == Err::<C::Output, EngineError>(e),
                                Ok(v) => core.output_is(Some(v), b),
                            };
                        lemma_one_output(first, second, source, ua, ub);
                    }
                },
            }
        },
    }
}


/// A second `get` of the same anchor, with no `set` in between, returns
/// what the first has returned, where every computation gives one output
/// at most and a generation is left.
pub proof fn a_repeated_get_gives_the_same_value<C: AnchorCore>(
    start: &Engine<C>,
    first: &Engine<C>,
    second: &Engine<C>,
    key: NodeKey,
    r1: Result<C::Output, EngineError>,
    r2: Result<C::Output, EngineError>,
)
    requires
        first.got_from(start, key),
        produces(&first.graph, key.ptr as int, r1),
        !first.generation.is_last_spec(),
        all_one_valued(&first.graph),
        second.got_by(first, key, r2),
    ensures
        r2 == r1,
{
    let (stable, rs) = choose|stable: Engine<C>, rs: Result<(), EngineError>|
        {
            &&& #[trigger] stable.stabilized_by(first, rs)
            &&& match rs {
                Err(e) => r2 == Err::<C::Output, EngineError>(e) && *second == stable,
                Ok(_) => if !stable.graph.valid_key(key)
                    || stable.graph.nodes@[key.ptr as int].ptrs.recalc_state
                    == RecalcState::Ready {
                    *second == stable && second.read_at(key, r2)
                } else {
                    second.fetched_from(&stable, key, r2)
                },
            }
        };
    lemma_rest_stabilizes(first, &stable, rs);
    assert(stable.graph.nodes == first.graph.nodes);
    assert(stable.graph.valid_key(key));
    lemma_one_output(&first.graph, &second.graph, key.ptr as int, r1, r2);
}

/// The computations that come with the library give one output at most,
/// but for a node that looks into another through a function, which gives
/// what the function gives.
pub proof fn a_computation_is_one_valued<
    V: PartialEq,
    M: Fn(&Vec<&V>) -> V,
    N: Fn(&mut V, &Vec<&V>) -> bool,
    R: for <'any>Fn(&'any V) -> &'any V,
    P: Fn(&V) -> bool,
    T: Fn(&Vec<&V>) -> NodeKey,
>(core: Computation<V, M, N, R, P, T>)
    requires
        !(core is RefMap),
    ensures
        one_valued(core),
{
}


} // verus!
