//! Reading the output of a node.

use vstd::prelude::*;
use vstd::set::*;
use crate::dirty::cores_ok;
use crate::expert::{unborrow_result, AnchorCore, EngineError};
use crate::graph::Graph;
use crate::node::{NodeKey, RecalcState};

verus! {

/// What reading the output of the node in slot `node` may give.
///
/// A node without a computation gives `NotReady`. A computation that names
/// no source gives its own output. One that names a source is given the
/// output of the source and gives what it makes of that; the source has to
/// be a live node (`StaleKey`) that is `Ready` (`NotReady`) and stands
/// strictly below (`NotRequested`), and an error in reading it is passed on.
pub open spec fn outputs<C: AnchorCore>(graph: &Graph<C>, node: int) -> Set<
    Result<C::Output, EngineError>,
>
    decreases graph.nodes@[node].ptrs.height,
{
    match graph.nodes@[node].anchor {
        None => set![Err::<C::Output, EngineError>(EngineError::NotReady)],
        Some(core) => match core.source() {
            None => Set::new(|r: Result<C::Output, EngineError>| core.output_is(None, r)),
            Some(key) => {
                let source = key.ptr as int;
                if !graph.valid_key(key) {
                    set![Err::<C::Output, EngineError>(EngineError::StaleKey)]
                } else if graph.nodes@[source].ptrs.recalc_state != RecalcState::Ready {
                    set![Err::<C::Output, EngineError>(EngineError::NotReady)]
                } else if graph.nodes@[source].ptrs.height >= graph.nodes@[node].ptrs.height {
                    set![Err::<C::Output, EngineError>(EngineError::NotRequested)]
                } else {
                    passed_on(core, outputs(graph, source))
                }
            },
        },
    }
}

/// What a computation may give that is handed one of the results in
/// `upstream`: an error is passed on, a value is handed to the computation.
pub open spec fn passed_on<C: AnchorCore>(
    core: C,
    upstream: Set<Result<C::Output, EngineError>>,
) -> Set<Result<C::Output, EngineError>> {
    Set::new(
        |r: Result<C::Output, EngineError>|
            exists|u: Result<C::Output, EngineError>|
                #[trigger] upstream.contains(u) && match u {
                    Err(e) => r == Err::<C::Output, EngineError>(e),
                    Ok(v) => core.output_is(Some(v), r),
                },
    )
}

/// `r` is what reading the output of the node in slot `node` may give.
pub open spec fn produces<C: AnchorCore>(
    graph: &Graph<C>,
    node: int,
    r: Result<C::Output, EngineError>,
) -> bool {
    outputs(graph, node).contains(r)
}

/// The output of the node in slot `node`. A computation that names a source
/// is given the output of that source, which has to be a live node that is
/// `Ready` and stands strictly below.
pub fn output_of<'a, C: AnchorCore>(graph: &'a Graph<C>, node: usize) -> (r: Result<
    &'a C::Output,
    EngineError,
>)
    requires
        cores_ok(graph),
        graph.in_range(node as int),
    ensures
        produces(graph, node as int, unborrow_result(r)),
    decreases graph.nodes@[node as int].ptrs.height,
{
    let core = match &graph.nodes[node].anchor {
        None => {
            return Err(EngineError::NotReady);
        },
        Some(core) => core,
    };
    let key = match core.output_source() {
        None => {
            return core.output(None);
        },
        Some(key) => key,
    };
    let source = match graph.slot_of(key) {
        None => {
            return Err(EngineError::StaleKey);
        },
        Some(source) => source,
    };
    if graph.nodes[source].ptrs.recalc_state != RecalcState::Ready {
        return Err(EngineError::NotReady);
    }
    if graph.nodes[source].ptrs.height >= graph.nodes[node].ptrs.height {
        return Err(EngineError::NotRequested);
    }
    let upstream = output_of(graph, source);
    let r = match upstream {
        Err(e) => Err(e),
        Ok(value) => core.output(Some(value)),
    };
    proof {
        let u = unborrow_result(upstream);
        let out = unborrow_result(r);
        assert(outputs(graph, source as int).contains(u));
        assert(passed_on(*core, outputs(graph, source as int)).contains(out));
    }
    r
}

/// The context in which outputs are read.
pub struct EngineContext<'eng, C> {
    pub graph: &'eng Graph<C>,
}

impl<'eng, C: AnchorCore> EngineContext<'eng, C> {
    /// The context for reading outputs of the nodes of `graph`.
    pub fn new(graph: &'eng Graph<C>) -> (r: Self)
        ensures
            r.graph == graph,
    {
        EngineContext { graph }
    }

    /// The output of `anchor`, which has to name a live node that is `Ready`.
    pub fn get(&self, anchor: NodeKey) -> (r: Result<&'eng C::Output, EngineError>)
        requires
            cores_ok(self.graph),
            self.graph.valid_key(anchor),
            self.graph.nodes@[anchor.ptr as int].ptrs.recalc_state == RecalcState::Ready,
        ensures
            produces(self.graph, anchor.ptr as int, unborrow_result(r)),
    {
        match self.graph.slot_of(anchor) {
            None => Err(EngineError::StaleKey),
            Some(node) => {
                if self.graph.nodes[node].ptrs.recalc_state != RecalcState::Ready {
                    Err(EngineError::NotReady)
                } else {
                    output_of(self.graph, node)
                }
            },
        }
    }
}

} // verus!
