//! Building a graph out of the computations that come with the library.

use vstd::prelude::*;
use crate::anchor::Anchor;
use crate::computation::Computation;
use crate::constant::Constant;
use crate::cutoff::Cutoff;
use crate::dirty::cores_ok;
use crate::engine::Engine;
use crate::expert::{unborrow, AnchorCore, EngineError};
use crate::graph::Graph;
use crate::map::MapAnchor;
use crate::map_mut::MapMut;
use crate::node::{Node, NodeKey};
use crate::refmap::RefMap;
use crate::then_node::Then;
use crate::variable::VarAnchor;

verus! {

/// The sum of the handle counts of the first `upto` slots.
pub open spec fn handles_upto<C>(nodes: Seq<Node<C>>, upto: int) -> int
    decreases upto,
{
    if upto <= 0 {
        0
    } else {
        handles_upto(nodes, upto - 1) + nodes[upto - 1].ptrs.handle_count
    }
}

/// The number of handles that the graph counts.
pub open spec fn total_handles<C>(graph: &Graph<C>) -> int {
    handles_upto(graph.nodes@, graph.nodes@.len() as int)
}

/// The sum of the handle counts is never negative.
pub proof fn lemma_handles_nonnegative<C>(nodes: Seq<Node<C>>, upto: int)
    ensures
        handles_upto(nodes, upto) >= 0,
    decreases upto,
{
    if upto > 0 {
        lemma_handles_nonnegative(nodes, upto - 1);
    }
}

/// Two graphs whose handle counts agree but in slot `at`, where the second
/// counts `less` handles fewer, differ by `less` in their sums, from `at` on.
pub proof fn lemma_handles_differ<C>(a: Seq<Node<C>>, b: Seq<Node<C>>, at: int, less: int,
    upto: int)
    requires
        a.len() == b.len(),
        0 <= at < a.len(),
        0 <= upto <= a.len(),
        forall|i: int|
            0 <= i < a.len() && i != at ==> (#[trigger] a[i]).ptrs.handle_count
                == b[i].ptrs.handle_count,
        b[at].ptrs.handle_count == a[at].ptrs.handle_count - less,
    ensures
        handles_upto(b, upto) == handles_upto(a, upto) - (if upto > at {
            less
        } else {
            0
        }),
    decreases upto,
{
    if upto > 0 {
        lemma_handles_differ(a, b, at, less, upto - 1);
    }
}

/// Graphs whose handle counts agree count the same number of handles.
pub proof fn lemma_handles_same<C>(a: Seq<Node<C>>, b: Seq<Node<C>>, upto: int)
    requires
        a.len() == b.len(),
        0 <= upto <= a.len(),
        forall|i: int|
            0 <= i < a.len() ==> (#[trigger] a[i]).ptrs.handle_count == b[i].ptrs.handle_count,
    ensures
        handles_upto(b, upto) == handles_upto(a, upto),
    decreases upto,
{
    if upto > 0 {
        lemma_handles_same(a, b, upto - 1);
    }
}

/// A setter for an input of the graph.
pub struct Variable {
    pub anchor: Anchor,
}

/// The key names no node any more, or its node has fewer handles than it had
/// in `before`. A key that named no node in `before` has nothing to give.
pub open spec fn given_back<C>(before: &Graph<C>, after: &Graph<C>, key: NodeKey) -> bool {
    ||| !before.valid_key(key)
    ||| !after.valid_key(key)
    ||| after.nodes@[key.ptr as int].ptrs.handle_count
        < before.nodes@[key.ptr as int].ptrs.handle_count
}

/// One of the anchors names the node that `key` names.
pub open spec fn holds_key(work: Seq<Anchor>, key: NodeKey) -> bool {
    exists|w: int| 0 <= w < work.len() && (#[trigger] work[w]).data.node_key == key
}

/// The anchors that the computation in slot `i` holds.
pub open spec fn owed<V, M, N, R, P, T>(
    graph: &Graph<Computation<V, M, N, R, P, T>>,
    i: int,
) -> Seq<Anchor> {
    match graph.nodes@[i].anchor {
        Some(core) => core.inputs(),
        None => Seq::empty(),
    }
}

/// No node has come or gone in number, no stamp has changed, no node has
/// more handles than in `start`, and every live node has the computation
/// that it had.
pub open spec fn run_down<C>(start: &Graph<C>, now: &Graph<C>) -> bool {
    &&& now.nodes@.len() == start.nodes@.len()
    &&& forall|i: int|
        0 <= i < start.nodes@.len() ==> {
            &&& (#[trigger] now.nodes@[i]).token == start.nodes@[i].token
            &&& now.nodes@[i].ptrs.handle_count <= start.nodes@[i].ptrs.handle_count
            &&& now.nodes@[i].alive() ==> now.nodes@[i].anchor == start.nodes@[i].anchor
        }
}

/// Every anchor that was held by the computation of a node which has been
/// freed since `start` has been given back, or waits in `work` to be.
pub open spec fn paid<V, M, N, R, P, T>(
    start: &Graph<Computation<V, M, N, R, P, T>>,
    now: &Graph<Computation<V, M, N, R, P, T>>,
    work: Seq<Anchor>,
) -> bool {
    forall|i: int, a: int|
        0 <= i < start.nodes@.len() && start.nodes@[i].alive() && !now.nodes@[i].alive() && 0 <= a
            < owed(start, i).len() ==> {
            let key = (#[trigger] owed(start, i)[a]).data.node_key;
            given_back(start, now, key) || holds_key(work, key)
        }
}

/// Giving back the anchor that names `key`, which was the last of the
/// work, keeps the account, when the anchors of a computation that this
/// frees are added to the work.
pub proof fn lemma_paid_on<V, M, N, R, P, T>(
    start: &Graph<Computation<V, M, N, R, P, T>>,
    before: &Graph<Computation<V, M, N, R, P, T>>,
    after: &Graph<Computation<V, M, N, R, P, T>>,
    rest: Seq<Anchor>,
    next: Anchor,
    work: Seq<Anchor>,
)
    requires
        run_down(start, before),
        paid(start, before, rest.push(next)),
        after.nodes@.len() == before.nodes@.len(),
        forall|i: int|
            0 <= i < before.nodes@.len() ==> (#[trigger] after.nodes@[i]).token
                == before.nodes@[i].token && after.nodes@[i].ptrs.handle_count
                == before.nodes@[i].ptrs.handle_count - (if before.valid_key(next.data.node_key)
                && i == next.data.node_key.ptr {
                1int
            } else {
                0int
            }),
        forall|i: int|
            0 <= i < before.nodes@.len() && (#[trigger] after.nodes@[i]).alive()
                ==> after.nodes@[i].anchor == before.nodes@[i].anchor,
        work == rest + (if before.valid_key(next.data.node_key)
            && before.nodes@[next.data.node_key.ptr as int].ptrs.handle_count == 1 {
            owed(before, next.data.node_key.ptr as int)
        } else {
            Seq::<Anchor>::empty()
        }),
    ensures
        run_down(start, after),
        paid(start, after, work),
{
    let key = next.data.node_key;
    assert forall|i: int| 0 <= i < start.nodes@.len() implies {
        &&& (#[trigger] after.nodes@[i]).token == start.nodes@[i].token
        &&& after.nodes@[i].ptrs.handle_count <= start.nodes@[i].ptrs.handle_count
        &&& after.nodes@[i].alive() ==> after.nodes@[i].anchor == start.nodes@[i].anchor
    } by {
        assert(before.nodes@[i].token == start.nodes@[i].token);
    }
    assert forall|i: int, a: int|
        0 <= i < start.nodes@.len() && start.nodes@[i].alive() && !after.nodes@[i].alive() && 0
            <= a < owed(start, i).len() implies {
        let k = (#[trigger] owed(start, i)[a]).data.node_key;
        given_back(start, after, k) || holds_key(work, k)
    } by {
        let k = owed(start, i)[a].data.node_key;
        assert(before.nodes@[i].token == start.nodes@[i].token);
        if !before.nodes@[i].alive() {
            if given_back(start, before, k) {
                if start.valid_key(k) && before.valid_key(k) {
                    assert(after.nodes@[k.ptr as int].token == before.nodes@[k.ptr as int].token);
                } else if start.valid_key(k) {
                    assert(after.nodes@[k.ptr as int].token == before.nodes@[k.ptr as int].token);
                }
            } else {
                let w = choose|w: int|
                    0 <= w < rest.push(next).len() && (#[trigger] rest.push(next)[w]).data.node_key
                        == k;
                if w < rest.len() {
                    assert(work[w] == rest[w]);
                    assert(holds_key(work, k));
                } else {
                    assert(k == key);
                    if start.valid_key(k) {
                        assert(after.nodes@[k.ptr as int].token
                            == before.nodes@[k.ptr as int].token);
                        assert(before.nodes@[k.ptr as int].token
                            == start.nodes@[k.ptr as int].token);
                    }
                }
            }
        } else {
            assert(i == key.ptr);
            assert(before.nodes@[i].anchor == start.nodes@[i].anchor);
            assert(owed(before, i) == owed(start, i));
            assert(work[rest.len() + a] == owed(start, i)[a]);
            assert(holds_key(work, k));
        }
    }
}

/// The anchors in `held` name the nodes that `inputs` name, in their order.
pub open spec fn names_all(held: Seq<Anchor>, inputs: Seq<&Anchor>) -> bool {
    &&& held.len() == inputs.len()
    &&& forall|i: int| 0 <= i < held.len() ==> (#[trigger] held[i]).data.node_key
        == inputs[i].data.node_key
}

impl<
    V: PartialEq,
    M: Fn(&Vec<&V>) -> V,
    N: Fn(&mut V, &Vec<&V>) -> bool,
    R: for <'any>Fn(&'any V) -> &'any V,
    P: Fn(&V) -> bool,
    T: Fn(&Vec<&V>) -> NodeKey,
> Engine<Computation<V, M, N, R, P, T>> {
    /// Makes an anchor of each of `inputs`, for a new computation to hold.
    pub fn watch_all(&mut self, inputs: &Vec<&Anchor>) -> (r: Vec<Anchor>)
        requires
            old(self).wf(),
        ensures
            final(self).wf(),
            r@.len() == inputs@.len(),
            forall|i: int| 0 <= i < r@.len() ==> r@[i].data.node_key == inputs@[i].data.node_key,
            final(self).dirty_marks == old(self).dirty_marks,
            final(self).generation == old(self).generation,
            final(self).max_steps == old(self).max_steps,
            final(self).graph.same_structure(&old(self).graph),
    {
        let mut held: Vec<Anchor> = Vec::new();
        let mut i: usize = 0;
        proof {
            old(self).graph.lemma_same_structure_self();
        }
        while i < inputs.len()
            invariant
                i <= inputs.len(),
                self.wf(),
                held@.len() == i,
                forall|j: int| 0 <= j < i ==> held@[j].data.node_key == inputs@[j].data.node_key,
                self.dirty_marks == old(self).dirty_marks,
                self.generation == old(self).generation,
                self.max_steps == old(self).max_steps,
                self.graph.same_structure(&old(self).graph),
            decreases inputs.len() - i,
        {
            let ghost mid = self.graph;
            let one = self.clone_anchor(inputs[i]);
            proof {
                old(self).graph.lemma_same_structure_twice(&mid, &self.graph);
            }
            held.push(one);
            i += 1;
        }
        held
    }

    /// Mounts an anchor with a value that never changes.
    pub fn constant(&mut self, value: V) -> (r: Anchor)
        requires
            old(self).wf(),
        ensures
            final(self).wf(),
            final(self).graph.inserted_from(&old(self).graph, r.data.node_key),
            final(self).graph.valid_key(r.data.node_key),
            !old(self).graph.known_key(r.data.node_key),
            final(self).graph.nodes@[r.data.node_key.ptr as int].is_fresh(),
            final(self).graph.nodes@[r.data.node_key.ptr as int].anchor == Some(
                Computation::<V, M, N, R, P, T>::Constant(Constant { val: value,
                    first_poll: true }),
            ),
    {
        self.mount(Computation::Constant(Constant::new_raw_testing(value)))
    }

    /// Mounts an input that holds `value`.
    pub fn variable(&mut self, value: V) -> (r: Variable)
        requires
            old(self).wf(),
        ensures
            final(self).wf(),
            final(self).graph.inserted_from(&old(self).graph, r.anchor.data.node_key),
            final(self).graph.valid_key(r.anchor.data.node_key),
            !old(self).graph.known_key(r.anchor.data.node_key),
            final(self).graph.nodes@[r.anchor.data.node_key.ptr as int].is_fresh(),
            final(self).graph.nodes@[r.anchor.data.node_key.ptr as int].anchor == Some(
                Computation::<V, M, N, R, P, T>::Variable(
                    VarAnchor { dirty_handle: None, pending: Some(value), value: None },
                ),
            ),
    {
        Variable { anchor: self.mount(Computation::Variable(VarAnchor::new(value))) }
    }

    /// Mounts an anchor whose value is `f` of the values of `inputs`.
    pub fn map(&mut self, inputs: &Vec<&Anchor>, f: M) -> (r: Anchor)
        requires
            old(self).wf(),
            forall|args: &Vec<&V>| args@.len() == inputs@.len() ==> call_requires(f, (args,)),
        ensures
            final(self).wf(),
            final(self).graph.valid_key(r.data.node_key),
            !old(self).graph.known_key(r.data.node_key),
            final(self).graph.nodes@[r.data.node_key.ptr as int].is_fresh(),
            final(self).graph.nodes@[r.data.node_key.ptr as int].anchor matches Some(
                Computation::Mapped(made),
            ) && made.f == f && made.output is None && made.output_stale && names_all(
                made.anchors@,
                inputs@,
            ),
    {
        let held = self.watch_all(inputs);
        self.mount(Computation::Mapped(MapAnchor::new(held, f)))
    }

    /// Mounts an anchor whose value starts as `initial` and is changed in
    /// place by `f` from the values of `inputs`.
    pub fn map_mut(&mut self, inputs: &Vec<&Anchor>, initial: V, f: N) -> (r: Anchor)
        requires
            old(self).wf(),
            forall|out: &mut V, args: &Vec<&V>|
                args@.len() == inputs@.len() ==> call_requires(f, (out, args)),
        ensures
            final(self).wf(),
            final(self).graph.valid_key(r.data.node_key),
            !old(self).graph.known_key(r.data.node_key),
            final(self).graph.nodes@[r.data.node_key.ptr as int].is_fresh(),
            final(self).graph.nodes@[r.data.node_key.ptr as int].anchor matches Some(
                Computation::MapMut(made),
            ) && made.f == f && made.output == initial && made.output_stale && names_all(
                made.anchors@,
                inputs@,
            ),
    {
        let held = self.watch_all(inputs);
        self.mount(Computation::MapMut(MapMut::new(held, f, initial)))
    }

    /// Mounts an anchor that passes on the value of the anchor that `f`
    /// chooses from the values of `inputs`.
    pub fn then(&mut self, inputs: &Vec<&Anchor>, f: T) -> (r: Anchor)
        requires
            old(self).wf(),
            forall|args: &Vec<&V>| args@.len() == inputs@.len() ==> call_requires(f, (args,)),
        ensures
            final(self).wf(),
            final(self).graph.valid_key(r.data.node_key),
            !old(self).graph.known_key(r.data.node_key),
            final(self).graph.nodes@[r.data.node_key.ptr as int].is_fresh(),
            final(self).graph.nodes@[r.data.node_key.ptr as int].anchor matches Some(
                Computation::Then(made),
            ) && made.f == f && made.f_anchor is None && made.lhs_stale && names_all(
                made.anchors@,
                inputs@,
            ),
    {
        let held = self.watch_all(inputs);
        self.mount(Computation::Then(Then::new(held, f)))
    }

    /// Mounts an anchor whose value is the part of the value of `input` that
    /// `f` points to.
    pub fn refmap(&mut self, input: &Anchor, f: R) -> (r: Anchor)
        requires
            old(self).wf(),
            forall|v: &V| call_requires(f, (v,)),
        ensures
            final(self).wf(),
            final(self).graph.valid_key(r.data.node_key),
            !old(self).graph.known_key(r.data.node_key),
            final(self).graph.nodes@[r.data.node_key.ptr as int].is_fresh(),
            final(self).graph.nodes@[r.data.node_key.ptr as int].anchor matches Some(
                Computation::RefMap(made),
            ) && made.f == f && made.anchor.data.node_key == input.data.node_key,
    {
        let held = self.clone_anchor(input);
        self.mount(Computation::RefMap(RefMap::new(held, f)))
    }

    /// Mounts an anchor that passes on the value of `input`, and reports a
    /// change of it only when `f` holds of the new value.
    pub fn cutoff(&mut self, input: &Anchor, f: P) -> (r: Anchor)
        requires
            old(self).wf(),
            forall|v: &V| call_requires(f, (v,)),
        ensures
            final(self).wf(),
            final(self).graph.valid_key(r.data.node_key),
            !old(self).graph.known_key(r.data.node_key),
            final(self).graph.nodes@[r.data.node_key.ptr as int].is_fresh(),
            final(self).graph.nodes@[r.data.node_key.ptr as int].anchor matches Some(
                Computation::Cutoff(made),
            ) && made.f == f && made.first_calc && made.anchor.data.node_key
                == input.data.node_key,
    {
        let held = self.clone_anchor(input);
        self.mount(Computation::Cutoff(Cutoff::new(held, f)))
    }

    /// Gives an anchor back, and with it every anchor that a computation
    /// held which this frees, and so on. An anchor that is not the last one
    /// to its node only lowers the count of the handles to that node by one.
    /// Afterwards every anchor that a freed computation held is given back:
    /// its node is freed too, or has fewer handles than it had.
    pub fn release(&mut self, anchor: Anchor)
        requires
            old(self).wf(),
        ensures
            final(self).wf(),
            final(self).dirty_marks == old(self).dirty_marks,
            final(self).generation == old(self).generation,
            final(self).max_steps == old(self).max_steps,
            final(self).graph.len() == old(self).graph.len(),
            !old(self).graph.valid_key(anchor.data.node_key) ==> !final(self).graph.valid_key(
                anchor.data.node_key,
            ),
            old(self).graph.valid_key(anchor.data.node_key)
                && old(self).graph.nodes@[anchor.data.node_key.ptr as int].ptrs.handle_count == 1
                ==> !final(self).graph.valid_key(anchor.data.node_key),
            total_handles(&final(self).graph) <= total_handles(&old(self).graph),
            !(old(self).graph.valid_key(anchor.data.node_key)
                && old(self).graph.nodes@[anchor.data.node_key.ptr as int].ptrs.handle_count == 1)
                ==> forall|i: int|
                0 <= i < old(self).graph.len() ==> (#[trigger] final(self).graph.nodes@[i]).token
                    == old(self).graph.nodes@[i].token
                    && final(self).graph.nodes@[i].ptrs.handle_count
                    == old(self).graph.nodes@[i].ptrs.handle_count
                        - (if old(self).graph.valid_key(anchor.data.node_key) && i
                        == anchor.data.node_key.ptr {
                    1int
                } else {
                    0int
                }),
            old(self).graph.valid_key(anchor.data.node_key)
                && old(self).graph.nodes@[anchor.data.node_key.ptr as int].ptrs.handle_count > 1
                ==> final(self).graph.valid_key(anchor.data.node_key)
                && final(self).graph.same_structure(&old(self).graph),
            run_down(&old(self).graph, &final(self).graph),
            paid(&old(self).graph, &final(self).graph, Seq::<Anchor>::empty()),
    {
        let ghost first = anchor.data.node_key;
        let ghost start = self.graph;
        let freed = self.drop_anchor(anchor);
        let ghost dropped = self.graph;
        let ghost kept = freed is None;
        let mut work: Vec<Anchor> = match freed {
            Some(core) => core.into_anchors(),
            None => Vec::new(),
        };
        proof {
            assert(Seq::<Anchor>::empty().push(anchor) =~= seq![anchor]);
            assert(work@ =~= Seq::<Anchor>::empty() + (if start.valid_key(first)
                && start.nodes@[first.ptr as int].ptrs.handle_count == 1 {
                owed(&start, first.ptr as int)
            } else {
                Seq::<Anchor>::empty()
            }));
            lemma_paid_on(&start, &start, &self.graph, Seq::<Anchor>::empty(), anchor, work@);
            if start.valid_key(first) {
                lemma_handles_differ(
                    start.nodes@,
                    self.graph.nodes@,
                    first.ptr as int,
                    1,
                    start.nodes@.len() as int,
                );
            } else {
                lemma_handles_same(start.nodes@, self.graph.nodes@, start.nodes@.len() as int);
            }
            lemma_handles_nonnegative(self.graph.nodes@, self.graph.nodes@.len() as int);
        }
        let ghost gone = !self.graph.valid_key(first);
        while work.len() > 0
            invariant
                self.wf(),
                self.dirty_marks == old(self).dirty_marks,
                self.generation == old(self).generation,
                self.max_steps == old(self).max_steps,
                self.graph.len() == old(self).graph.len(),
                total_handles(&self.graph) >= 0,
                total_handles(&self.graph) <= total_handles(&old(self).graph),
                gone ==> !self.graph.valid_key(first),
                kept ==> work@.len() == 0 && self.graph == dropped,
                run_down(&old(self).graph, &self.graph),
                paid(&old(self).graph, &self.graph, work@),
            decreases total_handles(&self.graph), work@.len(),
        {
            let ghost before = self.graph;
            let ghost waiting = work@;
            let next = work.pop().unwrap();
            let ghost rest = work@;
            let ghost key = next.data.node_key;
            let freed = self.drop_anchor(next);
            proof {
                assert(rest.push(next) =~= waiting);
                if before.valid_key(key) {
                    lemma_handles_differ(
                        before.nodes@,
                        self.graph.nodes@,
                        key.ptr as int,
                        1,
                        before.nodes@.len() as int,
                    );
                } else {
                    lemma_handles_same(before.nodes@, self.graph.nodes@,
                        before.nodes@.len() as int);
                }
                lemma_handles_nonnegative(self.graph.nodes@, self.graph.nodes@.len() as int);
                if !before.valid_key(first) && before.in_range(first.ptr as int) {
                    let i = first.ptr as int;
                    assert(self.graph.nodes@[i].token == before.nodes@[i].token);
                    assert(self.graph.nodes@[i].ptrs.handle_count
                        <= before.nodes@[i].ptrs.handle_count);
                }
            }
            if let Some(core) = freed {
                let mut inputs = core.into_anchors();
                work.append(&mut inputs);
            }
            proof {
                assert(work@ =~= rest + (if before.valid_key(key)
                    && before.nodes@[key.ptr as int].ptrs.handle_count == 1 {
                    owed(&before, key.ptr as int)
                } else {
                    Seq::<Anchor>::empty()
                }));
                lemma_paid_on(&old(self).graph, &before, &self.graph, rest, next, work@);
            }
        }
    }
}

impl Anchor {
    /// Mounts an anchor with a value that never changes.
    pub fn constant<
        V: PartialEq,
        M: Fn(&Vec<&V>) -> V,
        N: Fn(&mut V, &Vec<&V>) -> bool,
        R: for <'any>Fn(&'any V) -> &'any V,
        P: Fn(&V) -> bool,
        T: Fn(&Vec<&V>) -> NodeKey,
    >(engine: &mut Engine<Computation<V, M, N, R, P, T>>, value: V) -> (r: Anchor)
        requires
            old(engine).wf(),
        ensures
            final(engine).wf(),
            final(engine).graph.inserted_from(&old(engine).graph, r.data.node_key),
            final(engine).graph.nodes@[r.data.node_key.ptr as int].is_fresh(),
            final(engine).graph.nodes@[r.data.node_key.ptr as int].anchor == Some(
                Computation::<V, M, N, R, P, T>::Constant(Constant { val: value,
                    first_poll: true }),
            ),
    {
        engine.constant(value)
    }

    /// Mounts an anchor whose value is `f` of the value of this one.
    pub fn map<
        V: PartialEq,
        M: Fn(&Vec<&V>) -> V,
        N: Fn(&mut V, &Vec<&V>) -> bool,
        R: for <'any>Fn(&'any V) -> &'any V,
        P: Fn(&V) -> bool,
        T: Fn(&Vec<&V>) -> NodeKey,
    >(&self, engine: &mut Engine<Computation<V, M, N, R, P, T>>, f: M) -> (r: Anchor)
        requires
            old(engine).wf(),
            forall|args: &Vec<&V>| args@.len() == 1 ==> call_requires(f, (args,)),
        ensures
            final(engine).wf(),
            final(engine).graph.valid_key(r.data.node_key),
            !old(engine).graph.known_key(r.data.node_key),
            final(engine).graph.nodes@[r.data.node_key.ptr as int].is_fresh(),
            final(engine).graph.nodes@[r.data.node_key.ptr as int].anchor matches Some(Computation::Mapped(made),
            ) && made.f == f && made.output is None && made.output_stale && made.anchors@.len()
                == 1 && made.anchors@[0].data.node_key == self.data.node_key,
    {
        let mut inputs: Vec<&Anchor> = Vec::new();
        inputs.push(self);
        engine.map(&inputs, f)
    }

    /// Mounts an anchor whose value starts as `initial` and is changed in
    /// place by `f` from the value of this one.
    pub fn map_mut<
        V: PartialEq,
        M: Fn(&Vec<&V>) -> V,
        N: Fn(&mut V, &Vec<&V>) -> bool,
        R: for <'any>Fn(&'any V) -> &'any V,
        P: Fn(&V) -> bool,
        T: Fn(&Vec<&V>) -> NodeKey,
    >(&self, engine: &mut Engine<Computation<V, M, N, R, P, T>>, initial: V, f: N) -> (r: Anchor)
        requires
            old(engine).wf(),
            forall|out: &mut V, args: &Vec<&V>| args@.len() == 1 ==> call_requires(f, (out, args)),
        ensures
            final(engine).wf(),
            final(engine).graph.valid_key(r.data.node_key),
            !old(engine).graph.known_key(r.data.node_key),
            final(engine).graph.nodes@[r.data.node_key.ptr as int].is_fresh(),
            final(engine).graph.nodes@[r.data.node_key.ptr as int].anchor matches Some(Computation::MapMut(made),
            ) && made.f == f && made.output == initial && made.output_stale
                && made.anchors@.len() == 1 && made.anchors@[0].data.node_key
                == self.data.node_key,
    {
        let mut inputs: Vec<&Anchor> = Vec::new();
        inputs.push(self);
        engine.map_mut(&inputs, initial, f)
    }

    /// Mounts an anchor that passes on the value of the anchor that `f`
    /// chooses from the value of this one.
    pub fn then<
        V: PartialEq,
        M: Fn(&Vec<&V>) -> V,
        N: Fn(&mut V, &Vec<&V>) -> bool,
        R: for <'any>Fn(&'any V) -> &'any V,
        P: Fn(&V) -> bool,
        T: Fn(&Vec<&V>) -> NodeKey,
    >(&self, engine: &mut Engine<Computation<V, M, N, R, P, T>>, f: T) -> (r: Anchor)
        requires
            old(engine).wf(),
            forall|args: &Vec<&V>| args@.len() == 1 ==> call_requires(f, (args,)),
        ensures
            final(engine).wf(),
            final(engine).graph.valid_key(r.data.node_key),
            !old(engine).graph.known_key(r.data.node_key),
            final(engine).graph.nodes@[r.data.node_key.ptr as int].is_fresh(),
            final(engine).graph.nodes@[r.data.node_key.ptr as int].anchor matches Some(Computation::Then(made),
            ) && made.f == f && made.f_anchor is None && made.lhs_stale && made.anchors@.len()
                == 1 && made.anchors@[0].data.node_key == self.data.node_key,
    {
        let mut inputs: Vec<&Anchor> = Vec::new();
        inputs.push(self);
        let held = engine.watch_all(&inputs);
        engine.mount(Computation::Then(Then::new(held, f)))
    }

    /// Mounts an anchor whose value is the part of the value of this one
    /// that `f` points to.
    pub fn refmap<
        V: PartialEq,
        M: Fn(&Vec<&V>) -> V,
        N: Fn(&mut V, &Vec<&V>) -> bool,
        R: for <'any>Fn(&'any V) -> &'any V,
        P: Fn(&V) -> bool,
        T: Fn(&Vec<&V>) -> NodeKey,
    >(&self, engine: &mut Engine<Computation<V, M, N, R, P, T>>, f: R) -> (r: Anchor)
        requires
            old(engine).wf(),
            forall|v: &V| call_requires(f, (v,)),
        ensures
            final(engine).wf(),
            final(engine).graph.valid_key(r.data.node_key),
            !old(engine).graph.known_key(r.data.node_key),
            final(engine).graph.nodes@[r.data.node_key.ptr as int].is_fresh(),
            final(engine).graph.nodes@[r.data.node_key.ptr as int].anchor matches Some(Computation::RefMap(made),
            ) && made.f == f && made.anchor.data.node_key == self.data.node_key,
    {
        engine.refmap(self, f)
    }

    /// Mounts an anchor that passes on the value of this one, and reports a
    /// change of it only when `f` holds of the new value.
    pub fn cutoff<
        V: PartialEq,
        M: Fn(&Vec<&V>) -> V,
        N: Fn(&mut V, &Vec<&V>) -> bool,
        R: for <'any>Fn(&'any V) -> &'any V,
        P: Fn(&V) -> bool,
        T: Fn(&Vec<&V>) -> NodeKey,
    >(&self, engine: &mut Engine<Computation<V, M, N, R, P, T>>, f: P) -> (r: Anchor)
        requires
            old(engine).wf(),
            forall|v: &V| call_requires(f, (v,)),
        ensures
            final(engine).wf(),
            final(engine).graph.valid_key(r.data.node_key),
            !old(engine).graph.known_key(r.data.node_key),
            final(engine).graph.nodes@[r.data.node_key.ptr as int].is_fresh(),
            final(engine).graph.nodes@[r.data.node_key.ptr as int].anchor matches Some(Computation::Cutoff(made),
            ) && made.f == f && made.first_calc && made.anchor.data.node_key
                == self.data.node_key,
    {
        engine.cutoff(self, f)
    }
}

impl Variable {
    /// Mounts an input that holds `value`.
    pub fn new<
        V: PartialEq,
        M: Fn(&Vec<&V>) -> V,
        N: Fn(&mut V, &Vec<&V>) -> bool,
        R: for <'any>Fn(&'any V) -> &'any V,
        P: Fn(&V) -> bool,
        T: Fn(&Vec<&V>) -> NodeKey,
    >(engine: &mut Engine<Computation<V, M, N, R, P, T>>, value: V) -> (r: Variable)
        requires
            old(engine).wf(),
        ensures
            final(engine).wf(),
            final(engine).graph.inserted_from(&old(engine).graph, r.anchor.data.node_key),
            final(engine).graph.nodes@[r.anchor.data.node_key.ptr as int].is_fresh(),
            final(engine).graph.nodes@[r.anchor.data.node_key.ptr as int].anchor == Some(
                Computation::<V, M, N, R, P, T>::Variable(
                    VarAnchor { dirty_handle: None, pending: Some(value), value: None },
                ),
            ),
    {
        engine.variable(value)
    }

    /// Sets the input to `value`. The graph sees the new value at the next
    /// stabilization.
    pub fn set<
        V: PartialEq,
        M: Fn(&Vec<&V>) -> V,
        N: Fn(&mut V, &Vec<&V>) -> bool,
        R: for <'any>Fn(&'any V) -> &'any V,
        P: Fn(&V) -> bool,
        T: Fn(&Vec<&V>) -> NodeKey,
    >(&self, engine: &mut Engine<Computation<V, M, N, R, P, T>>, value: V) -> (r: Result<
        (),
        EngineError,
    >)
        requires
            old(engine).wf(),
        ensures
            final(engine).wf(),
            final(engine).generation == old(engine).generation,
            final(engine).graph.same_structure(&old(engine).graph),
            !old(engine).graph.valid_key(self.anchor.data.node_key) ==> r == Err::<
                (),
                EngineError,
            >(EngineError::StaleKey),
            old(engine).graph.valid_key(self.anchor.data.node_key) ==> old(engine).was_set(
                final(engine),
                self.anchor.data.node_key.ptr as int,
                value,
                r,
            ),
    {
        engine.set(&self.anchor, value)
    }

    /// The value that was set last: the value that waits to be taken at the
    /// next poll, or else the value that the input holds. `None` if the
    /// input holds no value yet, or if the key no longer names an input.
    pub fn get<'a, V, M, N, R, P, T>(
        &self,
        engine: &'a Engine<Computation<V, M, N, R, P, T>>,
    ) -> (r: Option<&'a V>)
        ensures
            unborrow(r) == (if engine.graph.valid_key(self.anchor.data.node_key) {
                match engine.graph.nodes@[self.anchor.data.node_key.ptr as int].anchor {
                    Some(Computation::Variable(var)) => var.latest(),
                    _ => None,
                }
            } else {
                None
            }),
    {
        match engine.graph.slot_of(self.anchor.key()) {
            None => None,
            Some(node) => match &engine.graph.nodes[node].anchor {
                Some(Computation::Variable(var)) => match &var.pending {
                    Some(v) => Some(v),
                    None => var.value.as_ref(),
                },
                _ => None,
            },
        }
    }

    /// A new anchor to the input.
    pub fn watch<C: AnchorCore>(&self, engine: &mut Engine<C>) -> (r: Anchor)
        requires
            old(engine).wf(),
        ensures
            final(engine).wf(),
            r.data.node_key == self.anchor.data.node_key,
            final(engine).graph.same_structure(&old(engine).graph),
    {
        engine.clone_anchor(&self.anchor)
    }
}

} // verus!
