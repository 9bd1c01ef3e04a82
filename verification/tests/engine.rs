use std::cell::Cell;
use std::rc::Rc;

use anchors::anchor::Anchor;
use anchors::collections::{filter_map_edit, DiffKind, Edit};
use anchors::computation::Computation;
use anchors::context_mut::{stamp_answer, ObservedState};
use anchors::cutoff::decide;
use anchors::engine::Engine;
use anchors::expert::{
    AnchorCore, Asked, DirtyHandle, EngineError, Given, Poll, UpdateContext,
};
use anchors::generation::Generation;
use anchors::node::{NodeKey, RecalcState};

type MapFn = Box<dyn Fn(&Vec<&i64>) -> i64>;
type MutFn = Box<dyn Fn(&mut i64, &Vec<&i64>) -> bool>;
type RefFn = Box<dyn for<'a> Fn(&'a i64) -> &'a i64>;
type CutFn = Box<dyn Fn(&i64) -> bool>;
type ThenFn = Box<dyn Fn(&Vec<&i64>) -> NodeKey>;
type Core = Computation<i64, MapFn, MutFn, RefFn, CutFn, ThenFn>;
type Eng = Engine<Core>;

fn map1(engine: &mut Eng, a: &Anchor, f: impl Fn(i64) -> i64 + 'static) -> Anchor {
    engine.map(&vec![a], Box::new(move |xs: &Vec<&i64>| f(*xs[0])))
}

fn counted(engine: &mut Eng, a: &Anchor, f: impl Fn(i64) -> i64 + 'static) -> (Anchor, Rc<Cell<u32>>) {
    let calls = Rc::new(Cell::new(0));
    let seen = calls.clone();
    let anchor = map1(engine, a, move |x| {
        seen.set(seen.get() + 1);
        f(x)
    });
    (anchor, calls)
}

fn chain(engine: &mut Eng, length: usize) -> Anchor {
    let v = engine.variable(0);
    let mut n = v.watch(engine);
    for _ in 0..length {
        let m = map1(engine, &n, |x| x + 1);
        engine.release(n);
        n = m;
    }
    n
}

fn node(engine: &Eng, a: &Anchor) -> usize {
    engine.graph.get(a.key()).unwrap().ptr
}

#[test]
fn a_chain_just_under_the_maximum_height_resolves() {
    let mut engine = Eng::new_with_max_height(10);
    let top = chain(&mut engine, 9);
    assert_eq!(engine.get(&top), Ok(9));
    assert_eq!(engine.graph.height(node(&engine, &top)), 9);
}

#[test]
fn a_chain_of_the_maximum_height_is_refused() {
    let mut engine = Eng::new_with_max_height(10);
    let top = chain(&mut engine, 10);
    assert_eq!(engine.get(&top), Err(EngineError::HeightLimit));
    let mut engine = Eng::new_with_max_height(10);
    let top = chain(&mut engine, 14);
    assert_eq!(engine.get(&top), Err(EngineError::HeightLimit));
}

#[test]
fn the_default_maximum_height_is_256() {
    let mut engine = Eng::new();
    assert_eq!(engine.graph.recalc_queues.len(), 256);
    let top = chain(&mut engine, 255);
    assert_eq!(engine.get(&top), Ok(255));
    let mut engine = Eng::new();
    let top = chain(&mut engine, 256);
    assert_eq!(engine.get(&top), Err(EngineError::HeightLimit));
}

#[test]
fn each_side_of_the_diamond_is_computed_once_per_stabilization() {
    let mut engine = Eng::new();
    let v = engine.variable(10);
    let w = v.watch(&mut engine);
    let (l, l_calls) = counted(&mut engine, &w, |x| x * 2);
    let (r, r_calls) = counted(&mut engine, &w, |x| x + 1);
    let sums = Rc::new(Cell::new(0));
    let seen = sums.clone();
    let s = engine.map(
        &vec![&l, &r],
        Box::new(move |xs: &Vec<&i64>| {
            seen.set(seen.get() + 1);
            *xs[0] + *xs[1]
        }),
    );
    engine.mark_observed(&s).unwrap();
    engine.stabilize().unwrap();
    assert_eq!((l_calls.get(), r_calls.get(), sums.get()), (1, 1, 1));
    v.set(&mut engine, 20).unwrap();
    engine.stabilize().unwrap();
    assert_eq!((l_calls.get(), r_calls.get(), sums.get()), (2, 2, 2));
    assert_eq!(engine.get(&s), Ok(61));
    assert_eq!((l_calls.get(), r_calls.get(), sums.get()), (2, 2, 2));
    // heights: the input below both sides, both sides below the sum
    let (hw, hl, hr, hs) = (
        engine.graph.height(node(&engine, &w)),
        engine.graph.height(node(&engine, &l)),
        engine.graph.height(node(&engine, &r)),
        engine.graph.height(node(&engine, &s)),
    );
    assert!(hw < hl && hw < hr && hl < hs && hr < hs);
}

#[test]
fn every_clean_parent_stands_above_its_child() {
    let mut engine = Eng::new();
    let v = engine.variable(1);
    let w = v.watch(&mut engine);
    let a = map1(&mut engine, &w, |x| x + 1);
    let b = map1(&mut engine, &a, |x| x + 1);
    let c = engine.map(&vec![&w, &b], Box::new(|xs: &Vec<&i64>| *xs[0] + *xs[1]));
    assert_eq!(engine.get(&c), Ok(4));
    let mut edges = 0;
    for child in 0..engine.graph.nodes.len() {
        let guard = anchors::node_guard::NodeGuard { ptr: child };
        for key in guard.clean_parents(&engine.graph) {
            let parent = engine.graph.get(key).unwrap();
            assert!(engine.graph.height(parent.ptr) > engine.graph.height(child));
            edges += 1;
        }
    }
    // an edge is recorded each time the input is found ready: twice for the
    // input that was ready while the other one was not
    assert_eq!(edges, 5);
}

#[test]
fn what_is_observed_is_ready_after_stabilize() {
    let mut engine = Eng::new();
    let v = engine.variable(1);
    let w = v.watch(&mut engine);
    let a = map1(&mut engine, &w, |x| x + 1);
    let b = map1(&mut engine, &a, |x| x * 3);
    let idle = map1(&mut engine, &w, |x| x - 1);
    engine.mark_observed(&b).unwrap();
    assert_eq!(engine.graph.recalc_state(node(&engine, &b)), RecalcState::Pending);
    engine.stabilize().unwrap();
    for anchor in [&w, &a, &b] {
        let n = &engine.graph.nodes[node(&engine, anchor)];
        assert_eq!(n.ptrs.recalc_state, RecalcState::Ready);
        assert_eq!(n.last_ready, Some(engine.generation));
        assert!(n.last_update <= n.last_ready);
    }
    assert_eq!(engine.graph.recalc_state(node(&engine, &idle)), RecalcState::Needed);
    assert_eq!(engine.check_observed(&idle), Ok(ObservedState::Unnecessary));
    v.set(&mut engine, 2).unwrap();
    engine.stabilize().unwrap();
    assert_eq!(engine.graph.recalc_state(node(&engine, &b)), RecalcState::Ready);
    assert_eq!(engine.get(&b), Ok(9));
}

#[test]
fn a_repeated_get_changes_no_stamp() {
    let mut engine = Eng::new();
    let v = engine.variable(3);
    let w = v.watch(&mut engine);
    let (a, calls) = counted(&mut engine, &w, |x| x * x);
    assert_eq!(engine.get(&a), Ok(9));
    let stamps: Vec<_> = engine.graph.nodes.iter().map(|n| (n.last_update, n.last_ready)).collect();
    assert_eq!(engine.get(&a), Ok(9));
    assert_eq!(engine.get(&a), Ok(9));
    let again: Vec<_> = engine.graph.nodes.iter().map(|n| (n.last_update, n.last_ready)).collect();
    assert_eq!(stamps, again);
    assert_eq!(calls.get(), 1);
    assert_eq!(engine.generation, Generation(4));
}

#[test]
fn a_second_stabilize_changes_nothing() {
    let mut engine = Eng::new();
    let v = engine.variable(3);
    let w = v.watch(&mut engine);
    let (a, calls) = counted(&mut engine, &w, |x| x + 1);
    engine.mark_observed(&a).unwrap();
    engine.stabilize().unwrap();
    let stamps: Vec<_> = engine.graph.nodes.iter().map(|n| (n.last_update, n.last_ready)).collect();
    engine.stabilize().unwrap();
    let again: Vec<_> = engine.graph.nodes.iter().map(|n| (n.last_update, n.last_ready)).collect();
    assert_eq!(stamps, again);
    assert_eq!(calls.get(), 1);
    assert_eq!(engine.generation, Generation(3));
    assert_eq!(engine.get(&a), Ok(4));
}

#[test]
fn observing_and_back_restores_the_counts() {
    let mut engine = Eng::new();
    let v = engine.variable(1);
    let w = v.watch(&mut engine);
    let a = map1(&mut engine, &w, |x| x + 1);
    let b = map1(&mut engine, &a, |x| x + 1);
    engine.mark_observed(&b).unwrap();
    engine.stabilize().unwrap();
    let picture = |engine: &Eng| -> Vec<(bool, usize, Vec<NodeKey>)> {
        engine
            .graph
            .nodes
            .iter()
            .map(|n| (n.observed, n.necessary_count, n.ptrs.necessary_children.clone()))
            .collect()
    };
    // `a` is necessary for `b`: observing it and back changes nothing
    let before = picture(&engine);
    assert_eq!(engine.check_observed(&a), Ok(ObservedState::Necessary));
    engine.mark_observed(&a).unwrap();
    assert_eq!(engine.check_observed(&a), Ok(ObservedState::Observed));
    engine.mark_unobserved(&a).unwrap();
    assert_eq!(engine.check_observed(&a), Ok(ObservedState::Necessary));
    assert_eq!(picture(&engine), before);
    // taking the mark from `b` frees the whole chain of its demand
    engine.mark_unobserved(&b).unwrap();
    for anchor in [&w, &a, &b] {
        assert_eq!(engine.check_observed(anchor), Ok(ObservedState::Unnecessary));
        assert_eq!(engine.graph.nodes[node(&engine, anchor)].ptrs.necessary_children, vec![]);
    }
    // a node without demand and without necessary children
    let before = picture(&engine);
    engine.mark_observed(&a).unwrap();
    engine.mark_unobserved(&a).unwrap();
    assert_eq!(picture(&engine), before);
}

#[test]
fn then_gives_up_the_input_that_it_no_longer_chooses() {
    let mut engine = Eng::new();
    let d = engine.variable(1);
    let n = engine.variable(1);
    let nw = n.watch(&mut engine);
    let (a, a_calls) = counted(&mut engine, &nw, |x| x + 1);
    let (b, b_calls) = counted(&mut engine, &nw, |x| x + 2);
    let dw = d.watch(&mut engine);
    let (ka, kb) = (a.key(), b.key());
    let r = engine.then(
        &vec![&dw],
        Box::new(move |xs: &Vec<&i64>| if *xs[0] != 0 { ka } else { kb }),
    );
    engine.mark_observed(&r).unwrap();
    engine.stabilize().unwrap();
    assert_eq!(engine.check_observed(&a), Ok(ObservedState::Necessary));
    assert_eq!(engine.check_observed(&b), Ok(ObservedState::Unnecessary));
    assert_eq!((a_calls.get(), b_calls.get()), (1, 0));
    d.set(&mut engine, 0).unwrap();
    engine.stabilize().unwrap();
    assert_eq!(engine.check_observed(&a), Ok(ObservedState::Unnecessary));
    assert_eq!(engine.check_observed(&b), Ok(ObservedState::Necessary));
    assert_eq!((a_calls.get(), b_calls.get()), (1, 1));
    n.set(&mut engine, 5).unwrap();
    assert_eq!(engine.get(&r), Ok(7));
    assert_eq!((a_calls.get(), b_calls.get()), (1, 2));
}

#[test]
fn refmap_reads_through_a_cutoff() {
    let mut engine = Eng::new();
    let v = engine.variable(0);
    let w = v.watch(&mut engine);
    let cut = engine.cutoff(&w, Box::new(|x: &i64| *x >= 10));
    let seen = engine.refmap(&cut, Box::new(|x: &i64| x));
    engine.mark_observed(&seen).unwrap();
    assert_eq!(engine.get(&seen), Ok(0));
    v.set(&mut engine, 5).unwrap();
    // the cutoff reports no change, but its output is the value of its input
    assert_eq!(engine.get(&seen), Ok(5));
    assert_eq!(engine.get(&cut), Ok(5));
    v.set(&mut engine, 12).unwrap();
    assert_eq!(engine.get(&seen), Ok(12));
}

#[test]
fn map_mut_reports_what_its_function_says() {
    let mut engine = Eng::new();
    let v = engine.variable(2);
    let w = v.watch(&mut engine);
    let total = engine.map_mut(
        &vec![&w],
        100,
        Box::new(|out: &mut i64, xs: &Vec<&i64>| {
            if *xs[0] % 2 == 0 {
                *out += *xs[0];
                true
            } else {
                false
            }
        }),
    );
    let (after, calls) = counted(&mut engine, &total, |x| x + 1);
    assert_eq!(engine.get(&after), Ok(103));
    v.set(&mut engine, 3).unwrap();
    assert_eq!(engine.get(&after), Ok(103));
    assert_eq!(calls.get(), 1);
    v.set(&mut engine, 4).unwrap();
    assert_eq!(engine.get(&after), Ok(107));
    assert_eq!(calls.get(), 2);
}

#[test]
fn map_holds_back_an_equal_value() {
    let mut engine = Eng::new();
    let v = engine.variable(4);
    let w = v.watch(&mut engine);
    let parity = map1(&mut engine, &w, |x| x % 2);
    let (top, calls) = counted(&mut engine, &parity, |x| x + 10);
    assert_eq!(engine.get(&top), Ok(10));
    v.set(&mut engine, 6).unwrap();
    assert_eq!(engine.get(&top), Ok(10));
    assert_eq!(calls.get(), 1);
    v.set(&mut engine, 7).unwrap();
    assert_eq!(engine.get(&top), Ok(11));
    assert_eq!(calls.get(), 2);
}

#[test]
fn a_constant_is_updated_once() {
    let mut engine = Eng::new();
    let c = engine.constant(7);
    let (top, calls) = counted(&mut engine, &c, |x| x + 1);
    assert_eq!(engine.get(&top), Ok(8));
    assert_eq!(engine.get(&c), Ok(7));
    assert_eq!(engine.get(&top), Ok(8));
    assert_eq!(calls.get(), 1);
    assert_eq!(engine.set(&c, 9), Err(EngineError::NotAnInput));
    assert_eq!(engine.set(&top, 9), Err(EngineError::NotAnInput));
}

#[test]
fn a_variable_remembers_the_last_value_set() {
    let mut engine = Eng::new();
    let v = engine.variable(1);
    assert_eq!(v.get(&engine), Some(&1));
    v.set(&mut engine, 2).unwrap();
    assert_eq!(v.get(&engine), Some(&2));
    // never polled: no mark is left, the value is read at the first poll
    assert_eq!(engine.dirty_marks, vec![]);
    let w = v.watch(&mut engine);
    assert_eq!(engine.get(&w), Ok(2));
    v.set(&mut engine, 3).unwrap();
    v.set(&mut engine, 4).unwrap();
    assert_eq!(engine.dirty_marks, vec![w.key(), w.key()]);
    assert_eq!(v.get(&engine), Some(&4));
    assert_eq!(engine.get(&w), Ok(4));
    assert_eq!(engine.dirty_marks, vec![]);
}

#[test]
fn only_a_live_input_has_a_value_to_show() {
    let mut engine = Eng::new();
    let v = engine.variable(1);
    let w = v.watch(&mut engine);
    let a = map1(&mut engine, &w, |x| x + 1);
    assert_eq!(engine.get(&a), Ok(2));
    let not_an_input = anchors::builder::Variable { anchor: a };
    assert_eq!(not_an_input.get(&engine), None);
    let gone = anchors::builder::Variable {
        anchor: Anchor::new_from_core(anchors::anchor::AnchorHandle::new(v.anchor.key())),
    };
    assert_eq!(gone.get(&engine), Some(&1));
    engine.release(not_an_input.anchor);
    engine.release(w);
    engine.release(v.anchor);
    assert_eq!(gone.get(&engine), None);
}

#[test]
fn a_key_of_a_node_that_is_gone_is_refused() {
    let mut engine = Eng::new();
    let v = engine.variable(1);
    let w = v.watch(&mut engine);
    let stale = Anchor::new_from_core(anchors::anchor::AnchorHandle::new(w.key()));
    assert_eq!(engine.get(&w), Ok(1));
    v.set(&mut engine, 2).unwrap();
    engine.release(w);
    engine.release(v.anchor);
    assert_eq!(engine.get(&stale), Err(EngineError::StaleKey));
    assert_eq!(engine.mark_observed(&stale), Err(EngineError::StaleKey));
    assert_eq!(engine.mark_unobserved(&stale), Err(EngineError::StaleKey));
    assert_eq!(engine.check_observed(&stale), Err(EngineError::StaleKey));
    assert_eq!(engine.set(&stale, 3), Err(EngineError::StaleKey));
    // the mark that the input left is passed over
    assert_eq!(engine.stabilize(), Ok(()));
}

#[test]
fn releasing_a_node_releases_what_it_holds() {
    let mut engine = Eng::new();
    let v = engine.variable(1);
    let w = v.watch(&mut engine);
    let a = map1(&mut engine, &w, |x| x + 1);
    let b = map1(&mut engine, &a, |x| x + 1);
    let (kw, ka, kb) = (w.key(), a.key(), b.key());
    engine.release(a);
    engine.release(w);
    assert_eq!(engine.get(&b), Ok(3));
    assert!(engine.graph.get(ka).is_some());
    engine.release(b);
    assert!(engine.graph.get(kb).is_none());
    assert!(engine.graph.get(ka).is_none());
    // the variable still holds its own anchor
    assert!(engine.graph.get(kw).is_some());
    engine.release(v.anchor);
    assert!(engine.graph.get(kw).is_none());
    let total: usize = engine.graph.nodes.iter().map(|n| n.ptrs.handle_count).sum();
    assert_eq!(total, 0);
}

#[test]
fn the_generation_counter_does_not_start_again() {
    let mut engine = Eng::new();
    let c = engine.constant(1);
    engine.generation = Generation(u64::MAX - 1);
    assert_eq!(engine.get(&c), Ok(1));
    assert_eq!(engine.generation, Generation(u64::MAX));
    assert_eq!(engine.stabilize(), Err(EngineError::GenerationLimit));
    assert_eq!(engine.get(&c), Err(EngineError::GenerationLimit));
}

#[test]
fn a_refused_stabilization_changes_nothing() {
    let mut engine = Eng::new();
    let v = engine.variable(1);
    let w = v.watch(&mut engine);
    assert_eq!(engine.get(&w), Ok(1));
    engine.generation = Generation(u64::MAX);
    v.set(&mut engine, 2).unwrap();
    assert_eq!(engine.dirty_marks, vec![w.key()]);
    assert_eq!(engine.stabilize(), Err(EngineError::GenerationLimit));
    assert_eq!(engine.dirty_marks, vec![w.key()]);
    assert_eq!(engine.generation, Generation(u64::MAX));
    assert_eq!(engine.graph.recalc_state(node(&engine, &w)), RecalcState::Ready);
}

#[test]
fn raising_a_parent_puts_it_one_above_the_child() {
    let mut engine = Eng::new();
    let a = engine.constant(1);
    let b = engine.constant(2);
    let c = engine.constant(3);
    let (na, nb, nc) = (node(&engine, &a), node(&engine, &b), node(&engine, &c));
    assert_eq!(engine.graph.ensure_height_increases(na, nb), Ok(false));
    assert_eq!(engine.graph.height(nb), 1);
    assert_eq!(engine.graph.ensure_height_increases(na, nb), Ok(true));
    assert_eq!(engine.graph.ensure_height_increases(nb, nc), Ok(false));
    assert_eq!(
        (engine.graph.height(na), engine.graph.height(nb), engine.graph.height(nc)),
        (0, 1, 2)
    );
    // no clean edge leads up from the first node: raising it changes no other
    assert_eq!(engine.graph.ensure_height_increases(nc, na), Ok(false));
    assert_eq!(
        (engine.graph.height(na), engine.graph.height(nb), engine.graph.height(nc)),
        (3, 1, 2)
    );
}

#[test]
fn stabilization_stops_at_the_step_limit() {
    let mut engine = Eng::new();
    let top = chain(&mut engine, 3);
    engine.max_steps = 2;
    assert_eq!(engine.get(&top), Err(EngineError::StepLimit));
    engine.max_steps = u64::MAX;
    assert_eq!(engine.get(&top), Ok(3));
    engine.max_steps = 0;
    assert_eq!(engine.get(&top), Ok(3));
}

#[test]
fn the_answers_of_a_cutoff() {
    assert_eq!(decide(Poll::Pending, true, true), Poll::Pending);
    assert_eq!(decide(Poll::Unchanged, true, false), Poll::Unchanged);
    assert_eq!(decide(Poll::Updated, true, false), Poll::Updated);
    assert_eq!(decide(Poll::Updated, false, false), Poll::Unchanged);
    assert_eq!(decide(Poll::Updated, false, true), Poll::Updated);
}

#[test]
fn the_answers_of_a_ready_input() {
    let g = |n| Some(Generation(n));
    assert_eq!(stamp_answer(g(3), g(3)), Poll::Unchanged);
    assert_eq!(stamp_answer(g(2), g(3)), Poll::Unchanged);
    assert_eq!(stamp_answer(g(4), g(3)), Poll::Updated);
    assert_eq!(stamp_answer(None, g(3)), Poll::Updated);
    assert_eq!(stamp_answer(g(3), None), Poll::Updated);
    assert_eq!(stamp_answer(None, None), Poll::Updated);
}

/// A computation that misbehaves in the way its field says.
struct Rogue {
    pending_for_nothing: bool,
    reads: Option<NodeKey>,
    source: Option<NodeKey>,
    value: i64,
}

impl AnchorCore for Rogue {
    type Output = i64;

    fn core_inv(&self) -> bool {
        true
    }

    fn source(&self) -> Option<NodeKey> {
        self.source
    }

    fn output_is(&self, _upstream: Option<i64>, _r: Result<i64, EngineError>) -> bool {
        true
    }

    fn assigns(
        &self,
        _value: i64,
        _after: &Self,
        _r: Result<Option<DirtyHandle>, EngineError>,
    ) -> bool {
        true
    }

    fn marks(&self, _child_key: NodeKey, _after: &Self, _r: Result<(), EngineError>) -> bool {
        true
    }

    fn polls(
        &self,
        _after: &Self,
        _before: Asked,
        _events: Asked,
        _gives: Given<i64>,
        _r: Result<Poll, EngineError>,
    ) -> bool {
        true
    }

    fn mark_dirty(&mut self, _child_key: NodeKey) -> Result<(), EngineError> {
        Ok(())
    }

    fn poll_updated<U: UpdateContext<i64>>(&mut self, ctx: &mut U) -> Result<Poll, EngineError> {
        if self.pending_for_nothing {
            return Ok(Poll::Pending);
        }
        if let Some(key) = self.reads {
            self.value = *ctx.get(key)?;
        }
        Ok(Poll::Updated)
    }

    fn output_source(&self) -> Option<NodeKey> {
        self.source
    }

    fn output<'a>(&'a self, upstream: Option<&'a i64>) -> Result<&'a i64, EngineError> {
        match upstream {
            Some(v) => Ok(v),
            None => Ok(&self.value),
        }
    }

    fn assign(&mut self, _value: i64) -> Result<Option<DirtyHandle>, EngineError> {
        Err(EngineError::NotAnInput)
    }
}

fn rogue() -> Rogue {
    Rogue { pending_for_nothing: false, reads: None, source: None, value: 1 }
}

#[test]
fn pending_without_a_request_is_an_error() {
    let mut engine: Engine<Rogue> = Engine::new();
    let a = engine.mount(Rogue { pending_for_nothing: true, ..rogue() });
    assert_eq!(engine.get(&a), Err(EngineError::PendingWithoutRequest));
}

#[test]
fn reading_an_input_that_is_not_ready_is_an_error() {
    let mut engine: Engine<Rogue> = Engine::new();
    let a = engine.mount(rogue());
    let b = engine.mount(Rogue { reads: Some(a.key()), ..rogue() });
    assert_eq!(engine.get(&b), Err(EngineError::NotReady));
    let mut engine: Engine<Rogue> = Engine::new();
    let a = engine.mount(rogue());
    assert_eq!(engine.get(&a), Ok(1));
    let b = engine.mount(Rogue { reads: Some(a.key()), ..rogue() });
    assert_eq!(engine.get(&b), Ok(1));
}

#[test]
fn an_output_from_a_node_that_does_not_stand_below_is_an_error() {
    let mut engine: Engine<Rogue> = Engine::new();
    let a = engine.mount(rogue());
    assert_eq!(engine.get(&a), Ok(1));
    let b = engine.mount(Rogue { source: Some(a.key()), ..rogue() });
    assert_eq!(engine.get(&b), Err(EngineError::NotRequested));
    let mut engine: Engine<Rogue> = Engine::new();
    let b = engine.mount(Rogue { source: Some(NodeKey::new(7, 0)), ..rogue() });
    assert_eq!(engine.get(&b), Err(EngineError::StaleKey));
}

#[test]
fn nodes_without_inputs_refuse_dirty_marks() {
    let mut c = anchors::constant::Constant::new_raw_testing(1i64);
    assert_eq!(c.mark_dirty(NodeKey::new(0, 0)), Err(EngineError::NoInputs));
    let mut v = anchors::variable::VarAnchor::new(1i64);
    assert_eq!(v.mark_dirty(NodeKey::new(0, 0)), Err(EngineError::NoInputs));
    assert_eq!(v.assign(2), Ok(None));
    assert_eq!(v.pending, Some(2));
}

#[test]
fn a_dirty_handle_names_the_node_that_asked_for_it() {
    let mut engine = Eng::new();
    let v = engine.variable(1);
    let w = v.watch(&mut engine);
    assert_eq!(engine.get(&w), Ok(1));
    let handle = match &engine.graph.nodes[w.key().ptr].anchor {
        Some(Computation::Variable(var)) => var.dirty_handle.unwrap(),
        _ => unreachable!(),
    };
    assert_eq!(handle.key, w.key());
    engine.mark_dirty(&handle);
    assert_eq!(engine.dirty_marks, vec![w.key()]);
    assert_eq!(engine.debug_state(), "");
}

#[test]
fn a_derived_map_follows_each_change() {
    let shown = |kind, mapped: Option<i64>, present| match filter_map_edit(kind, mapped, present) {
        (Edit::Insert(v), changed) => (Some(v), false, changed),
        (Edit::Remove, changed) => (None, true, changed),
        (Edit::Keep, changed) => (None, false, changed),
    };
    assert_eq!(shown(DiffKind::Add, Some(23), false), (Some(23), false, true));
    assert_eq!(shown(DiffKind::Add, None, false), (None, false, false));
    assert_eq!(shown(DiffKind::Update, Some(25), true), (Some(25), false, true));
    assert_eq!(shown(DiffKind::Update, None, true), (None, true, true));
    assert_eq!(shown(DiffKind::Update, None, false), (None, false, false));
    assert_eq!(shown(DiffKind::Remove, None, true), (None, true, true));
    assert_eq!(shown(DiffKind::Remove, None, false), (None, true, true));
}

#[test]
fn anchors_build_their_own_nodes() {
    let mut engine = Eng::new();
    let v = anchors::builder::Variable::new(&mut engine, 3);
    let w = v.watch(&mut engine);
    let one = Anchor::constant(&mut engine, 1);
    let double = w.map(&mut engine, Box::new(|xs: &Vec<&i64>| *xs[0] * 2));
    let big = double.cutoff(&mut engine, Box::new(|x: &i64| *x > 100));
    let same = big.refmap(&mut engine, Box::new(|x: &i64| x));
    let count = w.map_mut(
        &mut engine,
        0,
        Box::new(|out: &mut i64, _: &Vec<&i64>| {
            *out += 1;
            true
        }),
    );
    let (k_one, k_same) = (one.key(), same.key());
    let pick = w.then(
        &mut engine,
        Box::new(move |xs: &Vec<&i64>| if *xs[0] > 5 { k_same } else { k_one }),
    );
    assert!(one.same(&one));
    assert!(!one.same(&double));
    assert_eq!(engine.get(&pick), Ok(1));
    assert_eq!(engine.get(&count), Ok(1));
    v.set(&mut engine, 7).unwrap();
    assert_eq!(engine.get(&pick), Ok(14));
    assert_eq!(engine.get(&count), Ok(2));
    let raw = engine.check_observed_raw(engine.graph.get(pick.key()).unwrap());
    assert_eq!(raw, ObservedState::Unnecessary);
}
