use anchors::anchor::Anchor;
use anchors::computation::Computation;
use anchors::context_mut::ObservedState;
use anchors::engine::Engine;
use anchors::expert::EngineError;
use anchors::node::{NodeKey, RecalcState};

type MapFn = Box<dyn Fn(&Vec<&i64>) -> i64>;
type MutFn = Box<dyn Fn(&mut i64, &Vec<&i64>) -> bool>;
type RefFn = Box<dyn for<'a> Fn(&'a i64) -> &'a i64>;
type CutFn = Box<dyn Fn(&i64) -> bool>;
type ThenFn = Box<dyn Fn(&Vec<&i64>) -> NodeKey>;
type Core = Computation<i64, MapFn, MutFn, RefFn, CutFn, ThenFn>;
type Eng = Engine<Core>;

fn map1(engine: &mut Eng, a: &Anchor, f: impl Fn(i64) -> i64 + 'static) -> Anchor {
    engine.map(&vec![a], Box::new(move |xs: &Vec<&i64>| f(*xs[0])))
}

#[test]
fn linear_chain() {
    let mut engine = Eng::new();
    let v = engine.variable(0);
    let mut n = v.watch(&mut engine);
    for _ in 0..100 {
        let m = map1(&mut engine, &n, |x| x + 1);
        engine.release(n);
        n = m;
    }
    assert_eq!(engine.get(&n), Ok(100));
    v.set(&mut engine, 5).unwrap();
    assert_eq!(engine.get(&n), Ok(105));
}

#[test]
fn cutoff_blocks_small_changes() {
    let mut engine = Eng::new();
    let v = engine.variable(0);
    let w = v.watch(&mut engine);
    let cut = engine.cutoff(&w, Box::new(|x: &i64| x.abs() >= 10));
    let c = map1(&mut engine, &cut, |x| x + 1);
    assert_eq!(engine.get(&c), Ok(1));
    v.set(&mut engine, 5).unwrap();
    assert_eq!(engine.get(&c), Ok(1));
    v.set(&mut engine, 11).unwrap();
    assert_eq!(engine.get(&c), Ok(12));
}

#[test]
fn then_switches_input() {
    let mut engine = Eng::new();
    let d = engine.variable(1);
    let n = engine.variable(1);
    let nw = n.watch(&mut engine);
    let a = map1(&mut engine, &nw, |x| x + 1);
    let b = map1(&mut engine, &nw, |x| x + 2);
    let dw = d.watch(&mut engine);
    let (ka, kb) = (a.key(), b.key());
    let r = engine.then(
        &vec![&dw],
        Box::new(move |xs: &Vec<&i64>| if *xs[0] != 0 { ka } else { kb }),
    );
    assert_eq!(engine.get(&r), Ok(2));
    d.set(&mut engine, 0).unwrap();
    assert_eq!(engine.get(&r), Ok(3));
}

#[test]
fn diamond_with_observed_root() {
    let mut engine = Eng::new();
    let v = engine.variable(10);
    let w = v.watch(&mut engine);
    let l = map1(&mut engine, &w, |x| x * 2);
    let r = map1(&mut engine, &w, |x| x + 1);
    let s = engine.map(&vec![&l, &r], Box::new(|xs: &Vec<&i64>| *xs[0] + *xs[1]));
    engine.mark_observed(&s).unwrap();
    assert_eq!(engine.get(&s), Ok(31));
    v.set(&mut engine, 20).unwrap();
    engine.stabilize().unwrap();
    assert_eq!(engine.get(&s), Ok(61));
    assert_eq!(engine.check_observed(&s), Ok(ObservedState::Observed));
    assert_eq!(engine.check_observed(&l), Ok(ObservedState::Necessary));
    assert_eq!(engine.check_observed(&w), Ok(ObservedState::Necessary));
}

#[test]
fn cycle_is_an_error() {
    // a node that chooses itself to pass on
    let mut engine = Eng::new();
    let a = engine.variable(0);
    let x = a.watch(&mut engine);
    let chosen = std::rc::Rc::new(std::cell::Cell::new(x.key()));
    let seen = chosen.clone();
    let y = engine.then(&vec![&x], Box::new(move |_: &Vec<&i64>| seen.get()));
    chosen.set(y.key());
    assert_eq!(engine.get(&y), Err(EngineError::Cycle));

    // two nodes that choose each other never become ready: each request
    // lifts the one above the other, until the heights run out
    let mut engine = Eng::new();
    let a = engine.variable(0);
    let x = a.watch(&mut engine);
    let first = std::rc::Rc::new(std::cell::Cell::new(x.key()));
    let second = std::rc::Rc::new(std::cell::Cell::new(x.key()));
    let (to_second, to_first) = (second.clone(), first.clone());
    let y = engine.then(&vec![&x], Box::new(move |_: &Vec<&i64>| to_second.get()));
    let z = engine.then(&vec![&x], Box::new(move |_: &Vec<&i64>| to_first.get()));
    first.set(y.key());
    second.set(z.key());
    assert_eq!(engine.get(&y), Err(EngineError::HeightLimit));

    // a node that has read another one cannot be read by it
    let mut engine = Eng::new();
    let a = engine.variable(0);
    let x = a.watch(&mut engine);
    let lower = map1(&mut engine, &x, |v| v + 1);
    let upper = map1(&mut engine, &lower, |v| v + 1);
    assert_eq!(engine.get(&upper), Ok(2));
    let (l, u) = (
        engine.graph.get(lower.key()).unwrap().ptr,
        engine.graph.get(upper.key()).unwrap().ptr,
    );
    assert_eq!(engine.graph.ensure_height_increases(u, l), Err(EngineError::Cycle));
}

#[test]
fn passing_on_an_input_is_no_cycle() {
    let mut engine = Eng::new();
    let a = engine.variable(0);
    let x = a.watch(&mut engine);
    let kx = x.key();
    let y = engine.then(&vec![&x], Box::new(move |_: &Vec<&i64>| kx));
    assert_eq!(engine.get(&y), Ok(0));
    a.set(&mut engine, 4).unwrap();
    assert_eq!(engine.get(&y), Ok(4));
}

#[test]
fn stale_key_names_nothing() {
    let mut engine = Eng::new();
    let a = engine.constant(1);
    let k = a.key();
    engine.release(a);
    let b = engine.constant(2);
    assert_eq!(b.key().ptr, k.ptr);
    assert_ne!(b.key(), k);
    assert!(engine.graph.get(k).is_none());
    assert_eq!(engine.graph.get(b.key()).map(|g| g.ptr), Some(k.ptr));
    assert_eq!(engine.get(&b), Ok(2));
    assert_eq!(engine.graph.recalc_state(b.key().ptr), RecalcState::Ready);
}
