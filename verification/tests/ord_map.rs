use std::cell::RefCell;

use anchors::anchor::Anchor;
use anchors::collections::DiffKind;
use anchors::computation::Computation;
use anchors::engine::Engine;
use anchors::node::NodeKey;
use anchors::ord_map::{apply_change, Change, Derived};
use im::OrdMap;

type Numbers = OrdMap<u64, u64>;
type MapFn = Box<dyn Fn(&Vec<&Numbers>) -> Numbers>;
type MutFn = Box<dyn Fn(&mut Numbers, &Vec<&Numbers>) -> bool>;
type RefFn = Box<dyn for<'a> Fn(&'a Numbers) -> &'a Numbers>;
type CutFn = Box<dyn Fn(&Numbers) -> bool>;
type ThenFn = Box<dyn Fn(&Vec<&Numbers>) -> NodeKey>;
type Eng = Engine<Computation<Numbers, MapFn, MutFn, RefFn, CutFn, ThenFn>>;

fn inner_filter_map(
    engine: &mut Eng,
    anchor: &Anchor,
    f: impl Fn(u64, u64) -> Option<u64> + 'static,
) -> Anchor {
    let state = RefCell::new(Derived::new(&f));
    engine.map_mut(
        &vec![anchor],
        Numbers::new(),
        Box::new(move |out: &mut Numbers, inputs: &Vec<&Numbers>| {
            let mut derived = state.borrow_mut();
            let did_update = derived.follow(inputs[0], &f);
            *out = derived.out.clone();
            did_update
        }),
    )
}

const A: u64 = 1;
const B: u64 = 2;
const C: u64 = 3;
const D: u64 = 4;
const E: u64 = 5;

#[test]
fn test_filter() {
    let mut engine = Eng::new();

    let mut a_map = Numbers::new();
    let a = engine.variable(a_map.clone());
    let watched = a.watch(&mut engine);

    let b = inner_filter_map(&mut engine, &watched, |_, n| if n > 10 { Some(n) } else { None });
    let b_map = engine.get(&b).unwrap();

    assert_eq!(0, b_map.len());

    a_map.insert(A, 1);
    a_map.insert(B, 23);
    a_map.insert(C, 5);
    a_map.insert(D, 24);

    a.set(&mut engine, a_map.clone()).unwrap();

    let b_map = engine.get(&b).unwrap();
    assert_eq!(2, b_map.len());

    assert_eq!(Some(&23), b_map.get(&B));
    assert_eq!(Some(&24), b_map.get(&D));

    a_map.insert(A, 25);
    a_map.insert(B, 5);
    a_map.remove(&D);
    a_map.insert(E, 50);

    a.set(&mut engine, a_map.clone()).unwrap();

    let b_map = engine.get(&b).unwrap();
    assert_eq!(2, b_map.len());

    assert_eq!(Some(&25), b_map.get(&A));
    assert_eq!(Some(&50), b_map.get(&E));
}

#[test]
fn test_map() {
    let mut engine = Eng::new();

    let mut a_map = Numbers::new();
    let a = engine.variable(a_map.clone());
    let watched = a.watch(&mut engine);

    let b = inner_filter_map(&mut engine, &watched, |_, n| Some(n + 1));
    let b_map = engine.get(&b).unwrap();

    assert_eq!(0, b_map.len());

    a_map.insert(A, 1);
    a_map.insert(B, 2);
    a_map.insert(C, 3);
    a_map.insert(D, 4);

    a.set(&mut engine, a_map.clone()).unwrap();

    let b_map = engine.get(&b).unwrap();
    assert_eq!(4, b_map.len());

    assert_eq!(Some(&2), b_map.get(&A));
    assert_eq!(Some(&3), b_map.get(&B));
    assert_eq!(Some(&4), b_map.get(&C));
    assert_eq!(Some(&5), b_map.get(&D));

    a_map.insert(A, 10);
    a_map.insert(B, 11);
    a_map.remove(&D);
    a_map.insert(E, 12);

    a.set(&mut engine, a_map.clone()).unwrap();

    let b_map = engine.get(&b).unwrap();
    assert_eq!(4, b_map.len());

    assert_eq!(Some(&11), b_map.get(&A));
    assert_eq!(Some(&12), b_map.get(&B));
    assert_eq!(Some(&4), b_map.get(&C));
    assert_eq!(Some(&13), b_map.get(&E));
}

fn pairs(m: &Numbers) -> Vec<(u64, u64)> {
    m.iter().map(|(k, v)| (*k, *v)).collect()
}

#[test]
fn one_change_edits_one_entry() {
    let keep_even = |_: u64, v: u64| if v % 2 == 0 { Some(v * 10) } else { None };
    let mut out = Numbers::new();
    let add = |key, value| Change { kind: DiffKind::Add, key, value };
    let update = |key, value| Change { kind: DiffKind::Update, key, value };
    let remove = |key, value| Change { kind: DiffKind::Remove, key, value };
    // a new entry that is kept is put in
    assert!(apply_change(&mut out, &add(7, 2), &keep_even));
    assert_eq!(pairs(&out), vec![(7, 20)]);
    // a new entry that is not kept changes nothing
    assert!(!apply_change(&mut out, &add(8, 3), &keep_even));
    assert_eq!(pairs(&out), vec![(7, 20)]);
    // a changed entry that is kept overwrites
    assert!(apply_change(&mut out, &update(7, 4), &keep_even));
    assert_eq!(pairs(&out), vec![(7, 40)]);
    // a changed entry that is not kept any more is taken out
    assert!(apply_change(&mut out, &update(7, 5), &keep_even));
    assert_eq!(pairs(&out), vec![]);
    // and changes nothing if it was not there
    assert!(!apply_change(&mut out, &update(7, 9), &keep_even));
    assert_eq!(pairs(&out), vec![]);
    // an entry that is gone is taken out, and the function is not asked
    assert!(apply_change(&mut out, &add(9, 6), &keep_even));
    assert!(apply_change(&mut out, &remove(9, 6), &|_: u64, _: u64| -> Option<u64> {
        unreachable!()
    }));
    assert_eq!(pairs(&out), vec![]);
}

#[test]
fn folding_the_difference_gives_the_filtered_map() {
    let keep = |k: u64, v: u64| if (k + v) % 3 != 0 { Some(k * 100 + v) } else { None };
    let filtered = |m: &Numbers| -> Vec<(u64, u64)> {
        m.iter().filter_map(|(k, v)| keep(*k, *v).map(|n| (*k, n))).collect()
    };
    let mut last = Numbers::new();
    let mut derived = Derived::new(&keep);
    let mut seed: u64 = 12345;
    for round in 0..60 {
        let mut this = last.clone();
        for _ in 0..5 {
            seed = seed.wrapping_mul(6364136223846793005).wrapping_add(1442695040888963407);
            let key = (seed >> 33) % 12;
            let value = (seed >> 20) % 7;
            if value == 0 {
                this.remove(&key);
            } else {
                this.insert(key, value);
            }
        }
        let did_update = derived.follow(&this, &keep);
        assert_eq!(pairs(&derived.out), filtered(&this), "round {}", round);
        assert_eq!(derived.last, this);
        if filtered(&last) != filtered(&this) {
            assert!(did_update);
        }
        if last == this {
            assert!(!did_update);
        }
        last = this;
    }
}

#[test]
fn a_derived_map_follows_the_differences() {
    let keep_even = |_k: u64, v: u64| if v % 2 == 0 { Some(v * 10) } else { None };
    let mut derived = Derived::new(&keep_even);
    assert!(derived.out.is_empty() && derived.last.is_empty());
    let mut source = Numbers::new();
    source.insert(A, 1);
    source.insert(B, 2);
    source.insert(C, 4);
    assert!(derived.follow(&source, &keep_even));
    let mut expected = Numbers::new();
    expected.insert(B, 20);
    expected.insert(C, 40);
    assert_eq!(derived.out, expected);
    assert_eq!(derived.last, source);
    // nothing has changed: nothing is edited
    assert!(!derived.follow(&source, &keep_even));
    assert_eq!(derived.out, expected);
    // one entry is updated to a value that is dropped, one is removed, one added
    source.insert(B, 3);
    source.remove(&C);
    source.insert(D, 6);
    assert!(derived.follow(&source, &keep_even));
    let mut expected = Numbers::new();
    expected.insert(D, 60);
    assert_eq!(derived.out, expected);
    // a change that the function drops on both sides edits nothing
    source.insert(A, 5);
    assert!(!derived.follow(&source, &keep_even));
    assert_eq!(derived.out, expected);
    assert_eq!(derived.last, source);
}
