use anchors::constant::Constant;
use anchors::expert::EngineError;
use anchors::generation::Generation;
use anchors::graph::Graph;
use anchors::node_guard::NodeGuard;

type G = Graph<Constant<u64>>;

fn insert_testing_guard(graph: &mut G) -> NodeGuard {
    let handle = graph.insert(Constant::new_raw_testing(123));
    let guard = graph.get(handle.key()).unwrap();
    std::mem::forget(handle);
    guard
}

#[test]
fn set_edge_updates_correctly() {
    let mut graph = G::new(256);
    let a = insert_testing_guard(&mut graph);
    let b = insert_testing_guard(&mut graph);
    let ka = a.key(&graph);
    let kb = b.key(&graph);

    assert_eq!(a.necessary_children(&graph), vec![]);
    assert_eq!(a.clean_parents(&graph), vec![]);
    assert_eq!(b.necessary_children(&graph), vec![]);
    assert_eq!(b.clean_parents(&graph), vec![]);
    assert_eq!(graph.nodes[a.ptr].necessary_count, 0);
    assert_eq!(graph.nodes[b.ptr].necessary_count, 0);

    assert!(!graph.ensure_height_increases(a.ptr, b.ptr).unwrap());
    assert!(graph.ensure_height_increases(a.ptr, b.ptr).unwrap());

    a.add_clean_parent(&mut graph, b);

    assert_eq!(a.necessary_children(&graph), vec![]);
    assert_eq!(a.clean_parents(&graph), vec![kb]);
    assert_eq!(b.necessary_children(&graph), vec![]);
    assert_eq!(b.clean_parents(&graph), vec![]);
    assert_eq!(graph.nodes[a.ptr].necessary_count, 0);
    assert_eq!(graph.nodes[b.ptr].necessary_count, 0);

    assert!(graph.ensure_height_increases(a.ptr, b.ptr).unwrap());

    b.add_necessary_child(&mut graph, a);

    assert_eq!(a.necessary_children(&graph), vec![]);
    assert_eq!(a.clean_parents(&graph), vec![kb]);
    assert_eq!(b.necessary_children(&graph), vec![ka]);
    assert_eq!(b.clean_parents(&graph), vec![]);
    assert_ne!(graph.nodes[a.ptr].necessary_count, 0);
    assert_eq!(graph.nodes[b.ptr].necessary_count, 0);

    let _ = a.drain_clean_parents(&mut graph);

    assert_eq!(a.necessary_children(&graph), vec![]);
    assert_eq!(a.clean_parents(&graph), vec![]);
    assert_eq!(b.necessary_children(&graph), vec![ka]);
    assert_eq!(b.clean_parents(&graph), vec![]);
    assert_ne!(graph.nodes[a.ptr].necessary_count, 0);
    assert_eq!(graph.nodes[b.ptr].necessary_count, 0);

    let _ = b.drain_necessary_children(&mut graph);

    assert_eq!(a.necessary_children(&graph), vec![]);
    assert_eq!(a.clean_parents(&graph), vec![]);
    assert_eq!(b.necessary_children(&graph), vec![]);
    assert_eq!(b.clean_parents(&graph), vec![]);
    assert_eq!(graph.nodes[a.ptr].necessary_count, 0);
    assert_eq!(graph.nodes[b.ptr].necessary_count, 0);
}

#[test]
fn height_calculated_correctly() {
    let mut graph = G::new(256);
    let a = insert_testing_guard(&mut graph);
    let b = insert_testing_guard(&mut graph);
    let c = insert_testing_guard(&mut graph);

    assert_eq!(graph.height(a.ptr), 0);
    assert_eq!(graph.height(b.ptr), 0);
    assert_eq!(graph.height(c.ptr), 0);

    assert!(!graph.ensure_height_increases(b.ptr, c.ptr).unwrap());
    assert!(graph.ensure_height_increases(b.ptr, c.ptr).unwrap());

    b.add_clean_parent(&mut graph, c);

    assert_eq!(graph.height(a.ptr), 0);
    assert_eq!(graph.height(b.ptr), 0);
    assert_eq!(graph.height(c.ptr), 1);

    assert!(!graph.ensure_height_increases(a.ptr, b.ptr).unwrap());
    assert!(graph.ensure_height_increases(a.ptr, b.ptr).unwrap());

    a.add_clean_parent(&mut graph, b);

    assert_eq!(graph.height(a.ptr), 0);
    assert_eq!(graph.height(b.ptr), 1);
    assert_eq!(graph.height(c.ptr), 2);

    let _ = a.drain_clean_parents(&mut graph);

    assert_eq!(graph.height(a.ptr), 0);
    assert_eq!(graph.height(b.ptr), 1);
    assert_eq!(graph.height(c.ptr), 2);
}

#[test]
fn cycles_cause_error() {
    let mut graph = G::new(256);
    let b = insert_testing_guard(&mut graph);
    let c = insert_testing_guard(&mut graph);
    graph.ensure_height_increases(b.ptr, c.ptr).unwrap();
    b.add_clean_parent(&mut graph, c);
    let err = graph.ensure_height_increases(c.ptr, b.ptr).unwrap_err();
    assert_eq!(err, EngineError::Cycle);
}

#[test]
fn non_cycles_wont_cause_errors() {
    let mut graph = G::new(256);
    let a = insert_testing_guard(&mut graph);
    let b = insert_testing_guard(&mut graph);
    let c = insert_testing_guard(&mut graph);
    let d = insert_testing_guard(&mut graph);
    let e = insert_testing_guard(&mut graph);

    graph.ensure_height_increases(b.ptr, c.ptr).unwrap();
    b.add_clean_parent(&mut graph, c);
    graph.ensure_height_increases(c.ptr, e.ptr).unwrap();
    c.add_clean_parent(&mut graph, e);
    graph.ensure_height_increases(b.ptr, d.ptr).unwrap();
    b.add_clean_parent(&mut graph, d);
    graph.ensure_height_increases(d.ptr, e.ptr).unwrap();
    d.add_clean_parent(&mut graph, e);
    graph.ensure_height_increases(a.ptr, b.ptr).unwrap();
    a.add_clean_parent(&mut graph, b);
}

#[test]
fn test_insert_pop() {
    let mut graph = G::new(10);
    let a = insert_testing_guard(&mut graph);
    graph.set_min_height(a.ptr, 0).unwrap();
    let b = insert_testing_guard(&mut graph);
    graph.set_min_height(b.ptr, 5).unwrap();
    let c = insert_testing_guard(&mut graph);
    graph.set_min_height(c.ptr, 3).unwrap();
    let d = insert_testing_guard(&mut graph);
    graph.set_min_height(d.ptr, 4).unwrap();
    let e = insert_testing_guard(&mut graph);
    graph.set_min_height(e.ptr, 1).unwrap();
    let e2 = insert_testing_guard(&mut graph);
    graph.set_min_height(e2.ptr, 1).unwrap();
    let e3 = insert_testing_guard(&mut graph);
    graph.set_min_height(e3.ptr, 1).unwrap();

    graph.queue_recalc(a.ptr);
    graph.queue_recalc(a.ptr);
    graph.queue_recalc(a.ptr);
    graph.queue_recalc(b.ptr);
    graph.queue_recalc(c.ptr);
    graph.queue_recalc(d.ptr);

    assert_eq!(graph.recalc_pop_next().map(|(_, v)| v).unwrap(), a.ptr);
    assert_eq!(graph.recalc_pop_next().map(|(_, v)| v).unwrap(), c.ptr);
    assert_eq!(graph.recalc_pop_next().map(|(_, v)| v).unwrap(), d.ptr);

    graph.queue_recalc(e.ptr);
    graph.queue_recalc(e2.ptr);
    graph.queue_recalc(e3.ptr);

    assert_eq!(graph.recalc_pop_next().map(|(_, v)| v).unwrap(), e3.ptr);
    assert_eq!(graph.recalc_pop_next().map(|(_, v)| v).unwrap(), e2.ptr);
    assert_eq!(graph.recalc_pop_next().map(|(_, v)| v).unwrap(), e.ptr);
    assert_eq!(graph.recalc_pop_next().map(|(_, v)| v).unwrap(), b.ptr);

    assert!(graph.recalc_pop_next().map(|(_, v)| v).is_none());
}

#[test]
#[should_panic]
fn test_insert_above_max_height() {
    let mut graph = G::new(10);
    let a = insert_testing_guard(&mut graph);
    graph.set_min_height(a.ptr, 10).unwrap();
    graph.queue_recalc(a.ptr);
}

#[test]
fn insert_above_max_height_is_refused_and_changes_nothing() {
    let mut graph = G::new(10);
    let a = insert_testing_guard(&mut graph);
    graph.set_min_height(a.ptr, 10).unwrap();
    assert_eq!(graph.queue_if_fits(a.ptr), Err(EngineError::HeightLimit));
    assert_eq!(graph.recalc_state(a.ptr), anchors::node::RecalcState::Needed);
    assert!(graph.recalc_pop_next().is_none());
    graph.set_min_height(a.ptr, 3).unwrap();
    assert_eq!(graph.height(a.ptr), 10);
}

#[test]
fn test_free_list() {
    let mut graph = G::new(10);

    let a = graph.insert(Constant::new_raw_testing(123));
    let b = graph.insert(Constant::new_raw_testing(123));
    let c = graph.insert(Constant::new_raw_testing(123));

    let a_token = a.key();
    let b_token = b.key();
    let c_token = c.key();

    assert!(graph.drop_handle(a).is_some());
    assert!(graph.drop_handle(b).is_some());
    assert!(graph.drop_handle(c).is_some());

    let c = graph.insert(Constant::new_raw_testing(123));
    let b = graph.insert(Constant::new_raw_testing(123));
    let a = graph.insert(Constant::new_raw_testing(123));
    let d = graph.insert(Constant::new_raw_testing(123));

    // the storage is reused, in the order of the free list
    assert_eq!(a.key().ptr, a_token.ptr);
    assert_eq!(b.key().ptr, b_token.ptr);
    assert_eq!(c.key().ptr, c_token.ptr);
    // and the keys from before name nothing
    assert_ne!(a.key(), a_token);
    assert_ne!(b.key(), b_token);
    assert_ne!(c.key(), c_token);

    let d_token = d.key();
    let (a_now, b_now, c_now) = (a.key(), b.key(), c.key());

    graph.drop_handle(c);
    graph.drop_handle(a);
    graph.drop_handle(b);
    graph.drop_handle(d);

    let d = graph.insert(Constant::new_raw_testing(123));
    let b = graph.insert(Constant::new_raw_testing(123));
    let a = graph.insert(Constant::new_raw_testing(123));
    let c = graph.insert(Constant::new_raw_testing(123));

    assert_eq!(a.key().ptr, a_token.ptr);
    assert_eq!(b.key().ptr, b_token.ptr);
    assert_eq!(c.key().ptr, c_token.ptr);
    assert_eq!(d.key().ptr, d_token.ptr);
    for stale in [a_token, b_token, c_token, d_token, a_now, b_now, c_now] {
        assert!(graph.get(stale).is_none());
    }
    for live in [a.key(), b.key(), c.key(), d.key()] {
        assert_eq!(graph.get(live).map(|g| g.ptr), Some(live.ptr));
    }
    assert_eq!(graph.nodes.len(), 4);
}

#[test]
fn a_clone_keeps_the_node_alive() {
    let mut graph = G::new(10);
    let a = graph.insert(Constant::new_raw_testing(1));
    let key = a.key();
    let a2 = graph.clone_handle(&a);
    assert_eq!(graph.nodes[key.ptr].ptrs.handle_count, 2);
    assert!(graph.drop_handle(a).is_none());
    assert!(graph.get(key).is_some());
    let core = graph.drop_handle(a2).unwrap();
    assert_eq!(core.val, 1);
    assert!(graph.get(key).is_none());
    assert_eq!(graph.free_head, Some(key.ptr));
    // a handle to a node that is gone is given back without effect
    let ghost = anchors::anchor::AnchorHandle::new(key);
    assert!(graph.drop_handle(ghost).is_none());
    assert_eq!(graph.free_head, Some(key.ptr));
}

#[test]
fn freeing_takes_the_node_out_of_queue_and_edges() {
    let mut graph = G::new(10);
    let a = graph.insert(Constant::new_raw_testing(1));
    let b = graph.insert(Constant::new_raw_testing(2));
    let c = graph.insert(Constant::new_raw_testing(3));
    let (ga, gb, gc) = (
        graph.get(a.key()).unwrap(),
        graph.get(b.key()).unwrap(),
        graph.get(c.key()).unwrap(),
    );
    graph.queue_recalc(ga.ptr);
    graph.queue_recalc(gb.ptr);
    graph.queue_recalc(gc.ptr);
    gb.add_necessary_child(&mut graph, ga);
    gb.add_necessary_child(&mut graph, gc);
    assert_eq!(graph.nodes[ga.ptr].necessary_count, 1);
    assert_eq!(graph.nodes[gc.ptr].necessary_count, 1);
    // b stands in the middle of the queue of height 0: c, b, a
    graph.drop_handle(b);
    assert_eq!(graph.nodes[ga.ptr].necessary_count, 0);
    assert_eq!(graph.nodes[gc.ptr].necessary_count, 0);
    assert_eq!(graph.recalc_pop_next(), Some((0, gc.ptr)));
    assert_eq!(graph.recalc_pop_next(), Some((0, ga.ptr)));
    assert_eq!(graph.recalc_pop_next(), None);
}

#[test]
fn a_node_queued_below_its_height_is_found_when_freed() {
    let mut graph = G::new(10);
    let a = graph.insert(Constant::new_raw_testing(1));
    let ga = graph.get(a.key()).unwrap();
    graph.set_min_height(ga.ptr, 2).unwrap();
    graph.queue_recalc(ga.ptr);
    graph.set_min_height(ga.ptr, 7).unwrap();
    graph.drop_handle(a);
    assert_eq!(graph.recalc_pop_next(), None);
    assert_eq!(graph.recalc_queues[2], None);
}

#[test]
fn necessary_children_are_a_sorted_set() {
    let mut graph = G::new(10);
    let p = insert_testing_guard(&mut graph);
    let x = insert_testing_guard(&mut graph);
    let y = insert_testing_guard(&mut graph);
    let z = insert_testing_guard(&mut graph);
    p.add_necessary_child(&mut graph, z);
    p.add_necessary_child(&mut graph, x);
    p.add_necessary_child(&mut graph, y);
    p.add_necessary_child(&mut graph, x);
    let (kx, ky, kz) = (x.key(&graph), y.key(&graph), z.key(&graph));
    assert_eq!(p.necessary_children(&graph), vec![kx, ky, kz]);
    assert_eq!(graph.nodes[x.ptr].necessary_count, 1);
    p.remove_necessary_child(&mut graph, y);
    p.remove_necessary_child(&mut graph, y);
    assert_eq!(p.necessary_children(&graph), vec![kx, kz]);
    assert_eq!(graph.nodes[y.ptr].necessary_count, 0);
    assert_eq!(p.drain_necessary_children(&mut graph), vec![kx, kz]);
    assert_eq!(graph.nodes[x.ptr].necessary_count, 0);
    assert_eq!(graph.nodes[z.ptr].necessary_count, 0);
    assert_eq!(anchors::node_guard::search(&vec![kx, kz], &ky), Err(1));
    assert_eq!(anchors::node_guard::search(&vec![kx, kz], &kz), Ok(1));
}

#[test]
fn clean_parents_are_walked_first_slot_first() {
    let mut graph = G::new(10);
    let c = insert_testing_guard(&mut graph);
    let p = insert_testing_guard(&mut graph);
    let q = insert_testing_guard(&mut graph);
    graph.set_min_height(p.ptr, 1).unwrap();
    graph.set_min_height(q.ptr, 2).unwrap();
    c.add_clean_parent(&mut graph, p);
    c.add_clean_parent(&mut graph, q);
    c.add_clean_parent(&mut graph, p);
    let (kp, kq) = (p.key(&graph), q.key(&graph));
    assert_eq!(graph.nodes[c.ptr].ptrs.clean_parent0, Some(kp));
    assert_eq!(c.clean_parents(&graph), vec![kp, kq, kp]);
    // raising the child raises every clean parent above it
    graph.set_min_height(c.ptr, 2).unwrap();
    assert_eq!(graph.height(c.ptr), 2);
    assert_eq!(graph.height(p.ptr), 3);
    assert_eq!(graph.height(q.ptr), 3);
    assert_eq!(c.drain_clean_parents(&mut graph), vec![kp, kq, kp]);
    assert_eq!(c.clean_parents(&graph), vec![]);
}

#[test]
fn a_node_is_its_own_cycle() {
    let mut graph = G::new(10);
    let a = insert_testing_guard(&mut graph);
    assert_eq!(graph.ensure_height_increases(a.ptr, a.ptr), Err(EngineError::Cycle));
}

#[test]
fn heights_stop_at_the_largest_number() {
    let mut graph = G::new(10);
    let c = insert_testing_guard(&mut graph);
    let p = insert_testing_guard(&mut graph);
    graph.set_min_height(p.ptr, 1).unwrap();
    c.add_clean_parent(&mut graph, p);
    assert_eq!(graph.set_min_height(c.ptr, usize::MAX), Err(EngineError::HeightLimit));
    let mut graph = G::new(10);
    let c = insert_testing_guard(&mut graph);
    let p = insert_testing_guard(&mut graph);
    graph.set_min_height(c.ptr, usize::MAX).unwrap();
    assert_eq!(graph.ensure_height_increases(c.ptr, p.ptr), Err(EngineError::HeightLimit));
}

#[test]
fn an_empty_queue_of_no_heights_pops_nothing() {
    let mut graph = G::new(0);
    assert_eq!(graph.recalc_pop_next(), None);
    let a = insert_testing_guard(&mut graph);
    assert_eq!(graph.queue_if_fits(a.ptr), Err(EngineError::HeightLimit));
}

#[test]
fn generations_count_from_one_and_skip_zero() {
    let mut g = Generation::new();
    assert_eq!(g, Generation(1));
    g.increment();
    assert_eq!(g, Generation(2));
    assert!(Generation(2).not_after(&Generation(2)));
    assert!(!Generation(3).not_after(&Generation(2)));
    let mut last = Generation(u64::MAX);
    assert!(last.is_last());
    assert!(!g.is_last());
    last.increment();
    assert_eq!(last, Generation(1));
}

#[test]
fn the_bounds_of_the_queue_follow_what_is_queued() {
    let mut graph = G::new(10);
    assert_eq!((graph.token, graph.recalc_min_height, graph.recalc_max_height), (0, 10, 0));
    let a = insert_testing_guard(&mut graph);
    graph.set_min_height(a.ptr, 4).unwrap();
    let b = insert_testing_guard(&mut graph);
    graph.set_min_height(b.ptr, 7).unwrap();
    assert!(graph.fits_queue(a.ptr));
    graph.queue_recalc(b.ptr);
    assert_eq!((graph.recalc_min_height, graph.recalc_max_height), (7, 7));
    graph.queue_recalc(a.ptr);
    assert_eq!((graph.recalc_min_height, graph.recalc_max_height), (4, 7));
    assert_eq!(graph.recalc_pop_next(), Some((4, a.ptr)));
    assert_eq!((graph.recalc_min_height, graph.recalc_max_height), (4, 7));
    assert_eq!(graph.recalc_pop_next(), Some((7, b.ptr)));
    assert_eq!(graph.recalc_pop_next(), None);
    assert_eq!(graph.recalc_max_height, 0);
}

#[test]
fn raising_a_node_raises_what_stands_on_it_by_no_more() {
    let mut graph = G::new(10);
    let a = insert_testing_guard(&mut graph);
    let b = insert_testing_guard(&mut graph);
    let c = insert_testing_guard(&mut graph);
    assert_eq!(graph.ensure_height_increases(b.ptr, c.ptr), Ok(false));
    b.add_clean_parent(&mut graph, c);
    assert_eq!(graph.ensure_height_increases(a.ptr, b.ptr), Ok(false));
    assert_eq!((graph.height(a.ptr), graph.height(b.ptr), graph.height(c.ptr)), (0, 1, 2));
}
