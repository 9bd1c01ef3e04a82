//! Handles, and what happens when the last handle to a node is given back.

use vstd::prelude::*;
use crate::anchor::AnchorHandle;
use crate::graph::Graph;
use crate::node::{same_structure, Node, NodeKey, RecalcState};
use crate::node_guard::NodeGuard;

verus! {

/// The two records agree on everything but the necessary count and the place
/// in a list.
pub open spec fn same_core<C>(a: Node<C>, b: Node<C>) -> bool {
    &&& a.observed == b.observed
    &&& a.visited == b.visited
    &&& a.token == b.token
    &&& a.last_ready == b.last_ready
    &&& a.last_update == b.last_update
    &&& a.anchor == b.anchor
    &&& a.parents() == b.parents()
    &&& a.children() == b.children()
    &&& a.ptrs.recalc_state == b.ptrs.recalc_state
    &&& a.ptrs.height == b.ptrs.height
    &&& a.ptrs.handle_count == b.ptrs.handle_count
}

impl<C> Graph<C> {
    /// Makes one more handle to the node that `handle` names. If the node is
    /// gone, or its count of handles is at the largest number, the new handle
    /// is not counted.
    pub fn clone_handle(&mut self, handle: &AnchorHandle) -> (r: AnchorHandle)
        requires
            old(self).wf(),
        ensures
            final(self).wf(),
            r.node_key == handle.node_key,
            final(self).same_structure(old(self)),
            forall|i: int|
                0 <= i < old(self).len() && !(old(self).valid_key(handle.node_key) && i
                    == handle.node_key.ptr) ==> #[trigger] final(self).nodes@[i]
                        == old(self).nodes@[i],
            old(self).valid_key(handle.node_key) ==> {
                let i = handle.node_key.ptr as int;
                &&& final(self).nodes@[i].ptrs.handle_count
                    == (if old(self).nodes@[i].ptrs.handle_count < usize::MAX {
                    old(self).nodes@[i].ptrs.handle_count + 1
                } else {
                    usize::MAX as int
                })
                &&& final(self).nodes@[i].observed == old(self).nodes@[i].observed
                &&& final(self).nodes@[i].last_ready == old(self).nodes@[i].last_ready
                &&& final(self).nodes@[i].last_update == old(self).nodes@[i].last_update
                &&& final(self).nodes@[i].anchor == old(self).nodes@[i].anchor
            },
    {
        let ghost before = *self;
        if let Some(i) = self.slot_of(handle.node_key) {
            let count: usize = self.nodes[i].ptrs.handle_count;
            if count < usize::MAX {
                self.nodes[i].ptrs.handle_count = count + 1;
            }
            proof {
                reveal(Graph::<_>::wf_dead);
                assert forall|j: int| 0 <= j < self.nodes@.len() implies same_structure(
                    #[trigger] self.nodes@[j],
                    before.nodes@[j],
                ) by {}
                before.lemma_keep(self);
            }
        } else {
            proof {
                reveal(Graph::<_>::wf_dead);
                before.lemma_keep(self);
            }
        }
        AnchorHandle::new(handle.node_key)
    }

    /// Gives a handle back. When it was the last one to its node, the node is
    /// freed: it forgets its edges, leaves the recalculation queue, and its
    /// slot becomes the first of the free list. The computation of a freed
    /// node is returned, so that the caller can give back the handles that
    /// it holds.
    pub fn drop_handle(&mut self, handle: AnchorHandle) -> (r: Option<C>)
        requires
            old(self).wf(),
        ensures
            final(self).wf(),
            final(self).len() == old(self).len(),
            final(self).token == old(self).token,
            forall|i: int|
                0 <= i < old(self).len() ==> (#[trigger] final(self).nodes@[i]).token
                    == old(self).nodes@[i].token && final(self).nodes@[i].ptrs.handle_count
                    == old(self).nodes@[i].ptrs.handle_count
                    - (if old(self).valid_key(handle.node_key) && i
                    == handle.node_key.ptr {
                    1int
                } else {
                    0int
                }),
            !old(self).valid_key(handle.node_key) ==> r is None && forall|i: int|
                0 <= i < old(self).len() ==> #[trigger] final(self).nodes@[i]
                    == old(self).nodes@[i],
            old(self).valid_key(handle.node_key)
                && old(self).nodes@[handle.node_key.ptr as int].ptrs.handle_count > 1 ==> {
                let i = handle.node_key.ptr as int;
                &&& r is None
                &&& final(self).same_structure(old(self))
                &&& final(self).nodes@[i].ptrs.handle_count == old(self).nodes@[i].ptrs.handle_count
                    - 1
                &&& final(self).valid_key(handle.node_key)
                &&& final(self).nodes@[i].observed == old(self).nodes@[i].observed
                &&& final(self).nodes@[i].last_ready == old(self).nodes@[i].last_ready
                &&& final(self).nodes@[i].last_update == old(self).nodes@[i].last_update
                &&& final(self).nodes@[i].anchor == old(self).nodes@[i].anchor
                &&& forall|j: int|
                    0 <= j < old(self).len() && j != i ==> #[trigger] final(self).nodes@[j]
                        == old(self).nodes@[j]
            },
            old(self).valid_key(handle.node_key)
                && old(self).nodes@[handle.node_key.ptr as int].ptrs.handle_count == 1 ==> {
                &&& r == old(self).nodes@[handle.node_key.ptr as int].anchor
                &&& final(self).freed_from(old(self), handle.node_key.ptr)
            },
    {
        let ghost before = *self;
        match self.slot_of(handle.node_key) {
            None => {
                None
            },
            Some(i) => {
                let count: usize = self.nodes[i].ptrs.handle_count;
                if count > 1 {
                    self.nodes[i].ptrs.handle_count = count - 1;
                    proof {
                        reveal(Graph::<_>::wf_dead);
                        assert forall|j: int| 0 <= j < self.nodes@.len() implies same_structure(
                            #[trigger] self.nodes@[j],
                            before.nodes@[j],
                        ) by {}
                        before.lemma_keep(self);
                    }
                    None
                } else {
                    let freed = self.free(i);
                    proof {
                        assert forall|j: int| 0 <= j < before.len() implies (
                        #[trigger] self.nodes@[j]).token == before.nodes@[j].token
                            && self.nodes@[j].ptrs.handle_count
                            == before.nodes@[j].ptrs.handle_count - (if j == i {
                            1int
                        } else {
                            0int
                        }) by {
                            if j != i {
                                if before.nodes@[j].alive() {
                                    assert(same_core(self.nodes@[j], before.nodes@[j]));
                                } else {
                                    assert(!self.nodes@[j].alive());
                                    self.lemma_dead_token(&before, j);
                                }
                            }
                        }
                    }
                    freed
                }
            },
        }
    }

    /// A freed node keeps its stamp while its slot is not reused.
    pub proof fn lemma_dead_token(&self, before: &Graph<C>, j: int)
        requires
            self.freed_from(before, self.free_list@[0]),
            0 <= j < before.nodes@.len(),
            j != self.free_list@[0],
            !before.nodes@[j].alive(),
        ensures
            self.nodes@[j].token == before.nodes@[j].token,
    {
    }

    /// `self` is what `before` becomes when the node in slot `node` is freed.
    pub open spec fn freed_from(&self, before: &Graph<C>, node: usize) -> bool {
        &&& self.nodes@.len() == before.nodes@.len()
        &&& self.token == before.token
        &&& !self.alive(node as int)
        &&& self.free_list@ == seq![node] + before.free_list@
        &&& self.nodes@[node as int].token == before.nodes@[node as int].token
        &&& self.nodes@[node as int].ptrs.height == before.nodes@[node as int].ptrs.height
        &&& self.free_head == Some(node)
        &&& self.nodes@[node as int].ptrs.prev is None
        &&& self.nodes@[node as int].ptrs.next == before.free_head
        &&& before.free_list@.len() > 0 ==> before.free_head == Some(before.free_list@[0])
            && self.nodes@[before.free_list@[0] as int].ptrs.prev == Some(node)
        &&& forall|i: int|
            0 <= i < before.nodes@.len() && i != node && before.alive(i) ==> same_core(
                #[trigger] self.nodes@[i],
                before.nodes@[i],
            )
        &&& forall|i: int|
            0 <= i < before.nodes@.len() && i != node ==> (#[trigger] self.nodes@[i]).alive()
                == before.nodes@[i].alive() && self.nodes@[i].token == before.nodes@[i].token
        &&& forall|i: int|
            0 <= i < before.nodes@.len() && i != node
                ==> (#[trigger] self.nodes@[i]).necessary_count
                == before.nodes@[i].necessary_count - (if before.alive(i) && before.lists_child(
                node as int,
                before.key_of(i),
            ) {
                1int
            } else {
                0int
            })
        &&& self.queues@ == before.queues@ || exists|h: int, k: int|
            before.queue_pos(h, k) && #[trigger] before.queues@[h][k] == node && self.queues@
                == before.queues@.update(h, before.queues@[h].remove(k))
        &&& forall|h: int, k: int|
            self.queue_pos(h, k) ==> #[trigger] self.queues@[h][k] != node
        &&& forall|i: usize|
            i != node && before.queued(i) ==> self.queued(i)
        &&& forall|i: usize| self.queued(i) ==> before.queued(i)
    }

    /// Frees the node in slot `node` and returns its computation.
    fn free(&mut self, node: usize) -> (r: Option<C>)
        requires
            old(self).wf(),
            old(self).alive(node as int),
        ensures
            final(self).wf(),
            final(self).len() == old(self).len(),
            final(self).token == old(self).token,
            r == old(self).nodes@[node as int].anchor,
            final(self).freed_from(old(self), node),
    {
        let ghost before = *self;
        let guard = NodeGuard { ptr: node };
        let _ = guard.drain_necessary_children(self);
        let ghost g1 = *self;
        let _ = guard.drain_clean_parents(self);
        let ghost g2 = *self;
        self.dequeue_calc(node);
        let ghost g3 = *self;
        proof {
            assert(crate::node::same_but_necessary(g1.nodes@[node as int],
                before.nodes@[node as int]));
            assert(crate::node::same_but_parents(g2.nodes@[node as int], g1.nodes@[node as int]));
            assert(crate::queue::same_but_queue(g3.nodes@[node as int], g2.nodes@[node as int]));
            g3.lemma_free_head();
            if g2.nodes@[node as int].ptrs.recalc_state != RecalcState::Pending {
                g2.lemma_not_queued(node);
            }
        }
        let old_free = self.free_head;
        if let Some(first) = old_free {
            self.nodes[first].ptrs.prev = Some(node);
        }
        self.nodes[node].ptrs.next = old_free;
        self.nodes[node].ptrs.prev = None;
        self.nodes[node].ptrs.recalc_state = RecalcState::Needed;
        self.nodes[node].ptrs.handle_count = 0;
        let taken = self.nodes[node].anchor.take();
        self.free_head = Some(node);
        proof {
            self.free_list@ = seq![node] + g3.free_list@;
            g3.lemma_freed(self, node);
            assert(self.freed_from(&before, node)) by {
                assert forall|i: int|
                    0 <= i < before.nodes@.len() && i != node && before.alive(i) implies same_core(
                    #[trigger] self.nodes@[i],
                    before.nodes@[i],
                ) by {
                    assert(crate::node::same_but_necessary(g1.nodes@[i], before.nodes@[i]));
                    assert(crate::node::same_but_parents(g2.nodes@[i], g1.nodes@[i]));
                    assert(crate::queue::same_but_queue(g3.nodes@[i], g2.nodes@[i]));
                }
                assert forall|i: int| 0 <= i < before.nodes@.len() && i != node implies (
                #[trigger] self.nodes@[i]).alive() == before.nodes@[i].alive()
                    && self.nodes@[i].token == before.nodes@[i].token by {
                    assert(crate::node::same_but_necessary(g1.nodes@[i], before.nodes@[i]));
                    assert(crate::node::same_but_parents(g2.nodes@[i], g1.nodes@[i]));
                    assert(crate::queue::same_but_queue(g3.nodes@[i], g2.nodes@[i]));
                }
                assert forall|i: int| 0 <= i < before.nodes@.len() && i != node implies (
                #[trigger] self.nodes@[i]).necessary_count == before.nodes@[i].necessary_count - (
                if before.alive(i) && before.lists_child(node as int, before.key_of(i)) {
                    1int
                } else {
                    0int
                }) by {
                    assert(crate::node::same_but_parents(g2.nodes@[i], g1.nodes@[i]));
                    assert(crate::queue::same_but_queue(g3.nodes@[i], g2.nodes@[i]));
                }
                g3.lemma_not_queued(node);
                assert forall|i: usize| i != node && before.queued(i) implies self.queued(i) by {
                    let (h, k) = choose|h: int, k: int|
                        before.queue_pos(h, k) && #[trigger] before.queues@[h][k] == i;
                    if g2.nodes@[node as int].ptrs.recalc_state == RecalcState::Pending {
                        let (h0, k0) = choose|h0: int, k0: int|
                            g2.queue_pos(h0, k0) && #[trigger] g2.queues@[h0][k0] == node
                                && g3.queues@ == g2.queues@.update(
                                h0,
                                g2.queues@[h0].remove(k0),
                            );
                        let k1 = if h == h0 && k > k0 { k - 1 } else { k };
                        assert(g3.queue_pos(h, k1) && g3.queues@[h][k1] == i);
                    } else {
                        assert(g3.queue_pos(h, k) && g3.queues@[h][k] == i);
                    }
                }
                assert forall|i: usize| self.queued(i) implies before.queued(i) by {
                    let (h, k) = choose|h: int, k: int|
                        self.queue_pos(h, k) && #[trigger] self.queues@[h][k] == i;
                    if g2.nodes@[node as int].ptrs.recalc_state == RecalcState::Pending {
                        let (h0, k0) = choose|h0: int, k0: int|
                            g2.queue_pos(h0, k0) && #[trigger] g2.queues@[h0][k0] == node
                                && g3.queues@ == g2.queues@.update(
                                h0,
                                g2.queues@[h0].remove(k0),
                            );
                        let k1 = if h == h0 && k >= k0 { k + 1 } else { k };
                        assert(before.queue_pos(h, k1) && before.queues@[h][k1] == i);
                    } else {
                        assert(before.queue_pos(h, k) && before.queues@[h][k] == i);
                    }
                }
            }
        }
        taken
    }

    /// After a live node without edges, which sits in no queue, was made the
    /// first of the free list, the invariant holds again.
    pub proof fn lemma_freed(&self, after: &Graph<C>, node: usize)
        requires
            self.wf(),
            self.alive(node as int),
            self.nodes@[node as int].parents().len() == 0,
            self.nodes@[node as int].children().len() == 0,
            self.nodes@[node as int].ptrs.recalc_state != RecalcState::Pending,
            after.nodes@.len() == self.nodes@.len(),
            after.token == self.token,
            after.recalc_queues == self.recalc_queues,
            after.queues == self.queues,
            after.recalc_min_height == self.recalc_min_height,
            after.recalc_max_height == self.recalc_max_height,
            after.free_head == Some(node),
            after.free_list@ == seq![node] + self.free_list@,
            after.nodes@[node as int].ptrs.next == self.free_head,
            after.nodes@[node as int].ptrs.handle_count == 0,
            after.nodes@[node as int].ptrs.recalc_state == RecalcState::Needed,
            after.nodes@[node as int].anchor is None,
            after.nodes@[node as int].parents().len() == 0,
            after.nodes@[node as int].children().len() == 0,
            after.nodes@[node as int].visited == self.nodes@[node as int].visited,
            after.nodes@[node as int].token == self.nodes@[node as int].token,
            forall|i: int|
                self.in_range(i) && i != node ==> crate::queue::same_but_queue(
                    #[trigger] after.nodes@[i],
                    self.nodes@[i],
                ) && after.nodes@[i].ptrs.next == self.nodes@[i].ptrs.next
                    && after.nodes@[i].ptrs.recalc_state == self.nodes@[i].ptrs.recalc_state,
            forall|i: int|
                self.alive(i) && i != node ==> #[trigger] after.nodes@[i] == self.nodes@[i],
        ensures
            after.wf(),
    {
        reveal(Graph::<_>::wf_keys);
        reveal(Graph::<_>::wf_heights);
        reveal(Graph::<_>::wf_sorted);
        reveal(Graph::<_>::wf_counts);
        reveal(Graph::<_>::wf_dead);
        reveal(Graph::<_>::wf_visited);
        reveal(Graph::<_>::wf_free);
        self.lemma_free_head();
        assert forall|i: int| self.in_range(i) implies (#[trigger] after.nodes@[i]).parents()
            =~= self.nodes@[i].parents() && after.nodes@[i].children()
            =~= self.nodes@[i].children() by {
            if i != node {
                assert(crate::queue::same_but_queue(after.nodes@[i], self.nodes@[i]));
            }
        }
        assert forall|k: NodeKey| #[trigger]
            after.necessary_parents(k) == self.necessary_parents(k) by {
            assert forall|p: int| after.lists_child(p, k) == self.lists_child(p, k) by {
                if self.in_range(p) {
                    assert(after.nodes@[p].children() == self.nodes@[p].children());
                }
            }
            assert(after.necessary_parents(k) =~= self.necessary_parents(k));
        }
        assert(after.wf_keys()) by {
            assert forall|i: int, j: int|
                after.in_range(i) && 0 <= j < after.nodes@[i].parents().len()
                    implies after.known_key(#[trigger] after.nodes@[i].parents()[j]) by {
                let k = self.nodes@[i].parents()[j];
                assert(self.known_key(k));
                if k.ptr != node {
                    assert(crate::queue::same_but_queue(
                        after.nodes@[k.ptr as int],
                        self.nodes@[k.ptr as int],
                    ));
                }
            }
            assert forall|i: int, j: int|
                after.in_range(i) && 0 <= j < after.nodes@[i].children().len()
                    implies after.known_key(#[trigger] after.nodes@[i].children()[j]) by {
                let k = self.nodes@[i].children()[j];
                assert(self.known_key(k));
                if k.ptr != node {
                    assert(crate::queue::same_but_queue(
                        after.nodes@[k.ptr as int],
                        self.nodes@[k.ptr as int],
                    ));
                }
            }
            assert forall|i: int| after.in_range(i) implies (#[trigger] after.nodes@[i]).token
                <= after.token by {
                if i != node {
                    assert(crate::queue::same_but_queue(after.nodes@[i], self.nodes@[i]));
                }
            }
        }
        assert(after.wf_heights()) by {
            assert forall|i: int, j: int|
                after.in_range(i) && 0 <= j < after.nodes@[i].parents().len() && after.valid_key(
                    #[trigger] after.nodes@[i].parents()[j],
                ) implies after.nodes@[after.nodes@[i].parents()[j].ptr as int].ptrs.height
                > after.nodes@[i].ptrs.height by {
                let k = self.nodes@[i].parents()[j];
                assert(k.ptr != node);
                assert(i != node);
                assert(crate::queue::same_but_queue(
                    after.nodes@[k.ptr as int],
                    self.nodes@[k.ptr as int],
                ));
                assert(crate::queue::same_but_queue(after.nodes@[i], self.nodes@[i]));
                assert(self.valid_key(k));
            }
        }
        assert(after.wf_sorted());
        assert(after.wf_counts()) by {
            assert forall|i: int| after.alive(i) implies (#[trigger] after.nodes@[i]).necessary_count
                == after.necessary_parents(after.key_of(i)).len() by {
                assert(i != node);
                assert(crate::queue::same_but_queue(after.nodes@[i], self.nodes@[i]));
                assert(self.alive(i));
                assert(after.key_of(i) == self.key_of(i));
            }
        }
        assert(after.wf_dead()) by {
            assert forall|i: int|
                after.in_range(i) && !(#[trigger] after.nodes@[i]).alive() implies {
                &&& after.nodes@[i].anchor is None
                &&& after.nodes@[i].parents().len() == 0
                &&& after.nodes@[i].children().len() == 0
                &&& after.nodes@[i].ptrs.recalc_state == RecalcState::Needed
            } by {
                if i != node {
                    assert(crate::queue::same_but_queue(after.nodes@[i], self.nodes@[i]));
                    assert(!self.nodes@[i].alive());
                }
            }
        }
        assert(after.wf_visited()) by {
            assert forall|i: int| after.in_range(i) implies !(#[trigger] after.nodes@[i]).visited by {
                if i != node {
                    assert(crate::queue::same_but_queue(after.nodes@[i], self.nodes@[i]));
                }
            }
        }
        assert(after.wf_free()) by {
            assert forall|k: int| 0 < k < after.free_list@.len() implies after.free_list@[k]
                == self.free_list@[k - 1] && after.free_list@[k] != node by {
                assert(self.in_range(self.free_list@[k - 1] as int));
            }
            assert forall|k: int| 0 <= k < after.free_list@.len() implies {
                let i = #[trigger] after.free_list@[k];
                &&& after.in_range(i as int)
                &&& !after.nodes@[i as int].alive()
            } by {
                if k > 0 {
                    let i = self.free_list@[k - 1];
                    assert(self.in_range(i as int));
                    assert(crate::queue::same_but_queue(
                        after.nodes@[i as int],
                        self.nodes@[i as int],
                    ));
                }
            }
            assert forall|k: int, k2: int|
                0 <= k < after.free_list@.len() && 0 <= k2 < after.free_list@.len() && k2 == k
                    + 1 implies after.nodes@[#[trigger] after.free_list@[k] as int].ptrs.next
                == Some(#[trigger] after.free_list@[k2]) by {
                if k > 0 {
                    let i = self.free_list@[k - 1];
                    let i2 = self.free_list@[k2 - 1];
                    assert(self.in_range(i as int));
                }
            }
            if self.free_list@.len() > 0 {
                let i = self.free_list@[self.free_list@.len() - 1];
                assert(after.free_list@[after.free_list@.len() - 1] == i);
                assert(self.in_range(i as int));
            }
            assert forall|k: int, k2: int|
                0 <= k < after.free_list@.len() && 0 <= k2 < after.free_list@.len()
                    && #[trigger] after.free_list@[k] == #[trigger] after.free_list@[k2] implies k
                == k2 by {
                if k > 0 && k2 > 0 {
                    assert(self.free_list@[k - 1] == self.free_list@[k2 - 1]);
                }
            }
        }
        self.lemma_freed_queues(after, node);
    }

    /// Freeing a node that sits in no queue leaves the queues in order.
    pub proof fn lemma_freed_queues(&self, after: &Graph<C>, node: usize)
        requires
            self.wf(),
            self.in_range(node as int),
            self.nodes@[node as int].ptrs.recalc_state != RecalcState::Pending,
            after.nodes@.len() == self.nodes@.len(),
            after.recalc_queues == self.recalc_queues,
            after.queues == self.queues,
            after.recalc_min_height == self.recalc_min_height,
            after.recalc_max_height == self.recalc_max_height,
            after.nodes@[node as int].ptrs.recalc_state == RecalcState::Needed,
            forall|i: int|
                self.alive(i) && i != node ==> #[trigger] after.nodes@[i] == self.nodes@[i],
            forall|i: int|
                self.in_range(i) && i != node ==> (#[trigger] after.nodes@[i]).ptrs.recalc_state
                    == self.nodes@[i].ptrs.recalc_state,
        ensures
            after.wf_queues(),
    {
        self.lemma_not_queued(node);
        reveal(Graph::<_>::wf_queues);
        assert forall|h: int, k: int| after.queue_pos(h, k) implies {
            let i = #[trigger] after.queues@[h][k];
            &&& after.alive(i as int)
            &&& after.nodes@[i as int].ptrs.recalc_state == RecalcState::Pending
            &&& h <= after.nodes@[i as int].ptrs.height
        } by {
            assert(self.queue_pos(h, k));
            let i = self.queues@[h][k];
            assert(self.alive(i as int));
        }
        assert forall|h: int, k: int, k2: int|
            after.queue_pos(h, k) && after.queue_pos(h, k2) && k2 == k + 1 implies {
            &&& after.nodes@[#[trigger] after.queues@[h][k] as int].ptrs.next == Some(
                after.queues@[h][k2],
            )
            &&& after.nodes@[#[trigger] after.queues@[h][k2] as int].ptrs.prev == Some(
                after.queues@[h][k],
            )
        } by {
            assert(self.queue_pos(h, k) && self.queue_pos(h, k2));
            assert(self.alive(self.queues@[h][k] as int));
            assert(self.alive(self.queues@[h][k2] as int));
        }
        assert forall|h: int| 0
            <= h < after.queues@.len() implies match #[trigger] after.recalc_queues@[h] {
            None => after.queues@[h].len() == 0,
            Some(i) => after.queues@[h].len() > 0 && after.queues@[h][0] == i
                && after.nodes@[i as int].ptrs.prev is None,
        } by {
            if self.queues@[h].len() > 0 {
                assert(self.queue_pos(h, 0));
                assert(self.alive(self.queues@[h][0] as int));
            }
        }
        assert forall|h: int|
            0 <= h < after.queues@.len() && (#[trigger] after.queues@[h]).len() > 0 implies {
            &&& after.nodes@[after.queues@[h][after.queues@[h].len() - 1] as int].ptrs.next is None
            &&& after.recalc_min_height <= h <= after.recalc_max_height
        } by {
            assert(self.queue_pos(h, self.queues@[h].len() - 1));
            assert(self.alive(self.queues@[h][self.queues@[h].len() - 1] as int));
        }
        assert forall|i: usize|
            after.in_range(i as int) && (#[trigger] after.nodes@[i as int]).ptrs.recalc_state
                == RecalcState::Pending implies after.queued(i) by {
            assert(i != node);
            assert(self.queued(i));
            let (h, k) = choose|h: int, k: int|
                self.queue_pos(h, k) && #[trigger] self.queues@[h][k] == i;
            assert(after.queue_pos(h, k) && after.queues@[h][k] == i);
        }
    }
}

} // verus!
