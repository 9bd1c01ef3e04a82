//! The recalculation queue: one intrusive doubly-linked list per height.

use vstd::prelude::*;
use crate::expert::EngineError;
use crate::graph::Graph;
use crate::node::{Node, RecalcState};

verus! {

/// The two records agree on everything but their place in a queue.
pub open spec fn same_but_queue<C>(a: Node<C>, b: Node<C>) -> bool {
    &&& a.observed == b.observed
    &&& a.visited == b.visited
    &&& a.necessary_count == b.necessary_count
    &&& a.token == b.token
    &&& a.last_ready == b.last_ready
    &&& a.last_update == b.last_update
    &&& a.anchor == b.anchor
    &&& a.ptrs.clean_parent0 == b.ptrs.clean_parent0
    &&& a.ptrs.clean_parents == b.ptrs.clean_parents
    &&& a.ptrs.necessary_children == b.ptrs.necessary_children
    &&& a.ptrs.height == b.ptrs.height
    &&& a.ptrs.handle_count == b.ptrs.handle_count
}

impl<C> Graph<C> {
    /// The two graphs hold the same nodes but for their places in the queues.
    pub open spec fn same_but_queues(&self, other: &Graph<C>) -> bool {
        &&& self.nodes@.len() == other.nodes@.len()
        &&& self.token == other.token
        &&& self.free_head == other.free_head
        &&& self.free_list@ == other.free_list@
        &&& self.recalc_queues@.len() == other.recalc_queues@.len()
        &&& forall|i: int|
            0 <= i < self.nodes@.len() ==> same_but_queue(
                #[trigger] self.nodes@[i],
                other.nodes@[i],
            )
        &&& forall|i: int|
            0 <= i < self.nodes@.len() && !self.nodes@[i].alive() ==> #[trigger] self.nodes@[i]
                == other.nodes@[i]
    }

    /// What does not speak of the queues holds of both graphs or of neither.
    pub proof fn lemma_queue_frame(&self, other: &Graph<C>)
        requires
            self.same_but_queues(other),
            self.wf(),
        ensures
            other.wf_keys(),
            other.wf_heights(),
            other.wf_sorted(),
            other.wf_counts(),
            other.wf_dead(),
            other.wf_visited(),
            other.wf_free(),
    {
        reveal(Graph::<_>::wf_keys);
        reveal(Graph::<_>::wf_heights);
        reveal(Graph::<_>::wf_sorted);
        reveal(Graph::<_>::wf_counts);
        reveal(Graph::<_>::wf_dead);
        reveal(Graph::<_>::wf_visited);
        reveal(Graph::<_>::wf_free);
        assert forall|i: int| other.in_range(i) implies (#[trigger] other.nodes@[i]).parents()
            == self.nodes@[i].parents() && other.nodes@[i].children()
                == self.nodes@[i].children() by {
            assert(same_but_queue(self.nodes@[i], other.nodes@[i]));
        }
        assert forall|k: crate::node::NodeKey| #[trigger]
            other.necessary_parents(k) == self.necessary_parents(k) by {
            assert forall|p: int| other.lists_child(p, k) == self.lists_child(p, k) by {
                if self.in_range(p) {
                    assert(same_but_queue(self.nodes@[p], other.nodes@[p]));
                }
            }
            assert(other.necessary_parents(k) =~= self.necessary_parents(k));
        }
        assert(other.wf_keys()) by {
            assert forall|i: int, j: int|
                other.in_range(i) && 0 <= j < other.nodes@[i].parents().len()
                    implies other.known_key(#[trigger] other.nodes@[i].parents()[j]) by {
                let k = self.nodes@[i].parents()[j];
                assert(self.known_key(k));
                assert(same_but_queue(self.nodes@[k.ptr as int], other.nodes@[k.ptr as int]));
            }
            assert forall|i: int, j: int|
                other.in_range(i) && 0 <= j < other.nodes@[i].children().len()
                    implies other.known_key(#[trigger] other.nodes@[i].children()[j]) by {
                let k = self.nodes@[i].children()[j];
                assert(self.known_key(k));
                assert(same_but_queue(self.nodes@[k.ptr as int], other.nodes@[k.ptr as int]));
            }
        }
        assert(other.wf_heights()) by {
            assert forall|i: int, j: int|
                other.in_range(i) && 0 <= j < other.nodes@[i].parents().len() && other.valid_key(
                    #[trigger] other.nodes@[i].parents()[j],
                ) implies other.nodes@[other.nodes@[i].parents()[j].ptr as int].ptrs.height
                > other.nodes@[i].ptrs.height by {
                let k = self.nodes@[i].parents()[j];
                assert(same_but_queue(self.nodes@[k.ptr as int], other.nodes@[k.ptr as int]));
                assert(self.valid_key(k));
            }
        }
        assert(other.wf_counts()) by {
            assert forall|i: int| other.alive(i) implies (#[trigger] other.nodes@[i]).necessary_count
                == other.necessary_parents(other.key_of(i)).len() by {
                assert(same_but_queue(self.nodes@[i], other.nodes@[i]));
                assert(self.alive(i));
                assert(other.key_of(i) == self.key_of(i));
            }
        }
        assert(other.wf_free()) by {
            assert forall|k: int| 0 <= k < other.free_list@.len() implies {
                let i = #[trigger] other.free_list@[k];
                &&& other.in_range(i as int)
                &&& !other.nodes@[i as int].alive()
            } by {
                let i = self.free_list@[k];
                assert(self.in_range(i as int) && !self.nodes@[i as int].alive());
            }
            assert forall|k: int, k2: int|
                0 <= k < other.free_list@.len() && 0 <= k2 < other.free_list@.len() && k2 == k
                    + 1 implies other.nodes@[#[trigger] other.free_list@[k] as int].ptrs.next
                == Some(#[trigger] other.free_list@[k2]) by {
                let i = self.free_list@[k];
                assert(self.in_range(i as int) && !self.nodes@[i as int].alive());
            }
            if other.free_list@.len() > 0 {
                let i = self.free_list@[self.free_list@.len() - 1];
                assert(self.in_range(i as int) && !self.nodes@[i as int].alive());
            }
        }
    }

    /// The height of the node in slot `node`.
    pub fn height(&self, node: usize) -> (r: usize)
        requires
            self.in_range(node as int),
        ensures
            r == self.nodes@[node as int].ptrs.height,
    {
        self.nodes[node].ptrs.height
    }

    /// The recalculation state of the node in slot `node`.
    pub fn recalc_state(&self, node: usize) -> (r: RecalcState)
        requires
            self.in_range(node as int),
        ensures
            r == self.nodes@[node as int].ptrs.recalc_state,
    {
        self.nodes[node].ptrs.recalc_state
    }

    /// `self` is what `before` becomes when the node in slot `node` is queued
    /// for recalculation, and `r` what queueing it returns.
    ///
    /// A node that is already `Pending` stays where it is. A node whose
    /// height is not below the maximum is refused with `HeightLimit`, and
    /// nothing changes. Any other node is put at the front of the queue of
    /// its height and is `Pending`.
    pub open spec fn queued_from(
        &self,
        before: &Graph<C>,
        node: int,
        r: Result<(), EngineError>,
    ) -> bool {
        &&& self.wf()
        &&& self.same_but_queues(before)
        &&& forall|i: int|
            0 <= i < before.len()
                && before.nodes@[i].ptrs.height < before.nodes@[node].ptrs.height
                ==> #[trigger] self.nodes@[i] == before.nodes@[i]
        &&& before.nodes@[node].ptrs.recalc_state == RecalcState::Pending ==> r is Ok
            && *self == *before
        &&& before.nodes@[node].ptrs.recalc_state != RecalcState::Pending
            && before.nodes@[node].ptrs.height >= before.max_height() ==> r == Err::<
            (),
            EngineError,
        >(EngineError::HeightLimit) && *self == *before
        &&& before.nodes@[node].ptrs.recalc_state != RecalcState::Pending
            && before.nodes@[node].ptrs.height < before.max_height() ==> {
            let h = before.nodes@[node].ptrs.height as int;
            &&& r is Ok
            &&& self.queues@ == before.queues@.update(
                h,
                seq![node as usize] + before.queues@[h],
            )
            &&& self.recalc_min_height == (if before.recalc_min_height < h {
                before.recalc_min_height
            } else {
                h as usize
            })
            &&& self.recalc_max_height == (if before.recalc_max_height > h {
                before.recalc_max_height
            } else {
                h as usize
            })
            &&& self.nodes@[node].ptrs.recalc_state == RecalcState::Pending
            &&& forall|i: int|
                0 <= i < before.len() && i != node
                    ==> (#[trigger] self.nodes@[i]).ptrs.recalc_state
                    == before.nodes@[i].ptrs.recalc_state
        }
    }

    /// The node in slot `node` can be queued: it is queued already, or it
    /// stands below the maximum height.
    pub open spec fn can_queue(&self, node: int) -> bool {
        self.nodes@[node].ptrs.recalc_state == RecalcState::Pending || self.nodes@[node].ptrs.height
            < self.max_height()
    }

    /// Says whether the node can be queued.
    pub fn fits_queue(&self, node: usize) -> (r: bool)
        requires
            self.wf(),
            self.in_range(node as int),
        ensures
            r == self.can_queue(node as int),
    {
        self.nodes[node].ptrs.recalc_state == RecalcState::Pending || self.nodes[node].ptrs.height
            < self.recalc_queues.len()
    }

    /// Queues the node if it can be queued, and refuses with `HeightLimit`
    /// if it cannot; then nothing changes.
    pub fn queue_if_fits(&mut self, node: usize) -> (r: Result<(), EngineError>)
        requires
            old(self).wf(),
            old(self).alive(node as int),
        ensures
            final(self).queued_from(old(self), node as int, r),
            r is Ok <==> old(self).can_queue(node as int),
    {
        if !self.fits_queue(node) {
            return Err(EngineError::HeightLimit);
        }
        self.queue_recalc(node);
        Ok(())
    }

    /// Puts the node at the front of the queue of its height and marks it
    /// `Pending`. A node that is already `Pending` stays where it is. The
    /// node has to stand below the maximum height.
    pub fn queue_recalc(&mut self, node: usize)
        requires
            old(self).wf(),
            old(self).alive(node as int),
            old(self).can_queue(node as int),
        ensures
            final(self).queued_from(old(self), node as int, Ok::<(), EngineError>(())),
    {
        if self.nodes[node].ptrs.recalc_state == RecalcState::Pending {
            return ;
        }
        let node_height: usize = self.nodes[node].ptrs.height;
        let ghost before = *self;
        proof {
            before.lemma_not_queued(node);
            before.lemma_head(node_height as int);
            if before.queues@[node_height as int].len() > 0 {
                before.lemma_neighbours(node_height as int, 0);
            }
        }
        self.nodes[node].ptrs.recalc_state = RecalcState::Pending;
        self.nodes[node].ptrs.prev = None;
        let head = self.recalc_queues[node_height];
        self.nodes[node].ptrs.next = head;
        match head {
            Some(first) => {
                proof {
                    before.lemma_head(node_height as int);
                }
                self.nodes[first].ptrs.prev = Some(node);
            },
            None => {
                if self.recalc_min_height > node_height {
                    self.recalc_min_height = node_height;
                }
                if self.recalc_max_height < node_height {
                    self.recalc_max_height = node_height;
                }
            },
        }
        self.recalc_queues[node_height] = Some(node);
        proof {
            self.queues@ = before.queues@.update(
                node_height as int,
                seq![node] + before.queues@[node_height as int],
            );
            before.lemma_queue_frame(self);
            before.lemma_enqueue(self, node);
        }
    }

    /// The head of a queue that is not empty is its first slot, which is
    /// alive.
    pub proof fn lemma_head(&self, h: int)
        requires
            self.wf_queues(),
            0 <= h < self.queues@.len(),
        ensures
            self.recalc_queues@[h] is Some <==> self.queues@[h].len() > 0,
            self.queues@[h].len() > 0 ==> self.recalc_queues@[h] == Some(self.queues@[h][0])
                && self.alive(self.queues@[h][0] as int) && self.queue_pos(h, 0)
                && self.recalc_min_height <= h <= self.recalc_max_height,
    {
        reveal(Graph::<_>::wf_queues);
        if self.queues@[h].len() > 0 {
            assert(self.queue_pos(h, 0));
            assert(self.alive(self.queues@[h][0] as int));
        }
    }

    /// The queues stay in order when only the bounds of the heights in use
    /// change, and still cover every queue that is not empty.
    pub proof fn lemma_rebound(&self, after: &Graph<C>)
        requires
            self.wf_queues(),
            after.nodes == self.nodes,
            after.queues == self.queues,
            after.recalc_queues == self.recalc_queues,
            forall|g: int|
                0 <= g < self.queues@.len() && (#[trigger] self.queues@[g]).len() > 0
                    ==> after.recalc_min_height <= g <= after.recalc_max_height,
        ensures
            after.wf_queues(),
    {
        reveal(Graph::<_>::wf_queues);
        assert forall|i: usize|
            after.in_range(i as int) && (#[trigger] after.nodes@[i as int]).ptrs.recalc_state
                == RecalcState::Pending implies after.queued(i) by {
            assert(self.queued(i));
            let (h, k) = choose|h: int, k: int|
                self.queue_pos(h, k) && #[trigger] self.queues@[h][k] == i;
            assert(after.queue_pos(h, k) && after.queues@[h][k] == i);
        }
    }

    /// A slot stands at one place only.
    pub proof fn lemma_one_place(&self, h: int, k: int, h2: int, k2: int)
        requires
            self.wf_queues(),
            self.queue_pos(h, k),
            self.queue_pos(h2, k2),
            self.queues@[h][k] == self.queues@[h2][k2],
        ensures
            h == h2,
            k == k2,
    {
        reveal(Graph::<_>::wf_queues);
    }

    /// A slot that is `Pending` sits in a queue.
    pub proof fn lemma_queued(&self, i: usize)
        requires
            self.wf_queues(),
            self.in_range(i as int),
            self.nodes@[i as int].ptrs.recalc_state == RecalcState::Pending,
        ensures
            self.queued(i),
    {
        reveal(Graph::<_>::wf_queues);
    }

    /// A slot that is not `Pending` sits in no queue.
    pub proof fn lemma_not_queued(&self, i: usize)
        requires
            self.wf_queues(),
            self.in_range(i as int),
            self.nodes@[i as int].ptrs.recalc_state != RecalcState::Pending,
        ensures
            !self.queued(i),
            forall|h: int, k: int| self.queue_pos(h, k) ==> #[trigger] self.queues@[h][k] != i,
    {
        reveal(Graph::<_>::wf_queues);
        assert forall|h: int, k: int| self.queue_pos(h, k) implies #[trigger] self.queues@[h][k]
            != i by {
            assert(self.nodes@[self.queues@[h][k] as int].ptrs.recalc_state
                == RecalcState::Pending);
        }
    }

    /// Putting a node at the front of the queue of its height keeps the queues
    /// in order.
    pub proof fn lemma_enqueue(&self, after: &Graph<C>, node: usize)
        requires
            self.wf(),
            self.alive(node as int),
            self.nodes@[node as int].ptrs.recalc_state != RecalcState::Pending,
            self.nodes@[node as int].ptrs.height < self.max_height(),
            after.same_but_queues(self),
            after.queues@ == self.queues@.update(
                self.nodes@[node as int].ptrs.height as int,
                seq![node] + self.queues@[self.nodes@[node as int].ptrs.height as int],
            ),
            after.recalc_queues@ == self.recalc_queues@.update(
                self.nodes@[node as int].ptrs.height as int,
                Some(node),
            ),
            after.nodes@[node as int].ptrs.recalc_state == RecalcState::Pending,
            after.nodes@[node as int].ptrs.prev == None::<usize>,
            after.nodes@[node as int].ptrs.next
                == self.recalc_queues@[self.nodes@[node as int].ptrs.height as int],
            forall|i: int|
                self.in_range(i) && i != node ==> (#[trigger] after.nodes@[i]).ptrs.recalc_state
                    == self.nodes@[i].ptrs.recalc_state && after.nodes@[i].ptrs.next
                    == self.nodes@[i].ptrs.next,
            forall|i: usize|
                self.in_range(i as int) && i != node && Some(i)
                    != self.recalc_queues@[self.nodes@[node as int].ptrs.height as int] ==> (
                #[trigger] after.nodes@[i as int]).ptrs.prev == self.nodes@[i as int].ptrs.prev,
            self.queues@[self.nodes@[node as int].ptrs.height as int].len() > 0
                ==> after.nodes@[self.queues@[self.nodes@[node as int].ptrs.height as int][0] as int].ptrs.prev
                == Some(node) && after.recalc_min_height == self.recalc_min_height
                && after.recalc_max_height == self.recalc_max_height,
            self.queues@[self.nodes@[node as int].ptrs.height as int].len() == 0
                ==> after.recalc_min_height
                <= self.nodes@[node as int].ptrs.height <= after.recalc_max_height
                && after.recalc_min_height <= self.recalc_min_height && self.recalc_max_height
                <= after.recalc_max_height,
        ensures
            after.wf_queues(),
    {
        reveal(Graph::<_>::wf_queues);
        let h0 = self.nodes@[node as int].ptrs.height as int;
        self.lemma_not_queued(node);
        self.lemma_head(h0);
        assert forall|h: int, k: int| after.queue_pos(h, k) implies {
            let i = #[trigger] after.queues@[h][k];
            &&& after.alive(i as int)
            &&& after.nodes@[i as int].ptrs.recalc_state == RecalcState::Pending
            &&& h <= after.nodes@[i as int].ptrs.height
        } by {
            let i = after.queues@[h][k];
            if h == h0 && k == 0 {
                assert(same_but_queue(after.nodes@[node as int], self.nodes@[node as int]));
            } else {
                let k0 = if h == h0 { k - 1 } else { k };
                assert(self.queue_pos(h, k0));
                assert(i == self.queues@[h][k0]);
                assert(same_but_queue(after.nodes@[i as int], self.nodes@[i as int]));
            }
        }
        assert forall|h: int, k: int, k2: int|
            after.queue_pos(h, k) && after.queue_pos(h, k2) && k2 == k + 1 implies {
            &&& after.nodes@[#[trigger] after.queues@[h][k] as int].ptrs.next == Some(
                after.queues@[h][k2],
            )
            &&& after.nodes@[#[trigger] after.queues@[h][k2] as int].ptrs.prev == Some(
                after.queues@[h][k],
            )
        } by {
            if h == h0 {
                if k == 0 {
                    assert(self.queue_pos(h, 0));
                } else {
                    assert(self.queue_pos(h, k - 1) && self.queue_pos(h, k));
                    assert(after.queues@[h][k] == self.queues@[h][k - 1]);
                    assert(after.queues@[h][k2] == self.queues@[h][k]);
                    assert(self.queue_pos(h, 0));
                }
            } else {
                assert(self.queue_pos(h, k) && self.queue_pos(h, k2));
                if self.queues@[h0].len() > 0 {
                    assert(self.queue_pos(h0, 0));
                }
            }
        }
        assert forall|h: int| 0
            <= h < after.queues@.len() implies match #[trigger] after.recalc_queues@[h] {
            None => after.queues@[h].len() == 0,
            Some(i) => after.queues@[h].len() > 0 && after.queues@[h][0] == i
                && after.nodes@[i as int].ptrs.prev is None,
        } by {
            if h != h0 {
                assert(after.recalc_queues@[h] == self.recalc_queues@[h]);
                if self.queues@[h].len() > 0 {
                    self.lemma_head(h);
                    if self.queues@[h0].len() > 0 {
                        assert(self.queue_pos(h0, 0));
                    }
                }
            }
        }
        assert forall|h: int|
            0 <= h < after.queues@.len() && (#[trigger] after.queues@[h]).len() > 0 implies {
            &&& after.nodes@[after.queues@[h][after.queues@[h].len() - 1] as int].ptrs.next is None
            &&& after.recalc_min_height <= h <= after.recalc_max_height
        } by {
            if h != h0 {
                assert(self.queues@[h].len() > 0);
                assert(self.queue_pos(h, self.queues@[h].len() - 1));
            } else if self.queues@[h0].len() > 0 {
                assert(self.queue_pos(h, self.queues@[h].len() - 1));
                assert(after.queues@[h][after.queues@[h].len() - 1] == self.queues@[h][
                    self.queues@[h].len() - 1]);
            }
        }
        assert forall|h: int, k: int, h2: int, k2: int|
            after.queue_pos(h, k) && after.queue_pos(h2, k2) && #[trigger] after.queues@[h][k]
                == #[trigger] after.queues@[h2][k2] implies h == h2 && k == k2 by {
            let a = if h == h0 { k - 1 } else { k };
            let b = if h2 == h0 { k2 - 1 } else { k2 };
            if a >= 0 {
                assert(self.queue_pos(h, a));
                assert(self.queues@[h][a] == after.queues@[h][k]);
            }
            if b >= 0 {
                assert(self.queue_pos(h2, b));
                assert(self.queues@[h2][b] == after.queues@[h2][k2]);
            }
        }
        assert forall|i: usize|
            after.in_range(i as int) && (#[trigger] after.nodes@[i as int]).ptrs.recalc_state
                == RecalcState::Pending implies after.queued(i) by {
            if i == node {
                assert(after.queue_pos(h0, 0) && after.queues@[h0][0] == i);
            } else {
                assert(self.nodes@[i as int].ptrs.recalc_state == RecalcState::Pending);
                assert(self.queued(i));
                let (h, k) = choose|h: int, k: int|
                    self.queue_pos(h, k) && #[trigger] self.queues@[h][k] == i;
                let k1 = if h == h0 { k + 1 } else { k };
                assert(after.queue_pos(h, k1) && after.queues@[h][k1] == i);
            }
        }
    }

    /// Where a queued slot stands, and what stands beside it.
    pub proof fn lemma_neighbours(&self, h: int, k: int)
        requires
            self.wf_queues(),
            self.queue_pos(h, k),
        ensures
            self.alive(self.queues@[h][k] as int),
            self.nodes@[self.queues@[h][k] as int].ptrs.prev == (if k == 0 {
                None
            } else {
                Some(self.queues@[h][k - 1])
            }),
            self.nodes@[self.queues@[h][k] as int].ptrs.next == (if k == self.queues@[h].len() - 1 {
                None
            } else {
                Some(self.queues@[h][k + 1])
            }),
            k > 0 ==> self.alive(self.queues@[h][k - 1] as int) && self.queues@[h][k - 1]
                != self.queues@[h][k],
            k < self.queues@[h].len() - 1 ==> self.alive(self.queues@[h][k + 1] as int)
                && self.queues@[h][k + 1] != self.queues@[h][k],
            k > 0 && k < self.queues@[h].len() - 1 ==> self.queues@[h][k - 1] != self.queues@[h][k
                + 1],
            h <= self.nodes@[self.queues@[h][k] as int].ptrs.height,
            h < self.recalc_queues@.len(),
            k == 0 ==> self.recalc_queues@[h] == Some(self.queues@[h][k]),
    {
        reveal(Graph::<_>::wf_queues);
        self.lemma_head(h);
        if k > 0 {
            assert(self.queue_pos(h, k - 1));
        }
        if k < self.queues@[h].len() - 1 {
            assert(self.queue_pos(h, k + 1));
        }
        assert(self.queue_pos(h, self.queues@[h].len() - 1));
    }

    /// Taking one slot out of its queue, and joining what stood beside it,
    /// keeps the queues in order.
    pub proof fn lemma_unlink(&self, after: &Graph<C>, h: int, k: int)
        requires
            self.wf(),
            self.queue_pos(h, k),
            after.same_but_queues(self),
            after.queues@ == self.queues@.update(h, self.queues@[h].remove(k)),
            after.recalc_queues@ == (if k == 0 {
                self.recalc_queues@.update(h, self.nodes@[self.queues@[h][k] as int].ptrs.next)
            } else {
                self.recalc_queues@
            }),
            after.nodes@[self.queues@[h][k] as int].ptrs.recalc_state != RecalcState::Pending,
            forall|i: int|
                self.in_range(i) && i != self.queues@[h][k]
                    ==> (#[trigger] after.nodes@[i]).ptrs.recalc_state
                    == self.nodes@[i].ptrs.recalc_state,
            forall|i: usize|
                self.in_range(i as int) && i != self.queues@[h][k] && Some(i)
                    != self.nodes@[self.queues@[h][k] as int].ptrs.prev ==> (
                #[trigger] after.nodes@[i as int]).ptrs.next == self.nodes@[i as int].ptrs.next,
            forall|i: usize|
                self.in_range(i as int) && i != self.queues@[h][k] && Some(i)
                    != self.nodes@[self.queues@[h][k] as int].ptrs.next ==> (
                #[trigger] after.nodes@[i as int]).ptrs.prev == self.nodes@[i as int].ptrs.prev,
            k > 0 ==> after.nodes@[self.queues@[h][k - 1] as int].ptrs.next
                == self.nodes@[self.queues@[h][k] as int].ptrs.next,
            k < self.queues@[h].len() - 1 ==> after.nodes@[self.queues@[h][k + 1] as int].ptrs.prev
                == self.nodes@[self.queues@[h][k] as int].ptrs.prev,
            forall|g: int|
                0 <= g < self.queues@.len() && (#[trigger] self.queues@[g]).len() > 0
                    ==> after.recalc_min_height <= g <= after.recalc_max_height,
        ensures
            after.wf_queues(),
    {
        reveal(Graph::<_>::wf_queues);
        let node = self.queues@[h][k];
        let q = self.queues@[h];
        let q2 = q.remove(k);
        self.lemma_neighbours(h, k);
        // where each position of the new queues stood before
        assert forall|g: int, j: int| after.queue_pos(g, j) implies self.queue_pos(
            g,
            if g == h && j >= k {
                j + 1
            } else {
                j
            },
        ) && #[trigger] after.queues@[g][j] == self.queues@[g][if g == h && j >= k {
            j + 1
        } else {
            j
        }] && after.queues@[g][j] != node by {
            let j0 = if g == h && j >= k { j + 1 } else { j };
            assert(self.queue_pos(g, j0));
        }
        assert forall|g: int, j: int| after.queue_pos(g, j) implies {
            let i = #[trigger] after.queues@[g][j];
            &&& after.alive(i as int)
            &&& after.nodes@[i as int].ptrs.recalc_state == RecalcState::Pending
            &&& g <= after.nodes@[i as int].ptrs.height
        } by {
            let i = after.queues@[g][j];
            let j0 = if g == h && j >= k { j + 1 } else { j };
            assert(self.queue_pos(g, j0));
            assert(same_but_queue(after.nodes@[i as int], self.nodes@[i as int]));
        }
        assert forall|g: int, j: int, j2: int|
            after.queue_pos(g, j) && after.queue_pos(g, j2) && j2 == j + 1 implies {
            &&& after.nodes@[#[trigger] after.queues@[g][j] as int].ptrs.next == Some(
                after.queues@[g][j2],
            )
            &&& after.nodes@[#[trigger] after.queues@[g][j2] as int].ptrs.prev == Some(
                after.queues@[g][j],
            )
        } by {
            let a = if g == h && j >= k { j + 1 } else { j };
            let b = if g == h && j2 >= k { j2 + 1 } else { j2 };
            assert(self.queue_pos(g, a) && self.queue_pos(g, b));
            self.lemma_neighbours(g, a);
            self.lemma_neighbours(g, b);
            if k > 0 {
                assert(self.queue_pos(h, k - 1));
            }
            if k < q.len() - 1 {
                assert(self.queue_pos(h, k + 1));
            }
        }
        assert forall|g: int| 0
            <= g < after.queues@.len() implies match #[trigger] after.recalc_queues@[g] {
            None => after.queues@[g].len() == 0,
            Some(i) => after.queues@[g].len() > 0 && after.queues@[g][0] == i
                && after.nodes@[i as int].ptrs.prev is None,
        } by {
            self.lemma_head(g);
            if self.queues@[g].len() > 0 {
                self.lemma_neighbours(g, 0);
            }
            if k < q.len() - 1 {
                assert(self.queue_pos(h, k + 1));
            }
            if g == h && k == 0 && q.len() > 1 {
                assert(after.queues@[g][0] == q[1]);
            }
        }
        assert forall|g: int|
            0 <= g < after.queues@.len() && (#[trigger] after.queues@[g]).len() > 0 implies {
            &&& after.nodes@[after.queues@[g][after.queues@[g].len() - 1] as int].ptrs.next is None
            &&& after.recalc_min_height <= g <= after.recalc_max_height
        } by {
            assert(self.queues@[g].len() > 0);
            let last = self.queues@[g].len() - 1;
            self.lemma_neighbours(g, last);
            if k > 0 {
                assert(self.queue_pos(h, k - 1));
            }
            if g == h {
                if k == last {
                    assert(after.queues@[g][after.queues@[g].len() - 1] == q[k - 1]);
                } else {
                    assert(after.queues@[g][after.queues@[g].len() - 1] == q[last]);
                }
            }
        }
        assert forall|g: int, j: int, g2: int, j2: int|
            after.queue_pos(g, j) && after.queue_pos(g2, j2) && #[trigger] after.queues@[g][j]
                == #[trigger] after.queues@[g2][j2] implies g == g2 && j == j2 by {
            let a = if g == h && j >= k { j + 1 } else { j };
            let b = if g2 == h && j2 >= k { j2 + 1 } else { j2 };
            assert(self.queue_pos(g, a) && self.queue_pos(g2, b));
            assert(self.queues@[g][a] == self.queues@[g2][b]);
        }
        assert forall|i: usize|
            after.in_range(i as int) && (#[trigger] after.nodes@[i as int]).ptrs.recalc_state
                == RecalcState::Pending implies after.queued(i) by {
            assert(i != node);
            assert(self.queued(i));
            let (g, j) = choose|g: int, j: int|
                self.queue_pos(g, j) && #[trigger] self.queues@[g][j] == i;
            let j1 = if g == h && j > k { j - 1 } else { j };
            assert(after.queue_pos(g, j1) && after.queues@[g][j1] == i);
        }
    }

    /// `self` is what `before` becomes when the next node is taken from the
    /// queue, and `r` what taking it returns: `None` when every queue is
    /// empty, and then no node and no queue changes and the upper bound of
    /// the queue is 0; otherwise the height of the lowest queue that is not
    /// empty, which is the lower bound now, and its first node, which leaves
    /// the queue and is `Ready`.
    pub open spec fn popped_from(&self, before: &Graph<C>, r: Option<(usize, usize)>) -> bool {
        &&& self.wf()
        &&& self.same_but_queues(before)
        &&& r is None <==> before.queue_is_empty()
        &&& r is None ==> self.queues@ == before.queues@ && self.nodes == before.nodes
            && self.recalc_max_height == 0
        &&& match r {
            None => true,
            Some((h, n)) => {
                &&& 0 <= h < before.max_height()
                &&& before.queues@[h as int].len() > 0
                &&& forall|g: int| 0 <= g < h ==> (#[trigger] before.queues@[g]).len() == 0
                &&& n == before.queues@[h as int][0]
                &&& self.recalc_min_height == h
                &&& self.recalc_max_height == before.recalc_max_height
                &&& self.queues@ == before.queues@.update(
                    h as int,
                    before.queues@[h as int].drop_first(),
                )
                &&& self.alive(n as int)
                &&& self.nodes@[n as int].ptrs.recalc_state == RecalcState::Ready
                &&& forall|i: int|
                    0 <= i < before.len() && i != n
                        ==> (#[trigger] self.nodes@[i]).ptrs.recalc_state
                            == before.nodes@[i].ptrs.recalc_state
            },
        }
    }

    /// Takes the first node out of the lowest queue that is not empty, and
    /// marks it `Ready`. Returns the height of that queue and the slot, or
    /// `None` when every queue is empty.
    pub fn recalc_pop_next(&mut self) -> (r: Option<(usize, usize)>)
        requires
            old(self).wf(),
        ensures
            final(self).popped_from(old(self), r),
    {
        while self.recalc_min_height <= self.recalc_max_height && self.recalc_min_height
            < self.recalc_queues.len()
            invariant
                self.wf(),
                self.nodes == old(self).nodes,
                self.queues == old(self).queues,
                self.recalc_queues == old(self).recalc_queues,
                self.free_list == old(self).free_list,
                self.free_head == old(self).free_head,
                self.token == old(self).token,
                self.recalc_max_height == old(self).recalc_max_height,
            decreases self.recalc_queues@.len() - self.recalc_min_height,
        {
            let m: usize = self.recalc_min_height;
            let ghost before = *self;
            match self.recalc_queues[m] {
                Some(ptr) => {
                    proof {
                        before.lemma_head(m as int);
                        before.lemma_neighbours(m as int, 0);
                    }
                    let next = self.nodes[ptr].ptrs.next;
                    self.recalc_queues[m] = next;
                    if let Some(n) = next {
                        self.nodes[n].ptrs.prev = None;
                    }
                    self.nodes[ptr].ptrs.prev = None;
                    self.nodes[ptr].ptrs.next = None;
                    self.nodes[ptr].ptrs.recalc_state = RecalcState::Ready;
                    proof {
                        self.queues@ = before.queues@.update(
                            m as int,
                            before.queues@[m as int].remove(0),
                        );
                        assert(before.queues@[m as int].remove(0)
                            =~= before.queues@[m as int].drop_first());
                        before.lemma_queue_frame(self);
                        assert forall|g: int|
                            0 <= g < before.queues@.len() && (#[trigger] before.queues@[g]).len()
                                > 0 implies self.recalc_min_height <= g
                            <= self.recalc_max_height by {
                            before.lemma_head(g);
                        }
                        before.lemma_unlink(self, m as int, 0);
                        assert(!old(self).queue_is_empty());
                    }
                    return Some((m, ptr));
                },
                None => {
                    self.recalc_min_height = m + 1;
                    proof {
                        before.lemma_head(m as int);
                        before.lemma_queue_frame(self);
                        assert forall|g: int|
                            0 <= g < self.queues@.len() && (#[trigger] self.queues@[g]).len()
                                > 0 implies self.recalc_min_height <= g
                            <= self.recalc_max_height by {
                            before.lemma_head(g);
                        }
                        before.lemma_rebound(self);
                    }
                },
            }
        }
        let ghost before = *self;
        self.recalc_max_height = 0;
        proof {
            before.lemma_queue_frame(self);
            assert forall|g: int| 0
                <= g < self.queues@.len() implies (#[trigger] self.queues@[g]).len()
                == 0 by {
                before.lemma_head(g);
            }
            before.lemma_rebound(self);
        }
        None
    }

    /// Finds the queue whose first node is `node`: that of the node's height,
    /// or a lower one if the height has grown since the node was queued.
    fn find_queue(&self, node: usize, Ghost(h): Ghost<int>) -> (b: usize)
        requires
            self.wf(),
            self.queue_pos(h, 0),
            self.queues@[h][0] == node,
        ensures
            b == h,
    {
        proof {
            self.lemma_neighbours(h, 0);
        }
        let height: usize = self.nodes[node].ptrs.height;
        let mut b: usize = if height < self.recalc_queues.len() {
            height
        } else {
            self.recalc_queues.len() - 1
        };
        loop
            invariant
                h <= b < self.recalc_queues@.len(),
                self.wf(),
                self.queue_pos(h, 0),
                self.queues@[h][0] == node,
            ensures
                b == h,
            decreases b,
        {
            let found = match self.recalc_queues[b] {
                Some(i) => i == node,
                None => false,
            };
            proof {
                self.lemma_head(b as int);
                self.lemma_head(h);
                if found {
                    self.lemma_one_place(h, 0, b as int, 0);
                }
            }
            if found {
                break ;
            }
            b = b - 1;
        }
        b
    }

    /// Takes a node that is `Pending` out of the queue it sits in, clears its
    /// links, and marks it `Needed`. A node that is not `Pending` is left as
    /// it is.
    pub fn dequeue_calc(&mut self, node: usize)
        requires
            old(self).wf(),
            old(self).alive(node as int),
        ensures
            final(self).wf(),
            final(self).same_but_queues(old(self)),
            old(self).nodes@[node as int].ptrs.recalc_state != RecalcState::Pending ==> *final(self)
                == *old(self),
            old(self).nodes@[node as int].ptrs.recalc_state == RecalcState::Pending ==> {
                &&& final(self).nodes@[node as int].ptrs.recalc_state == RecalcState::Needed
                &&& final(self).nodes@[node as int].ptrs.prev is None
                &&& final(self).nodes@[node as int].ptrs.next is None
                &&& !final(self).queued(node)
                &&& exists|h: int, k: int|
                    old(self).queue_pos(h, k) && #[trigger] old(self).queues@[h][k] == node
                        && final(self).queues@ == old(self).queues@.update(
                        h,
                        old(self).queues@[h].remove(k),
                    )
            },
            forall|i: int|
                0 <= i < old(self).len() && i != node
                    ==> (#[trigger] final(self).nodes@[i]).ptrs.recalc_state
                    == old(self).nodes@[i].ptrs.recalc_state,
    {
        if self.nodes[node].ptrs.recalc_state != RecalcState::Pending {
            return ;
        }
        let ghost before = *self;
        proof {
            before.lemma_queued(node);
        }
        let ghost (h, k) = choose|h: int, k: int|
            before.queue_pos(h, k) && #[trigger] before.queues@[h][k] == node;
        proof {
            before.lemma_neighbours(h, k);
        }
        let prev = self.nodes[node].ptrs.prev;
        let next = self.nodes[node].ptrs.next;
        match prev {
            Some(p) => {
                self.nodes[p].ptrs.next = next;
            },
            None => {
                let b: usize = self.find_queue(node, Ghost(h));
                self.recalc_queues[b] = next;
            },
        }
        if let Some(n) = next {
            self.nodes[n].ptrs.prev = prev;
        }
        self.nodes[node].ptrs.prev = None;
        self.nodes[node].ptrs.next = None;
        self.nodes[node].ptrs.recalc_state = RecalcState::Needed;
        proof {
            self.queues@ = before.queues@.update(h, before.queues@[h].remove(k));
            before.lemma_queue_frame(self);
            assert forall|g: int|
                0 <= g < before.queues@.len() && (#[trigger] before.queues@[g]).len()
                    > 0 implies self.recalc_min_height <= g <= self.recalc_max_height by {
                before.lemma_head(g);
            }
            before.lemma_unlink(self, h, k);
            self.lemma_not_queued(node);
        }
    }
}

} // verus!
