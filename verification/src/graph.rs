//! The node store, the free list, and the height-indexed recalculation queue.

use vstd::prelude::*;
use crate::anchor::AnchorHandle;
use crate::node::{Node, NodeKey, NodePtrs, RecalcState};
use crate::node_guard::NodeGuard;

verus! {

/// The graph owns every node. Nodes name each other by key; a slot whose node
/// was freed is linked into the free list and reused by a later `insert`.
pub struct Graph<C> {
    pub nodes: Vec<Node<C>>,
    /// The stamp that the next reused slot will carry is one above this.
    pub token: u32,
    /// For each height, the first node of that height's queue.
    pub recalc_queues: Vec<Option<usize>>,
    pub recalc_min_height: usize,
    pub recalc_max_height: usize,
    /// The first node of the free list.
    pub free_head: Option<usize>,
    /// For each height, the slots in its queue, first to last.
    pub queues: Ghost<Seq<Seq<usize>>>,
    /// The slots in the free list, first to last.
    pub free_list: Ghost<Seq<usize>>,
}

impl<C> Graph<C> {
    /// The number of slots.
    pub open spec fn len(&self) -> int {
        self.nodes@.len() as int
    }

    /// The configured maximum height: queue heights are below it.
    pub open spec fn max_height(&self) -> int {
        self.recalc_queues@.len() as int
    }

    /// `i` is a slot of the graph.
    pub open spec fn in_range(&self, i: int) -> bool {
        0 <= i < self.nodes@.len()
    }

    /// Slot `i` holds a node that is alive.
    pub open spec fn alive(&self, i: int) -> bool {
        self.in_range(i) && self.nodes@[i].alive()
    }

    /// The key that names the node in slot `i` now.
    pub open spec fn key_of(&self, i: int) -> NodeKey {
        NodeKey { ptr: i as usize, token: self.nodes@[i].token }
    }

    /// The key names a node that is alive.
    pub open spec fn valid_key(&self, k: NodeKey) -> bool {
        self.alive(k.ptr as int) && self.nodes@[k.ptr as int].token == k.token
    }

    /// The key was made by this graph: it names a slot, with a stamp that the
    /// slot carries or carried earlier.
    pub open spec fn known_key(&self, k: NodeKey) -> bool {
        self.in_range(k.ptr as int) && k.token <= self.nodes@[k.ptr as int].token
    }

    /// Every key stored in a node was made by this graph.
    #[verifier::opaque]
    pub open spec fn wf_keys(&self) -> bool {
        &&& forall|i: int, j: int|
            self.in_range(i) && 0 <= j < self.nodes@[i].parents().len() ==> self.known_key(
                #[trigger] self.nodes@[i].parents()[j],
            )
        &&& forall|i: int, j: int|
            self.in_range(i) && 0 <= j < self.nodes@[i].children().len() ==> self.known_key(
                #[trigger] self.nodes@[i].children()[j],
            )
        &&& forall|i: int| self.in_range(i) ==> (#[trigger] self.nodes@[i]).token <= self.token
    }

    /// Every clean parent stands strictly higher than its child.
    #[verifier::opaque]
    pub open spec fn wf_heights(&self) -> bool {
        forall|i: int, j: int|
            self.in_range(i) && 0 <= j < self.nodes@[i].parents().len() && self.valid_key(
                #[trigger] self.nodes@[i].parents()[j],
            ) ==> self.nodes@[self.nodes@[i].parents()[j].ptr as int].ptrs.height
                > self.nodes@[i].ptrs.height
    }

    /// The lists of necessary children are strictly sorted.
    #[verifier::opaque]
    pub open spec fn wf_sorted(&self) -> bool {
        forall|i: int, a: int, b: int|
            self.in_range(i) && 0 <= a < b < self.nodes@[i].children().len() ==> (
            #[trigger] self.nodes@[i].children()[a]).spec_lt(
                #[trigger] self.nodes@[i].children()[b],
            )
    }

    /// Node `p` lists `k` as a necessary child.
    pub open spec fn lists_child(&self, p: int, k: NodeKey) -> bool {
        self.in_range(p) && self.nodes@[p].children().contains(k)
    }

    /// The nodes that list `k` as a necessary child.
    pub open spec fn necessary_parents(&self, k: NodeKey) -> Set<int> {
        Set::new(|p: int| self.lists_child(p, k))
    }

    /// The necessary count of a live node is the number of nodes that list it.
    #[verifier::opaque]
    pub open spec fn wf_counts(&self) -> bool {
        forall|i: int|
            self.alive(i) ==> (#[trigger] self.nodes@[i]).necessary_count
                == self.necessary_parents(self.key_of(i)).len()
    }

    /// A freed node holds nothing.
    #[verifier::opaque]
    pub open spec fn wf_dead(&self) -> bool {
        forall|i: int|
            self.in_range(i) && !(#[trigger] self.nodes@[i]).alive() ==> {
                &&& self.nodes@[i].anchor is None
                &&& self.nodes@[i].parents().len() == 0
                &&& self.nodes@[i].children().len() == 0
                &&& self.nodes@[i].ptrs.recalc_state == RecalcState::Needed
            }
    }

    /// No node is marked as visited between operations.
    #[verifier::opaque]
    pub open spec fn wf_visited(&self) -> bool {
        forall|i: int| self.in_range(i) ==> !(#[trigger] self.nodes@[i]).visited
    }

    /// Position `k` of the queue of height `h` exists.
    pub open spec fn queue_pos(&self, h: int, k: int) -> bool {
        0 <= h < self.queues@.len() && 0 <= k < self.queues@[h].len()
    }

    /// The queues hold exactly the live nodes that are `Pending`, each once,
    /// linked in order, none above its own height.
    #[verifier::opaque]
    pub open spec fn wf_queues(&self) -> bool {
        &&& self.queues@.len() == self.recalc_queues@.len()
        &&& forall|h: int, k: int|
            self.queue_pos(h, k) ==> {
                let i = #[trigger] self.queues@[h][k];
                &&& self.alive(i as int)
                &&& self.nodes@[i as int].ptrs.recalc_state == RecalcState::Pending
                &&& h <= self.nodes@[i as int].ptrs.height
            }
        &&& forall|h: int, k: int, k2: int|
            self.queue_pos(h, k) && self.queue_pos(h, k2) && k2 == k + 1 ==> {
                &&& self.nodes@[#[trigger] self.queues@[h][k] as int].ptrs.next == Some(
                    self.queues@[h][k2],
                )
                &&& self.nodes@[#[trigger] self.queues@[h][k2] as int].ptrs.prev == Some(
                    self.queues@[h][k],
                )
            }
        &&& forall|h: int|
            0 <= h < self.queues@.len() ==> match #[trigger] self.recalc_queues@[h] {
                None => self.queues@[h].len() == 0,
                Some(i) => self.queues@[h].len() > 0 && self.queues@[h][0] == i
                    && self.nodes@[i as int].ptrs.prev is None,
            }
        &&& forall|h: int|
            0 <= h < self.queues@.len() && (#[trigger] self.queues@[h]).len() > 0 ==> {
                &&& self.nodes@[self.queues@[h][self.queues@[h].len() - 1] as int].ptrs.next is None
                &&& self.recalc_min_height <= h <= self.recalc_max_height
            }
        &&& forall|h: int, k: int, h2: int, k2: int|
            self.queue_pos(h, k) && self.queue_pos(h2, k2) && #[trigger] self.queues@[h][k]
                == #[trigger] self.queues@[h2][k2] ==> h == h2 && k == k2
        &&& forall|i: usize|
            self.in_range(i as int) && (#[trigger] self.nodes@[i as int]).ptrs.recalc_state
                == RecalcState::Pending ==> self.queued(i)
    }

    /// Slot `i` sits in one of the queues.
    pub open spec fn queued(&self, i: usize) -> bool {
        exists|h: int, k: int| self.queue_pos(h, k) && #[trigger] self.queues@[h][k] == i
    }

    /// The free list holds freed nodes, each once, linked in order.
    #[verifier::opaque]
    pub open spec fn wf_free(&self) -> bool {
        &&& forall|k: int|
            0 <= k < self.free_list@.len() ==> {
                let i = #[trigger] self.free_list@[k];
                &&& self.in_range(i as int)
                &&& !self.nodes@[i as int].alive()
            }
        &&& forall|k: int, k2: int|
            0 <= k < self.free_list@.len() && 0 <= k2 < self.free_list@.len() && k2 == k + 1
                ==> self.nodes@[#[trigger] self.free_list@[k] as int].ptrs.next == Some(
                #[trigger] self.free_list@[k2],
            )
        &&& match self.free_head {
            None => self.free_list@.len() == 0,
            Some(i) => self.free_list@.len() > 0 && self.free_list@[0] == i,
        }
        &&& self.free_list@.len() > 0 ==> self.nodes@[self.free_list@[self.free_list@.len()
            - 1] as int].ptrs.next is None
        &&& forall|k: int, k2: int|
            0 <= k < self.free_list@.len() && 0 <= k2 < self.free_list@.len()
                && #[trigger] self.free_list@[k] == #[trigger] self.free_list@[k2] ==> k == k2
    }

    /// The part of the invariant that also holds while heights are being
    /// raised.
    pub open spec fn wf_static(&self) -> bool {
        &&& self.wf_keys()
        &&& self.wf_sorted()
        &&& self.wf_counts()
        &&& self.wf_dead()
        &&& self.wf_queues()
        &&& self.wf_free()
        &&& self.queues@.len() == self.recalc_queues@.len()
        &&& self.nodes@.len() <= usize::MAX
    }

    /// The invariant of the graph between operations.
    pub open spec fn wf(&self) -> bool {
        &&& self.wf_static()
        &&& self.wf_heights()
        &&& self.wf_visited()
    }

    /// A graph without nodes, whose queue takes heights below `max_height`,
    /// and whose counter of stamps stands at its beginning.
    pub fn new(max_height: usize) -> (g: Graph<C>)
        ensures
            g.wf(),
            g.len() == 0,
            g.max_height() == max_height,
            g.queue_is_empty(),
            g.free_list@.len() == 0,
            g.free_head is None,
            g.token == 0,
            g.recalc_min_height == max_height,
            g.recalc_max_height == 0,
    {
        let mut recalc_queues: Vec<Option<usize>> = Vec::new();
        let mut h: usize = 0;
        while h < max_height
            invariant
                h <= max_height,
                recalc_queues@.len() == h,
                forall|j: int| 0 <= j < h ==> recalc_queues@[j] == None::<usize>,
            decreases max_height - h,
        {
            recalc_queues.push(None);
            h += 1;
        }
        let g = Graph {
            nodes: Vec::new(),
            token: 0,
            recalc_queues,
            recalc_min_height: max_height,
            recalc_max_height: 0,
            free_head: None,
            queues: Ghost(Seq::new(max_height as nat, |h: int| Seq::<usize>::empty())),
            free_list: Ghost(Seq::empty()),
        };
        proof {
            reveal(Graph::<_>::wf_keys);
            reveal(Graph::<_>::wf_heights);
            reveal(Graph::<_>::wf_sorted);
            reveal(Graph::<_>::wf_counts);
            reveal(Graph::<_>::wf_dead);
            reveal(Graph::<_>::wf_visited);
            reveal(Graph::<_>::wf_queues);
            reveal(Graph::<_>::wf_free);
        }
        g
    }

    /// No node is queued for recalculation.
    pub open spec fn queue_is_empty(&self) -> bool {
        forall|h: int| 0 <= h < self.queues@.len() ==> (#[trigger] self.queues@[h]).len() == 0
    }

    /// True when the key carries the stamp of the slot it names.
    pub fn accepts_key(&self, node_key: NodeKey) -> (r: bool)
        ensures
            r == (self.in_range(node_key.ptr as int) && self.nodes@[node_key.ptr as int].token
                == node_key.token),
    {
        node_key.ptr < self.nodes.len() && self.nodes[node_key.ptr].token == node_key.token
    }

    /// Resolves a key to the slot of the live node it names. A key whose node
    /// was freed resolves to nothing, also after the slot has been reused.
    pub fn get(&self, key: NodeKey) -> (r: Option<NodeGuard>)
        ensures
            self.valid_key(key) ==> r == Some(NodeGuard { ptr: key.ptr }),
            !self.valid_key(key) ==> r is None,
    {
        match self.slot_of(key) {
            Some(ptr) => Some(NodeGuard { ptr }),
            None => None,
        }
    }

    /// The slot of the live node that a key names, if it names one.
    pub fn slot_of(&self, key: NodeKey) -> (r: Option<usize>)
        ensures
            self.valid_key(key) ==> r == Some(key.ptr),
            !self.valid_key(key) ==> r is None,
    {
        if !self.accepts_key(key) {
            return None;
        }
        if self.nodes[key.ptr].ptrs.handle_count == 0 {
            return None;
        }
        Some(key.ptr)
    }

    /// What the invariant says of a freed node.
    pub proof fn lemma_dead(&self, i: int)
        requires
            self.wf(),
            self.in_range(i),
            !self.nodes@[i].alive(),
        ensures
            self.nodes@[i].anchor is None,
            self.nodes@[i].parents().len() == 0,
            self.nodes@[i].children().len() == 0,
            self.nodes@[i].ptrs.recalc_state == RecalcState::Needed,
    {
        reveal(Graph::<_>::wf_dead);
    }

    /// A record for a computation that has just been mounted.
    pub fn fresh_node(anchor: C, token: u32) -> (n: Node<C>)
        ensures
            n.is_fresh(),
            n.token == token,
            n.anchor == Some(anchor),
    {
        Node {
            observed: false,
            visited: false,
            necessary_count: 0,
            token,
            last_ready: None,
            last_update: None,
            anchor: Some(anchor),
            ptrs: NodePtrs {
                clean_parent0: None,
                clean_parents: Vec::new(),
                next: None,
                prev: None,
                recalc_state: RecalcState::Needed,
                necessary_children: Vec::new(),
                height: 0,
                handle_count: 1,
            },
        }
    }

    /// No stored key names a slot from `len` on, or carries a stamp above
    /// that of its slot.
    pub proof fn lemma_nobody_lists(&self, k: NodeKey)
        requires
            self.wf(),
            !self.known_key(k),
        ensures
            self.necessary_parents(k) == Set::<int>::empty(),
            forall|i: int, j: int|
                self.in_range(i) && 0 <= j < self.nodes@[i].parents().len()
                    ==> #[trigger] self.nodes@[i].parents()[j] != k,
    {
        reveal(Graph::<_>::wf_keys);
        assert forall|p: int| !self.lists_child(p, k) by {
            if self.lists_child(p, k) {
                let j = choose|j: int|
                    0 <= j < self.nodes@[p].children().len() && self.nodes@[p].children()[j] == k;
                assert(self.known_key(self.nodes@[p].children()[j]));
            }
        }
        assert(self.necessary_parents(k) =~= Set::<int>::empty());
        assert forall|i: int, j: int|
            self.in_range(i) && 0 <= j < self.nodes@[i].parents().len()
                implies #[trigger] self.nodes@[i].parents()[j] != k by {
            assert(self.known_key(self.nodes@[i].parents()[j]));
        }
    }

    /// Mounts a computation: puts it into the first slot of the free list, or
    /// into a new slot when there is none, and returns the first handle to
    /// the new node.
    pub fn insert(&mut self, anchor: C) -> (r: AnchorHandle)
        requires
            old(self).wf(),
        ensures
            final(self).wf(),
            final(self).inserted_from(old(self), r.node_key),
            final(self).valid_key(r.node_key),
            !old(self).known_key(r.node_key),
            final(self).nodes@[r.node_key.ptr as int].is_fresh(),
            final(self).nodes@[r.node_key.ptr as int].anchor == Some(anchor),
            final(self).recalc_queues == old(self).recalc_queues,
            final(self).queues == old(self).queues,
            final(self).recalc_min_height == old(self).recalc_min_height,
            final(self).recalc_max_height == old(self).recalc_max_height,
            forall|i: int|
                old(self).alive(i) ==> #[trigger] final(self).nodes@[i] == old(self).nodes@[i],
            forall|i: int|
                0 <= i < old(self).len() && i != r.node_key.ptr ==> crate::queue::same_but_queue(
                    #[trigger] final(self).nodes@[i],
                    old(self).nodes@[i],
                ),
            forall|k: NodeKey|
                k != r.node_key ==> #[trigger] final(self).valid_key(k) == old(self).valid_key(k),
            old(self).reuses() ==> {
                &&& r.node_key.ptr == old(self).free_list@[0]
                &&& final(self).free_list@ == old(self).free_list@.drop_first()
                &&& final(self).len() == old(self).len()
                &&& final(self).token == old(self).token + 1
                &&& final(self).free_head
                    == old(self).nodes@[old(self).free_list@[0] as int].ptrs.next
                &&& old(self).free_list@.len() > 1 ==> final(self).free_head == Some(
                    old(self).free_list@[1],
                ) && final(self).nodes@[old(self).free_list@[1] as int].ptrs.prev is None
            },
            !old(self).reuses() ==> {
                &&& r.node_key.ptr == old(self).len()
                &&& final(self).free_list@ == old(self).free_list@
                &&& final(self).len() == old(self).len() + 1
                &&& final(self).token == old(self).token
            },
    {
        let ghost before = *self;
        let reuse: Option<usize> = match self.free_head {
            Some(head) => if self.token < u32::MAX {
                Some(head)
            } else {
                None
            },
            None => None,
        };
        proof {
            before.lemma_free_head();
        }
        match reuse {
            Some(head) => {
                let next = self.nodes[head].ptrs.next;
                self.free_head = next;
                if let Some(n) = next {
                    self.nodes[n].ptrs.prev = None;
                }
                self.token = self.token + 1;
                let token: u32 = self.token;
                let node = Self::fresh_node(anchor, token);
                self.nodes[head] = node;
                proof {
                    self.free_list@ = before.free_list@.drop_first();
                    before.lemma_inserted(self, head);
                }
                AnchorHandle::new(NodeKey::new(head, token))
            },
            None => {
                let token: u32 = self.token;
                let at: usize = self.nodes.len();
                let node = Self::fresh_node(anchor, token);
                self.nodes.push(node);
                let grown: usize = self.nodes.len();
                proof {
                    before.lemma_inserted(self, at);
                }
                AnchorHandle::new(NodeKey::new(at, token))
            },
        }
    }

    /// `self` is what `before` becomes when a computation is mounted and gets
    /// the key `key`: the key is new, it names a fresh node, and every other
    /// key names what it named.
    pub open spec fn inserted_from(&self, before: &Graph<C>, key: NodeKey) -> bool {
        &&& !before.known_key(key)
        &&& self.valid_key(key)
        &&& self.nodes@[key.ptr as int].is_fresh()
        &&& forall|k: NodeKey| k != key ==> #[trigger] self.valid_key(k) == before.valid_key(k)
        &&& forall|i: int| before.alive(i) ==> #[trigger] self.nodes@[i] == before.nodes@[i]
    }

    /// The next `insert` takes its slot from the free list.
    pub open spec fn reuses(&self) -> bool {
        self.free_list@.len() > 0 && self.token < u32::MAX
    }

    /// What the invariant says of the head of the free list.
    pub proof fn lemma_free_head(&self)
        requires
            self.wf(),
        ensures
            self.free_head is Some <==> self.free_list@.len() > 0,
            self.free_list@.len() > 0 ==> {
                &&& self.free_head == Some(self.free_list@[0])
                &&& self.in_range(self.free_list@[0] as int)
                &&& !self.nodes@[self.free_list@[0] as int].alive()
                &&& self.nodes@[self.free_list@[0] as int].ptrs.next == (if self.free_list@.len()
                    == 1 {
                    None
                } else {
                    Some(self.free_list@[1])
                })
                &&& self.free_list@.len() > 1 ==> self.in_range(self.free_list@[1] as int)
                    && !self.nodes@[self.free_list@[1] as int].alive() && self.free_list@[1]
                    != self.free_list@[0]
            },
    {
        reveal(Graph::<_>::wf_free);
        if self.free_list@.len() > 1 {
            assert(self.in_range(self.free_list@[1] as int));
        }
    }

    /// After a fresh node was put into slot `at`, which was free or is new,
    /// the invariant holds again.
    pub proof fn lemma_inserted(&self, after: &Graph<C>, at: usize)
        requires
            self.wf(),
            after.nodes@.len() <= usize::MAX,
            after.recalc_queues == self.recalc_queues,
            after.queues == self.queues,
            after.recalc_min_height == self.recalc_min_height,
            after.recalc_max_height == self.recalc_max_height,
            after.in_range(at as int),
            after.nodes@[at as int].is_fresh(),
            after.nodes@[at as int].token == after.token,
            self.reuses() ==> {
                &&& at == self.free_list@[0]
                &&& after.free_list@ == self.free_list@.drop_first()
                &&& after.nodes@.len() == self.nodes@.len()
                &&& after.token == self.token + 1
                &&& after.free_head == self.nodes@[at as int].ptrs.next
            },
            !self.reuses() ==> {
                &&& at == self.nodes@.len()
                &&& after.free_list@ == self.free_list@
                &&& after.nodes@.len() == self.nodes@.len() + 1
                &&& after.token == self.token
                &&& after.free_head == self.free_head
            },
            forall|i: int|
                self.in_range(i) && i != at ==> crate::queue::same_but_queue(
                    #[trigger] after.nodes@[i],
                    self.nodes@[i],
                ) && after.nodes@[i].ptrs.next == self.nodes@[i].ptrs.next
                    && after.nodes@[i].ptrs.recalc_state == self.nodes@[i].ptrs.recalc_state,
            forall|i: int| self.alive(i) ==> #[trigger] after.nodes@[i] == self.nodes@[i],
        ensures
            after.wf(),
            !self.known_key(after.key_of(at as int)),
            after.valid_key(after.key_of(at as int)),
            forall|k: NodeKey|
                k != after.key_of(at as int) ==> #[trigger] after.valid_key(k) == self.valid_key(k),
    {
        reveal(Graph::<_>::wf_keys);
        reveal(Graph::<_>::wf_heights);
        reveal(Graph::<_>::wf_sorted);
        reveal(Graph::<_>::wf_counts);
        reveal(Graph::<_>::wf_dead);
        reveal(Graph::<_>::wf_visited);
        reveal(Graph::<_>::wf_free);
        let key = after.key_of(at as int);
        self.lemma_free_head();
        if self.reuses() {
            assert(self.nodes@[at as int].token <= self.token);
        }
        assert(!self.known_key(key));
        assert forall|k: NodeKey| k != key implies #[trigger] after.valid_key(k) == self.valid_key(
            k,
        ) by {
            if k.ptr != at {
                if self.in_range(k.ptr as int) {
                    assert(crate::queue::same_but_queue(
                        after.nodes@[k.ptr as int],
                        self.nodes@[k.ptr as int],
                    ));
                }
            }
        }
        self.lemma_nobody_lists(key);
        assert forall|i: int| self.in_range(i) && i
            != at implies (#[trigger] after.nodes@[i]).parents()
            == self.nodes@[i].parents() && after.nodes@[i].children()
                == self.nodes@[i].children() by {
            assert(crate::queue::same_but_queue(after.nodes@[i], self.nodes@[i]));
        }
        assert forall|k: NodeKey| #[trigger]
            after.necessary_parents(k) == self.necessary_parents(k) by {
            assert forall|p: int| after.lists_child(p, k) == self.lists_child(p, k) by {
                if self.in_range(p) && p != at {
                    assert(crate::queue::same_but_queue(after.nodes@[p], self.nodes@[p]));
                }
            }
            assert(after.necessary_parents(k) =~= self.necessary_parents(k));
        }
        assert(after.wf_keys()) by {
            assert forall|i: int, j: int|
                after.in_range(i) && 0 <= j < after.nodes@[i].parents().len()
                    implies after.known_key(#[trigger] after.nodes@[i].parents()[j]) by {
                let k = self.nodes@[i].parents()[j];
                assert(self.known_key(k));
                if k.ptr != at {
                    assert(crate::queue::same_but_queue(
                        after.nodes@[k.ptr as int],
                        self.nodes@[k.ptr as int],
                    ));
                }
            }
            assert forall|i: int, j: int|
                after.in_range(i) && 0 <= j < after.nodes@[i].children().len()
                    implies after.known_key(#[trigger] after.nodes@[i].children()[j]) by {
                let k = self.nodes@[i].children()[j];
                assert(self.known_key(k));
                if k.ptr != at {
                    assert(crate::queue::same_but_queue(
                        after.nodes@[k.ptr as int],
                        self.nodes@[k.ptr as int],
                    ));
                }
            }
            assert forall|i: int| after.in_range(i) implies (#[trigger] after.nodes@[i]).token
                <= after.token by {
                if i != at {
                    assert(crate::queue::same_but_queue(after.nodes@[i], self.nodes@[i]));
                }
            }
        }
        assert(after.wf_heights()) by {
            assert forall|i: int, j: int|
                after.in_range(i) && 0 <= j < after.nodes@[i].parents().len() && after.valid_key(
                    #[trigger] after.nodes@[i].parents()[j],
                ) implies after.nodes@[after.nodes@[i].parents()[j].ptr as int].ptrs.height
                > after.nodes@[i].ptrs.height by {
                let k = self.nodes@[i].parents()[j];
                assert(k != key);
                assert(self.known_key(k));
                assert(k.ptr != at);
                assert(crate::queue::same_but_queue(
                    after.nodes@[k.ptr as int],
                    self.nodes@[k.ptr as int],
                ));
                assert(crate::queue::same_but_queue(after.nodes@[i], self.nodes@[i]));
                assert(self.valid_key(k));
            }
        }
        assert(after.wf_sorted()) by {
            assert forall|i: int, a: int, b: int|
                after.in_range(i) && 0 <= a < b < after.nodes@[i].children().len() implies (
            #[trigger] after.nodes@[i].children()[a]).spec_lt(
                #[trigger] after.nodes@[i].children()[b],
            ) by {
                assert(i != at);
            }
        }
        assert(after.wf_counts()) by {
            assert forall|i: int| after.alive(i) implies (#[trigger] after.nodes@[i]).necessary_count
                == after.necessary_parents(after.key_of(i)).len() by {
                if i != at {
                    assert(crate::queue::same_but_queue(after.nodes@[i], self.nodes@[i]));
                    assert(self.alive(i));
                    assert(after.key_of(i) == self.key_of(i));
                }
            }
        }
        assert(after.wf_dead()) by {
            assert forall|i: int|
                after.in_range(i) && !(#[trigger] after.nodes@[i]).alive() implies {
                &&& after.nodes@[i].anchor is None
                &&& after.nodes@[i].parents().len() == 0
                &&& after.nodes@[i].children().len() == 0
                &&& after.nodes@[i].ptrs.recalc_state == RecalcState::Needed
            } by {
                assert(crate::queue::same_but_queue(after.nodes@[i], self.nodes@[i]));
                assert(!self.nodes@[i].alive());
            }
        }
        assert(after.wf_visited()) by {
            assert forall|i: int| after.in_range(i) implies !(#[trigger] after.nodes@[i]).visited by {
                if i != at {
                    assert(crate::queue::same_but_queue(after.nodes@[i], self.nodes@[i]));
                }
            }
        }
        assert(after.wf_free()) by {
            let shift: int = if self.reuses() { 1 } else { 0 };
            assert forall|k: int| 0 <= k < after.free_list@.len() implies after.free_list@[k]
                == self.free_list@[k + shift] && after.free_list@[k] != at by {
                assert(self.in_range(self.free_list@[k + shift] as int));
            }
            assert forall|k: int| 0 <= k < after.free_list@.len() implies {
                let i = #[trigger] after.free_list@[k];
                &&& after.in_range(i as int)
                &&& !after.nodes@[i as int].alive()
            } by {
                let i = self.free_list@[k + shift];
                assert(self.in_range(i as int));
                assert(crate::queue::same_but_queue(after.nodes@[i as int], self.nodes@[i as int]));
            }
            assert forall|k: int, k2: int|
                0 <= k < after.free_list@.len() && 0 <= k2 < after.free_list@.len() && k2 == k
                    + 1 implies after.nodes@[#[trigger] after.free_list@[k] as int].ptrs.next
                == Some(#[trigger] after.free_list@[k2]) by {
                let i = self.free_list@[k + shift];
                let i2 = self.free_list@[k2 + shift];
                assert(self.in_range(i as int));
            }
            if after.free_list@.len() > 0 {
                let i = self.free_list@[self.free_list@.len() - 1];
                assert(after.free_list@[after.free_list@.len() - 1] == i);
                assert(self.in_range(i as int));
            }
            assert forall|k: int, k2: int|
                0 <= k < after.free_list@.len() && 0 <= k2 < after.free_list@.len()
                    && #[trigger] after.free_list@[k] == #[trigger] after.free_list@[k2] implies k
                == k2 by {
                assert(self.free_list@[k + shift] == self.free_list@[k2 + shift]);
            }
        }
        self.lemma_inserted_queues(after, at);
    }

    /// Putting a fresh node into a slot that was free or is new leaves the
    /// queues in order.
    pub proof fn lemma_inserted_queues(&self, after: &Graph<C>, at: usize)
        requires
            self.wf(),
            after.recalc_queues == self.recalc_queues,
            after.queues == self.queues,
            after.recalc_min_height == self.recalc_min_height,
            after.recalc_max_height == self.recalc_max_height,
            after.nodes@.len() >= self.nodes@.len(),
            after.nodes@.len() <= self.nodes@.len() + 1,
            after.nodes@.len() > self.nodes@.len() ==> at == self.nodes@.len(),
            after.in_range(at as int),
            after.nodes@[at as int].ptrs.recalc_state == RecalcState::Needed,
            !self.alive(at as int),
            forall|i: int| self.alive(i) ==> #[trigger] after.nodes@[i] == self.nodes@[i],
            forall|i: int|
                self.in_range(i) && i != at ==> (#[trigger] after.nodes@[i]).ptrs.recalc_state
                    == self.nodes@[i].ptrs.recalc_state,
        ensures
            after.wf_queues(),
    {
        reveal(Graph::<_>::wf_queues);
        assert forall|h: int, k: int| after.queue_pos(h, k) implies {
            let i = #[trigger] after.queues@[h][k];
            &&& after.alive(i as int)
            &&& after.nodes@[i as int].ptrs.recalc_state == RecalcState::Pending
            &&& h <= after.nodes@[i as int].ptrs.height
        } by {
            assert(self.queue_pos(h, k));
            let i = self.queues@[h][k];
            assert(self.alive(i as int));
        }
        assert forall|h: int, k: int, k2: int|
            after.queue_pos(h, k) && after.queue_pos(h, k2) && k2 == k + 1 implies {
            &&& after.nodes@[#[trigger] after.queues@[h][k] as int].ptrs.next == Some(
                after.queues@[h][k2],
            )
            &&& after.nodes@[#[trigger] after.queues@[h][k2] as int].ptrs.prev == Some(
                after.queues@[h][k],
            )
        } by {
            assert(self.queue_pos(h, k) && self.queue_pos(h, k2));
            assert(self.alive(self.queues@[h][k] as int));
            assert(self.alive(self.queues@[h][k2] as int));
        }
        assert forall|h: int| 0
            <= h < after.queues@.len() implies match #[trigger] after.recalc_queues@[h] {
            None => after.queues@[h].len() == 0,
            Some(i) => after.queues@[h].len() > 0 && after.queues@[h][0] == i
                && after.nodes@[i as int].ptrs.prev is None,
        } by {
            if self.queues@[h].len() > 0 {
                assert(self.queue_pos(h, 0));
                assert(self.alive(self.queues@[h][0] as int));
            }
        }
        assert forall|h: int|
            0 <= h < after.queues@.len() && (#[trigger] after.queues@[h]).len() > 0 implies {
            &&& after.nodes@[after.queues@[h][after.queues@[h].len() - 1] as int].ptrs.next is None
            &&& after.recalc_min_height <= h <= after.recalc_max_height
        } by {
            assert(self.queue_pos(h, self.queues@[h].len() - 1));
            assert(self.alive(self.queues@[h][self.queues@[h].len() - 1] as int));
        }
        assert forall|i: usize|
            after.in_range(i as int) && (#[trigger] after.nodes@[i as int]).ptrs.recalc_state
                == RecalcState::Pending implies after.queued(i) by {
            assert(i != at);
            assert(self.in_range(i as int));
            assert(self.queued(i));
            let (h, k) = choose|h: int, k: int|
                self.queue_pos(h, k) && #[trigger] self.queues@[h][k] == i;
            assert(after.queue_pos(h, k) && after.queues@[h][k] == i);
        }
    }
}

} // verus!
