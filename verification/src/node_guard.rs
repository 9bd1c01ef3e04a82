//! The edges of the graph: clean parents and necessary children.

use vstd::prelude::*;
use crate::graph::Graph;
use crate::node::{
    same_but_necessary, same_but_parents, same_structure, sorted_keys, NodeKey, RecalcState,
};

verus! {

/// A slot of the graph, as the operations on a node's edges take it.
#[derive(Copy, Clone, Eq, PartialEq, Structural, Debug)]
pub struct NodeGuard {
    pub ptr: usize,
}

impl<C> Graph<C> {
    /// The two graphs differ in their nodes only.
    pub open spec fn same_frame(&self, other: &Graph<C>) -> bool {
        &&& self.nodes@.len() == other.nodes@.len()
        &&& self.token == other.token
        &&& self.recalc_queues == other.recalc_queues
        &&& self.recalc_min_height == other.recalc_min_height
        &&& self.recalc_max_height == other.recalc_max_height
        &&& self.free_head == other.free_head
        &&& self.queues == other.queues
        &&& self.free_list == other.free_list
    }

    /// The two graphs differ in their nodes only, and of those only in the
    /// clean parents.
    pub open spec fn same_but_parents(&self, other: &Graph<C>) -> bool {
        &&& self.same_frame(other)
        &&& forall|i: int|
            0 <= i < self.nodes@.len() ==> same_but_parents(
                #[trigger] self.nodes@[i],
                other.nodes@[i],
            )
    }

    /// The two graphs differ in their nodes only, and of those only in the
    /// necessary children and the necessary counts.
    pub open spec fn same_but_necessary(&self, other: &Graph<C>) -> bool {
        &&& self.same_frame(other)
        &&& forall|i: int|
            0 <= i < self.nodes@.len() ==> same_but_necessary(
                #[trigger] self.nodes@[i],
                other.nodes@[i],
            )
    }

    /// Every clean parent that `i` records is a key of this graph, and stands
    /// higher than `i` if it is alive.
    pub open spec fn parents_ok(&self, i: int) -> bool {
        forall|j: int|
            0 <= j < self.nodes@[i].parents().len() ==> {
                let k = #[trigger] self.nodes@[i].parents()[j];
                &&& self.known_key(k)
                &&& self.valid_key(k) ==> self.nodes@[k.ptr as int].ptrs.height
                    > self.nodes@[i].ptrs.height
            }
    }

    /// What the invariant says of the clean parents of one node.
    pub proof fn lemma_parents_ok(&self, i: int)
        requires
            self.wf(),
            self.in_range(i),
        ensures
            self.parents_ok(i),
            !self.nodes@[i].alive() ==> self.nodes@[i].parents().len() == 0,
    {
        reveal(Graph::<_>::wf_keys);
        reveal(Graph::<_>::wf_heights);
        reveal(Graph::<_>::wf_dead);
    }

    /// The invariant survives a change of the clean parents of live nodes that
    /// leaves each of them with parents that stand higher.
    pub proof fn lemma_change_parents(&self, after: &Graph<C>)
        requires
            self.wf(),
            after.same_but_parents(self),
            forall|i: int| self.in_range(i) ==> #[trigger] after.parents_ok(i),
            forall|i: int|
                self.in_range(i) && !(#[trigger] self.nodes@[i]).alive()
                    ==> after.nodes@[i].parents().len() == 0,
        ensures
            after.wf(),
    {
        reveal(Graph::<_>::wf_keys);
        reveal(Graph::<_>::wf_heights);
        reveal(Graph::<_>::wf_sorted);
        reveal(Graph::<_>::wf_counts);
        reveal(Graph::<_>::wf_dead);
        reveal(Graph::<_>::wf_visited);
        reveal(Graph::<_>::wf_free);
        assert forall|i: int| after.in_range(i) implies (#[trigger] after.nodes@[i]).children()
            == self.nodes@[i].children() by {
            assert(same_but_parents(after.nodes@[i], self.nodes@[i]));
        }
        assert forall|k: NodeKey| #[trigger]
            after.necessary_parents(k) == self.necessary_parents(k) by {
            assert forall|p: int| after.lists_child(p, k) == self.lists_child(p, k) by {
                if self.in_range(p) {
                    assert(same_but_parents(after.nodes@[p], self.nodes@[p]));
                }
            }
            assert(after.necessary_parents(k) =~= self.necessary_parents(k));
        }
        assert(after.wf_keys()) by {
            assert forall|i: int, j: int|
                after.in_range(i) && 0 <= j < after.nodes@[i].parents().len()
                    implies after.known_key(#[trigger] after.nodes@[i].parents()[j]) by {
                assert(after.parents_ok(i));
            }
            assert forall|i: int, j: int|
                after.in_range(i) && 0 <= j < after.nodes@[i].children().len()
                    implies after.known_key(#[trigger] after.nodes@[i].children()[j]) by {
                let k = self.nodes@[i].children()[j];
                assert(self.known_key(k));
                assert(same_but_parents(after.nodes@[k.ptr as int], self.nodes@[k.ptr as int]));
            }
            assert forall|i: int| after.in_range(i) implies (#[trigger] after.nodes@[i]).token
                <= after.token by {
                assert(same_but_parents(after.nodes@[i], self.nodes@[i]));
            }
        }
        assert(after.wf_heights()) by {
            assert forall|i: int, j: int|
                after.in_range(i) && 0 <= j < after.nodes@[i].parents().len() && after.valid_key(
                    #[trigger] after.nodes@[i].parents()[j],
                ) implies after.nodes@[after.nodes@[i].parents()[j].ptr as int].ptrs.height
                > after.nodes@[i].ptrs.height by {
                assert(after.parents_ok(i));
            }
        }
        assert(after.wf_sorted());
        assert(after.wf_counts()) by {
            assert forall|i: int| after.alive(i) implies (#[trigger] after.nodes@[i]).necessary_count
                == after.necessary_parents(after.key_of(i)).len() by {
                assert(same_but_parents(after.nodes@[i], self.nodes@[i]));
                assert(self.alive(i));
                assert(after.key_of(i) == self.key_of(i));
            }
        }
        assert(after.wf_dead()) by {
            assert forall|i: int|
                after.in_range(i) && !(#[trigger] after.nodes@[i]).alive() implies {
                &&& after.nodes@[i].anchor is None
                &&& after.nodes@[i].parents().len() == 0
                &&& after.nodes@[i].children().len() == 0
                &&& after.nodes@[i].ptrs.recalc_state == RecalcState::Needed
            } by {
                assert(same_but_parents(after.nodes@[i], self.nodes@[i]));
                assert(!self.nodes@[i].alive());
            }
        }
        assert(after.wf_visited()) by {
            assert forall|i: int| after.in_range(i) implies !(#[trigger] after.nodes@[i]).visited by {
                assert(same_but_parents(after.nodes@[i], self.nodes@[i]));
            }
        }
        assert(after.wf_free()) by {
            assert forall|k: int| 0 <= k < after.free_list@.len() implies {
                let i = #[trigger] after.free_list@[k];
                &&& after.in_range(i as int)
                &&& !after.nodes@[i as int].alive()
            } by {
                let i = self.free_list@[k];
                assert(same_but_parents(after.nodes@[i as int], self.nodes@[i as int]));
            }
            assert forall|k: int, k2: int|
                0 <= k < after.free_list@.len() && 0 <= k2 < after.free_list@.len() && k2 == k
                    + 1 implies after.nodes@[#[trigger] after.free_list@[k] as int].ptrs.next
                == Some(#[trigger] after.free_list@[k2]) by {
                let i = self.free_list@[k];
                assert(same_but_parents(after.nodes@[i as int], self.nodes@[i as int]));
            }
            if after.free_list@.len() > 0 {
                let i = self.free_list@[self.free_list@.len() - 1];
                assert(same_but_parents(after.nodes@[i as int], self.nodes@[i as int]));
            }
        }
        self.lemma_keep_queues(after);
    }

    /// What the invariant says of the necessary children of one node.
    pub proof fn lemma_children_ok(&self, i: int)
        requires
            self.wf(),
            self.in_range(i),
        ensures
            sorted_keys(self.nodes@[i].children()),
            forall|j: int|
                0 <= j < self.nodes@[i].children().len() ==> self.known_key(
                    #[trigger] self.nodes@[i].children()[j],
                ),
            !self.nodes@[i].alive() ==> self.nodes@[i].children().len() == 0,
            forall|j: int| self.in_range(j) ==> (#[trigger] self.nodes@[j]).token <= self.token,
    {
        reveal(Graph::<_>::wf_keys);
        reveal(Graph::<_>::wf_sorted);
        reveal(Graph::<_>::wf_dead);
    }

    /// The nodes that list a key are finitely many, fewer than there are
    /// slots.
    pub proof fn lemma_necessary_parents_finite(&self, k: NodeKey)
        ensures
            self.necessary_parents(k).finite(),
            self.necessary_parents(k).len() <= self.len(),
            forall|p: int| !self.lists_child(p, k) && self.in_range(p) ==> self.necessary_parents(
                k,
            ).len() < self.len(),
    {
        let all = vstd::set_lib::set_int_range(0, self.len());
        vstd::set_lib::lemma_int_range(0, self.len());
        assert(self.necessary_parents(k).subset_of(all));
        vstd::set_lib::lemma_len_subset(self.necessary_parents(k), all);
        assert forall|p: int| !self.lists_child(p, k) && self.in_range(p)
            implies self.necessary_parents(k).len() < self.len() by {
            let more = self.necessary_parents(k).insert(p);
            assert(more.subset_of(all));
            vstd::set_lib::lemma_len_subset(more, all);
        }
    }

    /// The necessary count of a live node is the number of nodes that list
    /// it.
    pub proof fn lemma_count(&self, i: int)
        requires
            self.wf(),
            self.alive(i),
        ensures
            self.nodes@[i].necessary_count == self.necessary_parents(self.key_of(i)).len(),
    {
        reveal(Graph::<_>::wf_counts);
    }

    /// The invariant survives a change of necessary children and counts that
    /// keeps the lists sorted, made of keys of this graph, empty in freed
    /// nodes, and the counts right.
    pub proof fn lemma_change_necessary(&self, after: &Graph<C>)
        requires
            self.wf(),
            after.same_but_necessary(self),
            after.wf_counts(),
            forall|i: int| self.in_range(i) ==> sorted_keys(#[trigger] after.nodes@[i].children()),
            forall|i: int, j: int|
                self.in_range(i) && 0 <= j < after.nodes@[i].children().len() ==> after.known_key(
                    #[trigger] after.nodes@[i].children()[j],
                ),
            forall|i: int|
                self.in_range(i) && !(#[trigger] self.nodes@[i]).alive()
                    ==> after.nodes@[i].children().len() == 0,
        ensures
            after.wf(),
    {
        reveal(Graph::<_>::wf_keys);
        reveal(Graph::<_>::wf_heights);
        reveal(Graph::<_>::wf_sorted);
        reveal(Graph::<_>::wf_dead);
        reveal(Graph::<_>::wf_visited);
        reveal(Graph::<_>::wf_free);
        assert forall|i: int| after.in_range(i) implies (#[trigger] after.nodes@[i]).parents()
            == self.nodes@[i].parents() by {
            assert(same_but_necessary(after.nodes@[i], self.nodes@[i]));
        }
        assert(after.wf_keys()) by {
            assert forall|i: int, j: int|
                after.in_range(i) && 0 <= j < after.nodes@[i].parents().len()
                    implies after.known_key(#[trigger] after.nodes@[i].parents()[j]) by {
                let k = self.nodes@[i].parents()[j];
                assert(self.known_key(k));
                assert(same_but_necessary(after.nodes@[k.ptr as int], self.nodes@[k.ptr as int]));
            }
            assert forall|i: int| after.in_range(i) implies (#[trigger] after.nodes@[i]).token
                <= after.token by {
                assert(same_but_necessary(after.nodes@[i], self.nodes@[i]));
            }
        }
        assert(after.wf_heights()) by {
            assert forall|i: int, j: int|
                after.in_range(i) && 0 <= j < after.nodes@[i].parents().len() && after.valid_key(
                    #[trigger] after.nodes@[i].parents()[j],
                ) implies after.nodes@[after.nodes@[i].parents()[j].ptr as int].ptrs.height
                > after.nodes@[i].ptrs.height by {
                let k = self.nodes@[i].parents()[j];
                assert(same_but_necessary(after.nodes@[k.ptr as int], self.nodes@[k.ptr as int]));
                assert(same_but_necessary(after.nodes@[i], self.nodes@[i]));
                assert(self.valid_key(k));
            }
        }
        assert(after.wf_sorted()) by {
            assert forall|i: int, a: int, b: int|
                after.in_range(i) && 0 <= a < b < after.nodes@[i].children().len() implies (
            #[trigger] after.nodes@[i].children()[a]).spec_lt(
                #[trigger] after.nodes@[i].children()[b],
            ) by {
                assert(sorted_keys(after.nodes@[i].children()));
            }
        }
        assert(after.wf_dead()) by {
            assert forall|i: int|
                after.in_range(i) && !(#[trigger] after.nodes@[i]).alive() implies {
                &&& after.nodes@[i].anchor is None
                &&& after.nodes@[i].parents().len() == 0
                &&& after.nodes@[i].children().len() == 0
                &&& after.nodes@[i].ptrs.recalc_state == RecalcState::Needed
            } by {
                assert(same_but_necessary(after.nodes@[i], self.nodes@[i]));
                assert(!self.nodes@[i].alive());
            }
        }
        assert(after.wf_visited()) by {
            assert forall|i: int| after.in_range(i) implies !(#[trigger] after.nodes@[i]).visited by {
                assert(same_but_necessary(after.nodes@[i], self.nodes@[i]));
            }
        }
        assert(after.wf_free()) by {
            assert forall|k: int| 0 <= k < after.free_list@.len() implies {
                let i = #[trigger] after.free_list@[k];
                &&& after.in_range(i as int)
                &&& !after.nodes@[i as int].alive()
            } by {
                let i = self.free_list@[k];
                assert(same_but_necessary(after.nodes@[i as int], self.nodes@[i as int]));
            }
            assert forall|k: int, k2: int|
                0 <= k < after.free_list@.len() && 0 <= k2 < after.free_list@.len() && k2 == k
                    + 1 implies after.nodes@[#[trigger] after.free_list@[k] as int].ptrs.next
                == Some(#[trigger] after.free_list@[k2]) by {
                let i = self.free_list@[k];
                assert(same_but_necessary(after.nodes@[i as int], self.nodes@[i as int]));
            }
            if after.free_list@.len() > 0 {
                let i = self.free_list@[self.free_list@.len() - 1];
                assert(same_but_necessary(after.nodes@[i as int], self.nodes@[i as int]));
            }
        }
        assert forall|i: int| self.in_range(i) implies {
            &&& (#[trigger] after.nodes@[i]).ptrs.recalc_state == self.nodes@[i].ptrs.recalc_state
            &&& after.nodes@[i].ptrs.prev == self.nodes@[i].ptrs.prev
            &&& after.nodes@[i].ptrs.next == self.nodes@[i].ptrs.next
            &&& after.nodes@[i].alive() == self.nodes@[i].alive()
            &&& after.nodes@[i].ptrs.height >= self.nodes@[i].ptrs.height
        } by {
            assert(same_but_necessary(after.nodes@[i], self.nodes@[i]));
        }
        self.lemma_keep_queues(after);
    }

    /// After `child` was put into the list of `parent` and counted once more,
    /// the invariant holds again.
    pub proof fn lemma_added_child(&self, after: &Graph<C>, parent: int, child: int, at: int)
        requires
            self.wf(),
            self.alive(parent),
            self.alive(child),
            after.same_but_necessary(self),
            0 <= at <= self.nodes@[parent].children().len(),
            !self.nodes@[parent].children().contains(self.key_of(child)),
            forall|j: int| 0 <= j < at ==> (#[trigger] self.nodes@[parent].children()[j]).spec_lt(
                self.key_of(child),
            ),
            forall|j: int|
                at <= j < self.nodes@[parent].children().len() ==> self.key_of(child).spec_lt(
                    #[trigger] self.nodes@[parent].children()[j],
                ),
            after.nodes@[parent].children() == self.nodes@[parent].children().insert(
                at,
                self.key_of(child),
            ),
            forall|i: int|
                self.in_range(i) && i != parent ==> (#[trigger] after.nodes@[i]).children()
                    == self.nodes@[i].children(),
            after.nodes@[child].necessary_count == self.nodes@[child].necessary_count + 1,
            forall|i: int|
                self.in_range(i) && i != child ==> (#[trigger] after.nodes@[i]).necessary_count
                    == self.nodes@[i].necessary_count,
        ensures
            after.wf(),
            after.nodes@[parent].children().to_set()
                == self.nodes@[parent].children().to_set().insert(
                self.key_of(child),
            ),
    {
        let key = self.key_of(child);
        let old_list = self.nodes@[parent].children();
        let new_list = after.nodes@[parent].children();
        self.lemma_children_ok(parent);
        assert forall|k: NodeKey| new_list.contains(k) == (old_list.contains(k) || k == key) by {
            if old_list.contains(k) {
                let j = choose|j: int| 0 <= j < old_list.len() && old_list[j] == k;
                let j1 = if j < at { j } else { j + 1 };
                assert(new_list[j1] == k);
            }
            if k == key {
                assert(new_list[at] == k);
            }
            if new_list.contains(k) {
                let j = choose|j: int| 0 <= j < new_list.len() && new_list[j] == k;
                if j < at {
                    assert(old_list[j] == k);
                } else if j > at {
                    assert(old_list[j - 1] == k);
                }
            }
        }
        assert(new_list.to_set() =~= old_list.to_set().insert(key));
        assert(sorted_keys(new_list)) by {
            assert forall|a: int, b: int| 0 <= a < b < new_list.len() implies (
            #[trigger] new_list[a]).spec_lt(#[trigger] new_list[b]) by {
                let a0 = if a < at { a } else { a - 1 };
                let b0 = if b < at { b } else { b - 1 };
                if a != at && b != at {
                    assert(old_list[a0].spec_lt(old_list[b0]));
                }
            }
        }
        assert forall|i: int| self.in_range(i) implies sorted_keys(
            #[trigger] after.nodes@[i].children(),
        ) by {
            self.lemma_children_ok(i);
        }
        assert forall|i: int, j: int|
            self.in_range(i) && 0 <= j < after.nodes@[i].children().len()
                implies after.known_key(#[trigger] after.nodes@[i].children()[j]) by {
            self.lemma_children_ok(i);
            let k = after.nodes@[i].children()[j];
            if i == parent {
                if j < at {
                    assert(old_list[j] == k);
                } else if j > at {
                    assert(old_list[j - 1] == k);
                }
            } else {
                assert(self.nodes@[i].children()[j] == k);
            }
            assert(self.known_key(k));
            assert(same_but_necessary(after.nodes@[k.ptr as int], self.nodes@[k.ptr as int]));
        }
        assert forall|i: int|
            self.in_range(i) && !(#[trigger] self.nodes@[i]).alive()
                implies after.nodes@[i].children().len() == 0 by {
            self.lemma_children_ok(i);
        }
        assert(after.wf_counts()) by {
            reveal(Graph::<_>::wf_counts);
            assert forall|i: int| after.alive(i) implies (#[trigger] after.nodes@[i]).necessary_count
                == after.necessary_parents(after.key_of(i)).len() by {
                assert(same_but_necessary(after.nodes@[i], self.nodes@[i]));
                let k = self.key_of(i);
                assert(after.key_of(i) == k);
                self.lemma_necessary_parents_finite(k);
                if i == child {
                    assert(after.necessary_parents(k) =~= self.necessary_parents(k).insert(parent));
                } else {
                    assert(k != key);
                    assert(after.necessary_parents(k) =~= self.necessary_parents(k));
                }
            }
        }
        self.lemma_change_necessary(after);
    }

    /// After `child` was taken out of the list of `parent` and counted once
    /// less, the invariant holds again.
    pub proof fn lemma_removed_child(&self, after: &Graph<C>, parent: int, child: int, at: int)
        requires
            self.wf(),
            self.alive(parent),
            self.alive(child),
            after.same_but_necessary(self),
            0 <= at < self.nodes@[parent].children().len(),
            self.nodes@[parent].children()[at] == self.key_of(child),
            after.nodes@[parent].children() == self.nodes@[parent].children().remove(at),
            forall|i: int|
                self.in_range(i) && i != parent ==> (#[trigger] after.nodes@[i]).children()
                    == self.nodes@[i].children(),
            after.nodes@[child].necessary_count == self.nodes@[child].necessary_count - 1,
            forall|i: int|
                self.in_range(i) && i != child ==> (#[trigger] after.nodes@[i]).necessary_count
                    == self.nodes@[i].necessary_count,
        ensures
            after.wf(),
            after.nodes@[parent].children().to_set()
                == self.nodes@[parent].children().to_set().remove(
                self.key_of(child),
            ),
    {
        let key = self.key_of(child);
        let old_list = self.nodes@[parent].children();
        let new_list = after.nodes@[parent].children();
        self.lemma_children_ok(parent);
        assert forall|k: NodeKey| new_list.contains(k) == (old_list.contains(k) && k != key) by {
            if old_list.contains(k) && k != key {
                let j = choose|j: int| 0 <= j < old_list.len() && old_list[j] == k;
                let j1 = if j < at { j } else { j - 1 };
                assert(new_list[j1] == k);
            }
            if new_list.contains(k) {
                let j = choose|j: int| 0 <= j < new_list.len() && new_list[j] == k;
                let j0 = if j < at { j } else { j + 1 };
                assert(old_list[j0] == k);
                if j0 < at {
                    assert(old_list[j0].spec_lt(old_list[at]));
                } else {
                    assert(old_list[at].spec_lt(old_list[j0]));
                }
            }
        }
        assert(new_list.to_set() =~= old_list.to_set().remove(key));
        assert(sorted_keys(new_list)) by {
            assert forall|a: int, b: int| 0 <= a < b < new_list.len() implies (
            #[trigger] new_list[a]).spec_lt(#[trigger] new_list[b]) by {
                let a0 = if a < at { a } else { a + 1 };
                let b0 = if b < at { b } else { b + 1 };
                assert(old_list[a0].spec_lt(old_list[b0]));
            }
        }
        assert forall|i: int| self.in_range(i) implies sorted_keys(
            #[trigger] after.nodes@[i].children(),
        ) by {
            self.lemma_children_ok(i);
        }
        assert forall|i: int, j: int|
            self.in_range(i) && 0 <= j < after.nodes@[i].children().len()
                implies after.known_key(#[trigger] after.nodes@[i].children()[j]) by {
            self.lemma_children_ok(i);
            let k = after.nodes@[i].children()[j];
            if i == parent {
                let j0 = if j < at { j } else { j + 1 };
                assert(old_list[j0] == k);
            } else {
                assert(self.nodes@[i].children()[j] == k);
            }
            assert(self.known_key(k));
            assert(same_but_necessary(after.nodes@[k.ptr as int], self.nodes@[k.ptr as int]));
        }
        assert forall|i: int|
            self.in_range(i) && !(#[trigger] self.nodes@[i]).alive()
                implies after.nodes@[i].children().len() == 0 by {
            self.lemma_children_ok(i);
        }
        assert(after.wf_counts()) by {
            reveal(Graph::<_>::wf_counts);
            assert forall|i: int| after.alive(i) implies (#[trigger] after.nodes@[i]).necessary_count
                == after.necessary_parents(after.key_of(i)).len() by {
                assert(same_but_necessary(after.nodes@[i], self.nodes@[i]));
                let k = self.key_of(i);
                assert(after.key_of(i) == k);
                self.lemma_necessary_parents_finite(k);
                if i == child {
                    assert(self.necessary_parents(k).contains(parent));
                    assert(after.necessary_parents(k) =~= self.necessary_parents(k).remove(parent));
                } else {
                    assert(k != key);
                    assert(after.necessary_parents(k) =~= self.necessary_parents(k));
                }
            }
        }
        self.lemma_change_necessary(after);
    }

    /// After the list of `parent` was emptied and each live child in it counted
    /// once less, the invariant holds again.
    pub proof fn lemma_drained_children(&self, after: &Graph<C>, parent: int)
        requires
            self.wf(),
            self.in_range(parent),
            after.same_but_necessary(self),
            after.nodes@[parent].children().len() == 0,
            forall|i: int|
                self.in_range(i) && i != parent ==> (#[trigger] after.nodes@[i]).children()
                    == self.nodes@[i].children(),
            forall|i: int|
                self.in_range(i) ==> (#[trigger] after.nodes@[i]).necessary_count
                    == self.nodes@[i].necessary_count - (if self.alive(i)
                    && self.nodes@[parent].children().contains(self.key_of(i)) {
                    1int
                } else {
                    0int
                }),
        ensures
            after.wf(),
    {
        assert forall|i: int| self.in_range(i) implies sorted_keys(
            #[trigger] after.nodes@[i].children(),
        ) by {
            self.lemma_children_ok(i);
        }
        assert forall|i: int, j: int|
            self.in_range(i) && 0 <= j < after.nodes@[i].children().len()
                implies after.known_key(#[trigger] after.nodes@[i].children()[j]) by {
            self.lemma_children_ok(i);
            let k = after.nodes@[i].children()[j];
            assert(self.nodes@[i].children()[j] == k);
            assert(self.known_key(k));
            assert(same_but_necessary(after.nodes@[k.ptr as int], self.nodes@[k.ptr as int]));
        }
        assert forall|i: int|
            self.in_range(i) && !(#[trigger] self.nodes@[i]).alive()
                implies after.nodes@[i].children().len() == 0 by {
            self.lemma_children_ok(i);
        }
        assert(after.wf_counts()) by {
            reveal(Graph::<_>::wf_counts);
            assert forall|i: int| after.alive(i) implies (#[trigger] after.nodes@[i]).necessary_count
                == after.necessary_parents(after.key_of(i)).len() by {
                assert(same_but_necessary(after.nodes@[i], self.nodes@[i]));
                let k = self.key_of(i);
                assert(after.key_of(i) == k);
                self.lemma_necessary_parents_finite(k);
                if self.nodes@[parent].children().contains(k) {
                    assert(self.necessary_parents(k).contains(parent));
                    assert(after.necessary_parents(k) =~= self.necessary_parents(k).remove(parent));
                } else {
                    assert(after.necessary_parents(k) =~= self.necessary_parents(k));
                }
            }
        }
        self.lemma_change_necessary(after);
    }

    /// The two graphs differ in their nodes only, and of those in nothing that
    /// the invariant speaks of.
    pub open spec fn same_structure(&self, other: &Graph<C>) -> bool {
        &&& self.same_frame(other)
        &&& forall|i: int|
            0 <= i < self.nodes@.len() ==> same_structure(
                #[trigger] self.nodes@[i],
                other.nodes@[i],
            )
    }

    /// A graph in order has the structure that it has.
    pub proof fn lemma_same_structure_self(&self)
        requires
            self.wf(),
        ensures
            self.same_structure(self),
    {
        reveal(Graph::<_>::wf_dead);
    }

    /// Keeping the structure twice is keeping it.
    pub proof fn lemma_same_structure_twice(&self, mid: &Graph<C>, after: &Graph<C>)
        requires
            mid.same_structure(self),
            after.same_structure(mid),
        ensures
            after.same_structure(self),
    {
        assert forall|i: int| 0 <= i < after.nodes@.len() implies same_structure(
            #[trigger] after.nodes@[i],
            self.nodes@[i],
        ) by {
            assert(same_structure(after.nodes@[i], mid.nodes@[i]));
            assert(same_structure(mid.nodes@[i], self.nodes@[i]));
        }
    }

    /// The invariant survives any change that it does not speak of.
    pub proof fn lemma_keep(&self, after: &Graph<C>)
        requires
            self.wf(),
            after.same_structure(self),
        ensures
            after.wf(),
    {
        reveal(Graph::<_>::wf_keys);
        reveal(Graph::<_>::wf_heights);
        reveal(Graph::<_>::wf_sorted);
        reveal(Graph::<_>::wf_counts);
        reveal(Graph::<_>::wf_dead);
        reveal(Graph::<_>::wf_visited);
        reveal(Graph::<_>::wf_free);
        assert forall|i: int| after.in_range(i) implies (#[trigger] after.nodes@[i]).parents()
            == self.nodes@[i].parents() && after.nodes@[i].children()
                == self.nodes@[i].children() by {
            assert(same_structure(after.nodes@[i], self.nodes@[i]));
        }
        assert forall|k: NodeKey| #[trigger]
            after.necessary_parents(k) == self.necessary_parents(k) by {
            assert forall|p: int| after.lists_child(p, k) == self.lists_child(p, k) by {
                if self.in_range(p) {
                    assert(same_structure(after.nodes@[p], self.nodes@[p]));
                }
            }
            assert(after.necessary_parents(k) =~= self.necessary_parents(k));
        }
        assert(after.wf_keys()) by {
            assert forall|i: int, j: int|
                after.in_range(i) && 0 <= j < after.nodes@[i].parents().len()
                    implies after.known_key(#[trigger] after.nodes@[i].parents()[j]) by {
                let k = self.nodes@[i].parents()[j];
                assert(self.known_key(k));
                assert(same_structure(after.nodes@[k.ptr as int], self.nodes@[k.ptr as int]));
            }
            assert forall|i: int, j: int|
                after.in_range(i) && 0 <= j < after.nodes@[i].children().len()
                    implies after.known_key(#[trigger] after.nodes@[i].children()[j]) by {
                let k = self.nodes@[i].children()[j];
                assert(self.known_key(k));
                assert(same_structure(after.nodes@[k.ptr as int], self.nodes@[k.ptr as int]));
            }
            assert forall|i: int| after.in_range(i) implies (#[trigger] after.nodes@[i]).token
                <= after.token by {
                assert(same_structure(after.nodes@[i], self.nodes@[i]));
            }
        }
        assert(after.wf_heights()) by {
            assert forall|i: int, j: int|
                after.in_range(i) && 0 <= j < after.nodes@[i].parents().len() && after.valid_key(
                    #[trigger] after.nodes@[i].parents()[j],
                ) implies after.nodes@[after.nodes@[i].parents()[j].ptr as int].ptrs.height
                > after.nodes@[i].ptrs.height by {
                let k = self.nodes@[i].parents()[j];
                assert(same_structure(after.nodes@[k.ptr as int], self.nodes@[k.ptr as int]));
                assert(same_structure(after.nodes@[i], self.nodes@[i]));
                assert(self.valid_key(k));
            }
        }
        assert(after.wf_sorted());
        assert(after.wf_counts()) by {
            assert forall|i: int| after.alive(i) implies (#[trigger] after.nodes@[i]).necessary_count
                == after.necessary_parents(after.key_of(i)).len() by {
                assert(same_structure(after.nodes@[i], self.nodes@[i]));
                assert(self.alive(i));
                assert(after.key_of(i) == self.key_of(i));
            }
        }
        assert(after.wf_dead()) by {
            assert forall|i: int|
                after.in_range(i) && !(#[trigger] after.nodes@[i]).alive() implies {
                &&& after.nodes@[i].anchor is None
                &&& after.nodes@[i].parents().len() == 0
                &&& after.nodes@[i].children().len() == 0
                &&& after.nodes@[i].ptrs.recalc_state == RecalcState::Needed
            } by {
                assert(same_structure(after.nodes@[i], self.nodes@[i]));
                assert(!self.nodes@[i].alive());
            }
        }
        assert(after.wf_visited()) by {
            assert forall|i: int| after.in_range(i) implies !(#[trigger] after.nodes@[i]).visited by {
                assert(same_structure(after.nodes@[i], self.nodes@[i]));
            }
        }
        assert(after.wf_free()) by {
            assert forall|k: int| 0 <= k < after.free_list@.len() implies {
                let i = #[trigger] after.free_list@[k];
                &&& after.in_range(i as int)
                &&& !after.nodes@[i as int].alive()
            } by {
                let i = self.free_list@[k];
                assert(same_structure(after.nodes@[i as int], self.nodes@[i as int]));
            }
            assert forall|k: int, k2: int|
                0 <= k < after.free_list@.len() && 0 <= k2 < after.free_list@.len() && k2 == k
                    + 1 implies after.nodes@[#[trigger] after.free_list@[k] as int].ptrs.next
                == Some(#[trigger] after.free_list@[k2]) by {
                let i = self.free_list@[k];
                assert(same_structure(after.nodes@[i as int], self.nodes@[i as int]));
            }
            if after.free_list@.len() > 0 {
                let i = self.free_list@[self.free_list@.len() - 1];
                assert(same_structure(after.nodes@[i as int], self.nodes@[i as int]));
            }
        }
        assert forall|i: int| self.in_range(i) implies {
            &&& (#[trigger] after.nodes@[i]).ptrs.recalc_state == self.nodes@[i].ptrs.recalc_state
            &&& after.nodes@[i].ptrs.prev == self.nodes@[i].ptrs.prev
            &&& after.nodes@[i].ptrs.next == self.nodes@[i].ptrs.next
            &&& after.nodes@[i].alive() == self.nodes@[i].alive()
            &&& after.nodes@[i].ptrs.height >= self.nodes@[i].ptrs.height
        } by {
            assert(same_structure(after.nodes@[i], self.nodes@[i]));
        }
        self.lemma_keep_queues(after);
    }

    /// The queues stay in order when no node changes its place, its state or
    /// its being alive, and no height goes down.
    pub proof fn lemma_keep_queues(&self, after: &Graph<C>)
        requires
            self.wf_queues(),
            self.queues@.len() == self.recalc_queues@.len(),
            after.same_frame(self),
            forall|i: int|
                self.in_range(i) ==> {
                    &&& (#[trigger] after.nodes@[i]).ptrs.recalc_state
                        == self.nodes@[i].ptrs.recalc_state
                    &&& after.nodes@[i].ptrs.prev == self.nodes@[i].ptrs.prev
                    &&& after.nodes@[i].ptrs.next == self.nodes@[i].ptrs.next
                    &&& after.nodes@[i].alive() == self.nodes@[i].alive()
                    &&& after.nodes@[i].ptrs.height >= self.nodes@[i].ptrs.height
                },
        ensures
            after.wf_queues(),
    {
        reveal(Graph::<_>::wf_queues);
        assert forall|h: int, k: int| after.queue_pos(h, k) implies {
            let i = #[trigger] after.queues@[h][k];
            &&& after.alive(i as int)
            &&& after.nodes@[i as int].ptrs.recalc_state == RecalcState::Pending
            &&& h <= after.nodes@[i as int].ptrs.height
        } by {
            assert(self.queue_pos(h, k));
            let i = self.queues@[h][k];
            assert(self.alive(i as int));
        }
        assert forall|h: int, k: int, k2: int|
            after.queue_pos(h, k) && after.queue_pos(h, k2) && k2 == k + 1 implies {
            &&& after.nodes@[#[trigger] after.queues@[h][k] as int].ptrs.next == Some(
                after.queues@[h][k2],
            )
            &&& after.nodes@[#[trigger] after.queues@[h][k2] as int].ptrs.prev == Some(
                after.queues@[h][k],
            )
        } by {
            assert(self.queue_pos(h, k) && self.queue_pos(h, k2));
        }
        assert forall|h: int| 0
            <= h < after.queues@.len() implies match #[trigger] after.recalc_queues@[h] {
            None => after.queues@[h].len() == 0,
            Some(i) => after.queues@[h].len() > 0 && after.queues@[h][0] == i
                && after.nodes@[i as int].ptrs.prev is None,
        } by {
            if self.queues@[h].len() > 0 {
                assert(self.queue_pos(h, 0));
            }
        }
        assert forall|h: int|
            0 <= h < after.queues@.len() && (#[trigger] after.queues@[h]).len() > 0 implies {
            &&& after.nodes@[after.queues@[h][after.queues@[h].len() - 1] as int].ptrs.next is None
            &&& after.recalc_min_height <= h <= after.recalc_max_height
        } by {
            assert(self.queue_pos(h, self.queues@[h].len() - 1));
        }
        assert forall|i: usize|
            after.in_range(i as int) && (#[trigger] after.nodes@[i as int]).ptrs.recalc_state
                == RecalcState::Pending implies after.queued(i) by {
            assert(self.queued(i));
            let (h, k) = choose|h: int, k: int|
                self.queue_pos(h, k) && #[trigger] self.queues@[h][k] == i;
            assert(after.queue_pos(h, k) && after.queues@[h][k] == i);
        }
    }
}

/// Looks for `key` in a strictly sorted list. `Ok` gives the place where it
/// is; `Err` gives the place where it would have to be put.
pub fn search(list: &Vec<NodeKey>, key: &NodeKey) -> (r: Result<usize, usize>)
    requires
        sorted_keys(list@),
    ensures
        match r {
            Ok(i) => i < list.len() && list[i as int] == *key,
            Err(i) => {
                &&& i <= list.len()
                &&& !list@.contains(*key)
                &&& forall|j: int| 0 <= j < i ==> (#[trigger] list[j]).spec_lt(*key)
                &&& forall|j: int| i <= j < list.len() ==> key.spec_lt(#[trigger] list[j])
            },
        },
{
    let mut lo: usize = 0;
    let mut hi: usize = list.len();
    while lo < hi
        invariant
            lo <= hi <= list.len(),
            sorted_keys(list@),
            forall|j: int| 0 <= j < lo ==> (#[trigger] list[j]).spec_lt(*key),
            forall|j: int| hi <= j < list.len() ==> key.spec_lt(#[trigger] list[j]),
        decreases hi - lo,
    {
        let mid: usize = lo + (hi - lo) / 2;
        let probe = list[mid];
        if probe.lt(key) {
            assert forall|j: int| 0 <= j < mid + 1 implies (#[trigger] list[j]).spec_lt(*key) by {
                if j < mid {
                    assert(list[j].spec_lt(list[mid as int]));
                }
            }
            lo = mid + 1;
        } else if key.lt(&probe) {
            assert forall|j: int| mid <= j < list.len() implies key.spec_lt(#[trigger] list[j]) by {
                if j > mid {
                    assert(list[mid as int].spec_lt(list[j]));
                }
            }
            hi = mid;
        } else {
            return Ok(mid);
        }
    }
    proof {
        assert forall|j: int| 0 <= j < list.len() implies list[j] != *key by {
            if j < lo {
                assert(list[j].spec_lt(*key));
            } else {
                assert(key.spec_lt(list[j]));
            }
        }
    }
    Err(lo)
}

impl NodeGuard {
    /// The key that names the node in this slot.
    pub fn key<C>(self, graph: &Graph<C>) -> (r: NodeKey)
        requires
            graph.in_range(self.ptr as int),
        ensures
            r == graph.key_of(self.ptr as int),
    {
        NodeKey::new(self.ptr, graph.nodes[self.ptr].token)
    }

    /// Records `parent` as a clean parent of this node: a node that has read
    /// this node's output and has not been told of a change since.
    pub fn add_clean_parent<C>(self, graph: &mut Graph<C>, parent: NodeGuard)
        requires
            old(graph).wf(),
            old(graph).alive(self.ptr as int),
            old(graph).alive(parent.ptr as int),
            old(graph).nodes@[parent.ptr as int].ptrs.height > old(graph).nodes@[self.ptr as int].ptrs.height,
        ensures
            final(graph).wf(),
            final(graph).same_but_parents(old(graph)),
            final(graph).nodes@[self.ptr as int].parents()
                == (if old(graph).nodes@[self.ptr as int].ptrs.clean_parent0 is None {
                seq![old(graph).key_of(parent.ptr as int)]
                    + old(graph).nodes@[self.ptr as int].parents()
            } else {
                old(graph).nodes@[self.ptr as int].parents().push(
                    old(graph).key_of(parent.ptr as int),
                )
            }),
            forall|i: int|
                0 <= i < old(graph).len() && i != self.ptr ==> #[trigger] final(graph).nodes@[i]
                    == old(graph).nodes@[i],
    {
        let key = parent.key(graph);
        let ghost before = *graph;
        if graph.nodes[self.ptr].ptrs.clean_parent0.is_none() {
            graph.nodes[self.ptr].ptrs.clean_parent0 = Some(key);
        } else {
            graph.nodes[self.ptr].ptrs.clean_parents.push(key);
        }
        proof {
            let i0 = self.ptr as int;
            let grown = if before.nodes@[i0].ptrs.clean_parent0 is None {
                seq![key] + before.nodes@[i0].parents()
            } else {
                before.nodes@[i0].parents().push(key)
            };
            assert(graph.nodes@[i0].parents() =~= grown);
            assert forall|i: int| before.in_range(i) implies #[trigger] graph.parents_ok(i) by {
                before.lemma_parents_ok(i);
                if i == i0 {
                    assert forall|j: int| 0 <= j < graph.nodes@[i].parents().len() implies {
                        let k = #[trigger] graph.nodes@[i].parents()[j];
                        &&& graph.known_key(k)
                        &&& graph.valid_key(k) ==> graph.nodes@[k.ptr as int].ptrs.height
                            > graph.nodes@[i].ptrs.height
                    } by {
                        let k = graph.nodes@[i].parents()[j];
                        if k != key {
                            let j0 = if before.nodes@[i0].ptrs.clean_parent0 is None {
                                j - 1
                            } else {
                                j
                            };
                            assert(before.nodes@[i].parents()[j0] == k);
                            assert(before.known_key(k));
                        }
                    }
                } else {
                    assert forall|j: int| 0 <= j < graph.nodes@[i].parents().len() implies {
                        let k = #[trigger] graph.nodes@[i].parents()[j];
                        &&& graph.known_key(k)
                        &&& graph.valid_key(k) ==> graph.nodes@[k.ptr as int].ptrs.height
                            > graph.nodes@[i].ptrs.height
                    } by {
                        let k = before.nodes@[i].parents()[j];
                        assert(before.known_key(k));
                    }
                }
            }
            assert forall|i: int|
                before.in_range(i) && !(#[trigger] before.nodes@[i]).alive()
                    implies graph.nodes@[i].parents().len() == 0 by {
                before.lemma_parents_ok(i);
            }
            before.lemma_change_parents(graph);
        }
    }

    /// The clean parents of this node, in the order in which they are walked.
    pub fn clean_parents<C>(self, graph: &Graph<C>) -> (r: Vec<NodeKey>)
        requires
            graph.in_range(self.ptr as int),
        ensures
            r@ == graph.nodes@[self.ptr as int].parents(),
    {
        let mut out: Vec<NodeKey> = Vec::new();
        if let Some(first) = graph.nodes[self.ptr].ptrs.clean_parent0 {
            out.push(first);
        }
        let ghost head = out@;
        let spill = &graph.nodes[self.ptr].ptrs.clean_parents;
        let mut j: usize = 0;
        while j < spill.len()
            invariant
                j <= spill.len(),
                out@ == head + spill@.subrange(0, j as int),
            decreases spill.len() - j,
        {
            out.push(spill[j]);
            proof {
                assert(spill@.subrange(0, j as int + 1) =~= spill@.subrange(0, j as int).push(
                    spill@[j as int],
                ));
            }
            j += 1;
        }
        proof {
            assert(spill@.subrange(0, spill@.len() as int) =~= spill@);
            assert(head + spill@ =~= graph.nodes@[self.ptr as int].parents());
        }
        out
    }

    /// Forgets the clean parents of this node and returns them, in the order
    /// in which they are walked.
    pub fn drain_clean_parents<C>(self, graph: &mut Graph<C>) -> (r: Vec<NodeKey>)
        requires
            old(graph).wf(),
            old(graph).in_range(self.ptr as int),
        ensures
            final(graph).wf(),
            final(graph).same_but_parents(old(graph)),
            r@ == old(graph).nodes@[self.ptr as int].parents(),
            final(graph).nodes@[self.ptr as int].parents().len() == 0,
            forall|i: int|
                0 <= i < old(graph).len() && i != self.ptr ==> #[trigger] final(graph).nodes@[i]
                    == old(graph).nodes@[i],
    {
        let out = self.clean_parents(graph);
        let ghost before = *graph;
        graph.nodes[self.ptr].ptrs.clean_parent0 = None;
        graph.nodes[self.ptr].ptrs.clean_parents.clear();
        proof {
            assert forall|i: int| before.in_range(i) implies #[trigger] graph.parents_ok(i) by {
                before.lemma_parents_ok(i);
                if i != self.ptr {
                    assert forall|j: int| 0 <= j < graph.nodes@[i].parents().len() implies {
                        let k = #[trigger] graph.nodes@[i].parents()[j];
                        &&& graph.known_key(k)
                        &&& graph.valid_key(k) ==> graph.nodes@[k.ptr as int].ptrs.height
                            > graph.nodes@[i].ptrs.height
                    } by {
                        let k = before.nodes@[i].parents()[j];
                        assert(before.known_key(k));
                    }
                }
            }
            assert forall|i: int|
                before.in_range(i) && !(#[trigger] before.nodes@[i]).alive()
                    implies graph.nodes@[i].parents().len() == 0 by {
                before.lemma_parents_ok(i);
            }
            before.lemma_change_parents(graph);
        }
        out
    }

    /// The necessary children of this node, in their sorted order.
    pub fn necessary_children<C>(self, graph: &Graph<C>) -> (r: Vec<NodeKey>)
        requires
            graph.in_range(self.ptr as int),
        ensures
            r@ == graph.nodes@[self.ptr as int].children(),
    {
        let list = &graph.nodes[self.ptr].ptrs.necessary_children;
        let mut out: Vec<NodeKey> = Vec::new();
        let mut j: usize = 0;
        while j < list.len()
            invariant
                j <= list.len(),
                out@ == list@.subrange(0, j as int),
            decreases list.len() - j,
        {
            out.push(list[j]);
            proof {
                assert(list@.subrange(0, j as int + 1) =~= list@.subrange(0, j as int).push(
                    list@[j as int],
                ));
            }
            j += 1;
        }
        proof {
            assert(list@.subrange(0, list@.len() as int) =~= list@);
        }
        out
    }

    /// Makes `child` a necessary child of this node, and counts this node
    /// among those that need `child`. Nothing changes if it is one already.
    pub fn add_necessary_child<C>(self, graph: &mut Graph<C>, child: NodeGuard)
        requires
            old(graph).wf(),
            old(graph).alive(self.ptr as int),
            old(graph).alive(child.ptr as int),
        ensures
            final(graph).wf(),
            final(graph).same_but_necessary(old(graph)),
            final(graph).lists_child(self.ptr as int, old(graph).key_of(child.ptr as int)),
            old(graph).lists_child(self.ptr as int, old(graph).key_of(child.ptr as int))
                ==> forall|i: int|
                0 <= i < old(graph).len() ==> #[trigger] final(graph).nodes@[i]
                    == old(graph).nodes@[i],
            !old(graph).lists_child(self.ptr as int, old(graph).key_of(child.ptr as int)) ==> {
                &&& final(graph).nodes@[self.ptr as int].children().to_set()
                    == old(graph).nodes@[self.ptr as int].children().to_set().insert(
                    old(graph).key_of(child.ptr as int),
                )
                &&& final(graph).nodes@[child.ptr as int].necessary_count
                    == old(graph).nodes@[child.ptr as int].necessary_count + 1
                &&& forall|i: int|
                    0 <= i < old(graph).len() && i != child.ptr
                        ==> (#[trigger] final(graph).nodes@[i]).necessary_count
                        == old(graph).nodes@[i].necessary_count
                &&& forall|i: int|
                    0 <= i < old(graph).len() && i != self.ptr
                        ==> (#[trigger] final(graph).nodes@[i]).children()
                        == old(graph).nodes@[i].children()
            },
    {
        let key = child.key(graph);
        let ghost before = *graph;
        proof {
            before.lemma_children_ok(self.ptr as int);
        }
        let found = search(&graph.nodes[self.ptr].ptrs.necessary_children, &key);
        match found {
            Ok(_) => {},
            Err(at) => {
                proof {
                    before.lemma_count(child.ptr as int);
                    before.lemma_necessary_parents_finite(key);
                    assert(!before.lists_child(self.ptr as int, key));
                }
                graph.nodes[self.ptr].ptrs.necessary_children.insert(at, key);
                let count: usize = graph.nodes[child.ptr].necessary_count;
                graph.nodes[child.ptr].necessary_count = count + 1;
                proof {
                    before.lemma_added_child(graph, self.ptr as int, child.ptr as int, at as int);
                    assert(graph.nodes@[self.ptr as int].children()[at as int] == key);
                }
            },
        }
    }

    /// Takes `child` out of the necessary children of this node, and out of
    /// the count of those that need `child`. Nothing changes if it is none.
    pub fn remove_necessary_child<C>(self, graph: &mut Graph<C>, child: NodeGuard)
        requires
            old(graph).wf(),
            old(graph).alive(self.ptr as int),
            old(graph).alive(child.ptr as int),
        ensures
            final(graph).wf(),
            final(graph).same_but_necessary(old(graph)),
            !old(graph).lists_child(self.ptr as int, old(graph).key_of(child.ptr as int))
                ==> forall|i: int|
                0 <= i < old(graph).len() ==> #[trigger] final(graph).nodes@[i]
                    == old(graph).nodes@[i],
            old(graph).lists_child(self.ptr as int, old(graph).key_of(child.ptr as int)) ==> {
                &&& final(graph).nodes@[self.ptr as int].children().to_set()
                    == old(graph).nodes@[self.ptr as int].children().to_set().remove(
                    old(graph).key_of(child.ptr as int),
                )
                &&& final(graph).nodes@[child.ptr as int].necessary_count
                    == old(graph).nodes@[child.ptr as int].necessary_count - 1
                &&& forall|i: int|
                    0 <= i < old(graph).len() && i != child.ptr
                        ==> (#[trigger] final(graph).nodes@[i]).necessary_count
                        == old(graph).nodes@[i].necessary_count
                &&& forall|i: int|
                    0 <= i < old(graph).len() && i != self.ptr
                        ==> (#[trigger] final(graph).nodes@[i]).children()
                        == old(graph).nodes@[i].children()
            },
    {
        let key = child.key(graph);
        let ghost before = *graph;
        proof {
            before.lemma_children_ok(self.ptr as int);
        }
        let found = search(&graph.nodes[self.ptr].ptrs.necessary_children, &key);
        match found {
            Err(_) => {},
            Ok(at) => {
                proof {
                    before.lemma_count(child.ptr as int);
                    before.lemma_necessary_parents_finite(key);
                    assert(before.lists_child(self.ptr as int, key));
                    assert(before.necessary_parents(key).contains(self.ptr as int));
                    if before.necessary_parents(key).len() == 0 {
                        assert(before.necessary_parents(key) =~= Set::<int>::empty());
                    }
                }
                graph.nodes[self.ptr].ptrs.necessary_children.remove(at);
                let count: usize = graph.nodes[child.ptr].necessary_count;
                graph.nodes[child.ptr].necessary_count = count - 1;
                proof {
                    before.lemma_removed_child(graph, self.ptr as int, child.ptr as int, at as int);
                }
            },
        }
    }

    /// Forgets the necessary children of this node, counts this node out of
    /// those that need each child that is still alive, and returns the keys
    /// of the children, in their sorted order.
    pub fn drain_necessary_children<C>(self, graph: &mut Graph<C>) -> (r: Vec<NodeKey>)
        requires
            old(graph).wf(),
            old(graph).in_range(self.ptr as int),
        ensures
            final(graph).wf(),
            final(graph).same_but_necessary(old(graph)),
            r@ == old(graph).nodes@[self.ptr as int].children(),
            final(graph).nodes@[self.ptr as int].children().len() == 0,
            forall|i: int|
                0 <= i < old(graph).len() && i != self.ptr
                    ==> (#[trigger] final(graph).nodes@[i]).children()
                    == old(graph).nodes@[i].children(),
            forall|i: int|
                0 <= i < old(graph).len() ==> (#[trigger] final(graph).nodes@[i]).necessary_count
                    == old(graph).nodes@[i].necessary_count - (if old(graph).alive(i)
                        && old(graph).lists_child(self.ptr as int, old(graph).key_of(i)) {
                    1int
                } else {
                    0int
                }),
    {
        let ghost before = *graph;
        proof {
            before.lemma_children_ok(self.ptr as int);
        }
        let mut list: Vec<NodeKey> = Vec::new();
        std::mem::swap(&mut list, &mut graph.nodes[self.ptr].ptrs.necessary_children);
        let mut j: usize = 0;
        while j < list.len()
            invariant
                j <= list.len(),
                before.wf(),
                before.in_range(self.ptr as int),
                list@ == before.nodes@[self.ptr as int].children(),
                sorted_keys(list@),
                graph.same_but_necessary(&before),
                graph.nodes@[self.ptr as int].children().len() == 0,
                forall|i: int|
                    0 <= i < before.len() && i != self.ptr
                        ==> (#[trigger] graph.nodes@[i]).children()
                        == before.nodes@[i].children(),
                forall|i: int|
                    0 <= i < before.len() ==> (#[trigger] graph.nodes@[i]).necessary_count
                        == before.nodes@[i].necessary_count - (if before.alive(i)
                        && list@.subrange(0, j as int).contains(before.key_of(i)) {
                        1int
                    } else {
                        0int
                    }),
            decreases list.len() - j,
        {
            let k = list[j];
            let ghost mid = *graph;
            let ghost hit = before.valid_key(k);
            proof {
                if before.in_range(k.ptr as int) {
                    assert(same_but_necessary(
                        graph.nodes@[k.ptr as int],
                        before.nodes@[k.ptr as int],
                    ));
                }
            }
            if k.ptr < graph.nodes.len() && graph.nodes[k.ptr].token == k.token
                && graph.nodes[k.ptr].ptrs.handle_count > 0 {
                proof {
                    let i = k.ptr as int;
                    assert(before.key_of(i) == k);
                    assert(before.lists_child(self.ptr as int, k));
                    before.lemma_count(i);
                    before.lemma_necessary_parents_finite(k);
                    assert(before.necessary_parents(k).contains(self.ptr as int));
                    if before.necessary_parents(k).len() == 0 {
                        assert(before.necessary_parents(k) =~= Set::<int>::empty());
                    }
                    // the key stands at one place of the sorted list only
                    assert(!list@.subrange(0, j as int).contains(k)) by {
                        if list@.subrange(0, j as int).contains(k) {
                            let a = choose|a: int|
                                0 <= a < j && list@.subrange(0, j as int)[a] == k;
                            assert(list@[a].spec_lt(list@[j as int]));
                        }
                    }
                }
                let count: usize = graph.nodes[k.ptr].necessary_count;
                graph.nodes[k.ptr].necessary_count = count - 1;
            }
            proof {
                let done = list@.subrange(0, j as int);
                let more = list@.subrange(0, j as int + 1);
                assert(more =~= done.push(k));
                assert forall|i: int| 0
                    <= i < before.len() implies (#[trigger] graph.nodes@[i]).necessary_count
                    == before.nodes@[i].necessary_count - (if before.alive(i) && more.contains(
                    before.key_of(i),
                ) {
                    1int
                } else {
                    0int
                }) by {
                    assert(same_but_necessary(mid.nodes@[i], before.nodes@[i]));
                    let ki = before.key_of(i);
                    if more.contains(ki) && !done.contains(ki) {
                        let a = choose|a: int| 0 <= a < more.len() && more[a] == ki;
                        assert(a == j);
                        assert(ki == k);
                        assert(i == k.ptr);
                        assert(before.alive(i) == hit);
                    }
                    if done.contains(ki) {
                        let a = choose|a: int| 0 <= a < done.len() && done[a] == ki;
                        assert(more[a] == ki);
                    }
                    if hit && i == k.ptr {
                        assert(more[j as int] == ki);
                    }
                    if i != k.ptr || !hit {
                        assert(graph.nodes@[i].necessary_count == mid.nodes@[i].necessary_count);
                    }
                }
            }
            j += 1;
        }
        proof {
            assert(list@.subrange(0, list@.len() as int) =~= list@);
            before.lemma_drained_children(graph, self.ptr as int);
        }
        list
    }
}

} // verus!
