//! Heights, and the search for cycles that raising them performs.

use vstd::prelude::*;
use crate::expert::EngineError;
use crate::graph::Graph;
use crate::node::{Node, NodeKey, RecalcState};
use crate::node_guard::NodeGuard;

verus! {

/// The two records agree on everything but the height and the visited mark.
pub open spec fn same_but_climb<C>(a: Node<C>, b: Node<C>) -> bool {
    &&& a.observed == b.observed
    &&& a.necessary_count == b.necessary_count
    &&& a.token == b.token
    &&& a.last_ready == b.last_ready
    &&& a.last_update == b.last_update
    &&& a.anchor == b.anchor
    &&& a.ptrs.clean_parent0 == b.ptrs.clean_parent0
    &&& a.ptrs.clean_parents == b.ptrs.clean_parents
    &&& a.ptrs.next == b.ptrs.next
    &&& a.ptrs.prev == b.ptrs.prev
    &&& a.ptrs.recalc_state == b.ptrs.recalc_state
    &&& a.ptrs.necessary_children == b.ptrs.necessary_children
    &&& a.ptrs.handle_count == b.ptrs.handle_count
}

/// Slot `parent` is recorded as a clean parent of slot `child`, under the key
/// that names it now.
pub open spec fn clean_edge<C>(graph: &Graph<C>, child: int, parent: int) -> bool {
    &&& graph.alive(child)
    &&& graph.alive(parent)
    &&& graph.nodes@[child].parents().contains(graph.key_of(parent))
}

/// Each slot of the path is a clean parent of the one before it.
pub open spec fn clean_path<C>(graph: &Graph<C>, path: Seq<int>) -> bool {
    forall|i: int| 0 <= i < path.len() - 1 ==> clean_edge(graph, #[trigger] path[i], path[i + 1])
}

/// A clean parent stands strictly higher than its child.
pub proof fn clean_parent_stands_higher<C>(graph: &Graph<C>, child: int, parent: int)
    requires
        graph.wf(),
        clean_edge(graph, child, parent),
    ensures
        graph.nodes@[parent].ptrs.height > graph.nodes@[child].ptrs.height,
{
    let key = graph.key_of(parent);
    let j = choose|j: int|
        0 <= j < graph.nodes@[child].parents().len() && graph.nodes@[child].parents()[j] == key;
    graph.lemma_parents_ok(child);
    assert(graph.valid_key(graph.nodes@[child].parents()[j]));
}

/// Along a path of clean edges the height grows with every step.
pub proof fn lemma_paths_climb<C>(graph: &Graph<C>, path: Seq<int>)
    requires
        graph.wf(),
        path.len() >= 2,
        clean_path(graph, path),
    ensures
        graph.nodes@[path[path.len() - 1]].ptrs.height >= graph.nodes@[path[0]].ptrs.height
            + path.len() - 1,
        path[path.len() - 1] != path[0],
    decreases path.len(),
{
    let n = path.len() as int;
    assert(clean_edge(graph, path[n - 2], path[n - 2 + 1]));
    clean_parent_stands_higher(graph, path[n - 2], path[n - 1]);
    if n > 2 {
        let shorter = path.subrange(0, n - 1);
        assert forall|i: int| 0 <= i < shorter.len() - 1 implies clean_edge(
            graph,
            #[trigger] shorter[i],
            shorter[i + 1],
        ) by {
            assert(clean_edge(graph, path[i], path[i + 1]));
        }
        lemma_paths_climb(graph, shorter);
    }
}

/// There is a path of clean edges from slot `from` to slot `to`. A slot
/// reaches itself.
#[verifier::opaque]
pub open spec fn reaches<C>(graph: &Graph<C>, from: int, to: int) -> bool {
    exists|path: Seq<int>|
        path.len() >= 1 && path[0] == from && path[path.len() - 1] == to && #[trigger] clean_path(
            graph,
            path,
        )
}

impl<C> Graph<C> {
    /// No path of clean edges comes back to where it began.
    pub open spec fn acyclic(&self) -> bool {
        forall|path: Seq<int>|
            path.len() >= 2 && #[trigger] clean_path(self, path) ==> path[path.len() - 1] != path[0]
    }

    /// There is a path of clean edges from slot `from` to a slot whose node
    /// is marked as visited.
    pub open spec fn reaches_visited(&self, from: int) -> bool {
        exists|path: Seq<int>|
            path.len() >= 1 && path[0] == from && #[trigger] clean_path(self, path)
                && self.in_range(path[path.len() - 1]) && self.nodes@[path[path.len()
                - 1]].visited
    }

    /// A graph in order holds no cycle of clean edges.
    pub proof fn lemma_acyclic(&self)
        requires
            self.wf(),
        ensures
            self.acyclic(),
    {
        assert forall|path: Seq<int>| path.len() >= 2 && #[trigger] clean_path(self,
            path) implies path[path.len()
            - 1] != path[0] by {
            lemma_paths_climb(self, path);
        }
    }

    /// Raising heights and setting marks changes no clean edge.
    pub proof fn lemma_same_paths(&self, after: &Graph<C>)
        requires
            after.climbed_from(self),
        ensures
            forall|path: Seq<int>| #[trigger] clean_path(after, path) == clean_path(self, path),
            after.acyclic() == self.acyclic(),
    {
        assert forall|c: int, p: int| clean_edge(after, c, p) == clean_edge(self, c, p) by {
            if self.in_range(c) && self.in_range(p) {
                assert(same_but_climb(after.nodes@[c], self.nodes@[c]));
                assert(same_but_climb(after.nodes@[p], self.nodes@[p]));
            }
        }
        assert forall|path: Seq<int>| #[trigger] clean_path(after, path) == clean_path(
            self,
            path,
        ) by {
            if clean_path(self, path) {
                assert forall|i: int| 0 <= i < path.len() - 1 implies clean_edge(
                    after,
                    #[trigger] path[i],
                    path[i + 1],
                ) by {
                    assert(clean_edge(self, path[i], path[i + 1]));
                }
            }
            if clean_path(after, path) {
                assert forall|i: int| 0 <= i < path.len() - 1 implies clean_edge(
                    self,
                    #[trigger] path[i],
                    path[i + 1],
                ) by {
                    assert(clean_edge(after, path[i], path[i + 1]));
                }
            }
        }
        if self.acyclic() {
            assert forall|path: Seq<int>|
                path.len() >= 2 && #[trigger] clean_path(after, path) implies path[path.len() - 1]
                != path[0] by {
                assert(clean_path(self, path));
            }
        }
        if after.acyclic() {
            assert forall|path: Seq<int>|
                path.len() >= 2 && #[trigger] clean_path(self, path) implies path[path.len() - 1]
                != path[0] by {
                assert(clean_path(after, path));
            }
        }
    }

    /// No path of clean edges leads from a slot to one that stands lower.
    pub proof fn lemma_no_path_down(&self, from: int, to: int)
        requires
            self.wf(),
            self.nodes@[to].ptrs.height < self.nodes@[from].ptrs.height,
        ensures
            !reaches(self, from, to),
    {
        reveal(reaches);
        if reaches(self, from, to) {
            let path = choose|path: Seq<int>|
                path.len() >= 1 && path[0] == from && path[path.len() - 1] == to
                    && #[trigger] clean_path(self, path);
            if path.len() >= 2 {
                lemma_paths_climb(self, path);
            }
        }
    }

    /// A clean edge in front of a clean path makes a clean path.
    pub proof fn lemma_longer_path(&self, first: int, path: Seq<int>)
        requires
            path.len() >= 1,
            clean_path(self, path),
            clean_edge(self, first, path[0]),
        ensures
            clean_path(self, seq![first] + path),
            (seq![first] + path).len() == path.len() + 1,
            (seq![first] + path)[0] == first,
            (seq![first] + path)[path.len() as int] == path[path.len() - 1],
    {
        let longer = seq![first] + path;
        assert forall|i: int| 0 <= i < longer.len() - 1 implies clean_edge(
            self,
            #[trigger] longer[i],
            longer[i + 1],
        ) by {
            if i > 0 {
                assert(clean_edge(self, path[i - 1], path[i - 1 + 1]));
            }
        }
    }

    /// The two graphs differ only in heights and visited marks, and no height
    /// of `self` is below that of `other`.
    pub open spec fn climbed_from(&self, other: &Graph<C>) -> bool {
        &&& self.same_frame(other)
        &&& forall|i: int|
            0 <= i < self.nodes@.len() ==> same_but_climb(
                #[trigger] self.nodes@[i],
                other.nodes@[i],
            ) && self.nodes@[i].ptrs.height >= other.nodes@[i].ptrs.height
    }

    /// Every clean parent of a node that is not marked as visited stands
    /// strictly higher than the node.
    pub open spec fn heights_ok_unvisited(&self) -> bool {
        forall|i: int, j: int|
            self.in_range(i) && !self.nodes@[i].visited && 0 <= j < self.nodes@[i].parents().len()
                && self.valid_key(#[trigger] self.nodes@[i].parents()[j])
                ==> self.nodes@[self.nodes@[i].parents()[j].ptr as int].ptrs.height
                > self.nodes@[i].ptrs.height
    }

    /// The slots whose node is not marked as visited.
    pub open spec fn unvisited(&self) -> Set<int> {
        Set::new(|i: int| self.in_range(i) && !self.nodes@[i].visited)
    }

    /// Raising heights and setting marks leaves the rest of the invariant as
    /// it was.
    pub proof fn lemma_climb_frame(&self, after: &Graph<C>)
        requires
            self.wf_static(),
            after.climbed_from(self),
        ensures
            after.wf_static(),
    {
        reveal(Graph::<_>::wf_keys);
        reveal(Graph::<_>::wf_sorted);
        reveal(Graph::<_>::wf_counts);
        reveal(Graph::<_>::wf_dead);
        reveal(Graph::<_>::wf_free);
        assert forall|i: int| after.in_range(i) implies (#[trigger] after.nodes@[i]).parents()
            == self.nodes@[i].parents() && after.nodes@[i].children()
                == self.nodes@[i].children() by {
            assert(same_but_climb(after.nodes@[i], self.nodes@[i]));
        }
        assert forall|k: NodeKey| #[trigger]
            after.necessary_parents(k) == self.necessary_parents(k) by {
            assert forall|p: int| after.lists_child(p, k) == self.lists_child(p, k) by {
                if self.in_range(p) {
                    assert(same_but_climb(after.nodes@[p], self.nodes@[p]));
                }
            }
            assert(after.necessary_parents(k) =~= self.necessary_parents(k));
        }
        assert(after.wf_keys()) by {
            assert forall|i: int, j: int|
                after.in_range(i) && 0 <= j < after.nodes@[i].parents().len()
                    implies after.known_key(#[trigger] after.nodes@[i].parents()[j]) by {
                let k = self.nodes@[i].parents()[j];
                assert(self.known_key(k));
                assert(same_but_climb(after.nodes@[k.ptr as int], self.nodes@[k.ptr as int]));
            }
            assert forall|i: int, j: int|
                after.in_range(i) && 0 <= j < after.nodes@[i].children().len()
                    implies after.known_key(#[trigger] after.nodes@[i].children()[j]) by {
                let k = self.nodes@[i].children()[j];
                assert(self.known_key(k));
                assert(same_but_climb(after.nodes@[k.ptr as int], self.nodes@[k.ptr as int]));
            }
            assert forall|i: int| after.in_range(i) implies (#[trigger] after.nodes@[i]).token
                <= after.token by {
                assert(same_but_climb(after.nodes@[i], self.nodes@[i]));
            }
        }
        assert(after.wf_sorted());
        assert(after.wf_counts()) by {
            assert forall|i: int| after.alive(i) implies (#[trigger] after.nodes@[i]).necessary_count
                == after.necessary_parents(after.key_of(i)).len() by {
                assert(same_but_climb(after.nodes@[i], self.nodes@[i]));
                assert(self.alive(i));
                assert(after.key_of(i) == self.key_of(i));
            }
        }
        assert(after.wf_dead()) by {
            assert forall|i: int|
                after.in_range(i) && !(#[trigger] after.nodes@[i]).alive() implies {
                &&& after.nodes@[i].anchor is None
                &&& after.nodes@[i].parents().len() == 0
                &&& after.nodes@[i].children().len() == 0
                &&& after.nodes@[i].ptrs.recalc_state == RecalcState::Needed
            } by {
                assert(same_but_climb(after.nodes@[i], self.nodes@[i]));
                assert(!self.nodes@[i].alive());
            }
        }
        assert(after.wf_free()) by {
            assert forall|k: int| 0 <= k < after.free_list@.len() implies {
                let i = #[trigger] after.free_list@[k];
                &&& after.in_range(i as int)
                &&& !after.nodes@[i as int].alive()
            } by {
                let i = self.free_list@[k];
                assert(same_but_climb(after.nodes@[i as int], self.nodes@[i as int]));
            }
            assert forall|k: int, k2: int|
                0 <= k < after.free_list@.len() && 0 <= k2 < after.free_list@.len() && k2 == k
                    + 1 implies after.nodes@[#[trigger] after.free_list@[k] as int].ptrs.next
                == Some(#[trigger] after.free_list@[k2]) by {
                let i = self.free_list@[k];
                assert(same_but_climb(after.nodes@[i as int], self.nodes@[i as int]));
            }
            if after.free_list@.len() > 0 {
                let i = self.free_list@[self.free_list@.len() - 1];
                assert(same_but_climb(after.nodes@[i as int], self.nodes@[i as int]));
            }
        }
        assert forall|i: int| self.in_range(i) implies {
            &&& (#[trigger] after.nodes@[i]).ptrs.recalc_state == self.nodes@[i].ptrs.recalc_state
            &&& after.nodes@[i].ptrs.prev == self.nodes@[i].ptrs.prev
            &&& after.nodes@[i].ptrs.next == self.nodes@[i].ptrs.next
            &&& after.nodes@[i].alive() == self.nodes@[i].alive()
            &&& after.nodes@[i].ptrs.height >= self.nodes@[i].ptrs.height
        } by {
            assert(same_but_climb(after.nodes@[i], self.nodes@[i]));
        }
        self.lemma_keep_queues(after);
    }

    /// Climbing twice is climbing.
    pub proof fn lemma_climb_twice(&self, mid: &Graph<C>, after: &Graph<C>)
        requires
            mid.climbed_from(self),
            after.climbed_from(mid),
        ensures
            after.climbed_from(self),
    {
        assert forall|i: int| 0 <= i < after.nodes@.len() implies same_but_climb(
            #[trigger] after.nodes@[i],
            self.nodes@[i],
        ) && after.nodes@[i].ptrs.height >= self.nodes@[i].ptrs.height by {
            assert(same_but_climb(after.nodes@[i], mid.nodes@[i]));
            assert(same_but_climb(mid.nodes@[i], self.nodes@[i]));
        }
    }

    /// A freed node has no clean parents.
    pub proof fn lemma_dead_static(&self, i: int)
        requires
            self.wf_static(),
            self.in_range(i),
            !self.nodes@[i].alive(),
        ensures
            self.nodes@[i].parents().len() == 0,
    {
        reveal(Graph::<_>::wf_dead);
    }

    /// The heights of `base` respect every clean edge: a clean parent has a
    /// height in `base` above that of its child.
    pub open spec fn stands_on(&self, base: Seq<int>) -> bool {
        &&& base.len() == self.nodes@.len()
        &&& forall|i: int, j: int|
            self.in_range(i) && 0 <= j < self.nodes@[i].parents().len() && self.valid_key(
                #[trigger] self.nodes@[i].parents()[j],
            ) ==> base[self.nodes@[i].parents()[j].ptr as int] >= base[i] + 1
    }

    /// No node stands more than `room` above its height in `base`, and a
    /// node that stood `room` above it would still have a height that fits.
    pub open spec fn rises_within(&self, base: Seq<int>, room: int) -> bool {
        &&& self.stands_on(base)
        &&& forall|i: int|
            0 <= i < self.nodes@.len() ==> self.nodes@[i].ptrs.height <= #[trigger] base[i] + room
                <= usize::MAX
    }

    /// The heights of the nodes.
    pub open spec fn heights(&self) -> Seq<int> {
        Seq::new(self.nodes@.len(), |i: int| self.nodes@[i].ptrs.height as int)
    }

    /// Every height is so far from the largest number that `parent` can be
    /// raised above `child`, and every other node by as much.
    pub open spec fn room_to_rise(&self, child: int, parent: int) -> bool {
        forall|i: int|
            0 <= i < self.nodes@.len() ==> (#[trigger] self.nodes@[i]).ptrs.height
                + self.nodes@[child].ptrs.height + 1 - self.nodes@[parent].ptrs.height
                <= usize::MAX
    }

    /// Raising heights within what `base` and `room` allow keeps what they
    /// say of the edges.
    pub proof fn lemma_stands_on(&self, after: &Graph<C>, base: Seq<int>)
        requires
            after.climbed_from(self),
            self.stands_on(base),
        ensures
            after.stands_on(base),
    {
        assert forall|i: int, j: int|
            after.in_range(i) && 0 <= j < after.nodes@[i].parents().len() && after.valid_key(
                #[trigger] after.nodes@[i].parents()[j],
            ) implies base[after.nodes@[i].parents()[j].ptr as int] >= base[i] + 1 by {
            assert(same_but_climb(after.nodes@[i], self.nodes@[i]));
            let k = self.nodes@[i].parents()[j];
            assert(same_but_climb(after.nodes@[k.ptr as int], self.nodes@[k.ptr as int]));
            assert(self.valid_key(k));
        }
    }

    /// A clean edge in front of a way up is a way up.
    pub proof fn lemma_reach_on(&self, from: int, over: int, to: int)
        requires
            clean_edge(self, from, over),
            reaches(self, over, to),
        ensures
            reaches(self, from, to),
    {
        reveal(reaches);
        let path = choose|path: Seq<int>|
            path.len() >= 1 && path[0] == over && path[path.len() - 1] == to
                && #[trigger] clean_path(self, path);
        self.lemma_longer_path(from, path);
        let longer = seq![from] + path;
        assert(longer[longer.len() - 1] == to);
        assert(clean_path(self, longer));
    }

    /// A node without clean parents reaches no node but itself.
    pub proof fn lemma_reach_alone(&self, from: int, to: int)
        requires
            self.nodes@[from].parents().len() == 0,
            reaches(self, from, to),
        ensures
            to == from,
    {
        reveal(reaches);
        let path = choose|path: Seq<int>|
            path.len() >= 1 && path[0] == from && path[path.len() - 1] == to
                && #[trigger] clean_path(self, path);
        if path.len() >= 2 {
            assert(clean_edge(self, path[0int], path[0int + 1]));
        }
    }

    /// A slot reaches itself.
    pub proof fn lemma_reach_self(&self, at: int)
        ensures
            reaches(self, at, at),
    {
        reveal(reaches);
        let path = seq![at];
        assert(clean_path(self, path));
        assert(path[0] == at && path[path.len() - 1] == at);
    }

    /// Raising heights and setting marks changes no way up.
    pub proof fn lemma_same_reach(&self, after: &Graph<C>, from: int, to: int)
        requires
            after.climbed_from(self),
        ensures
            reaches(after, from, to) == reaches(self, from, to),
    {
        reveal(reaches);
        self.lemma_same_paths(after);
        if reaches(self, from, to) {
            let path = choose|path: Seq<int>|
                path.len() >= 1 && path[0] == from && path[path.len() - 1] == to
                    && #[trigger] clean_path(self, path);
            assert(clean_path(after, path));
        }
        if reaches(after, from, to) {
            let path = choose|path: Seq<int>|
                path.len() >= 1 && path[0] == from && path[path.len() - 1] == to
                    && #[trigger] clean_path(after, path);
            assert(clean_path(self, path));
        }
    }

    /// Marking one more node as visited leaves fewer nodes unmarked.
    pub proof fn lemma_fewer_unvisited(&self, after: &Graph<C>, node: int)
        requires
            self.in_range(node),
            !self.nodes@[node].visited,
            after.nodes@.len() == self.nodes@.len(),
            after.nodes@[node].visited,
            forall|i: int|
                self.in_range(i) && i != node ==> (#[trigger] after.nodes@[i]).visited
                    == self.nodes@[i].visited,
        ensures
            after.unvisited().len() < self.unvisited().len(),
            self.unvisited().finite(),
    {
        let all = vstd::set_lib::set_int_range(0, self.len());
        vstd::set_lib::lemma_int_range(0, self.len());
        assert(self.unvisited().subset_of(all));
        vstd::set_lib::lemma_len_subset(self.unvisited(), all);
        assert(after.unvisited() =~= self.unvisited().remove(node));
    }

    /// Raises the height of `node` to at least `min_height`, and the heights
    /// of its clean parents, and of theirs, as far as the rule that a parent
    /// stands above its child asks for. Fails when the walk meets a node that
    /// is marked as visited, which is a cycle, or when a height would pass the
    /// largest number.
    ///
    /// No node changes but `node` and what a path of clean edges leads to
    /// from it. A height passes the largest number only where the heights do
    /// not rise within a base and a room that fit: where they do, the walk
    /// ends in success or in `Cycle`, and they still do afterwards.
    pub fn set_min_height(&mut self, node: usize, min_height: usize) -> (r: Result<
        (),
        EngineError,
    >)
        requires
            old(self).wf_static(),
            old(self).heights_ok_unvisited(),
            old(self).acyclic(),
            old(self).in_range(node as int),
        ensures
            final(self).climbed_from(old(self)),
            r == Err::<(), EngineError>(EngineError::Cycle) ==> old(self).reaches_visited(
                node as int,
            ),
            r == Err::<(), EngineError>(EngineError::HeightLimit) ==> exists|i: int|
                0 <= i < final(self).len() && (#[trigger] final(self).nodes@[i]).ptrs.height
                    == usize::MAX,
            r is Ok ==> {
                &&& final(self).wf_static()
                &&& final(self).heights_ok_unvisited()
                &&& final(self).nodes@[node as int].ptrs.height >= min_height
                &&& forall|i: int|
                    0 <= i < old(self).len() ==> (#[trigger] final(self).nodes@[i]).visited
                        == old(self).nodes@[i].visited
                &&& forall|i: int|
                    0 <= i < old(self).len() && old(self).nodes@[i].visited
                        ==> (#[trigger] final(self).nodes@[i]).ptrs.height
                        == old(self).nodes@[i].ptrs.height
                &&& !old(self).nodes@[node as int].visited
                &&& final(self).nodes@[node as int].ptrs.height
                    == (if old(self).nodes@[node as int].ptrs.height
                    >= min_height {
                    old(self).nodes@[node as int].ptrs.height
                } else {
                    min_height
                })
            },
            forall|i: int|
                0 <= i < old(self).len() && !reaches(old(self), node as int, i)
                    ==> #[trigger] final(self).nodes@[i] == old(self).nodes@[i],
            forall|base: Seq<int>, room: int| #[trigger]
                old(self).rises_within(base, room) && min_height <= base[node as int] + room
                    ==> r != Err::<(), EngineError>(EngineError::HeightLimit) && (r is Ok
                    ==> final(self).rises_within(base, room)),
            r is Err ==> forall|i: int|
                0 <= i < old(self).len() && old(self).nodes@[i].visited
                    ==> (#[trigger] final(self).nodes@[i]).visited,
            old(self).nodes@[node as int].visited ==> r == Err::<(), EngineError>(
                EngineError::Cycle,
            ),
            r is Err ==> r->Err_0 == EngineError::Cycle || r->Err_0 == EngineError::HeightLimit,
            !old(self).nodes@[node as int].visited && old(self).nodes@[node as int].ptrs.height
                >= min_height ==> r is Ok && forall|i: int|
                0 <= i < old(self).len() ==> #[trigger] final(self).nodes@[i]
                    == old(self).nodes@[i],
        decreases old(self).unvisited().len(),
    {
        if self.nodes[node].visited {
            proof {
                let path = seq![node as int];
                assert(clean_path(self, path));
                assert(path[path.len() - 1] == node);
            }
            return Err(EngineError::Cycle);
        }
        let ghost before = *self;
        self.nodes[node].visited = true;
        if self.nodes[node].ptrs.height < min_height {
            self.nodes[node].ptrs.height = min_height;
            let parents = NodeGuard { ptr: node }.clean_parents(self);
            let ghost marked = *self;
            proof {
                before.lemma_same_paths(self);
                before.lemma_climb_frame(self);
                before.lemma_fewer_unvisited(self, node as int);
                assert(self.heights_ok_unvisited()) by {
                    assert forall|i: int, j: int|
                        self.in_range(i) && !self.nodes@[i].visited && 0 <= j
                            < self.nodes@[i].parents().len() && self.valid_key(
                            #[trigger] self.nodes@[i].parents()[j],
                        ) implies self.nodes@[self.nodes@[i].parents()[j].ptr as int].ptrs.height
                        > self.nodes@[i].ptrs.height by {
                        let k = before.nodes@[i].parents()[j];
                        assert(before.valid_key(k));
                    }
                }
            }
            proof {
                before.lemma_reach_self(node as int);
                assert forall|base: Seq<int>, room: int| #[trigger]
                    before.rises_within(base, room) && min_height <= base[node as int]
                        + room implies self.rises_within(base, room) by {
                    before.lemma_stands_on(self, base);
                    assert forall|i: int| 0
                        <= i < self.nodes@.len() implies self.nodes@[i].ptrs.height
                        <= #[trigger] base[i] + room <= usize::MAX by {
                        if i != node {
                            assert(self.nodes@[i].ptrs.height == before.nodes@[i].ptrs.height);
                        }
                    }
                }
            }
            let mut j: usize = 0;
            while j < parents.len()
                invariant
                    j <= parents.len(),
                    before == *old(self),
                    forall|i: int|
                        0 <= i < before.len() && !reaches(&before, node as int, i)
                            ==> #[trigger] self.nodes@[i] == before.nodes@[i],
                    forall|base: Seq<int>, room: int| #[trigger]
                        before.rises_within(base, room) && min_height <= base[node as int] + room
                            ==> self.rises_within(base, room),
                    before.in_range(node as int),
                    before.nodes@[node as int].ptrs.height < min_height,
                    !before.nodes@[node as int].visited,
                    parents@ == before.nodes@[node as int].parents(),
                    self.wf_static(),
                    self.heights_ok_unvisited(),
                    self.acyclic(),
                    before.acyclic(),
                    before.wf_static(),
                    self.climbed_from(&marked),
                    marked.climbed_from(&before),
                    marked.unvisited().len() < before.unvisited().len(),
                    marked.nodes@[node as int].ptrs.height == min_height,
                    marked.nodes@[node as int].visited,
                    forall|i: int|
                        0 <= i < before.len() && i != node ==> (#[trigger] marked.nodes@[i]).visited
                            == before.nodes@[i].visited && marked.nodes@[i].ptrs.height
                            == before.nodes@[i].ptrs.height,
                    forall|i: int|
                        0 <= i < before.len() ==> (#[trigger] self.nodes@[i]).visited
                            == marked.nodes@[i].visited,
                    forall|i: int|
                        0 <= i < before.len() && marked.nodes@[i].visited ==> (
                        #[trigger] self.nodes@[i]).ptrs.height == marked.nodes@[i].ptrs.height,
                    forall|a: int|
                        0 <= a < j && self.valid_key(#[trigger] parents@[a])
                            ==> self.nodes@[parents@[a].ptr as int].ptrs.height > min_height,
                decreases parents.len() - j,
            {
                let key = parents[j];
                let ghost mid = *self;
                proof {
                    before.lemma_climb_twice(&marked, &mid);
                }
                if let Some(p) = self.slot_of(key) {
                    proof {
                        assert(same_but_climb(mid.nodes@[p as int], before.nodes@[p as int]));
                        assert(same_but_climb(
                            mid.nodes@[node as int],
                            before.nodes@[node as int],
                        ));
                        assert(before.valid_key(key));
                        assert(before.nodes@[node as int].parents()[j as int] == key);
                        if !before.nodes@[node as int].alive() {
                            before.lemma_dead_static(node as int);
                        }
                        assert(clean_edge(&before, node as int, p as int));
                        assert(mid.nodes@[node as int].parents()[j as int] == key);
                        assert forall|base: Seq<int>, room: int| #[trigger]
                            before.rises_within(base, room) && min_height <= base[node as int]
                                + room implies min_height + 1 <= base[p as int] + room
                            <= usize::MAX by {
                            assert(mid.rises_within(base, room));
                            assert(mid.valid_key(mid.nodes@[node as int].parents()[j as int]));
                            assert(base[p as int] >= base[node as int] + 1);
                        }
                    }
                    if min_height == usize::MAX {
                        proof {
                            assert(self.nodes@[node as int].ptrs.height == usize::MAX);
                        }
                        return Err(EngineError::HeightLimit);
                    }
                    proof {
                        assert(mid.unvisited() =~= marked.unvisited());
                    }
                    let res = self.set_min_height(p, min_height + 1);
                    proof {
                        assert forall|i: int|
                            0 <= i < before.len() && !reaches(
                                &before,
                                node as int,
                                i,
                            ) implies #[trigger] self.nodes@[i] == before.nodes@[i] by {
                            before.lemma_same_reach(&mid, p as int, i);
                            if reaches(&before, p as int, i) {
                                before.lemma_reach_on(node as int, p as int, i);
                            }
                        }
                        assert forall|base: Seq<int>, room: int| #[trigger]
                            before.rises_within(base, room) && min_height <= base[node as int]
                                + room implies res != Err::<(), EngineError>(
                            EngineError::HeightLimit,
                        ) && (res is Ok ==> self.rises_within(base, room)) by {
                            assert(mid.rises_within(base, room));
                        }
                        marked.lemma_climb_twice(&mid, self);
                        before.lemma_climb_twice(&marked, self);
                        mid.lemma_same_paths(self);
                        if res == Err::<(), EngineError>(EngineError::Cycle) {
                            before.lemma_same_paths(&mid);
                            let found = choose|found: Seq<int>|
                                found.len() >= 1 && found[0] == p && #[trigger] clean_path(
                                    &mid,
                                    found,
                                ) && mid.in_range(found[found.len() - 1])
                                    && mid.nodes@[found[found.len() - 1]].visited;
                            assert(clean_path(&before, found));
                            // the edge that the walk has just taken
                            assert(same_but_climb(mid.nodes@[p as int], before.nodes@[p as int]));
                            assert(before.valid_key(key));
                            assert(before.nodes@[node as int].parents()[j as int] == key);
                            if !before.nodes@[node as int].alive() {
                                before.lemma_dead_static(node as int);
                            }
                            assert(clean_edge(&before, node as int, p as int));
                            before.lemma_longer_path(node as int, found);
                            let path = seq![node as int] + found;
                            let end = found[found.len() - 1];
                            assert(path[path.len() - 1] == end);
                            assert(end != node);
                            assert(before.nodes@[end].visited);
                            assert(before.reaches_visited(node as int));
                        }
                    }
                    if let Err(e) = res {
                        return Err(e);
                    }
                }
                proof {
                    assert forall|a: int|
                        0 <= a < j + 1 && self.valid_key(
                            #[trigger] parents@[a],
                        ) implies self.nodes@[parents@[a].ptr as int].ptrs.height > min_height by {
                        let k = parents@[a];
                        assert(same_but_climb(self.nodes@[k.ptr as int], mid.nodes@[k.ptr as int]));
                        assert(mid.valid_key(k));
                    }
                }
                j += 1;
            }
            let ghost raised = *self;
            self.nodes[node].visited = false;
            proof {
                assert forall|base: Seq<int>, room: int| #[trigger]
                    before.rises_within(base, room) && min_height <= base[node as int]
                        + room implies self.rises_within(base, room) by {
                    assert(raised.rises_within(base, room));
                    raised.lemma_stands_on(self, base);
                    assert forall|i: int| 0
                        <= i < self.nodes@.len() implies self.nodes@[i].ptrs.height
                        <= #[trigger] base[i] + room <= usize::MAX by {
                        assert(self.nodes@[i].ptrs.height == raised.nodes@[i].ptrs.height);
                    }
                }
                before.lemma_climb_twice(&marked, &raised);
                raised.lemma_climb_frame(self);
                assert(self.heights_ok_unvisited()) by {
                    assert forall|i: int, j: int|
                        self.in_range(i) && !self.nodes@[i].visited && 0 <= j
                            < self.nodes@[i].parents().len() && self.valid_key(
                            #[trigger] self.nodes@[i].parents()[j],
                        ) implies self.nodes@[self.nodes@[i].parents()[j].ptr as int].ptrs.height
                        > self.nodes@[i].ptrs.height by {
                        let k = raised.nodes@[i].parents()[j];
                        assert(raised.valid_key(k));
                        if i == node {
                            assert(same_but_climb(raised.nodes@[i], marked.nodes@[i]));
                            assert(same_but_climb(marked.nodes@[i], before.nodes@[i]));
                            assert(parents@[j] == k);
                        }
                    }
                }
            }
            Ok(())
        } else {
            self.nodes[node].visited = false;
            proof {
                assert(self.nodes@[node as int] == before.nodes@[node as int]);
                assert(self.nodes@ =~= before.nodes@);
                before.lemma_climb_frame(self);
                assert forall|base: Seq<int>, room: int| #[trigger]
                    before.rises_within(base, room) implies self.rises_within(base, room) by {
                    before.lemma_stands_on(self, base);
                    assert forall|i: int| 0
                        <= i < self.nodes@.len() implies self.nodes@[i].ptrs.height
                        <= #[trigger] base[i] + room <= usize::MAX by {
                        assert(self.nodes@[i] == before.nodes@[i]);
                    }
                }
            }
            Ok(())
        }
    }

    /// While no node is marked, the rule on heights holds of every node.
    pub proof fn lemma_heights_unmarked(&self)
        requires
            self.wf_visited(),
        ensures
            self.wf_heights() == self.heights_ok_unvisited(),
    {
        reveal(Graph::<_>::wf_heights);
        reveal(Graph::<_>::wf_visited);
        if self.wf_heights() {
            assert(self.heights_ok_unvisited());
        }
        if self.heights_ok_unvisited() {
            assert forall|i: int, j: int|
                self.in_range(i) && 0 <= j < self.nodes@[i].parents().len() && self.valid_key(
                    #[trigger] self.nodes@[i].parents()[j],
                ) implies self.nodes@[self.nodes@[i].parents()[j].ptr as int].ptrs.height
                > self.nodes@[i].ptrs.height by {
                assert(!self.nodes@[i].visited);
            }
        }
    }

    /// Makes sure that `parent` stands strictly higher than `child`, so that
    /// `parent` may read `child`. Returns `true` when it did so already and
    /// nothing had to change, `false` when heights were raised. Fails with
    /// `Cycle` when raising the heights comes back to `child`.
    ///
    /// When heights are raised, `parent` ends one above `child`, and no node
    /// changes that no path of clean edges leads to from `parent`. Where
    /// there is room to rise, the call fails exactly when such a path leads
    /// from `parent` up to `child`, and then with `Cycle`; and no node rises
    /// by more than `parent` does.
    pub fn ensure_height_increases(&mut self, child: usize, parent: usize) -> (r: Result<
        bool,
        EngineError,
    >)
        requires
            old(self).wf(),
            old(self).in_range(child as int),
            old(self).in_range(parent as int),
        ensures
            final(self).climbed_from(old(self)),
            old(self).nodes@[child as int].ptrs.height < old(self).nodes@[parent as int].ptrs.height
                <==> r == Ok::<bool, EngineError>(true),
            r == Ok::<bool, EngineError>(true) ==> forall|i: int|
                0 <= i < old(self).len() ==> #[trigger] final(self).nodes@[i]
                    == old(self).nodes@[i],
            r is Ok ==> {
                &&& final(self).wf()
                &&& final(self).nodes@[parent as int].ptrs.height > final(self).nodes@[child as int].ptrs.height
                &&& final(self).nodes@[child as int].ptrs.height
                    == old(self).nodes@[child as int].ptrs.height
            },
            child == parent ==> r == Err::<bool, EngineError>(EngineError::Cycle),
            r is Err ==> r->Err_0 == EngineError::Cycle || r->Err_0 == EngineError::HeightLimit,
            r is Ok ==> !reaches(old(self), parent as int, child as int),
            r == Err::<bool, EngineError>(EngineError::Cycle) ==> reaches(
                old(self),
                parent as int,
                child as int,
            ),
            r == Err::<bool, EngineError>(EngineError::HeightLimit) ==> exists|i: int|
                0 <= i < final(self).len() && (#[trigger] final(self).nodes@[i]).ptrs.height
                    == usize::MAX,
            r == Ok::<bool, EngineError>(false) ==> final(self).nodes@[parent as int].ptrs.height
                == old(self).nodes@[child as int].ptrs.height + 1,
            forall|i: int|
                0 <= i < old(self).len() && !reaches(old(self), parent as int, i)
                    ==> #[trigger] final(self).nodes@[i] == old(self).nodes@[i],
            old(self).room_to_rise(child as int, parent as int) ==> (r is Ok <==> !reaches(
                old(self),
                parent as int,
                child as int,
            )) && (r is Err ==> r == Err::<bool, EngineError>(EngineError::Cycle)),
            forall|base: Seq<int>, room: int| #[trigger]
                old(self).rises_within(base, room) && old(self).nodes@[child as int].ptrs.height + 1
                    <= base[parent as int] + room && r is Ok ==> final(self).rises_within(
                    base,
                    room,
                ),
            old(self).room_to_rise(child as int, parent as int) && r == Ok::<bool, EngineError>(
                false,
            ) ==> forall|i: int|
                0 <= i < old(self).len() ==> (#[trigger] final(self).nodes@[i]).ptrs.height
                    <= old(self).nodes@[i].ptrs.height + old(self).nodes@[child as int].ptrs.height
                    + 1 - old(self).nodes@[parent as int].ptrs.height,
    {
        let child_height: usize = self.nodes[child].ptrs.height;
        let ghost before = *self;
        proof {
            reveal(reaches);
        }
        if child_height < self.nodes[parent].ptrs.height {
            proof {
                before.lemma_climb_twice(&before, &before);
                before.lemma_no_path_down(parent as int, child as int);
            }
            return Ok(true);
        }
        if child == parent {
            proof {
                assert(self.climbed_from(&before));
                let path = seq![parent as int];
                assert(clean_path(&before, path));
                assert(path[path.len() - 1] == child);
            }
            return Err(EngineError::Cycle);
        }
        if child_height == usize::MAX {
            proof {
                assert(self.climbed_from(&before));
                assert(self.nodes@[child as int].ptrs.height == usize::MAX);
            }
            return Err(EngineError::HeightLimit);
        }
        self.nodes[child].visited = true;
        let ghost marked = *self;
        let ghost base = before.heights();
        let ghost room = child_height + 1 - before.nodes@[parent as int].ptrs.height;
        proof {
            if before.room_to_rise(child as int, parent as int) {
                reveal(Graph::<_>::wf_visited);
                before.lemma_heights_unmarked();
                assert(before.stands_on(base)) by {
                    assert forall|i: int, j: int|
                        before.in_range(i) && 0 <= j < before.nodes@[i].parents().len()
                            && before.valid_key(
                            #[trigger] before.nodes@[i].parents()[j],
                        ) implies base[before.nodes@[i].parents()[j].ptr as int] >= base[i]
                        + 1 by {
                        assert(!before.nodes@[i].visited);
                    }
                }
                assert(self.climbed_from(&before));
                before.lemma_stands_on(self, base);
                assert forall|i: int| 0 <= i < self.nodes@.len() implies self.nodes@[i].ptrs.height
                    <= #[trigger] base[i] + room <= usize::MAX by {
                    assert(self.nodes@[i].ptrs.height == before.nodes@[i].ptrs.height);
                }
                assert(marked.rises_within(base, room));
            }
        }
        proof {
            reveal(Graph::<_>::wf_visited);
            before.lemma_heights_unmarked();
            before.lemma_acyclic();
            before.lemma_same_paths(self);
            before.lemma_climb_frame(self);
            assert(self.heights_ok_unvisited()) by {
                assert forall|i: int, j: int|
                    self.in_range(i) && !self.nodes@[i].visited && 0 <= j
                        < self.nodes@[i].parents().len() && self.valid_key(
                        #[trigger] self.nodes@[i].parents()[j],
                    ) implies self.nodes@[self.nodes@[i].parents()[j].ptr as int].ptrs.height
                    > self.nodes@[i].ptrs.height by {
                    let k = before.nodes@[i].parents()[j];
                    assert(before.valid_key(k));
                }
            }
        }
        proof {
            assert forall|b: Seq<int>, m: int| #[trigger]
                before.rises_within(b, m) implies marked.rises_within(b, m) by {
                before.lemma_stands_on(&marked, b);
                assert forall|i: int| 0
                    <= i < marked.nodes@.len() implies marked.nodes@[i].ptrs.height
                    <= #[trigger] b[i] + m <= usize::MAX by {
                    assert(marked.nodes@[i].ptrs.height == before.nodes@[i].ptrs.height);
                }
            }
        }
        let res = self.set_min_height(parent, child_height + 1);
        let ghost raised = *self;
        self.nodes[child].visited = false;
        proof {
            assert forall|b: Seq<int>, m: int| #[trigger]
                before.rises_within(b, m) && child_height + 1 <= b[parent as int] + m
                    && res is Ok implies self.rises_within(b, m) by {
                assert(marked.rises_within(b, m));
                assert(raised.rises_within(b, m));
                raised.lemma_stands_on(self, b);
                assert forall|i: int| 0 <= i < self.nodes@.len() implies self.nodes@[i].ptrs.height
                    <= #[trigger] b[i] + m <= usize::MAX by {
                    assert(self.nodes@[i].ptrs.height == raised.nodes@[i].ptrs.height);
                }
            }
            if before.room_to_rise(child as int, parent as int) && res is Ok {
                assert(raised.rises_within(base, room));
                assert forall|i: int| 0 <= i < before.len() implies (
                #[trigger] self.nodes@[i]).ptrs.height <= before.nodes@[i].ptrs.height + room by {
                    assert(raised.nodes@[i].ptrs.height <= base[i] + room);
                }
            }
            assert forall|i: int|
                0 <= i < before.len() && !reaches(
                    &before,
                    parent as int,
                    i,
                ) implies #[trigger] self.nodes@[i] == before.nodes@[i] by {
                before.lemma_same_reach(&marked, parent as int, i);
                assert(raised.nodes@[i] == marked.nodes@[i]);
            }
            before.lemma_climb_twice(&marked, &raised);
            assert(self.climbed_from(&raised));
            before.lemma_climb_twice(&raised, self);
            before.lemma_same_paths(self);
            if res == Err::<(), EngineError>(EngineError::Cycle) {
                let found = choose|found: Seq<int>|
                    found.len() >= 1 && found[0] == parent && #[trigger] clean_path(&marked, found)
                        && marked.in_range(found[found.len() - 1])
                        && marked.nodes@[found[found.len() - 1]].visited;
                assert(clean_path(&before, found));
                assert(found[found.len() - 1] == child) by {
                    reveal(Graph::<_>::wf_visited);
                }
            }
            if res == Err::<(), EngineError>(EngineError::HeightLimit) {
                let i = choose|i: int|
                    0 <= i < raised.len() && (#[trigger] raised.nodes@[i]).ptrs.height
                        == usize::MAX;
                assert(self.nodes@[i].ptrs.height == usize::MAX);
            }
        }
        match res {
            Ok(()) => {
                proof {
                    raised.lemma_climb_frame(self);
                    assert(self.wf_visited()) by {
                        assert forall|i: int| self.in_range(i) implies !(
                        #[trigger] self.nodes@[i]).visited by {
                            assert(raised.nodes@[i].visited == marked.nodes@[i].visited);
                        }
                    }
                    self.lemma_heights_unmarked();
                    assert(self.heights_ok_unvisited()) by {
                        assert forall|i: int, j: int|
                            self.in_range(i) && !self.nodes@[i].visited && 0 <= j
                                < self.nodes@[i].parents().len() && self.valid_key(
                                #[trigger] self.nodes@[i].parents()[j],
                            ) implies self.nodes@[self.nodes@[i].parents()[j].ptr as int].ptrs.height
                            > self.nodes@[i].ptrs.height by {
                            let k = raised.nodes@[i].parents()[j];
                            assert(raised.valid_key(k));
                            if i == child {
                                assert(same_but_climb(raised.nodes@[i], before.nodes@[i]));
                                assert(before.nodes@[i].parents()[j] == k);
                                assert(same_but_climb(
                                    raised.nodes@[k.ptr as int],
                                    before.nodes@[k.ptr as int],
                                ));
                                assert(before.valid_key(k));
                            }
                        }
                    }
                    // a path from the parent up to the child would put the child
                    // above the parent
                    assert(self.wf_heights());
                    self.lemma_no_path_down(parent as int, child as int);
                    if reaches(&before, parent as int, child as int) {
                        let path = choose|path: Seq<int>|
                            path.len() >= 1 && path[0] == parent && path[path.len() - 1] == child
                                && #[trigger] clean_path(&before, path);
                        assert(clean_path(self, path));
                    }
                }
                Ok(false)
            },
            Err(e) => Err(e),
        }
    }
}

} // verus!
