//! The bookkeeping record that the graph keeps for each computation.

use vstd::prelude::*;
use crate::generation::Generation;

verus! {

/// Where a node stands with respect to recalculation.
#[derive(Copy, Clone, Eq, PartialEq, Structural, Debug, Hash)]
pub enum RecalcState {
    /// The output is out of date, and nobody has asked for it yet.
    Needed,
    /// The node sits in the recalculation queue.
    Pending,
    /// The output is up to date.
    Ready,
}

/// A copyable name for a node: the slot it lives in and the stamp that the
/// slot carried when the node was created. A slot that is reused gets a new
/// stamp, so the key of the earlier node names nothing afterwards.
#[derive(Copy, Clone, Eq, PartialEq, Structural, Debug, Hash)]
pub struct NodeKey {
    pub ptr: usize,
    pub token: u32,
}

impl NodeKey {
    /// The key of slot `ptr` with stamp `token`.
    pub fn new(ptr: usize, token: u32) -> (r: NodeKey)
        ensures
            r == (NodeKey { ptr, token }),
    {
        NodeKey { ptr, token }
    }

    /// The order in which keys are kept in a sorted list: by slot, then by
    /// stamp.
    pub open spec fn spec_lt(self, other: NodeKey) -> bool {
        self.ptr < other.ptr || (self.ptr == other.ptr && self.token < other.token)
    }

    /// True when `self` comes strictly before `other`.
    pub fn lt(&self, other: &NodeKey) -> (r: bool)
        ensures
            r == self.spec_lt(*other),
    {
        self.ptr < other.ptr || (self.ptr == other.ptr && self.token < other.token)
    }
}

/// The links of a node to other nodes.
pub struct NodePtrs {
    /// The first clean parent; the others are in `clean_parents`. Unsorted,
    /// and a parent may occur more than once.
    pub clean_parent0: Option<NodeKey>,
    pub clean_parents: Vec<NodeKey>,
    /// The next node in the recalculation queue of this node's height or, for
    /// a node that has been freed, in the free list.
    pub next: Option<usize>,
    /// The node before this one in the same list.
    pub prev: Option<usize>,
    pub recalc_state: RecalcState,
    /// The children that this node keeps necessary, strictly sorted.
    pub necessary_children: Vec<NodeKey>,
    pub height: usize,
    /// The number of handles that keep this node alive.
    pub handle_count: usize,
}

/// The record of one computation.
pub struct Node<C> {
    /// Set while the user has marked the node as observed.
    pub observed: bool,
    /// Set on the nodes of the path that a height increase is walking, to
    /// find cycles.
    pub visited: bool,
    /// The number of nodes that list this one as a necessary child.
    pub necessary_count: usize,
    /// The stamp of the keys that name this node.
    pub token: u32,
    /// When the node was last polled as `Updated` or `Unchanged`.
    pub last_ready: Option<Generation>,
    /// When the node was last polled as `Updated`.
    pub last_update: Option<Generation>,
    /// The computation; `None` once the node is freed, and while the
    /// computation is being polled.
    pub anchor: Option<C>,
    pub ptrs: NodePtrs,
}

impl<C> Node<C> {
    /// The clean parents in the order in which they are walked: the first
    /// slot, then the spill list.
    pub open spec fn parents(&self) -> Seq<NodeKey> {
        match self.ptrs.clean_parent0 {
            Some(k) => seq![k] + self.ptrs.clean_parents@,
            None => self.ptrs.clean_parents@,
        }
    }

    /// The necessary children, in their sorted order.
    pub open spec fn children(&self) -> Seq<NodeKey> {
        self.ptrs.necessary_children@
    }

    /// A node is alive while a handle to it exists.
    pub open spec fn alive(&self) -> bool {
        self.ptrs.handle_count > 0
    }

    /// The state of a node that has just been mounted.
    pub open spec fn is_fresh(&self) -> bool {
        &&& !self.observed
        &&& !self.visited
        &&& self.necessary_count == 0
        &&& self.last_ready is None
        &&& self.last_update is None
        &&& self.anchor is Some
        &&& self.ptrs.clean_parent0 is None
        &&& self.ptrs.clean_parents@.len() == 0
        &&& self.ptrs.next is None
        &&& self.ptrs.prev is None
        &&& self.ptrs.recalc_state == RecalcState::Needed
        &&& self.ptrs.necessary_children@.len() == 0
        &&& self.ptrs.height == 0
        &&& self.ptrs.handle_count == 1
    }

    /// Observed, or necessary for an observed node.
    pub open spec fn in_demand(&self) -> bool {
        self.observed || self.necessary_count > 0
    }
}

/// The keys in the list are strictly sorted.
pub open spec fn sorted_keys(list: Seq<NodeKey>) -> bool {
    forall|a: int, b: int|
        0 <= a < b < list.len() ==> (#[trigger] list[a]).spec_lt(#[trigger] list[b])
}

/// The two records agree on everything but their clean parents.
pub open spec fn same_but_parents<C>(a: Node<C>, b: Node<C>) -> bool {
    &&& a.observed == b.observed
    &&& a.visited == b.visited
    &&& a.necessary_count == b.necessary_count
    &&& a.token == b.token
    &&& a.last_ready == b.last_ready
    &&& a.last_update == b.last_update
    &&& a.anchor == b.anchor
    &&& a.ptrs.next == b.ptrs.next
    &&& a.ptrs.prev == b.ptrs.prev
    &&& a.ptrs.recalc_state == b.ptrs.recalc_state
    &&& a.ptrs.necessary_children == b.ptrs.necessary_children
    &&& a.ptrs.height == b.ptrs.height
    &&& a.ptrs.handle_count == b.ptrs.handle_count
}

/// The two records agree on everything but their necessary children and
/// their necessary count.
pub open spec fn same_but_necessary<C>(a: Node<C>, b: Node<C>) -> bool {
    &&& a.observed == b.observed
    &&& a.visited == b.visited
    &&& a.token == b.token
    &&& a.last_ready == b.last_ready
    &&& a.last_update == b.last_update
    &&& a.anchor == b.anchor
    &&& a.ptrs.clean_parent0 == b.ptrs.clean_parent0
    &&& a.ptrs.clean_parents == b.ptrs.clean_parents
    &&& a.ptrs.next == b.ptrs.next
    &&& a.ptrs.prev == b.ptrs.prev
    &&& a.ptrs.recalc_state == b.ptrs.recalc_state
    &&& a.ptrs.height == b.ptrs.height
    &&& a.ptrs.handle_count == b.ptrs.handle_count
}

/// The two records agree on what the invariant of the graph speaks of: the
/// edges, the stamp, the counts, the height, the marks of the walk, and the
/// place in the queue. They are both alive or both freed.
pub open spec fn same_structure<C>(a: Node<C>, b: Node<C>) -> bool {
    &&& a.visited == b.visited
    &&& a.necessary_count == b.necessary_count
    &&& a.token == b.token
    &&& a.ptrs.clean_parent0 == b.ptrs.clean_parent0
    &&& a.ptrs.clean_parents == b.ptrs.clean_parents
    &&& a.ptrs.next == b.ptrs.next
    &&& a.ptrs.prev == b.ptrs.prev
    &&& a.ptrs.recalc_state == b.ptrs.recalc_state
    &&& a.ptrs.necessary_children == b.ptrs.necessary_children
    &&& a.ptrs.height == b.ptrs.height
    &&& a.alive() == b.alive()
    &&& !a.alive() ==> a.anchor is None
}

} // verus!
