//! Handles and keys by which code outside the graph names a node.

use vstd::prelude::*;
use crate::node::NodeKey;

verus! {

/// The copyable, comparable name of an anchor.
pub type AnchorKey = NodeKey;

/// An owning reference to a node. Each handle counts once in the node's
/// `handle_count`; the graph makes one on `insert`, another on
/// `clone_handle`, and takes one back on `drop_handle`.
#[derive(Debug)]
pub struct AnchorHandle {
    pub node_key: NodeKey,
}

impl AnchorHandle {
    /// A handle to the node that `node_key` names. It is for the graph to
    /// make: the node counts the handles that the graph has made.
    pub fn new(node_key: NodeKey) -> (r: AnchorHandle)
        ensures
            r.node_key == node_key,
    {
        AnchorHandle { node_key }
    }

    /// The key of the node that this handle keeps alive.
    pub fn key(&self) -> (r: AnchorKey)
        ensures
            r == self.node_key,
    {
        self.node_key
    }
}

/// A single value on the recomputation graph.
#[derive(Debug)]
pub struct Anchor {
    pub data: AnchorHandle,
}

impl Anchor {
    /// The key of this anchor.
    pub fn key(&self) -> (r: AnchorKey)
        ensures
            r == self.data.node_key,
    {
        self.data.key()
    }

    /// Wraps the handle of a mounted computation.
    pub fn new_from_core(data: AnchorHandle) -> (r: Anchor)
        ensures
            r.data == data,
    {
        Anchor { data }
    }

    /// Two anchors are the same when their keys are.
    pub fn same(&self, other: &Anchor) -> (r: bool)
        ensures
            r == (self.data.node_key == other.data.node_key),
    {
        self.key() == other.key()
    }
}

} // verus!
