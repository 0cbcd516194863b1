//! Identifiers of nodes and edges.

use vstd::prelude::*;

verus! {

/// Identifier of a node.
#[derive(Debug, Clone, Copy, PartialEq, Eq, PartialOrd, Ord, Hash, Structural)]
pub struct NodeId(pub u64);

impl NodeId {
    /// The node with a given number.
    pub fn new(id: u64) -> (r: Self)
        ensures
            r.0 == id,
    {
        NodeId(id)
    }

    /// The number of the node.
    pub fn as_u64(&self) -> (r: u64)
        ensures
            r == self.0,
    {
        self.0
    }
}

/// Identifier of an edge.
#[derive(Debug, Clone, Copy, PartialEq, Eq, PartialOrd, Ord, Hash, Structural)]
pub struct EdgeId(pub u64);

impl EdgeId {
    /// The edge with a given number.
    pub fn new(id: u64) -> (r: Self)
        ensures
            r.0 == id,
    {
        EdgeId(id)
    }

    /// The number of the edge.
    pub fn as_u64(&self) -> (r: u64)
        ensures
            r == self.0,
    {
        self.0
    }
}

} // verus!
