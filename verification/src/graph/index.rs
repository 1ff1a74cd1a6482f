use vstd::prelude::*;

verus! {

/// The index of a node in a graph.
#[derive(PartialEq, Eq, Structural, Clone, Copy, Debug, Hash, PartialOrd, Ord)]
pub struct NodeId(pub usize);

impl NodeId {
    /// Builds a node index from its raw value, without checking it against any graph.
    pub fn new_unchecked(id: usize) -> (r: NodeId)
        ensures
            r.0 == id,
    {
        NodeId(id)
    }

    /// The raw value of the index.
    pub fn as_usize(&self) -> (r: usize)
        ensures
            r == self.0,
    {
        self.0
    }
}

/// The index of a directed edge: the node it leaves and the node it enters.
#[derive(PartialEq, Eq, Structural, Clone, Copy, Debug, Hash, PartialOrd, Ord)]
pub struct EdgeId {
    pub from: NodeId,
    pub to: NodeId,
}

impl EdgeId {
    /// Builds the edge index `from -> to`.
    pub fn new_unchecked(from: NodeId, to: NodeId) -> (r: EdgeId)
        ensures
            r.from == from,
            r.to == to,
    {
        EdgeId { from, to }
    }

    /// Whether the node is one of the two ends of the edge.
    pub fn contains(&self, node_id: NodeId) -> (r: bool)
        ensures
            r == (self.from == node_id || self.to == node_id),
    {
        self.from == node_id || self.to == node_id
    }

    /// The node the edge leaves.
    pub fn from(&self) -> (r: NodeId)
        ensures
            r == self.from,
    {
        self.from
    }

    /// The node the edge enters.
    pub fn to(&self) -> (r: NodeId)
        ensures
            r == self.to,
    {
        self.to
    }

    /// Both ends, as `(from, to)`.
    pub fn raw(&self) -> (r: (NodeId, NodeId))
        ensures
            r == (self.from, self.to),
    {
        (self.from, self.to)
    }

    /// The same edge taken the other way round.
    pub fn rev(&self) -> (r: EdgeId)
        ensures
            r.from == self.to,
            r.to == self.from,
    {
        EdgeId { from: self.to, to: self.from }
    }
}

} // verus!
