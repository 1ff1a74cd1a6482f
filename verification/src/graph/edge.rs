use crate::graph::index::{EdgeId, NodeId};
use vstd::prelude::*;

verus! {

/// An edge together with its weight.
#[derive(Debug, Clone, Copy, PartialEq, Eq)]
pub struct Edge<W> {
    pub edge_id: EdgeId,
    pub weight: W,
}

impl<W> Edge<W> {
    pub fn new(edge_id: EdgeId, weight: W) -> (r: Self)
        ensures
            r.edge_id == edge_id,
            r.weight == weight,
    {
        Edge { edge_id, weight }
    }

    /// The node the edge leaves.
    pub fn from(&self) -> (r: NodeId)
        ensures
            r == self.edge_id.from,
    {
        self.edge_id.from
    }

    /// The node the edge enters.
    pub fn to(&self) -> (r: NodeId)
        ensures
            r == self.edge_id.to,
    {
        self.edge_id.to
    }

    /// The same edge the other way round, with the same weight.
    pub fn rev(self) -> (r: Self)
        ensures
            r.edge_id == (EdgeId { from: self.edge_id.to, to: self.edge_id.from }),
            r.weight == self.weight,
    {
        let Edge { edge_id, weight } = self;
        Edge { edge_id: EdgeId { from: edge_id.to, to: edge_id.from }, weight }
    }

    /// The identifier of the edge: its two ends.
    pub fn index(&self) -> (r: EdgeId)
        ensures
            r == self.edge_id,
    {
        self.edge_id
    }
}

/// An edge with a borrowed weight.
#[derive(Debug)]
pub struct EdgeRef<'a, W> {
    pub edge_id: EdgeId,
    pub weight: &'a W,
}

impl<'a, W> EdgeRef<'a, W> {
    pub fn new(edge_id: EdgeId, weight: &'a W) -> (r: Self)
        ensures
            r.edge_id == edge_id,
            *r.weight == *weight,
    {
        EdgeRef { edge_id, weight }
    }

    /// The node the edge leaves.
    pub fn from(&self) -> (r: NodeId)
        ensures
            r == self.edge_id.from,
    {
        self.edge_id.from
    }

    /// The node the edge enters.
    pub fn to(&self) -> (r: NodeId)
        ensures
            r == self.edge_id.to,
    {
        self.edge_id.to
    }

    /// The same edge the other way round, with the same weight.
    pub fn rev(self) -> (r: Self)
        ensures
            r.edge_id == (EdgeId { from: self.edge_id.to, to: self.edge_id.from }),
            *r.weight == *self.weight,
    {
        let EdgeRef { edge_id, weight } = self;
        EdgeRef { edge_id: EdgeId { from: edge_id.to, to: edge_id.from }, weight }
    }
}

impl<'a, W: Copy> EdgeRef<'a, W> {
    /// An owned copy of the edge.
    pub fn to_owned(&self) -> (r: Edge<W>)
        ensures
            r.edge_id == self.edge_id,
            r.weight == *self.weight,
    {
        Edge { edge_id: self.edge_id, weight: *self.weight }
    }
}

} // verus!
