use crate::graph::index::{EdgeId, NodeId};
use vstd::prelude::*;

verus! {

/// A sequence of nodes.
#[derive(Debug)]
pub struct Route(Vec<NodeId>);

impl View for Route {
    type V = Seq<NodeId>;

    closed spec fn view(&self) -> Seq<NodeId> {
        self.0@
    }
}

/// The edges between consecutive nodes.
pub open spec fn route_edges(r: Seq<NodeId>) -> Seq<EdgeId> {
    Seq::new(
        if r.len() == 0 { 0 } else { (r.len() - 1) as nat },
        |i: int| EdgeId { from: r[i], to: r[i + 1] },
    )
}

/// The edge that closes the route into a cycle, when its two ends differ.
pub open spec fn route_back_edge(r: Seq<NodeId>) -> Option<EdgeId> {
    if r.len() > 0 && r.last() != r[0] {
        Some(EdgeId { from: r.last(), to: r[0] })
    } else {
        None
    }
}

impl Route {
    pub fn new(route: Vec<NodeId>) -> (r: Self)
        ensures
            r@ == route@,
    {
        Route(route)
    }

    /// The number of nodes.
    pub fn count(&self) -> (r: usize)
        ensures
            r == self@.len(),
    {
        self.0.len()
    }

    pub fn first(&self) -> (r: Option<NodeId>)
        ensures
            r == (if self@.len() > 0 { Some(self@[0]) } else { None }),
    {
        if self.0.len() > 0 {
            Some(self.0[0])
        } else {
            None
        }
    }

    pub fn last(&self) -> (r: Option<NodeId>)
        ensures
            r == (if self@.len() > 0 { Some(self@.last()) } else { None }),
    {
        if self.0.len() > 0 {
            Some(self.0[self.0.len() - 1])
        } else {
            None
        }
    }

    pub fn node_ids(&self) -> (r: &Vec<NodeId>)
        ensures
            r@ == self@,
    {
        &self.0
    }

    /// The edge from the last node back to the first, unless they are the same node.
    pub fn back_edge(&self) -> (r: Option<EdgeId>)
        ensures
            r == route_back_edge(self@),
    {
        match (self.last(), self.first()) {
            (Some(last), Some(first)) => if last != first {
                Some(EdgeId { from: last, to: first })
            } else {
                None
            },
            _ => None,
        }
    }

    /// The nodes followed by the first node again.
    pub fn node_id_cycle(&self) -> (r: Vec<NodeId>)
        ensures
            r@ =~= (if self@.len() > 0 { self@.push(self@[0]) } else { self@ }),
    {
        let mut res = self.0.clone();
        if self.0.len() > 0 {
            res.push(self.0[0]);
        }
        res
    }

    /// The edges between consecutive nodes.
    pub fn edge_ids(&self) -> (r: Vec<EdgeId>)
        ensures
            r@ =~= route_edges(self@),
    {
        let mut res: Vec<EdgeId> = Vec::new();
        let n = self.0.len();
        if n == 0 {
            return res;
        }
        let mut i: usize = 0;
        while i + 1 < n
            invariant
                n == self@.len(),
                n > 0,
                i + 1 <= n,
                res@ =~= route_edges(self@).take(i as int),
            decreases n - i,
        {
            res.push(EdgeId { from: self.0[i], to: self.0[i + 1] });
            i = i + 1;
        }
        res
    }

    /// The edges between consecutive nodes, then the edge back to the first node.
    pub fn edge_id_cycle(&self) -> (r: Vec<EdgeId>)
        ensures
            r@ =~= match route_back_edge(self@) {
                Some(e) => route_edges(self@).push(e),
                None => route_edges(self@),
            },
    {
        let mut res = self.edge_ids();
        if let Some(e) = self.back_edge() {
            res.push(e);
        }
        res
    }

    pub fn into_raw(self) -> (r: Vec<NodeId>)
        ensures
            r@ == self@,
    {
        self.0
    }
}

} // verus!
