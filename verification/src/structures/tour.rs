use crate::graph::index::NodeId;
use crate::graph::traits::{Base, Get};
use vstd::prelude::*;

verus! {

/// A walk through the graph as the list of its nodes, with a weight.
pub struct Tour<W> {
    pub route: Vec<NodeId>,
    pub weight: W,
}

impl<W> Tour<W> {
    pub fn new(route: Vec<NodeId>, weight: W) -> (r: Self)
        ensures
            r.route@ == route@,
            r.weight == weight,
    {
        Tour { route, weight }
    }

    /// The consecutive pairs of the route.
    pub fn edges(&self) -> (r: Vec<(NodeId, NodeId)>)
        ensures
            r@.len() == if self.route@.len() == 0 { 0 } else { self.route@.len() - 1 },
            forall|i: int| 0 <= i < r@.len() ==> #[trigger] r@[i] == (self.route@[i], self.route@[i + 1]),
    {
        let n = self.route.len();
        let mut r: Vec<(NodeId, NodeId)> = Vec::new();
        if n == 0 {
            return r;
        }
        let mut i: usize = 0;
        while i + 1 < n
            invariant
                n == self.route@.len(),
                n >= 1,
                i + 1 <= n,
                r@.len() == i,
                forall|k: int| 0 <= k < i ==> #[trigger] r@[k] == (self.route@[k], self.route@[k + 1]),
            decreases n - i,
        {
            r.push((self.route[i], self.route[i + 1]));
            i = i + 1;
        }
        r
    }

    /// The same route, with the weight passed through `f`.
    pub fn map<T, F: FnOnce(W) -> T>(self, f: F) -> (r: Tour<T>)
        requires
            f.requires((self.weight,)),
        ensures
            r.route@ == self.route@,
            f.ensures((self.weight,), r.weight),
    {
        let Tour { route, weight } = self;
        let weight = f(weight);
        Tour { route, weight }
    }

    /// The first node of the route.
    pub fn source(&self) -> (r: Option<NodeId>)
        ensures
            r == if self.route@.len() == 0 { None } else { Some(self.route@[0]) },
    {
        if self.route.len() == 0 {
            None
        } else {
            Some(self.route[0])
        }
    }

    /// The last node of the route.
    pub fn sink(&self) -> (r: Option<NodeId>)
        ensures
            r == if self.route@.len() == 0 { None } else { Some(self.route@.last()) },
    {
        let n = self.route.len();
        if n == 0 {
            None
        } else {
            Some(self.route[n - 1])
        }
    }

    /// The nodes of the route, read from the graph.
    pub fn nodes<'a, G: Get>(&self, graph: &'a G) -> (r: Vec<&'a G::Node>)
        requires
            graph.spec_wf(),
            forall|i: int| 0 <= i < self.route@.len() ==> (#[trigger] self.route@[i]).0 < graph.spec_nodes().len(),
        ensures
            r@.len() == self.route@.len(),
            forall|i: int| 0 <= i < r@.len() ==> *(#[trigger] r@[i]) == graph.spec_nodes()[self.route@[i].0 as int],
    {
        let n = self.route.len();
        let mut r: Vec<&'a G::Node> = Vec::new();
        let mut i: usize = 0;
        while i < n
            invariant
                graph.spec_wf(),
                n == self.route@.len(),
                forall|k: int| 0 <= k < self.route@.len() ==> (#[trigger] self.route@[k]).0 < graph.spec_nodes().len(),
                i <= n,
                r@.len() == i,
                forall|k: int| 0 <= k < i ==> *(#[trigger] r@[k]) == graph.spec_nodes()[self.route@[k].0 as int],
            decreases n - i,
        {
            let node = graph.node(self.route[i]).unwrap();
            r.push(node);
            i = i + 1;
        }
        r
    }
}

} // verus!
