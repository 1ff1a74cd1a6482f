pub mod bellman_ford;
pub mod bfs;
pub mod branch_bound;
pub mod brute_force;
pub mod cycle_canceling;
pub mod dfs;
pub mod dijkstra;
pub mod double_tree;
pub mod edmonds_karp;
pub mod ford_fulkerson;
pub mod iter_edges;
pub mod kruskal;
pub mod mcf;
pub mod nearest_neighbor;
pub mod prim;
pub mod search;
pub mod union_find;

use crate::graph::index::{EdgeId, NodeId};
use vstd::prelude::*;

verus! {

/// The components of a graph, each as a list of its nodes.
pub struct ConnectedComponents {
    pub components: Vec<Vec<NodeId>>,
}

impl View for ConnectedComponents {
    type V = Seq<Seq<NodeId>>;

    open spec fn view(&self) -> Seq<Seq<NodeId>> {
        self.components@.map_values(|c: Vec<NodeId>| c@)
    }
}

impl ConnectedComponents {
    pub fn new(components: Vec<Vec<NodeId>>) -> (r: Self)
        ensures
            r.components@ == components@,
            r@ == components@.map_values(|c: Vec<NodeId>| c@),
    {
        ConnectedComponents { components }
    }

    /// The number of components.
    pub fn count(&self) -> (r: usize)
        ensures
            r == self@.len(),
    {
        self.components.len()
    }
}

/// The costs of the cheapest walks found from a start node, one entry per node.
pub struct Distances {
    pub distances: Vec<Option<i64>>,
    pub from: NodeId,
}

impl Distances {
    pub fn new(from: NodeId, distances: Vec<Option<i64>>) -> (r: Self)
        ensures
            r.from == from,
            r.distances@ == distances@,
    {
        Distances { distances, from }
    }

    /// The cost found for the node.
    pub fn to(&self, to: NodeId) -> (r: Option<&i64>)
        requires
            to.0 < self.distances@.len(),
        ensures
            r == match self.distances@[to.0 as int] {
                Some(d) => Some(&d),
                None => None,
            },
    {
        match &self.distances[to.0] {
            Some(d) => Some(d),
            None => None,
        }
    }
}

/// A negative cycle was found where none may be.
#[derive(Debug, PartialEq, Eq, Clone, Copy)]
pub struct NegativeCycle;

/// A spanning tree (or forest) and the node it grows from.
pub struct MinimumSpanningTree<T> {
    pub tree: T,
    pub root: NodeId,
}

impl<T> MinimumSpanningTree<T> {
    pub fn new(tree: T, root: NodeId) -> (r: Self)
        ensures
            r.tree == tree,
            r.root == root,
    {
        MinimumSpanningTree { tree, root }
    }
}

/// How much flows through an edge and how much may.
#[derive(Debug, PartialEq, Eq, Clone, Copy)]
pub struct Flow<W> {
    pub current: W,
    pub max: W,
}

impl Flow<i64> {
    /// An edge that may carry `max` and carries nothing yet.
    pub fn new(max: i64) -> (r: Self)
        ensures
            r.max == max,
            r.current == 0,
    {
        Flow { max, current: 0 }
    }
}

/// For every node, the node it was reached from, if any.
pub struct ParentPath {
    pub parent: Vec<Option<NodeId>>,
}

/// The edges of a path along which flow can be pushed.
#[derive(Debug, PartialEq, Eq, Clone)]
pub struct AugmentedPath {
    pub edges: Vec<EdgeId>,
}

impl AugmentedPath {
    pub fn new(edges: Vec<EdgeId>) -> (r: Self)
        ensures
            r.edges@ == edges@,
    {
        AugmentedPath { edges }
    }
}

} // verus!
