use crate::graph::edge::Edge;
use crate::graph::index::{EdgeId, NodeId};
use vstd::prelude::*;
use vstd::std_specs::cmp::PartialEqSpec;

verus! {

/// The total number of stored edges.
pub open spec fn total_edges<W>(adj: Seq<Seq<(usize, W)>>) -> nat
    decreases adj.len(),
{
    if adj.len() == 0 {
        0
    } else {
        total_edges(adj.drop_last()) + adj.last().len()
    }
}

/// Every stored edge leads to a node of the graph.
pub open spec fn adj_wf<W>(adj: Seq<Seq<(usize, W)>>) -> bool {
    forall|u: int, k: int|
        0 <= u < adj.len() && 0 <= k < adj[u].len() ==> #[trigger] adj[u][k].0 < adj.len()
}

/// The position of the first stored edge `from -> to`, if any.
pub open spec fn first_edge<W>(out: Seq<(usize, W)>, to: usize) -> Option<int>
    decreases out.len(),
{
    if out.len() == 0 {
        None
    } else {
        match first_edge(out.drop_last(), to) {
            Some(i) => Some(i),
            None => if out.last().0 == to {
                Some(out.len() - 1)
            } else {
                None
            },
        }
    }
}

/// The weight of the first stored edge `from -> to`, if any.
pub open spec fn edge_weight<W>(adj: Seq<Seq<(usize, W)>>, from: usize, to: usize) -> Option<W> {
    if from < adj.len() {
        match first_edge(adj[from as int], to) {
            Some(i) => Some(adj[from as int][i].1),
            None => None,
        }
    } else {
        None
    }
}

pub proof fn lemma_first_edge<W>(out: Seq<(usize, W)>, to: usize)
    ensures
        match first_edge(out, to) {
            Some(i) => 0 <= i < out.len() && out[i].0 == to && forall|j: int|
                0 <= j < i ==> out[j].0 != to,
            None => forall|j: int| 0 <= j < out.len() ==> out[j].0 != to,
        },
    decreases out.len(),
{
    if out.len() > 0 {
        let prev = out.drop_last();
        lemma_first_edge(prev, to);
        assert(forall|j: int| 0 <= j < prev.len() ==> prev[j] == out[j]);
    }
}

pub proof fn lemma_first_edge_push<W>(out: Seq<(usize, W)>, e: (usize, W), to: usize)
    ensures
        first_edge(out.push(e), to) == (match first_edge(out, to) {
            Some(i) => Some(i),
            None => if e.0 == to {
                Some(out.len() as int)
            } else {
                None
            },
        }),
{
    assert(out.push(e).drop_last() =~= out);
}

pub proof fn lemma_total_edges_update<W>(adj: Seq<Seq<(usize, W)>>, i: int, x: Seq<(usize, W)>)
    requires
        0 <= i < adj.len(),
    ensures
        total_edges(adj.update(i, x)) == total_edges(adj) - adj[i].len() + x.len(),
    decreases adj.len(),
{
    if i == adj.len() - 1 {
        assert(adj.update(i, x).drop_last() =~= adj.drop_last());
    } else {
        lemma_total_edges_update(adj.drop_last(), i, x);
        assert(adj.update(i, x).drop_last() =~= adj.drop_last().update(i, x));
    }
}

/// Lists that are each no longer hold no more edges.
pub proof fn lemma_total_edges_shrink<W>(a: Seq<Seq<(usize, W)>>, b: Seq<Seq<(usize, W)>>)
    requires
        a.len() == b.len(),
        forall|u: int| 0 <= u < a.len() ==> #[trigger] b[u].len() <= a[u].len(),
    ensures
        total_edges(b) <= total_edges(a),
    decreases a.len(),
{
    if a.len() > 0 {
        lemma_total_edges_shrink(a.drop_last(), b.drop_last());
        assert(b.last().len() <= a.last().len());
    }
}

pub proof fn lemma_total_edges_prefix<W>(adj: Seq<Seq<(usize, W)>>, i: int)
    requires
        0 <= i <= adj.len(),
    ensures
        total_edges(adj.take(i)) <= total_edges(adj),
    decreases adj.len(),
{
    if i < adj.len() {
        assert(adj.drop_last().take(i) =~= adj.take(i));
        lemma_total_edges_prefix(adj.drop_last(), i);
    } else {
        assert(adj.take(i) =~= adj);
    }
}

/// The foundation of every graph: what its nodes and its weights are, and what it holds, as
/// the list of its nodes and, for every node, the list of its outgoing edges as
/// `(target, weight)` in the order they were stored.
pub trait Base: Sized {
    type Node;
    type Weight;

    spec fn spec_nodes(&self) -> Seq<Self::Node>;

    spec fn spec_adj(&self) -> Seq<Seq<(usize, Self::Weight)>>;

    /// The representation is consistent.
    spec fn spec_wf(&self) -> bool;

    proof fn lemma_wf(&self)
        requires
            self.spec_wf(),
        ensures
            self.spec_adj().len() == self.spec_nodes().len(),
            total_edges(self.spec_adj()) <= usize::MAX,
    ;
}

/// A graph that can be emptied.
pub trait Clear: Base {
    /// Removes every node and every edge.
    fn clear(&mut self)
        requires
            old(self).spec_wf(),
        ensures
            final(self).spec_wf(),
            final(self).spec_nodes().len() == 0,
            final(self).spec_adj().len() == 0,
    ;

    /// Removes every edge and keeps the nodes.
    fn clear_edges(&mut self)
        requires
            old(self).spec_wf(),
        ensures
            final(self).spec_wf(),
            final(self).spec_nodes() == old(self).spec_nodes(),
            final(self).spec_adj().len() == old(self).spec_adj().len(),
            forall|u: int|
                0 <= u < final(self).spec_adj().len() ==> #[trigger] final(self).spec_adj()[u].len()
                    == 0,
    ;
}

/// A graph that can be searched for a node or an edge.
pub trait Contains: Base {
    /// The first node equal to the given one.
    fn contains_node(&self, node: &Self::Node) -> (r: Option<NodeId>)
        where Self::Node: PartialEq
        requires
            self.spec_wf(),
        ensures
            <Self::Node as PartialEqSpec>::obeys_eq_spec() ==> match r {
                Some(id) => id.0 < self.spec_nodes().len() && self.spec_nodes()[id.0 as int].eq_spec(node)
                    && forall|j: int| 0 <= j < id.0 ==> !self.spec_nodes()[j].eq_spec(node),
                None => forall|j: int| 0 <= j < self.spec_nodes().len() ==> !self.spec_nodes()[j].eq_spec(node),
            },
    ;

    /// The edge `from -> to`, if the graph holds one.
    fn contains_edge(&self, from: NodeId, to: NodeId) -> (r: Option<EdgeId>)
        requires
            self.spec_wf(),
            from.0 < self.spec_nodes().len(),
        ensures
            r is Some <==> edge_weight(self.spec_adj(), from.0, to.0) is Some,
            r matches Some(e) ==> e.from == from && e.to == to,
    ;
}

/// A graph that knows its size.
pub trait Count: Base {
    spec fn spec_edge_count(&self) -> nat;

    fn node_count(&self) -> (r: usize)
        requires
            self.spec_wf(),
        ensures
            r == self.spec_nodes().len(),
    ;

    fn edge_count(&self) -> (r: usize)
        requires
            self.spec_wf(),
        ensures
            r == self.spec_edge_count(),
    ;

    fn nodes_empty(&self) -> (r: bool)
        requires
            self.spec_wf(),
        ensures
            r == (self.spec_nodes().len() == 0),
    {
        self.node_count() == 0
    }

    fn edges_empty(&self) -> (r: bool)
        requires
            self.spec_wf(),
        ensures
            r == (self.spec_edge_count() == 0),
    {
        self.edge_count() == 0
    }
}

/// A graph that can be built from nodes.
pub trait Create: Base {
    /// An empty graph.
    fn with_capacity(nodes: usize, edges: usize) -> (r: Self)
        ensures
            r.spec_wf(),
            r.spec_nodes().len() == 0,
            r.spec_adj().len() == 0,
    ;

    /// A graph of the given nodes and no edge.
    fn with_nodes(nodes: Vec<Self::Node>) -> (r: Self)
        ensures
            r.spec_wf(),
            r.spec_nodes() == nodes@,
            r.spec_adj() =~= Seq::new(nodes@.len(), |i: int| Seq::<(usize, Self::Weight)>::empty()),
    ;
}

/// Whether the edges of a graph have a direction.
pub trait Directed {
    spec fn spec_directed() -> bool;

    fn directed() -> (r: bool)
        ensures
            r == Self::spec_directed(),
    ;
}

/// A graph whose nodes and edges can be read by index.
pub trait Get: Base {
    fn node(&self, node_id: NodeId) -> (r: Option<&Self::Node>)
        requires
            self.spec_wf(),
        ensures
            r == (if node_id.0 < self.spec_nodes().len() {
                Some(&self.spec_nodes()[node_id.0 as int])
            } else {
                None
            }),
    ;

    /// The weight of the first stored edge `from -> to`.
    fn weight(&self, edge_id: EdgeId) -> (r: Option<&Self::Weight>)
        requires
            self.spec_wf(),
            edge_id.from.0 < self.spec_nodes().len(),
        ensures
            match edge_weight(self.spec_adj(), edge_id.from.0, edge_id.to.0) {
                Some(w) => r == Some(&w),
                None => r is None,
            },
    ;

    fn contains_node_id(&self, node_id: NodeId) -> (r: bool)
        requires
            self.spec_wf(),
        ensures
            r == (node_id.0 < self.spec_nodes().len()),
    {
        self.node(node_id).is_some()
    }

    fn contains_edge_id(&self, edge_id: EdgeId) -> (r: bool)
        requires
            self.spec_wf(),
            edge_id.from.0 < self.spec_nodes().len(),
        ensures
            r == edge_weight(self.spec_adj(), edge_id.from.0, edge_id.to.0) is Some,
    {
        self.weight(edge_id).is_some()
    }
}

/// A graph whose nodes can be listed.
pub trait Index: Base {
    /// The indices of all nodes, in order.
    fn node_ids(&self) -> (r: Vec<NodeId>)
        requires
            self.spec_wf(),
        ensures
            r@.len() == self.spec_nodes().len(),
            forall|i: int| 0 <= i < r@.len() ==> (#[trigger] r@[i]).0 == i,
    ;

    /// The indices of all stored edges, one for each.
    fn edge_ids(&self) -> (r: Vec<EdgeId>)
        requires
            self.spec_wf(),
        ensures
            r@.len() == total_edges(self.spec_adj()),
            forall|i: int|
                0 <= i < r@.len() ==> 0 <= (#[trigger] r@[i]).from.0 < self.spec_adj().len() && exists|k: int|
                    0 <= k < self.spec_adj()[r@[i].from.0 as int].len() && #[trigger] self.spec_adj()[r@[i].from.0 as int][k].0
                        == r@[i].to.0,
    ;
}

/// A graph whose neighbours can be listed.
pub trait IndexAdjacent: Base {
    /// The targets of the edges that leave the node, in the order they were stored.
    fn adjacent_node_ids(&self, node_id: NodeId) -> (r: Vec<NodeId>)
        requires
            self.spec_wf(),
            node_id.0 < self.spec_nodes().len(),
        ensures
            r@.len() == self.spec_adj()[node_id.0 as int].len(),
            forall|k: int|
                0 <= k < r@.len() ==> (#[trigger] r@[k]).0 == self.spec_adj()[node_id.0 as int][k].0,
    ;

    /// The edges that leave the node, in the order they were stored.
    fn adjacent_edge_ids(&self, node_id: NodeId) -> (r: Vec<EdgeId>)
        requires
            self.spec_wf(),
            node_id.0 < self.spec_nodes().len(),
        ensures
            r@.len() == self.spec_adj()[node_id.0 as int].len(),
            forall|k: int|
                0 <= k < r@.len() ==> (#[trigger] r@[k]).from == node_id && r@[k].to.0
                    == self.spec_adj()[node_id.0 as int][k].0,
    ;
}

/// A graph whose edges can be listed with their weights.
pub trait IterAdjacent: Base {
    /// The edges that leave the node, with their weights, in the order they were stored.
    fn iter_adjacent_edges(&self, node_id: NodeId) -> (r: Vec<Edge<Self::Weight>>)
        where Self::Weight: Copy
        requires
            self.spec_wf(),
            node_id.0 < self.spec_nodes().len(),
        ensures
            r@.len() == self.spec_adj()[node_id.0 as int].len(),
            forall|k: int|
                0 <= k < r@.len() ==> (#[trigger] r@[k]).edge_id.from == node_id && r@[k].edge_id.to.0
                    == self.spec_adj()[node_id.0 as int][k].0 && r@[k].weight == self.spec_adj()[node_id.0 as int][k].1,
    ;
}

/// A graph that nodes and edges can be added to.
pub trait Insert: Base {
    /// Adds a node without edges, and returns its index.
    fn insert_node(&mut self, node: Self::Node) -> (r: NodeId)
        requires
            old(self).spec_wf(),
            old(self).spec_nodes().len() < usize::MAX,
        ensures
            final(self).spec_wf(),
            r.0 == old(self).spec_nodes().len(),
            final(self).spec_nodes() == old(self).spec_nodes().push(node),
            final(self).spec_adj() == old(self).spec_adj().push(Seq::empty()),
    ;

    /// Stores the edge `from -> to` after the other edges that leave `from`.
    fn insert_edge(&mut self, from: NodeId, to: NodeId, weight: Self::Weight) -> (r: EdgeId)
        requires
            old(self).spec_wf(),
            from.0 < old(self).spec_nodes().len(),
            total_edges(old(self).spec_adj()) < usize::MAX,
        ensures
            final(self).spec_wf(),
            r.from == from && r.to == to,
            final(self).spec_nodes() == old(self).spec_nodes(),
            final(self).spec_adj() == old(self).spec_adj().update(
                from.0 as int,
                old(self).spec_adj()[from.0 as int].push((to.0, weight)),
            ),
    ;
}

/// The edges after each `(from, to, weight)` of `es` is stored in turn.
pub open spec fn pushed_all<W>(adj: Seq<Seq<(usize, W)>>, es: Seq<(NodeId, NodeId, W)>) -> Seq<Seq<(usize, W)>>
    decreases es.len(),
{
    if es.len() == 0 {
        adj
    } else {
        let a = pushed_all(adj, es.drop_last());
        let (f, t, w) = es.last();
        a.update(f.0 as int, a[f.0 as int].push((t.0, w)))
    }
}

/// A graph that many nodes and edges can be added to at once.
pub trait Extend: Insert {
    /// Adds the nodes in order, each without edges.
    fn extend_nodes(&mut self, nodes: Vec<Self::Node>)
        where
            Self::Node: Copy,
        requires
            old(self).spec_wf(),
            old(self).spec_nodes().len() + nodes@.len() < usize::MAX,
        ensures
            final(self).spec_wf(),
            final(self).spec_nodes() == old(self).spec_nodes() + nodes@,
            final(self).spec_adj() == old(self).spec_adj() + Seq::new(nodes@.len(), |i: int| Seq::<(usize, Self::Weight)>::empty()),
    {
        let ghost n0 = self.spec_nodes();
        let ghost a0 = self.spec_adj();
        let mut i: usize = 0;
        while i < nodes.len()
            invariant
                self.spec_wf(),
                i <= nodes@.len(),
                n0.len() + nodes@.len() < usize::MAX,
                self.spec_nodes() == n0 + nodes@.take(i as int),
                self.spec_adj() == a0 + Seq::new(i as nat, |j: int| Seq::<(usize, Self::Weight)>::empty()),
            decreases nodes@.len() - i,
        {
            let _ = self.insert_node(nodes[i]);
            proof {
                assert(nodes@.take(i + 1) =~= nodes@.take(i as int).push(nodes@[i as int]));
                assert(n0 + nodes@.take(i + 1) =~= (n0 + nodes@.take(i as int)).push(nodes@[i as int]));
                assert(a0 + Seq::new((i + 1) as nat, |j: int| Seq::<(usize, Self::Weight)>::empty()) =~= (a0 + Seq::new(
                    i as nat,
                    |j: int| Seq::<(usize, Self::Weight)>::empty(),
                )).push(Seq::empty()));
            }
            i = i + 1;
        }
        proof {
            assert(nodes@.take(nodes@.len() as int) =~= nodes@);
        }
    }

    /// Stores the edges in order, each after the other edges that leave its start.
    fn extend_edges(&mut self, edges: Vec<(NodeId, NodeId, Self::Weight)>)
        where
            Self::Weight: Copy,
        requires
            old(self).spec_wf(),
            forall|i: int| 0 <= i < edges@.len() ==> (#[trigger] edges@[i]).0.0 < old(self).spec_nodes().len(),
            total_edges(old(self).spec_adj()) + edges@.len() < usize::MAX,
        ensures
            final(self).spec_wf(),
            final(self).spec_nodes() == old(self).spec_nodes(),
            final(self).spec_adj() == pushed_all(old(self).spec_adj(), edges@),
    {
        let ghost a0 = self.spec_adj();
        let ghost nodes = self.spec_nodes();
        let mut i: usize = 0;
        while i < edges.len()
            invariant
                self.spec_wf(),
                self.spec_nodes() == nodes,
                i <= edges@.len(),
                forall|k: int| 0 <= k < edges@.len() ==> (#[trigger] edges@[k]).0.0 < nodes.len(),
                total_edges(a0) + edges@.len() < usize::MAX,
                total_edges(self.spec_adj()) == total_edges(a0) + i,
                self.spec_adj() == pushed_all(a0, edges@.take(i as int)),
            decreases edges@.len() - i,
        {
            let (from, to, weight) = edges[i];
            let ghost before = self.spec_adj();
            proof {
                self.lemma_wf();
            }
            let _ = self.insert_edge(from, to, weight);
            proof {
                assert(edges@.take(i + 1).drop_last() =~= edges@.take(i as int));
                assert(edges@.take(i + 1).last() == edges@[i as int]);
                lemma_total_edges_update(before, from.0 as int, before[from.0 as int].push((to.0, weight)));
            }
            i = i + 1;
        }
        proof {
            assert(edges@.take(edges@.len() as int) =~= edges@);
        }
    }
}

/// A graph whose node list can grow without moving.
pub trait Reserve: Base {
    /// Makes room for `additional` more nodes; the graph stays as it is.
    fn reserve_nodes(&mut self, additional: usize)
        requires
            old(self).spec_wf(),
        ensures
            final(self).spec_wf(),
            final(self).spec_nodes() == old(self).spec_nodes(),
            final(self).spec_adj() == old(self).spec_adj(),
    ;
}

/// Every stored edge, row by row in the order stored.
pub open spec fn flat_edges<W>(adj: Seq<Seq<(usize, W)>>) -> Seq<Edge<W>>
    decreases adj.len(),
{
    if adj.len() == 0 {
        Seq::empty()
    } else {
        flat_edges(adj.drop_last()) + row_edges((adj.len() - 1) as usize, adj.last())
    }
}

/// The indices of the edges of `flat_edges`, in the same order.
pub open spec fn edge_ids_of<W>(adj: Seq<Seq<(usize, W)>>) -> Seq<EdgeId> {
    flat_edges(adj).map_values(|e: Edge<W>| e.edge_id)
}

/// The edges of one row, leaving `u`.
pub open spec fn row_edges<W>(u: usize, out: Seq<(usize, W)>) -> Seq<Edge<W>> {
    out.map_values(|e: (usize, W)| Edge { edge_id: EdgeId { from: NodeId(u), to: NodeId(e.0) }, weight: e.1 })
}

/// The listing holds as many edges as the rows, each a stored one.
pub proof fn lemma_flat_edges<W>(adj: Seq<Seq<(usize, W)>>)
    requires
        adj.len() <= usize::MAX,
    ensures
        flat_edges(adj).len() == total_edges(adj),
        forall|i: int| 0 <= i < flat_edges(adj).len() ==> #[trigger] stored(adj, flat_edges(adj)[i]),
    decreases adj.len(),
{
    if adj.len() > 0 {
        let prev = adj.drop_last();
        lemma_flat_edges(prev);
        let u = (adj.len() - 1) as usize;
        let f = flat_edges(adj);
        let p = flat_edges(prev);
        assert(f == p + row_edges(u, adj.last()));
        assert forall|i: int| 0 <= i < f.len() implies #[trigger] stored(adj, f[i]) by {
            if i < p.len() {
                assert(f[i] == p[i]);
                assert(stored(prev, p[i]));
                let e = p[i];
                let k = choose|k: int|
                    0 <= k < prev[e.edge_id.from.0 as int].len() && #[trigger] prev[e.edge_id.from.0 as int][k] == (e.edge_id.to.0, e.weight);
                assert(adj[e.edge_id.from.0 as int] == prev[e.edge_id.from.0 as int]);
            } else {
                let k = i - p.len();
                assert(f[i] == row_edges(u, adj.last())[k]);
                assert(adj[u as int][k] == adj.last()[k]);
            }
        }
    }
}

/// The graph stores the edge `e`: `e.edge_id.from` has an edge to `e.edge_id.to` of that
/// weight.
pub open spec fn stored<W>(adj: Seq<Seq<(usize, W)>>, e: Edge<W>) -> bool {
    &&& 0 <= e.edge_id.from.0 < adj.len()
    &&& exists|k: int|
        0 <= k < adj[e.edge_id.from.0 as int].len() && #[trigger] adj[e.edge_id.from.0 as int][k] == (e.edge_id.to.0, e.weight)
}

/// A graph whose nodes and edges can be listed.
pub trait Iter: Base {
    /// The nodes, in order.
    fn iter_nodes(&self) -> (r: Vec<&Self::Node>)
        requires
            self.spec_wf(),
        ensures
            r@.len() == self.spec_nodes().len(),
            forall|i: int| 0 <= i < r@.len() ==> *(#[trigger] r@[i]) == self.spec_nodes()[i],
    ;

    /// Every stored edge with its weight, one entry for each.
    fn iter_edges(&self) -> (r: Vec<Edge<Self::Weight>>)
        where
            Self::Weight: Copy,
        requires
            self.spec_wf(),
        ensures
            r@.len() == total_edges(self.spec_adj()),
            forall|i: int| 0 <= i < r@.len() ==> #[trigger] stored(self.spec_adj(), r@[i]),
    ;
}

/// The test an edge passes when it does not lead to `v`.
pub open spec fn avoids<W>(v: int) -> spec_fn((usize, W)) -> bool {
    |e: (usize, W)| e.0 != v
}

/// The edges after node `v` lost all of its edges, outgoing and incoming.
pub open spec fn without_node<W>(adj: Seq<Seq<(usize, W)>>, v: int) -> Seq<Seq<(usize, W)>> {
    Seq::new(adj.len(), |u: int| if u == v { Seq::empty() } else { adj[u].filter(avoids::<W>(v)) })
}

/// A graph that nodes can be taken out of.
pub trait Remove: Base {
    /// Takes away every edge that leaves or enters the node, puts a default value in its place
    /// and returns the value it held. The other nodes keep their indices.
    fn remove_node(&mut self, node_id: NodeId) -> (r: Self::Node)
        where
            Self::Node: Default,
        requires
            old(self).spec_wf(),
            node_id.0 < old(self).spec_nodes().len(),
        ensures
            final(self).spec_wf(),
            r == old(self).spec_nodes()[node_id.0 as int],
            final(self).spec_nodes().len() == old(self).spec_nodes().len(),
            forall|v: int|
                0 <= v < old(self).spec_nodes().len() && v != node_id.0 ==> #[trigger] final(self).spec_nodes()[v]
                    == old(self).spec_nodes()[v],
            final(self).spec_adj() == without_node(old(self).spec_adj(), node_id.0 as int),
    ;
}

/// A graph whose nodes and edge weights can be changed in place.
pub trait GetMut: Base {
    /// The node, to change in place.
    fn node_mut(&mut self, node_id: NodeId) -> (r: Option<&mut Self::Node>)
        requires
            old(self).spec_wf(),
        ensures
            final(self).spec_wf(),
            final(self).spec_adj() == old(self).spec_adj(),
            match r {
                Some(x) => node_id.0 < old(self).spec_nodes().len() && *x == old(self).spec_nodes()[node_id.0 as int]
                    && final(self).spec_nodes() == old(self).spec_nodes().update(node_id.0 as int, *final(x)),
                None => node_id.0 >= old(self).spec_nodes().len() && final(self).spec_nodes() == old(self).spec_nodes(),
            },
    ;
}

} // verus!
