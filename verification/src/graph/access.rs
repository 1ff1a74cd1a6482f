use crate::algorithms::search::{bfs_connected_components, dfs_connected_components, order_components};
use crate::edge_list::EdgeList;
use crate::error::GraphError;
use crate::graph::index::{EdgeId, NodeId};
use crate::graph::reach::{no_marks, search_order};
use crate::graph::traits::{adj_wf, edge_weight, first_edge, total_edges, Base, Contains, Count, Create, Get, Index, IndexAdjacent, Insert};
use crate::graph_impl::adjacency_list::AdjacencyList;
use vstd::prelude::*;
use vstd::std_specs::cmp::PartialEqSpec;

verus! {

/// A graph whose nodes and edges can be counted and listed.
pub trait GraphTopology: Base {
    /// The indices of all nodes, in order.
    fn indices(&self) -> (r: Vec<NodeId>)
        requires
            self.spec_wf(),
        ensures
            r@.len() == self.spec_nodes().len(),
            forall|i: int| 0 <= i < r@.len() ==> (#[trigger] r@[i]).0 == i,
    ;

    fn node_count(&self) -> (r: usize)
        requires
            self.spec_wf(),
        ensures
            r == self.spec_nodes().len(),
    ;

    /// The number of stored edges (an undirected edge is stored once in each direction).
    fn edge_count(&self) -> (r: usize)
        requires
            self.spec_wf(),
        ensures
            r == total_edges(self.spec_adj()),
    ;
}

/// A graph whose neighbours can be listed.
pub trait GraphAdjacentTopology: Base {
    /// The targets of the edges that leave the node, in the order they were stored.
    fn adjacent_indices(&self, index: NodeId) -> (r: Vec<NodeId>)
        requires
            self.spec_wf(),
            index.0 < self.spec_nodes().len(),
        ensures
            r@.len() == self.spec_adj()[index.0 as int].len(),
            forall|k: int| 0 <= k < r@.len() ==> (#[trigger] r@[k]).0 == self.spec_adj()[index.0 as int][k].0,
    ;
}

/// A graph that nodes and edges can be added to, read and replaced in.
pub trait GraphAccess: Base {
    /// What the stored edges become when the edge `from -> to` is added.
    spec fn spec_added(adj: Seq<Seq<(usize, Self::Weight)>>, from: usize, to: usize, weight: Self::Weight) -> Seq<Seq<(usize, Self::Weight)>>;

    /// What the stored edges become when the weight of the edge `from -> to` is replaced.
    spec fn spec_reweighted(adj: Seq<Seq<(usize, Self::Weight)>>, from: usize, to: usize, weight: Self::Weight) -> Seq<Seq<(usize, Self::Weight)>>;

    /// Adds a node without edges, and returns its index.
    fn add_node(&mut self, node: Self::Node) -> (r: NodeId)
        requires
            old(self).spec_wf(),
            old(self).spec_nodes().len() < usize::MAX,
        ensures
            final(self).spec_wf(),
            r.0 == old(self).spec_nodes().len(),
            final(self).spec_nodes() == old(self).spec_nodes().push(node),
            final(self).spec_adj() == old(self).spec_adj().push(Seq::empty()),
    ;

    /// Adds the edge `from -> to`, unless the graph holds it already.
    fn add_edge(&mut self, from: NodeId, to: NodeId, weight: Self::Weight) -> (r: Result<EdgeId, GraphError>)
        requires
            old(self).spec_wf(),
            from.0 < old(self).spec_nodes().len(),
            to.0 < old(self).spec_nodes().len(),
            total_edges(old(self).spec_adj()) + 2 <= usize::MAX,
        ensures
            final(self).spec_wf(),
            final(self).spec_nodes() == old(self).spec_nodes(),
            edge_weight(old(self).spec_adj(), from.0, to.0) is Some ==> r == Err::<EdgeId, GraphError>(
                GraphError::EdgeAlreadyExists { from, to },
            ) && final(self).spec_adj() == old(self).spec_adj(),
            edge_weight(old(self).spec_adj(), from.0, to.0) is None ==> r == Ok::<EdgeId, GraphError>(
                EdgeId { from, to },
            ) && final(self).spec_adj() == Self::spec_added(old(self).spec_adj(), from.0, to.0, weight),
    ;

    fn node(&self, index: NodeId) -> (r: &Self::Node)
        requires
            self.spec_wf(),
            index.0 < self.spec_nodes().len(),
        ensures
            *r == self.spec_nodes()[index.0 as int],
    ;

    /// The weight of the edge.
    fn weight(&self, index: EdgeId) -> (r: &Self::Weight)
        requires
            self.spec_wf(),
            index.from.0 < self.spec_nodes().len(),
            edge_weight(self.spec_adj(), index.from.0, index.to.0) is Some,
        ensures
            *r == edge_weight(self.spec_adj(), index.from.0, index.to.0).unwrap(),
    ;

    /// Puts `node` in place of the node at `index`, and returns the node that was there.
    fn update_node(&mut self, index: NodeId, node: Self::Node) -> (r: Self::Node)
        requires
            old(self).spec_wf(),
            index.0 < old(self).spec_nodes().len(),
        ensures
            final(self).spec_wf(),
            r == old(self).spec_nodes()[index.0 as int],
            final(self).spec_nodes() == old(self).spec_nodes().update(index.0 as int, node),
            final(self).spec_adj() == old(self).spec_adj(),
    ;

    /// Puts `weight` in place of the weight of the edge, and returns the weight that was there.
    fn update_edge(&mut self, index: EdgeId, weight: Self::Weight) -> (r: Self::Weight)
        requires
            old(self).spec_wf(),
            index.from.0 < old(self).spec_nodes().len(),
            index.to.0 < old(self).spec_nodes().len(),
            edge_weight(old(self).spec_adj(), index.from.0, index.to.0) is Some,
        ensures
            final(self).spec_wf(),
            r == edge_weight(old(self).spec_adj(), index.from.0, index.to.0).unwrap(),
            final(self).spec_nodes() == old(self).spec_nodes(),
            final(self).spec_adj() == Self::spec_reweighted(old(self).spec_adj(), index.from.0, index.to.0, weight),
    ;
}

/// A graph that can be searched for a node or an edge.
pub trait GraphCompare: Base {
    /// The first node equal to the given one.
    fn contains_node(&self, node: &Self::Node) -> (r: Option<NodeId>)
        where Self::Node: PartialEq
        requires
            self.spec_wf(),
        ensures
            <Self::Node as PartialEqSpec>::obeys_eq_spec() ==> match r {
                Some(id) => id.0 < self.spec_nodes().len() && self.spec_nodes()[id.0 as int].eq_spec(node)
                    && forall|j: int| 0 <= j < id.0 ==> !self.spec_nodes()[j].eq_spec(node),
                None => forall|j: int| 0 <= j < self.spec_nodes().len() ==> !self.spec_nodes()[j].eq_spec(node),
            },
    ;

    /// The edge `from -> to`, if the graph holds one.
    fn contains_edge(&self, from: NodeId, to: NodeId) -> (r: Option<EdgeId>)
        requires
            self.spec_wf(),
            from.0 < self.spec_nodes().len(),
        ensures
            r is Some <==> edge_weight(self.spec_adj(), from.0, to.0) is Some,
            r matches Some(e) ==> e.from == from && e.to == to,
    ;
}

/// The edges after `from -> to` is stored at the end of the edges of `from`.
pub open spec fn push_edge<W>(adj: Seq<Seq<(usize, W)>>, from: usize, to: usize, weight: W) -> Seq<Seq<(usize, W)>> {
    adj.update(from as int, adj[from as int].push((to, weight)))
}

/// The edges after the weight of the first stored edge `from -> to` is replaced.
pub open spec fn set_weight<W>(adj: Seq<Seq<(usize, W)>>, from: usize, to: usize, weight: W) -> Seq<Seq<(usize, W)>> {
    match first_edge(adj[from as int], to) {
        Some(f) => adj.update(from as int, adj[from as int].update(f, (to, weight))),
        None => adj,
    }
}

impl<N, W, const DI: bool> GraphTopology for AdjacencyList<N, W, DI> {
    fn indices(&self) -> (r: Vec<NodeId>) {
        Index::node_ids(self)
    }

    fn node_count(&self) -> (r: usize) {
        Count::node_count(self)
    }

    fn edge_count(&self) -> (r: usize) {
        let ids = Index::edge_ids(self);
        ids.len()
    }
}

impl<N, W, const DI: bool> GraphAdjacentTopology for AdjacencyList<N, W, DI> {
    fn adjacent_indices(&self, index: NodeId) -> (r: Vec<NodeId>) {
        IndexAdjacent::adjacent_node_ids(self, index)
    }
}

impl<N, W, const DI: bool> GraphCompare for AdjacencyList<N, W, DI> {
    fn contains_node(&self, node: &N) -> (r: Option<NodeId>)
        where N: PartialEq
    {
        Contains::contains_node(self, node)
    }

    fn contains_edge(&self, from: NodeId, to: NodeId) -> (r: Option<EdgeId>) {
        Contains::contains_edge(self, from, to)
    }
}

impl<N, W, const DI: bool> GraphAccess for AdjacencyList<N, W, DI> {
    open spec fn spec_added(adj: Seq<Seq<(usize, W)>>, from: usize, to: usize, weight: W) -> Seq<Seq<(usize, W)>> {
        push_edge(adj, from, to, weight)
    }

    open spec fn spec_reweighted(adj: Seq<Seq<(usize, W)>>, from: usize, to: usize, weight: W) -> Seq<Seq<(usize, W)>> {
        set_weight(adj, from, to, weight)
    }

    fn add_node(&mut self, node: N) -> (r: NodeId) {
        Insert::insert_node(self, node)
    }

    fn add_edge(&mut self, from: NodeId, to: NodeId, weight: W) -> (r: Result<EdgeId, GraphError>) {
        if Contains::contains_edge(self, from, to).is_some() {
            return Err(GraphError::EdgeAlreadyExists { from, to });
        }
        Ok(Insert::insert_edge(self, from, to, weight))
    }

    fn node(&self, index: NodeId) -> (r: &N) {
        Get::node(self, index).unwrap()
    }

    fn weight(&self, index: EdgeId) -> (r: &W) {
        Get::weight(self, index).unwrap()
    }

    fn update_node(&mut self, index: NodeId, node: N) -> (r: N) {
        self.replace_node(index, node)
    }

    fn update_edge(&mut self, index: EdgeId, weight: W) -> (r: W) {
        let r = self.replace_weight(index.from, index.to, weight);
        r.unwrap()
    }
}

/// An undirected graph over an adjacency list: every edge added is stored in both directions.
pub struct UndirectedAdjGraph<N, W> {
    pub list: AdjacencyList<N, W, false>,
}

impl<N, W> Base for UndirectedAdjGraph<N, W> {
    type Node = N;
    type Weight = W;

    open spec fn spec_nodes(&self) -> Seq<N> {
        self.list.spec_nodes()
    }

    open spec fn spec_adj(&self) -> Seq<Seq<(usize, W)>> {
        self.list.spec_adj()
    }

    open spec fn spec_wf(&self) -> bool {
        self.list.spec_wf()
    }

    proof fn lemma_wf(&self) {
        self.list.lemma_wf();
    }
}

impl<N, W> UndirectedAdjGraph<N, W> {
    /// An empty graph.
    pub fn new() -> (r: Self)
        ensures
            r.spec_wf(),
            r.spec_nodes().len() == 0,
            r.spec_adj().len() == 0,
    {
        UndirectedAdjGraph { list: AdjacencyList::new() }
    }
}

impl<N, W> GraphTopology for UndirectedAdjGraph<N, W> {
    fn indices(&self) -> (r: Vec<NodeId>) {
        GraphTopology::indices(&self.list)
    }

    fn node_count(&self) -> (r: usize) {
        GraphTopology::node_count(&self.list)
    }

    fn edge_count(&self) -> (r: usize) {
        GraphTopology::edge_count(&self.list)
    }
}

impl<N, W> GraphAdjacentTopology for UndirectedAdjGraph<N, W> {
    fn adjacent_indices(&self, index: NodeId) -> (r: Vec<NodeId>) {
        GraphAdjacentTopology::adjacent_indices(&self.list, index)
    }
}

impl<N, W> GraphCompare for UndirectedAdjGraph<N, W> {
    fn contains_node(&self, node: &N) -> (r: Option<NodeId>)
        where N: PartialEq
    {
        GraphCompare::contains_node(&self.list, node)
    }

    fn contains_edge(&self, from: NodeId, to: NodeId) -> (r: Option<EdgeId>) {
        GraphCompare::contains_edge(&self.list, from, to)
    }
}

impl<N, W: Copy> GraphAccess for UndirectedAdjGraph<N, W> {
    /// Both directions are stored, once for a loop.
    open spec fn spec_added(adj: Seq<Seq<(usize, W)>>, from: usize, to: usize, weight: W) -> Seq<Seq<(usize, W)>> {
        if from == to {
            push_edge(adj, from, to, weight)
        } else {
            push_edge(push_edge(adj, from, to, weight), to, from, weight)
        }
    }

    /// Both directions get the new weight.
    open spec fn spec_reweighted(adj: Seq<Seq<(usize, W)>>, from: usize, to: usize, weight: W) -> Seq<Seq<(usize, W)>> {
        set_weight(set_weight(adj, from, to, weight), to, from, weight)
    }

    fn add_node(&mut self, node: N) -> (r: NodeId) {
        GraphAccess::add_node(&mut self.list, node)
    }

    fn add_edge(&mut self, from: NodeId, to: NodeId, weight: W) -> (r: Result<EdgeId, GraphError>) {
        proof {
            self.lemma_wf();
        }
        if Contains::contains_edge(&self.list, from, to).is_some() {
            return Err(GraphError::EdgeAlreadyExists { from, to });
        }
        let e = Insert::insert_edge(&mut self.list, from, to, weight);
        if from.0 != to.0 {
            proof {
                crate::graph::traits::lemma_total_edges_update(
                    old(self).spec_adj(),
                    from.0 as int,
                    old(self).spec_adj()[from.0 as int].push((to.0, weight)),
                );
            }
            Insert::insert_edge(&mut self.list, to, from, weight);
        }
        Ok(e)
    }

    fn node(&self, index: NodeId) -> (r: &N) {
        GraphAccess::node(&self.list, index)
    }

    fn weight(&self, index: EdgeId) -> (r: &W) {
        GraphAccess::weight(&self.list, index)
    }

    fn update_node(&mut self, index: NodeId, node: N) -> (r: N) {
        GraphAccess::update_node(&mut self.list, index, node)
    }

    fn update_edge(&mut self, index: EdgeId, weight: W) -> (r: W) {
        let r = self.list.replace_weight(index.from, index.to, weight);
        self.list.replace_weight(index.to, index.from, weight);
        r.unwrap()
    }
}

/// Counting the components of a graph by searches.
pub trait GraphSearch: Base + Sized {
    /// The number of components that depth-first searches find.
    fn depth_search_connected_components(&self) -> (r: u32)
        requires
            self.spec_wf(),
            adj_wf(self.spec_adj()),
            self.spec_nodes().len() <= u32::MAX,
        ensures
            exists|c: Seq<Seq<NodeId>>|
                #[trigger] order_components(c, self.spec_adj(), self.spec_nodes().len() as int) && c.len() == r,
    ;

    /// The number of components that breadth-first searches find.
    fn breadth_search_connected_components(&self) -> (r: u32)
        requires
            self.spec_wf(),
            adj_wf(self.spec_adj()),
            self.spec_nodes().len() <= u32::MAX,
        ensures
            exists|c: Seq<Seq<NodeId>>|
                #[trigger] order_components(c, self.spec_adj(), self.spec_nodes().len() as int) && c.len() == r,
    ;

    /// The nodes a depth-first search from `start` reaches, in the order scanned.
    fn depth_search_connected_nodes(&self, start: NodeId) -> (r: Vec<&Self::Node>)
        requires
            self.spec_wf(),
            adj_wf(self.spec_adj()),
            start.0 < self.spec_nodes().len(),
        ensures
            exists|order: Seq<NodeId>|
                #[trigger] search_order(
                    self.spec_adj(),
                    no_marks(self.spec_nodes().len()),
                    start.0 as int,
                    order,
                ) && order.len() == r@.len() && forall|i: int|
                    0 <= i < order.len() ==> *r@[i] == self.spec_nodes()[order[i].0 as int],
    ;
}

/// Counts components, depth first or breadth first.
fn count_components<G: Index + IndexAdjacent + Count>(graph: &G, depth: bool) -> (r: u32)
    requires
        graph.spec_wf(),
        adj_wf(graph.spec_adj()),
        graph.spec_nodes().len() <= u32::MAX,
    ensures
        exists|c: Seq<Seq<NodeId>>|
            #[trigger] order_components(c, graph.spec_adj(), graph.spec_nodes().len() as int) && c.len() == r,
{
    let comps = if depth {
        dfs_connected_components(graph)
    } else {
        bfs_connected_components(graph)
    };
    let k = comps.count();
    proof {
        let c = comps@;
        lemma_roots_bound(c, graph.spec_nodes().len() as int);
        assert(order_components(c, graph.spec_adj(), graph.spec_nodes().len() as int) && c.len() == k);
    }
    k as u32
}

proof fn lemma_roots_bound(c: Seq<Seq<NodeId>>, n: int)
    requires
        0 <= n,
        forall|i: int| 0 <= i < c.len() ==> (#[trigger] c[i]).len() >= 1 && c[i][0].0 < n,
        forall|i: int, j: int| 0 <= i < j < c.len() ==> c[i][0].0 < c[j][0].0,
    ensures
        c.len() <= n,
    decreases c.len(),
{
    if c.len() > 0 {
        let d = c.drop_last();
        let m = c[c.len() - 1][0].0 as int;
        assert(c[c.len() - 1].len() >= 1 && c[c.len() - 1][0].0 < n);
        assert forall|i: int| 0 <= i < d.len() implies (#[trigger] d[i]).len() >= 1 && d[i][0].0 < m by {
            assert(d[i] == c[i]);
        }
        assert forall|i: int, j: int| 0 <= i < j < d.len() implies d[i][0].0 < d[j][0].0 by {
            assert(d[i] == c[i]);
            assert(d[j] == c[j]);
        }
        lemma_roots_bound(d, m);
    }
}

impl<N, W, const DI: bool> GraphSearch for AdjacencyList<N, W, DI> {
    fn depth_search_connected_components(&self) -> (r: u32) {
        count_components(self, true)
    }

    fn breadth_search_connected_components(&self) -> (r: u32) {
        count_components(self, false)
    }

    fn depth_search_connected_nodes(&self, start: NodeId) -> (r: Vec<&N>) {
        let tour = crate::algorithms::search::dfs_tour(self, start);
        proof {
            Base::lemma_wf(self);
            assert forall|i: int| 0 <= i < tour.route@.len() implies (#[trigger] tour.route@[i]).0 < self.spec_nodes().len() by {
                if i > 0 {
                    assert(crate::graph::reach::found(
                        self.spec_adj(),
                        no_marks(self.spec_nodes().len()),
                        start.0 as int,
                        tour.route@[i].0 as int,
                    ));
                }
            }
        }
        let nodes = tour.nodes(self);
        nodes
    }
}

impl<N, W> GraphSearch for UndirectedAdjGraph<N, W> {
    fn depth_search_connected_components(&self) -> (r: u32) {
        self.list.depth_search_connected_components()
    }

    fn breadth_search_connected_components(&self) -> (r: u32) {
        self.list.breadth_search_connected_components()
    }

    fn depth_search_connected_nodes(&self, start: NodeId) -> (r: Vec<&N>) {
        self.list.depth_search_connected_nodes(start)
    }
}

/// The edges an adjacency list holds after the edge entries are added in order, each in both
/// directions (the reverse first) unless the graph is directed, or the error of the first edge
/// that exists already.
pub open spec fn built_adj<W>(adj0: Seq<Seq<(usize, W)>>, entries: Seq<(usize, usize, W)>, di: bool) -> Result<Seq<Seq<(usize, W)>>, GraphError>
    decreases entries.len(),
{
    if entries.len() == 0 {
        Ok(adj0)
    } else {
        match built_adj(adj0, entries.drop_last(), di) {
            Err(x) => Err(x),
            Ok(a) => add_entry(a, entries.last(), di),
        }
    }
}

/// One entry added, as `built_adj` adds it.
pub open spec fn add_entry<W>(a: Seq<Seq<(usize, W)>>, e: (usize, usize, W), di: bool) -> Result<Seq<Seq<(usize, W)>>, GraphError> {
    let (f, t, w) = e;
    let first = if di {
        Ok(a)
    } else if edge_weight(a, t, f) is Some {
        Err(GraphError::EdgeAlreadyExists { from: NodeId(t), to: NodeId(f) })
    } else {
        Ok(push_edge(a, t, f, w))
    };
    match first {
        Err(x) => Err(x),
        Ok(a1) => if edge_weight(a1, f, t) is Some {
            Err(GraphError::EdgeAlreadyExists { from: NodeId(f), to: NodeId(t) })
        } else {
            Ok(push_edge(a1, f, t, w))
        },
    }
}

/// The node values after the entries are added: each node an entry names holds its own index,
/// the others zero.
pub open spec fn touched_nodes<W>(n: nat, entries: Seq<(usize, usize, W)>) -> Seq<usize> {
    Seq::new(n, |v: int| if exists|i: int| 0 <= i < entries.len() && ((#[trigger] entries[i]).0 == v || entries[i].1 == v) {
        v as usize
    } else {
        0usize
    })
}

/// What building a graph from an edge list gives: see `AdjacencyList::try_from_edge_list`.
pub open spec fn converted<W, const DI: bool>(edge_list: EdgeList<usize, W, DI>, r: Result<AdjacencyList<usize, W, DI>, GraphError>) -> bool {
    &&& (edge_list.edges.wf() && edge_list.edges.entries().len() <= usize::MAX / 4 && forall|i: int|
        0 <= i < edge_list.edges.entries().len() ==> (#[trigger] edge_list.edges.entries()[i]).0 < edge_list.node_count
            && edge_list.edges.entries()[i].1 < edge_list.node_count) ==> match built_adj(
        Seq::new(edge_list.node_count as nat, |i: int| Seq::<(usize, W)>::empty()),
        edge_list.edges.entries(),
        DI,
    ) {
        Ok(adj) => r matches Ok(g) && g.spec_wf() && g.spec_adj() == adj && g.spec_nodes() == touched_nodes(
            edge_list.node_count as nat,
            edge_list.edges.entries(),
        ),
        Err(e) => r == Err::<AdjacencyList<usize, W, DI>, GraphError>(e),
    }
    &&& !(edge_list.edges.wf() && edge_list.edges.entries().len() <= usize::MAX / 4 && forall|i: int|
        0 <= i < edge_list.edges.entries().len() ==> (#[trigger] edge_list.edges.entries()[i]).0 < edge_list.node_count
            && edge_list.edges.entries()[i].1 < edge_list.node_count) ==> r == Err::<
        AdjacencyList<usize, W, DI>,
        GraphError,
    >(GraphError::BadEdgeListFormat)
}

impl<W: Copy, const DI: bool> AdjacencyList<usize, W, DI> {
    /// The graph of an edge list: its nodes hold their indices (zero for a node no edge names),
    /// and its edges are added in order, in both directions unless the graph is directed. An
    /// edge that exists already is an error; an edge that names a node past the node count, or
    /// more edges than a quarter of the address range, is refused as badly formed.
    pub fn try_from_edge_list(edge_list: EdgeList<usize, W, DI>) -> (r: Result<Self, GraphError>)
        ensures
            (edge_list.edges.wf() && edge_list.edges.entries().len() <= usize::MAX / 4 && forall|i: int|
                0 <= i < edge_list.edges.entries().len() ==> (#[trigger] edge_list.edges.entries()[i]).0
                    < edge_list.node_count && edge_list.edges.entries()[i].1 < edge_list.node_count) ==> match built_adj(
                Seq::new(edge_list.node_count as nat, |i: int| Seq::<(usize, W)>::empty()),
                edge_list.edges.entries(),
                DI,
            ) {
                Ok(adj) => r matches Ok(g) && g.spec_wf() && g.spec_adj() == adj && g.spec_nodes() == touched_nodes(
                    edge_list.node_count as nat,
                    edge_list.edges.entries(),
                ),
                Err(e) => r == Err::<Self, GraphError>(e),
            },
            !(edge_list.edges.wf() && edge_list.edges.entries().len() <= usize::MAX / 4 && forall|i: int|
                0 <= i < edge_list.edges.entries().len() ==> (#[trigger] edge_list.edges.entries()[i]).0
                    < edge_list.node_count && edge_list.edges.entries()[i].1 < edge_list.node_count) ==> r
                == Err::<Self, GraphError>(GraphError::BadEdgeListFormat),
    {
        let n = edge_list.node_count;
        if !edge_list.edges.is_consistent() {
            return Err(GraphError::BadEdgeListFormat);
        }
        let entries = edge_list.edges.iter();
        let ghost es = entries@;
        let mut k: usize = 0;
        while k < entries.len()
            invariant
                es == entries@,
                es == edge_list.edges.entries(),
                edge_list.edges.wf(),
                n == edge_list.node_count,
                k <= entries@.len(),
                forall|i: int| 0 <= i < k ==> (#[trigger] es[i]).0 < n && es[i].1 < n,
            decreases entries@.len() - k,
        {
            if entries[k].0 >= n || entries[k].1 >= n {
                proof {
                    assert(es[k as int].0 >= n || es[k as int].1 >= n);
                }
                return Err(GraphError::BadEdgeListFormat);
            }
            k = k + 1;
        }
        if entries.len() > usize::MAX / 4 {
            return Err(GraphError::BadEdgeListFormat);
        }
        let mut zeros: Vec<usize> = Vec::new();
        let mut i: usize = 0;
        while i < n
            invariant
                i <= n,
                zeros@ == Seq::new(i as nat, |j: int| 0usize),
            decreases n - i,
        {
            zeros.push(0);
            i = i + 1;
            proof {
                assert(zeros@ =~= Seq::new(i as nat, |j: int| 0usize));
            }
        }
        let mut g: Self = Create::with_nodes(zeros);
        let ghost adj0 = Seq::new(n as nat, |i: int| Seq::<(usize, W)>::empty());
        proof {
            crate::graph_impl::adjacency_list::lemma_total_zero(g.spec_adj());
        }
        let mut k: usize = 0;
        while k < entries.len()
            invariant
                es == entries@,
                es == edge_list.edges.entries(),
                edge_list.edges.wf(),
                n == edge_list.node_count,
                adj0 == Seq::new(n as nat, |i: int| Seq::<(usize, W)>::empty()),
                entries@.len() <= usize::MAX / 4,
                forall|i: int| 0 <= i < es.len() ==> (#[trigger] es[i]).0 < n && es[i].1 < n,
                k <= es.len(),
                g.spec_wf(),
                g.spec_nodes().len() == n,
                built_adj(adj0, es.take(k as int), DI) == Ok::<Seq<Seq<(usize, W)>>, GraphError>(g.spec_adj()),
                total_edges(g.spec_adj()) <= 2 * k,
                g.spec_nodes() == touched_nodes(n as nat, es.take(k as int)),
            decreases es.len() - k,
        {
            let (from, to, w) = entries[k];
            let ghost g0 = g;
            g.replace_node(NodeId(from), from);
            g.replace_node(NodeId(to), to);
            let ghost g1 = g;
            proof {
                assert(es.take(k + 1).drop_last() =~= es.take(k as int));
                assert(es.take(k + 1).last() == es[k as int]);
                g.lemma_wf();
                assert(g.spec_nodes() =~= touched_nodes(n as nat, es.take(k + 1))) by {
                    let t = es.take(k + 1);
                    assert forall|v: int| 0 <= v < n implies g.spec_nodes()[v] == touched_nodes(n as nat, t)[v] by {
                        if exists|i: int| 0 <= i < k && ((#[trigger] es.take(k as int)[i]).0 == v || es.take(k as int)[i].1 == v) {
                            let i = choose|i: int| 0 <= i < k && ((#[trigger] es.take(k as int)[i]).0 == v || es.take(k as int)[i].1 == v);
                            assert(t[i] == es.take(k as int)[i]);
                        }
                        if exists|i: int| 0 <= i < k + 1 && ((#[trigger] t[i]).0 == v || t[i].1 == v) {
                            let i = choose|i: int| 0 <= i < k + 1 && ((#[trigger] t[i]).0 == v || t[i].1 == v);
                            if i < k {
                                assert(es.take(k as int)[i] == t[i]);
                            }
                        }
                        assert(t[k as int] == es[k as int]);
                    }
                }
            }
            if !DI {
                match GraphAccess::add_edge(&mut g, NodeId(to), NodeId(from), w) {
                    Err(e) => {
                        proof {
                            assert(add_entry(g1.spec_adj(), es[k as int], DI) == Err::<Seq<Seq<(usize, W)>>, GraphError>(e));
                            lemma_built_err(adj0, es, DI, k + 1);
                        }
                        return Err(e);
                    },
                    Ok(_) => {},
                }
            }
            let ghost g2 = g;
            proof {
                g.lemma_wf();
                if !DI {
                    crate::graph::traits::lemma_total_edges_update(g1.spec_adj(), to as int, g1.spec_adj()[to as int].push((from, w)));
                }
            }
            match GraphAccess::add_edge(&mut g, NodeId(from), NodeId(to), w) {
                Err(e) => {
                    proof {
                        assert(add_entry(g1.spec_adj(), es[k as int], DI) == Err::<Seq<Seq<(usize, W)>>, GraphError>(e));
                        lemma_built_err(adj0, es, DI, k + 1);
                    }
                    return Err(e);
                },
                Ok(_) => {},
            }
            proof {
                g.lemma_wf();
                crate::graph::traits::lemma_total_edges_update(g2.spec_adj(), from as int, g2.spec_adj()[from as int].push((to, w)));
                assert(add_entry(g1.spec_adj(), es[k as int], DI) == Ok::<Seq<Seq<(usize, W)>>, GraphError>(g.spec_adj()));
            }
            k = k + 1;
        }
        proof {
            assert(es.take(es.len() as int) =~= es);
        }
        Ok(g)
    }
}

/// An error while adding the entries stays the result when more entries follow.
pub proof fn lemma_built_err<W>(adj0: Seq<Seq<(usize, W)>>, es: Seq<(usize, usize, W)>, di: bool, k: int)
    requires
        0 <= k <= es.len(),
        built_adj(adj0, es.take(k), di) is Err,
    ensures
        built_adj(adj0, es, di) == built_adj(adj0, es.take(k), di),
    decreases es.len() - k,
{
    if k < es.len() {
        assert(es.take(k + 1).drop_last() =~= es.take(k));
        lemma_built_err(adj0, es, di, k + 1);
    } else {
        assert(es.take(k) =~= es);
    }
}

/// Conversion through `try_from_edge_list`; the trait claims nothing beyond it.
impl<W: Copy, const DI: bool> vstd::std_specs::convert::TryFromSpecImpl<EdgeList<usize, W, DI>> for AdjacencyList<usize, W, DI> {
    open spec fn obeys_try_from_spec() -> bool {
        false
    }

    open spec fn try_from_spec(v: EdgeList<usize, W, DI>) -> Result<Self, GraphError> {
        Err(GraphError::BadEdgeListFormat)
    }
}

/// Conversion through `try_from_edge_list`; the trait claims nothing beyond it.
impl<W: Copy> vstd::std_specs::convert::TryFromSpecImpl<EdgeList<usize, W, false>> for UndirectedAdjGraph<usize, W> {
    open spec fn obeys_try_from_spec() -> bool {
        false
    }

    open spec fn try_from_spec(v: EdgeList<usize, W, false>) -> Result<Self, GraphError> {
        Err(GraphError::BadEdgeListFormat)
    }
}

impl<W: Copy, const DI: bool> TryFrom<EdgeList<usize, W, DI>> for AdjacencyList<usize, W, DI> {
    type Error = GraphError;

    fn try_from(edge_list: EdgeList<usize, W, DI>) -> (r: Result<Self, GraphError>)
        ensures
            converted(edge_list, r),
    {
        Self::try_from_edge_list(edge_list)
    }
}

impl<W: Copy> TryFrom<EdgeList<usize, W, false>> for UndirectedAdjGraph<usize, W> {
    type Error = GraphError;

    fn try_from(edge_list: EdgeList<usize, W, false>) -> (r: Result<Self, GraphError>)
        ensures
            converted(
                edge_list,
                match r {
                    Ok(g) => Ok(g.list),
                    Err(e) => Err(e),
                },
            ),
    {
        match AdjacencyList::try_from_edge_list(edge_list) {
            Ok(list) => Ok(UndirectedAdjGraph { list }),
            Err(e) => Err(e),
        }
    }
}

} // verus!
