use crate::graph::edge::Edge;
use crate::graph::index::{EdgeId, NodeId};
use crate::graph::traits::{
    edge_weight, first_edge, lemma_first_edge, lemma_total_edges_prefix, lemma_total_edges_update, total_edges, Base,
    Clear, Contains, Count, Create, Directed, edge_ids_of, Extend, flat_edges, stored, Get, GetMut, Index, IndexAdjacent, Insert, Iter, IterAdjacent, lemma_flat_edges, lemma_total_edges_shrink, Remove, Reserve, row_edges, without_node, avoids,
};
use vstd::prelude::*;
use vstd::std_specs::cmp::PartialEqSpec;

verus! {

/// A graph stored as, for every node, the list of the edges that leave it.
/// An undirected graph stores every edge once in each direction.
#[derive(Debug)]
pub struct AdjacencyList<N, W, const DI: bool> {
    pub(crate) nodes: Vec<N>,
    pub(crate) edges: Vec<Vec<Edge<W>>>,
}

/// The outgoing edges of every node as `(target, weight)`.
pub open spec fn list_adj<W>(edges: Seq<Vec<Edge<W>>>) -> Seq<Seq<(usize, W)>> {
    Seq::new(
        edges.len(),
        |u: int| Seq::new(edges[u]@.len(), |k: int| (edges[u]@[k].edge_id.to.0, edges[u]@[k].weight)),
    )
}

impl<N, W, const DI: bool> Base for AdjacencyList<N, W, DI> {
    type Node = N;
    type Weight = W;

    closed spec fn spec_nodes(&self) -> Seq<N> {
        self.nodes@
    }

    closed spec fn spec_adj(&self) -> Seq<Seq<(usize, W)>> {
        list_adj(self.edges@)
    }

    closed spec fn spec_wf(&self) -> bool {
        &&& self.nodes@.len() == self.edges@.len()
        &&& forall|u: int, k: int|
            0 <= u < self.edges@.len() && 0 <= k < self.edges@[u]@.len()
                ==> (#[trigger] self.edges@[u]@[k]).edge_id.from.0 == u
        &&& total_edges(list_adj(self.edges@)) <= usize::MAX
    }

    proof fn lemma_wf(&self) {
    }
}

impl<N, W, const DI: bool> AdjacencyList<N, W, DI> {
    /// An empty graph.
    pub fn new() -> (r: Self)
        ensures
            r.spec_wf(),
            r.spec_nodes().len() == 0,
            r.spec_adj().len() == 0,
    {
        AdjacencyList { nodes: Vec::new(), edges: Vec::new() }
    }
}

impl<N, W, const DI: bool> Clear for AdjacencyList<N, W, DI> {
    fn clear(&mut self) {
        self.nodes.clear();
        self.edges.clear();
        assert(list_adj(self.edges@) =~= Seq::empty());
    }

    fn clear_edges(&mut self) {
        let n = self.edges.len();
        let mut i: usize = 0;
        while i < n
            invariant
                n == self.edges@.len(),
                self.nodes@ == old(self).nodes@,
                self.nodes@.len() == n,
                i <= n,
                forall|u: int| 0 <= u < i ==> #[trigger] self.edges@[u]@.len() == 0,
                forall|u: int| i <= u < n ==> #[trigger] self.edges@[u] == old(self).edges@[u],
                old(self).spec_wf(),
            decreases n - i,
        {
            self.edges[i].clear();
            i = i + 1;
        }
        proof {
            let adj = list_adj(self.edges@);
            assert(forall|u: int| 0 <= u < n ==> #[trigger] adj[u] =~= Seq::<(usize, W)>::empty());
            assert(adj.len() == 0 || adj.len() == n);
            lemma_total_zero(adj);
        }
    }
}

/// Lists with no edge at all hold zero edges.
pub proof fn lemma_total_zero<W>(adj: Seq<Seq<(usize, W)>>)
    requires
        forall|u: int| 0 <= u < adj.len() ==> #[trigger] adj[u].len() == 0,
    ensures
        total_edges(adj) == 0,
    decreases adj.len(),
{
    if adj.len() > 0 {
        lemma_total_zero(adj.drop_last());
    }
}

impl<N, W, const DI: bool> Contains for AdjacencyList<N, W, DI> {
    fn contains_node(&self, node: &N) -> (r: Option<NodeId>)
        where N: PartialEq
    {
        let n = self.nodes.len();
        let mut i: usize = 0;
        while i < n
            invariant
                n == self.nodes@.len(),
                i <= n,
                N::obeys_eq_spec() ==> forall|j: int| 0 <= j < i ==> !self.nodes@[j].eq_spec(node),
            decreases n - i,
        {
            if self.nodes[i] == *node {
                return Some(NodeId(i));
            }
            i = i + 1;
        }
        None
    }

    fn contains_edge(&self, from: NodeId, to: NodeId) -> (r: Option<EdgeId>) {
        let out = &self.edges[from.0];
        let n = out.len();
        let mut i: usize = 0;
        proof {
            lemma_first_edge(self.spec_adj()[from.0 as int], to.0);
        }
        while i < n
            invariant
                self.spec_wf(),
                from.0 < self.edges@.len(),
                *out == self.edges@[from.0 as int],
                n == out@.len(),
                i <= n,
                forall|j: int| 0 <= j < i ==> #[trigger] out@[j].edge_id.to.0 != to.0,
                match first_edge(self.spec_adj()[from.0 as int], to.0) {
                    Some(f) => 0 <= f < n && self.spec_adj()[from.0 as int][f].0 == to.0,
                    None => forall|j: int| 0 <= j < n ==> self.spec_adj()[from.0 as int][j].0 != to.0,
                },
            decreases n - i,
        {
            if out[i].edge_id.to == to {
                assert(self.spec_adj()[from.0 as int][i as int].0 == to.0);
                return Some(EdgeId { from, to });
            }
            i = i + 1;
        }
        proof {
            if let Some(f) = first_edge(self.spec_adj()[from.0 as int], to.0) {
                assert(out@[f].edge_id.to.0 == to.0);
            }
        }
        None
    }
}

impl<N, W, const DI: bool> Count for AdjacencyList<N, W, DI> {
    open spec fn spec_edge_count(&self) -> nat {
        if DI {
            total_edges(self.spec_adj())
        } else {
            total_edges(self.spec_adj()) / 2
        }
    }

    fn node_count(&self) -> (r: usize) {
        self.nodes.len()
    }

    fn edge_count(&self) -> (r: usize) {
        let n = self.edges.len();
        let mut count: usize = 0;
        let mut i: usize = 0;
        while i < n
            invariant
                self.spec_wf(),
                n == self.edges@.len(),
                i <= n,
                count == total_edges(self.spec_adj().take(i as int)),
            decreases n - i,
        {
            proof {
                let adj = self.spec_adj();
                assert(adj.take(i + 1).drop_last() =~= adj.take(i as int));
                lemma_total_edges_prefix(adj, i + 1);
            }
            count = count + self.edges[i].len();
            i = i + 1;
        }
        assert(self.spec_adj().take(n as int) =~= self.spec_adj());
        if DI {
            count
        } else {
            count / 2
        }
    }
}

impl<N, W, const DI: bool> Create for AdjacencyList<N, W, DI> {
    fn with_capacity(nodes: usize, edges: usize) -> (r: Self) {
        AdjacencyList { nodes: Vec::with_capacity(nodes), edges: Vec::with_capacity(nodes) }
    }

    fn with_nodes(nodes: Vec<N>) -> (r: Self) {
        let n = nodes.len();
        let mut edges: Vec<Vec<Edge<W>>> = Vec::new();
        let mut i: usize = 0;
        while i < n
            invariant
                i <= n,
                edges@.len() == i,
                forall|u: int| 0 <= u < i ==> (#[trigger] edges@[u])@.len() == 0,
            decreases n - i,
        {
            edges.push(Vec::new());
            i = i + 1;
        }
        let r = AdjacencyList { nodes, edges };
        proof {
            lemma_total_zero(list_adj(r.edges@));
            let e = Seq::new(n as nat, |i: int| Seq::<(usize, W)>::empty());
            assert(forall|u: int| 0 <= u < n ==> #[trigger] r.spec_adj()[u] =~= e[u]);
            assert(r.spec_adj() =~= e);
        }
        r
    }
}

impl<N, W, const DI: bool> Directed for AdjacencyList<N, W, DI> {
    open spec fn spec_directed() -> bool {
        DI
    }

    fn directed() -> (r: bool) {
        DI
    }
}

impl<N, W, const DI: bool> Get for AdjacencyList<N, W, DI> {
    fn node(&self, node_id: NodeId) -> (r: Option<&N>) {
        if node_id.0 < self.nodes.len() {
            Some(&self.nodes[node_id.0])
        } else {
            None
        }
    }

    fn weight(&self, edge_id: EdgeId) -> (r: Option<&W>) {
        let from = edge_id.from.0;
        let to = edge_id.to;
        let out = &self.edges[from];
        let n = out.len();
        let mut i: usize = 0;
        proof {
            lemma_first_edge(self.spec_adj()[from as int], to.0);
        }
        while i < n
            invariant
                self.spec_wf(),
                from == edge_id.from.0,
                to == edge_id.to,
                from < self.edges@.len(),
                *out == self.edges@[from as int],
                n == out@.len(),
                i <= n,
                forall|j: int| 0 <= j < i ==> #[trigger] out@[j].edge_id.to.0 != to.0,
                match first_edge(self.spec_adj()[from as int], to.0) {
                    Some(f) => 0 <= f < n && self.spec_adj()[from as int][f].0 == to.0 && forall|j: int|
                        0 <= j < f ==> self.spec_adj()[from as int][j].0 != to.0,
                    None => forall|j: int| 0 <= j < n ==> self.spec_adj()[from as int][j].0 != to.0,
                },
            decreases n - i,
        {
            if out[i].edge_id.to == to {
                proof {
                    let f = first_edge(self.spec_adj()[from as int], to.0);
                    assert(self.spec_adj()[from as int][i as int].0 == to.0);
                    if let Some(ff) = f {
                        if ff < i {
                            assert(out@[ff].edge_id.to.0 == to.0);
                        }
                        assert(ff == i);
                    }
                    assert(f == Some(i as int));
                    assert(self.spec_adj()[from as int][i as int].1 == out@[i as int].weight);
                    assert(edge_weight(self.spec_adj(), from, to.0) == Some(out@[i as int].weight));
                }
                let e = &out[i];
                assert(e.weight == out@[i as int].weight);
                return Some(&e.weight);
            }
            i = i + 1;
        }
        proof {
            if let Some(f) = first_edge(self.spec_adj()[from as int], to.0) {
                assert(out@[f].edge_id.to.0 == to.0);
            }
        }
        None
    }
}

impl<N, W, const DI: bool> Index for AdjacencyList<N, W, DI> {
    fn node_ids(&self) -> (r: Vec<NodeId>) {
        let n = self.nodes.len();
        let mut res: Vec<NodeId> = Vec::new();
        let mut i: usize = 0;
        while i < n
            invariant
                i <= n,
                res@.len() == i,
                forall|k: int| 0 <= k < i ==> (#[trigger] res@[k]).0 == k,
            decreases n - i,
        {
            res.push(NodeId(i));
            i = i + 1;
        }
        res
    }

    /// Row by row, in the order stored.
    fn edge_ids(&self) -> (r: Vec<EdgeId>)
        ensures
            r@ == edge_ids_of(self.spec_adj()),
    {
        let ghost adj = self.spec_adj();
        let n = self.edges.len();
        let mut res: Vec<EdgeId> = Vec::new();
        let mut u: usize = 0;
        while u < n
            invariant
                self.spec_wf(),
                adj == self.spec_adj(),
                n == self.edges@.len(),
                n == adj.len(),
                u <= n,
                res@ == edge_ids_of(adj.take(u as int)),
            decreases n - u,
        {
            let out = &self.edges[u];
            let m = out.len();
            let ghost start = res@;
            let mut k: usize = 0;
            while k < m
                invariant
                    self.spec_wf(),
                    adj == self.spec_adj(),
                    n == self.edges@.len(),
                    u < n,
                    *out == self.edges@[u as int],
                    m == out@.len(),
                    k <= m,
                    res@ == start + row_edges(u, adj[u as int].take(k as int)).map_values(|e: Edge<W>| e.edge_id),
                decreases m - k,
            {
                res.push(out[k].edge_id);
                proof {
                    assert(out@[k as int].edge_id.from.0 == u);
                    assert(row_edges(u, adj[u as int].take(k + 1)).map_values(|e: Edge<W>| e.edge_id) =~= row_edges(
                        u,
                        adj[u as int].take(k as int),
                    ).map_values(|e: Edge<W>| e.edge_id).push(out@[k as int].edge_id));
                }
                k = k + 1;
            }
            proof {
                assert(adj[u as int].take(m as int) =~= adj[u as int]);
                assert(adj.take(u + 1).drop_last() =~= adj.take(u as int));
                assert(adj.take(u + 1).last() == adj[u as int]);
                let a = flat_edges(adj.take(u as int));
                let b = row_edges(u, adj[u as int]);
                assert((a + b).map_values(|e: Edge<W>| e.edge_id) =~= a.map_values(|e: Edge<W>| e.edge_id) + b.map_values(
                    |e: Edge<W>| e.edge_id,
                ));
            }
            u = u + 1;
        }
        proof {
            assert(adj.take(n as int) =~= adj);
            lemma_flat_edges(adj);
            assert forall|i: int| 0 <= i < res@.len() implies 0 <= (#[trigger] res@[i]).from.0 < adj.len() && exists|k: int|
                0 <= k < adj[res@[i].from.0 as int].len() && #[trigger] adj[res@[i].from.0 as int][k].0 == res@[i].to.0 by {
                let e = flat_edges(adj)[i];
                assert(stored(adj, e));
                assert(res@[i] == e.edge_id);
                let k = choose|k: int|
                    0 <= k < adj[e.edge_id.from.0 as int].len() && #[trigger] adj[e.edge_id.from.0 as int][k] == (e.edge_id.to.0, e.weight);
                assert(adj[res@[i].from.0 as int][k].0 == res@[i].to.0);
            }
        }
        res
    }
}

impl<N, W, const DI: bool> IndexAdjacent for AdjacencyList<N, W, DI> {
    fn adjacent_node_ids(&self, node_id: NodeId) -> (r: Vec<NodeId>) {
        let out = &self.edges[node_id.0];
        let m = out.len();
        let mut res: Vec<NodeId> = Vec::new();
        let mut k: usize = 0;
        while k < m
            invariant
                *out == self.edges@[node_id.0 as int],
                m == out@.len(),
                k <= m,
                res@.len() == k,
                forall|j: int| 0 <= j < k ==> (#[trigger] res@[j]) == out@[j].edge_id.to,
            decreases m - k,
        {
            res.push(out[k].edge_id.to);
            k = k + 1;
        }
        res
    }

    fn adjacent_edge_ids(&self, node_id: NodeId) -> (r: Vec<EdgeId>) {
        let out = &self.edges[node_id.0];
        let m = out.len();
        let mut res: Vec<EdgeId> = Vec::new();
        let mut k: usize = 0;
        while k < m
            invariant
                self.spec_wf(),
                node_id.0 < self.edges@.len(),
                *out == self.edges@[node_id.0 as int],
                m == out@.len(),
                k <= m,
                res@.len() == k,
                forall|j: int| 0 <= j < k ==> (#[trigger] res@[j]) == out@[j].edge_id,
            decreases m - k,
        {
            res.push(out[k].edge_id);
            k = k + 1;
        }
        proof {
            assert forall|j: int| 0 <= j < res@.len() implies (#[trigger] res@[j]).from == node_id by {
                assert(self.edges@[node_id.0 as int]@[j].edge_id.from.0 == node_id.0);
            }
        }
        res
    }
}

impl<N, W: Copy, const DI: bool> IterAdjacent for AdjacencyList<N, W, DI> {
    fn iter_adjacent_edges(&self, node_id: NodeId) -> (r: Vec<Edge<W>>) {
        let out = &self.edges[node_id.0];
        let m = out.len();
        let mut res: Vec<Edge<W>> = Vec::new();
        let mut k: usize = 0;
        while k < m
            invariant
                self.spec_wf(),
                node_id.0 < self.edges@.len(),
                *out == self.edges@[node_id.0 as int],
                m == out@.len(),
                k <= m,
                res@.len() == k,
                forall|j: int| 0 <= j < k ==> (#[trigger] res@[j]) == out@[j],
            decreases m - k,
        {
            res.push(out[k]);
            k = k + 1;
        }
        proof {
            assert forall|j: int| 0 <= j < res@.len() implies (#[trigger] res@[j]).edge_id.from
                == node_id by {
                assert(self.edges@[node_id.0 as int]@[j].edge_id.from.0 == node_id.0);
            }
        }
        res
    }
}

impl<N, W, const DI: bool> Insert for AdjacencyList<N, W, DI> {
    fn insert_node(&mut self, node: N) -> (r: NodeId) {
        let node_id = NodeId(self.nodes.len());
        self.nodes.push(node);
        self.edges.push(Vec::new());
        proof {
            let a = list_adj(self.edges@);
            let b = list_adj(old(self).edges@).push(Seq::empty());
            assert(forall|u: int| 0 <= u < a.len() ==> #[trigger] a[u] =~= b[u]);
            assert(a =~= b);
            assert(b.drop_last() =~= list_adj(old(self).edges@));
        }
        node_id
    }

    fn insert_edge(&mut self, from: NodeId, to: NodeId, weight: W) -> (r: EdgeId) {
        let edge_id = EdgeId { from, to };
        let edge = Edge { edge_id, weight };
        self.edges[from.0].push(edge);
        proof {
            let old_adj = list_adj(old(self).edges@);
            let new_out = old_adj[from.0 as int].push((to.0, weight));
            let a = list_adj(self.edges@);
            let b = old_adj.update(from.0 as int, new_out);
            assert(forall|u: int| 0 <= u < a.len() ==> #[trigger] a[u] =~= b[u]);
            assert(a =~= b);
            lemma_total_edges_update(old_adj, from.0 as int, new_out);
        }
        edge_id
    }
}

impl<N, W, const DI: bool> AdjacencyList<N, W, DI> {
    /// Puts `node` in place of the node at `id`, and returns the node that was there.
    pub fn replace_node(&mut self, id: NodeId, node: N) -> (r: N)
        requires
            old(self).spec_wf(),
            id.0 < old(self).spec_nodes().len(),
        ensures
            final(self).spec_wf(),
            r == old(self).spec_nodes()[id.0 as int],
            final(self).spec_nodes() == old(self).spec_nodes().update(id.0 as int, node),
            final(self).spec_adj() == old(self).spec_adj(),
    {
        let r = self.nodes.remove(id.0);
        self.nodes.insert(id.0, node);
        proof {
            assert(self.nodes@ =~= old(self).nodes@.update(id.0 as int, node));
        }
        r
    }

    /// Puts `weight` in place of the weight of the first stored edge `from -> to`, and returns
    /// the weight that was there; `None`, and no change, when there is no such edge.
    pub fn replace_weight(&mut self, from: NodeId, to: NodeId, weight: W) -> (r: Option<W>)
        requires
            old(self).spec_wf(),
            from.0 < old(self).spec_nodes().len(),
        ensures
            final(self).spec_wf(),
            final(self).spec_nodes() == old(self).spec_nodes(),
            match first_edge(old(self).spec_adj()[from.0 as int], to.0) {
                Some(f) => r == Some(old(self).spec_adj()[from.0 as int][f].1) && final(self).spec_adj()
                    == old(self).spec_adj().update(
                    from.0 as int,
                    old(self).spec_adj()[from.0 as int].update(f, (to.0, weight)),
                ),
                None => r is None && final(self).spec_adj() == old(self).spec_adj(),
            },
    {
        proof {
            lemma_first_edge(self.spec_adj()[from.0 as int], to.0);
        }
        let n = self.edges[from.0].len();
        let mut i: usize = 0;
        while i < n
            invariant
                self.spec_wf(),
                self == old(self),
                from.0 < self.edges@.len(),
                n == self.edges@[from.0 as int]@.len(),
                i <= n,
                forall|j: int| 0 <= j < i ==> #[trigger] self.edges@[from.0 as int]@[j].edge_id.to.0 != to.0,
                match first_edge(self.spec_adj()[from.0 as int], to.0) {
                    Some(f) => 0 <= f < n && self.spec_adj()[from.0 as int][f].0 == to.0 && forall|j: int|
                        0 <= j < f ==> self.spec_adj()[from.0 as int][j].0 != to.0,
                    None => forall|j: int| 0 <= j < n ==> self.spec_adj()[from.0 as int][j].0 != to.0,
                },
            decreases n - i,
        {
            if self.edges[from.0][i].edge_id.to == to {
                proof {
                    assert(self.spec_adj()[from.0 as int][i as int].0 == to.0);
                    let f = first_edge(self.spec_adj()[from.0 as int], to.0).unwrap();
                    if f < i {
                        assert(self.edges@[from.0 as int]@[f].edge_id.to.0 != to.0);
                    }
                }
                let ghost old_adj = list_adj(self.edges@);
                let ghost e_old = self.edges@[from.0 as int]@[i as int];
                let edge_id = EdgeId { from, to };
                let mut out = self.edges.remove(from.0);
                let prev = out.remove(i);
                out.insert(i, Edge { edge_id, weight });
                self.edges.insert(from.0, out);
                proof {
                    let a = list_adj(self.edges@);
                    let b = old_adj.update(from.0 as int, old_adj[from.0 as int].update(i as int, (to.0, weight)));
                    assert forall|u: int| 0 <= u < a.len() implies #[trigger] a[u] =~= b[u] by {
                        if u == from.0 {
                            assert(self.edges@[u]@ =~= old(self).edges@[u]@.update(i as int, Edge { edge_id, weight }));
                        } else {
                            assert(self.edges@[u] == old(self).edges@[u]);
                        }
                    }
                    assert(a =~= b);
                    assert(prev == e_old);
                    lemma_total_edges_update(old_adj, from.0 as int, old_adj[from.0 as int].update(i as int, (to.0, weight)));
                    assert forall|u: int, k: int|
                        0 <= u < self.edges@.len() && 0 <= k < self.edges@[u]@.len() implies (#[trigger] self.edges@[u]@[k]).edge_id.from.0
                            == u by {
                        if u == from.0 {
                            if k != i {
                                assert(self.edges@[u]@[k] == old(self).edges@[u]@[k]);
                            }
                        } else {
                            assert(self.edges@[u] == old(self).edges@[u]);
                        }
                    }
                }
                return Some(prev.weight);
            }
            i = i + 1;
        }
        None
    }
}

impl<N, W, const DI: bool> Extend for AdjacencyList<N, W, DI> {
}

impl<N, W, const DI: bool> Reserve for AdjacencyList<N, W, DI> {
    fn reserve_nodes(&mut self, additional: usize) {
        self.nodes.reserve(additional);
    }
}

impl<N, W, const DI: bool> Iter for AdjacencyList<N, W, DI> {
    fn iter_nodes(&self) -> (r: Vec<&N>) {
        let n = self.nodes.len();
        let mut res: Vec<&N> = Vec::new();
        let mut i: usize = 0;
        while i < n
            invariant
                n == self.nodes@.len(),
                i <= n,
                res@.len() == i,
                forall|k: int| 0 <= k < i ==> *(#[trigger] res@[k]) == self.nodes@[k],
            decreases n - i,
        {
            res.push(&self.nodes[i]);
            i = i + 1;
        }
        res
    }

    /// Row by row, in the order stored.
    fn iter_edges(&self) -> (r: Vec<Edge<W>>)
        where
            W: Copy,
        ensures
            r@ == flat_edges(self.spec_adj()),
    {
        let ghost adj = self.spec_adj();
        let n = self.edges.len();
        let mut res: Vec<Edge<W>> = Vec::new();
        let mut u: usize = 0;
        while u < n
            invariant
                self.spec_wf(),
                adj == self.spec_adj(),
                n == self.edges@.len(),
                n == adj.len(),
                u <= n,
                res@ == flat_edges(adj.take(u as int)),
            decreases n - u,
        {
            let out = &self.edges[u];
            let m = out.len();
            let ghost start = res@;
            let mut k: usize = 0;
            while k < m
                invariant
                    self.spec_wf(),
                    adj == self.spec_adj(),
                    n == self.edges@.len(),
                    u < n,
                    *out == self.edges@[u as int],
                    m == out@.len(),
                    k <= m,
                    res@ == start + row_edges(u, adj[u as int].take(k as int)),
                decreases m - k,
            {
                res.push(out[k]);
                proof {
                    assert(out@[k as int].edge_id.from.0 == u);
                    assert(row_edges(u, adj[u as int].take(k + 1)) =~= row_edges(u, adj[u as int].take(k as int)).push(out@[k as int]));
                }
                k = k + 1;
            }
            proof {
                assert(adj[u as int].take(m as int) =~= adj[u as int]);
                assert(adj.take(u + 1).drop_last() =~= adj.take(u as int));
                assert(adj.take(u + 1).last() == adj[u as int]);
            }
            u = u + 1;
        }
        proof {
            assert(adj.take(n as int) =~= adj);
            lemma_flat_edges(adj);
        }
        res
    }
}

impl<N, W: Copy, const DI: bool> Remove for AdjacencyList<N, W, DI> {
    fn remove_node(&mut self, node_id: NodeId) -> (r: N)
        where
            N: Default,
    {
        let ghost adj0 = self.spec_adj();
        let ghost v = node_id.0 as int;
        let n = self.edges.len();
        let mut u: usize = 0;
        while u < n
            invariant
                n == self.edges@.len(),
                n == adj0.len(),
                self.nodes@ == old(self).nodes@,
                adj0 == list_adj(old(self).edges@),
                old(self).spec_wf(),
                v == node_id.0,
                0 <= v < n,
                u <= n,
                forall|a: int, k: int|
                    0 <= a < n && 0 <= k < self.edges@[a]@.len() ==> (#[trigger] self.edges@[a]@[k]).edge_id.from.0 == a,
                forall|a: int| u <= a < n ==> #[trigger] self.edges@[a] == old(self).edges@[a],
                forall|a: int| 0 <= a < u ==> #[trigger] list_adj(self.edges@)[a] == without_node(adj0, v)[a],
            decreases n - u,
        {
            let ghost e0 = self.edges@;
            proof {
                assert(forall|a: int| 0 <= a < u ==> #[trigger] list_adj(e0)[a] == without_node(adj0, v)[a]);
            }
            self.edges.push(Vec::new());
            let row = self.edges.swap_remove(u);
            let mut kept: Vec<Edge<W>> = Vec::new();
            if u != node_id.0 {
                let m = row.len();
                let mut k: usize = 0;
                while k < m
                    invariant
                        m == row@.len(),
                        row == old(self).edges@[u as int],
                        adj0 == list_adj(old(self).edges@),
                        u < n,
                        n == adj0.len(),
                        v == node_id.0,
                        k <= m,
                        forall|j: int| 0 <= j < kept@.len() ==> (#[trigger] kept@[j]).edge_id.from.0 == u,
                        forall|j: int| 0 <= j < row@.len() ==> (#[trigger] row@[j]).edge_id.from.0 == u,
                        Seq::new(kept@.len(), |j: int| (kept@[j].edge_id.to.0, kept@[j].weight)) == adj0[u as int].take(
                            k as int,
                        ).filter(avoids::<W>(v)),
                    decreases m - k,
                {
                    let e = row[k];
                    proof {
                        let t = adj0[u as int].take(k + 1);
                        assert(t.drop_last() =~= adj0[u as int].take(k as int));
                        assert(t.last() == (e.edge_id.to.0, e.weight));
                        reveal(Seq::filter);
                        assert(t.filter(avoids::<W>(v)) == if e.edge_id.to.0 != v {
                            adj0[u as int].take(k as int).filter(avoids::<W>(v)).push((e.edge_id.to.0, e.weight))
                        } else {
                            adj0[u as int].take(k as int).filter(avoids::<W>(v))
                        });
                    }
                    let ghost before = kept@;
                    if e.edge_id.to != node_id {
                        kept.push(e);
                        proof {
                            assert(Seq::new(kept@.len(), |j: int| (kept@[j].edge_id.to.0, kept@[j].weight)) =~= Seq::new(
                                before.len(),
                                |j: int| (before[j].edge_id.to.0, before[j].weight),
                            ).push((e.edge_id.to.0, e.weight)));
                        }
                    }
                    k = k + 1;
                }
                proof {
                    assert(adj0[u as int].take(m as int) =~= adj0[u as int]);
                }
            }
            let ghost e_before = self.edges@;
            self.edges.set(u, kept);
            proof {
                if u == node_id.0 {
                    assert(kept@.len() == 0);
                }
                assert(list_adj(self.edges@)[u as int] =~= without_node(adj0, v)[u as int]);
                assert forall|a: int| 0 <= a < u implies #[trigger] list_adj(self.edges@)[a] == without_node(adj0, v)[a] by {
                    assert(self.edges@[a] == e0[a]);
                    assert(list_adj(e0)[a] == without_node(adj0, v)[a]);
                }
            }
            u = u + 1;
        }
        self.nodes.push(N::default());
        let r = self.nodes.swap_remove(node_id.0);
        proof {
            assert(list_adj(self.edges@) =~= without_node(adj0, v));
            assert forall|a: int| 0 <= a < n implies #[trigger] without_node(adj0, v)[a].len() <= adj0[a].len() by {
                if a != v {
                    adj0[a].lemma_filter_len(avoids::<W>(v));
                }
            }
            lemma_total_edges_shrink(adj0, without_node(adj0, v));
        }
        r
    }
}

impl<N, W, const DI: bool> GetMut for AdjacencyList<N, W, DI> {
    fn node_mut(&mut self, node_id: NodeId) -> (r: Option<&mut N>) {
        if node_id.0 < self.nodes.len() {
            Some(&mut self.nodes[node_id.0])
        } else {
            None
        }
    }
}

} // verus!
