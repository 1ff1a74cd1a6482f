use crate::edge_list::EdgeList;
use crate::graph::edge::Edge;
use crate::graph::index::{EdgeId, NodeId};
use crate::graph::traits::{first_edge, lemma_first_edge, lemma_first_edge_push, lemma_total_edges_update, stored, total_edges, Base, Clear, Contains, Count, Directed, Get, GetMut, Index, IndexAdjacent, Iter, IterAdjacent, Reserve};
use crate::graph_impl::adjacency_list::lemma_total_zero;
use crate::utils::{first_entry, row_entries, SparseMatrix};
use vstd::prelude::*;
use vstd::std_specs::cmp::PartialEqSpec;

verus! {

/// A graph stored as a sparse matrix of weights: the entry at `(from, to)` is the weight of the
/// edge `from -> to`. An undirected graph stores every edge once in each direction.
#[derive(Debug)]
pub struct AdjacencyMatrix<N, W, const DI: bool> {
    pub(crate) nodes: Vec<N>,
    pub(crate) edges: SparseMatrix<W>,
}

/// The outgoing edges of each of `n` nodes, read off the stored entries row by row.
pub open spec fn matrix_adj<W>(n: nat, entries: Seq<(usize, usize, W)>) -> Seq<Seq<(usize, W)>> {
    Seq::new(n, |u: int| row_entries(entries, u as usize))
}

/// The entries an edge list turns into, in order: each edge, preceded by its reverse unless
/// the graph is directed.
pub open spec fn doubled<W>(entries: Seq<(usize, usize, W)>, di: bool) -> Seq<(usize, usize, W)>
    decreases entries.len(),
{
    if entries.len() == 0 {
        Seq::empty()
    } else {
        let prev = doubled(entries.drop_last(), di);
        let (f, t, w) = entries.last();
        if di {
            prev.push((f, t, w))
        } else {
            prev.push((t, f, w)).push((f, t, w))
        }
    }
}

/// One more entry adds one edge to the list of its row.
proof fn lemma_row_push<W>(entries: Seq<(usize, usize, W)>, x: (usize, usize, W), u: usize)
    ensures
        row_entries(entries.push(x), u) == if x.0 == u {
            row_entries(entries, u).push((x.1, x.2))
        } else {
            row_entries(entries, u)
        },
{
    assert(entries.push(x).drop_last() =~= entries);
}

/// One more entry in a row below `n` adds one edge to that node.
proof fn lemma_matrix_push<W>(n: nat, entries: Seq<(usize, usize, W)>, x: (usize, usize, W))
    requires
        x.0 < n <= usize::MAX,
    ensures
        matrix_adj(n, entries.push(x)) =~= matrix_adj(n, entries).update(
            x.0 as int,
            matrix_adj(n, entries)[x.0 as int].push((x.1, x.2)),
        ),
{
    assert forall|u: int| 0 <= u < n implies #[trigger] matrix_adj(n, entries.push(x))[u] == matrix_adj(n, entries).update(
        x.0 as int,
        matrix_adj(n, entries)[x.0 as int].push((x.1, x.2)),
    )[u] by {
        lemma_row_push(entries, x, u as usize);
    }
}

/// A row that no entry names is empty.
proof fn lemma_row_empty<W>(entries: Seq<(usize, usize, W)>, u: usize)
    requires
        forall|i: int| 0 <= i < entries.len() ==> (#[trigger] entries[i]).0 != u,
    ensures
        row_entries(entries, u).len() == 0,
    decreases entries.len(),
{
    if entries.len() > 0 {
        let prev = entries.drop_last();
        assert(forall|i: int| 0 <= i < prev.len() ==> prev[i] == entries[i]);
        lemma_row_empty(prev, u);
    }
}

/// Where every entry lies in a row below `n`, the rows hold exactly the entries.
proof fn lemma_matrix_total<W>(n: nat, entries: Seq<(usize, usize, W)>)
    requires
        n <= usize::MAX,
        forall|i: int| 0 <= i < entries.len() ==> (#[trigger] entries[i]).0 < n,
    ensures
        total_edges(matrix_adj(n, entries)) == entries.len(),
    decreases entries.len(),
{
    if entries.len() == 0 {
        lemma_total_zero(matrix_adj(n, entries));
    } else {
        let prev = entries.drop_last();
        let x = entries.last();
        assert(forall|i: int| 0 <= i < prev.len() ==> prev[i] == entries[i]);
        lemma_matrix_total(n, prev);
        assert(prev.push(x) =~= entries);
        lemma_matrix_push(n, prev, x);
        lemma_total_edges_update(matrix_adj(n, prev), x.0 as int, matrix_adj(n, prev)[x.0 as int].push((x.1, x.2)));
    }
}

/// The first stored entry at `(r, c)` is the first edge `r -> c` of row `r`.
proof fn lemma_matrix_weight<W>(entries: Seq<(usize, usize, W)>, r: usize, c: usize)
    ensures
        match first_entry(entries, r, c) {
            Some(j) => first_edge(row_entries(entries, r), c) is Some && row_entries(entries, r)[first_edge(
                row_entries(entries, r),
                c,
            ).unwrap()].1 == entries[j].2,
            None => first_edge(row_entries(entries, r), c) is None,
        },
    decreases entries.len(),
{
    if entries.len() > 0 {
        let prev = entries.drop_last();
        let x = entries.last();
        lemma_matrix_weight(prev, r, c);
        crate::utils::lemma_first_entry_bounds(prev, r, c);
        assert(prev.push(x) =~= entries);
        lemma_row_push(prev, x, r);
        lemma_first_edge(row_entries(prev, r), c);
        if x.0 == r {
            lemma_first_edge_push(row_entries(prev, r), (x.1, x.2), c);
        }
        match first_entry(prev, r, c) {
            Some(j) => {
                assert(entries[j] == prev[j]);
                let f = first_edge(row_entries(prev, r), c).unwrap();
                assert(row_entries(entries, r)[f] == row_entries(prev, r)[f]);
            },
            None => {
                if x.0 == r && x.1 == c {
                    assert(first_entry(entries, r, c) == Some(entries.len() - 1));
                    assert(row_entries(entries, r)[row_entries(prev, r).len() as int] == (x.1, x.2));
                }
            },
        }
    }
}

impl<N, W, const DI: bool> Base for AdjacencyMatrix<N, W, DI> {
    type Node = N;
    type Weight = W;

    closed spec fn spec_nodes(&self) -> Seq<N> {
        self.nodes@
    }

    closed spec fn spec_adj(&self) -> Seq<Seq<(usize, W)>> {
        matrix_adj(self.nodes@.len(), self.edges.entries())
    }

    closed spec fn spec_wf(&self) -> bool {
        &&& self.edges.wf()
        &&& forall|i: int| 0 <= i < self.edges.entries().len() ==> (#[trigger] self.edges.entries()[i]).0 < self.nodes@.len()
        &&& total_edges(matrix_adj(self.nodes@.len(), self.edges.entries())) <= usize::MAX
    }

    proof fn lemma_wf(&self) {
    }
}

impl<N, W, const DI: bool> AdjacencyMatrix<N, W, DI> {
    /// How many rows and columns the matrix was made with: an edge can leave a node up to the
    /// first and lead to a node up to the second.
    pub closed spec fn spec_bounds(&self) -> (usize, usize) {
        (self.edges.spec_row_count(), self.edges.spec_col_count())
    }

    /// An empty graph.
    pub fn new() -> (r: Self)
        ensures
            r.spec_wf(),
            r.spec_nodes().len() == 0,
            r.spec_adj().len() == 0,
            r.spec_bounds() == (0usize, 0usize),
    {
        let r = AdjacencyMatrix { nodes: Vec::new(), edges: SparseMatrix::with_capacity(0, 0) };
        proof {
            lemma_total_zero(r.spec_adj());
        }
        r
    }

    /// An empty graph with room for `nodes` nodes, whose matrix has that many rows and columns.
    pub fn with_capacity(nodes: usize, edges: usize) -> (r: Self)
        requires
            8 * nodes <= usize::MAX,
        ensures
            r.spec_wf(),
            r.spec_nodes().len() == 0,
            r.spec_adj().len() == 0,
            r.spec_bounds() == (nodes, nodes),
    {
        let r = AdjacencyMatrix { nodes: Vec::with_capacity(nodes), edges: SparseMatrix::with_capacity(nodes, nodes) };
        proof {
            lemma_total_zero(r.spec_adj());
        }
        r
    }

    /// A graph of the given nodes and no edge, whose matrix has a row and a column per node.
    pub fn with_nodes(nodes: Vec<N>) -> (r: Self)
        requires
            8 * nodes@.len() <= usize::MAX,
        ensures
            r.spec_wf(),
            r.spec_nodes() == nodes@,
            r.spec_adj() =~= Seq::new(nodes@.len(), |i: int| Seq::<(usize, W)>::empty()),
            r.spec_bounds() == (nodes@.len() as usize, nodes@.len() as usize),
    {
        let n = nodes.len();
        let r = AdjacencyMatrix { nodes, edges: SparseMatrix::with_capacity(n, n) };
        proof {
            assert(r.spec_adj() =~= Seq::new(n as nat, |i: int| Seq::<(usize, W)>::empty()));
            lemma_total_zero(r.spec_adj());
        }
        r
    }

    /// Adds a node with no edge and returns its index. The matrix keeps its size.
    pub fn insert_node(&mut self, node: N) -> (r: NodeId)
        requires
            old(self).spec_wf(),
        ensures
            final(self).spec_wf(),
            r.0 == old(self).spec_nodes().len(),
            final(self).spec_nodes() == old(self).spec_nodes().push(node),
            final(self).spec_adj() == old(self).spec_adj().push(Seq::<(usize, W)>::empty()),
            final(self).spec_bounds() == old(self).spec_bounds(),
    {
        let node_id = NodeId(self.nodes.len());
        self.nodes.push(node);
        let _ = self.nodes.len();
        proof {
            let es = self.edges.entries();
            let n = old(self).nodes@.len();
            lemma_row_empty(es, n as usize);
            let a = self.spec_adj();
            let b = old(self).spec_adj().push(Seq::<(usize, W)>::empty());
            assert(forall|u: int| 0 <= u < a.len() ==> #[trigger] a[u] =~= b[u]);
            assert(a =~= b);
            assert(b.drop_last() =~= old(self).spec_adj());
        }
        node_id
    }

    /// Stores the edge `from -> to` after all others and returns its index. The matrix must
    /// have a row for `from` and a column for `to`.
    pub fn insert_edge(&mut self, from: NodeId, to: NodeId, weight: W) -> (r: EdgeId)
        requires
            old(self).spec_wf(),
            from.0 < old(self).spec_nodes().len(),
            from.0 <= old(self).spec_bounds().0,
            to.0 <= old(self).spec_bounds().1,
            total_edges(old(self).spec_adj()) < usize::MAX,
        ensures
            final(self).spec_wf(),
            r.from == from && r.to == to,
            final(self).spec_nodes() == old(self).spec_nodes(),
            final(self).spec_adj() == old(self).spec_adj().update(
                from.0 as int,
                old(self).spec_adj()[from.0 as int].push((to.0, weight)),
            ),
            final(self).spec_bounds() == old(self).spec_bounds(),
    {
        self.edges.insert(from.0, to.0, weight);
        let _ = self.nodes.len();
        proof {
            let n = self.nodes@.len();
            lemma_matrix_push(n, old(self).edges.entries(), (from.0, to.0, weight));
            lemma_total_edges_update(
                old(self).spec_adj(),
                from.0 as int,
                old(self).spec_adj()[from.0 as int].push((to.0, weight)),
            );
            let es = self.edges.entries();
            assert forall|i: int| 0 <= i < es.len() implies (#[trigger] es[i]).0 < n by {
                if i < es.len() - 1 {
                    assert(es[i] == old(self).edges.entries()[i]);
                }
            }
        }
        EdgeId { from, to }
    }
}

impl<N, W: Copy, const DI: bool> AdjacencyMatrix<N, W, DI> {
    /// The graph of an edge list: its nodes, and its edges added in order, each after its
    /// reverse unless the graph is directed.
    pub fn from_edge_list(edge_list: EdgeList<N, W, DI>) -> (r: Self)
        requires
            edge_list.edges.wf(),
            8 * edge_list.nodes@.len() <= usize::MAX,
            2 * edge_list.edges.entries().len() < usize::MAX,
            forall|i: int|
                0 <= i < edge_list.edges.entries().len() ==> (#[trigger] edge_list.edges.entries()[i]).0
                    < edge_list.nodes@.len() && edge_list.edges.entries()[i].1 < edge_list.nodes@.len(),
        ensures
            r.spec_wf(),
            r.spec_nodes() == edge_list.nodes@,
            r.spec_adj() == matrix_adj(edge_list.nodes@.len(), doubled(edge_list.edges.entries(), DI)),
    {
        let EdgeList { nodes, edges, node_count: _ } = edge_list;
        let ghost es = edges.entries();
        let list = edges.iter();
        let n = nodes.len();
        let mut adj_mat = AdjacencyMatrix { nodes, edges: SparseMatrix::with_capacity(n, n) };
        proof {
            assert(adj_mat.edges.entries() =~= doubled(es.take(0), DI));
            lemma_total_zero(adj_mat.spec_adj());
        }
        let mut i: usize = 0;
        while i < list.len()
            invariant
                list@ == es,
                i <= es.len(),
                2 * es.len() < usize::MAX,
                n == adj_mat.nodes@.len(),
                8 * n <= usize::MAX,
                forall|k: int| 0 <= k < es.len() ==> (#[trigger] es[k]).0 < n && es[k].1 < n,
                adj_mat.spec_wf(),
                adj_mat.spec_nodes() == edge_list.nodes@,
                adj_mat.spec_bounds() == (n, n),
                adj_mat.edges.entries() == doubled(es.take(i as int), DI),
                total_edges(adj_mat.spec_adj()) <= 2 * i,
            decreases es.len() - i,
        {
            let (from, to, weight) = list[i];
            proof {
                assert(es.take(i + 1).drop_last() =~= es.take(i as int));
                assert(es.take(i + 1).last() == es[i as int]);
            }
            if !DI {
                store_entry(&mut adj_mat, NodeId(to), NodeId(from), weight);
            }
            store_entry(&mut adj_mat, NodeId(from), NodeId(to), weight);
            i = i + 1;
        }
        proof {
            assert(es.take(es.len() as int) =~= es);
        }
        adj_mat
    }
}

/// Stores one entry of an edge list, tracking the entries that the matrix holds.
fn store_entry<N, W, const DI: bool>(m: &mut AdjacencyMatrix<N, W, DI>, from: NodeId, to: NodeId, weight: W)
    requires
        old(m).spec_wf(),
        from.0 < old(m).spec_nodes().len(),
        from.0 <= old(m).spec_bounds().0,
        to.0 <= old(m).spec_bounds().1,
        total_edges(old(m).spec_adj()) < usize::MAX,
    ensures
        final(m).spec_wf(),
        final(m).spec_nodes() == old(m).spec_nodes(),
        final(m).spec_bounds() == old(m).spec_bounds(),
        final(m).edges.entries() == old(m).edges.entries().push((from.0, to.0, weight)),
        total_edges(final(m).spec_adj()) == total_edges(old(m).spec_adj()) + 1,
{
    let ghost adj0 = m.spec_adj();
    proof {
        lemma_total_edges_update(adj0, from.0 as int, adj0[from.0 as int].push((to.0, weight)));
    }
    m.edges.insert(from.0, to.0, weight);
    let _ = m.nodes.len();
    proof {
        let n = m.nodes@.len();
        lemma_matrix_push(n, old(m).edges.entries(), (from.0, to.0, weight));
        let es = m.edges.entries();
        assert forall|i: int| 0 <= i < es.len() implies (#[trigger] es[i]).0 < n by {
            if i < es.len() - 1 {
                assert(es[i] == old(m).edges.entries()[i]);
            }
        }
    }
}

impl<N, W, const DI: bool> Clear for AdjacencyMatrix<N, W, DI> {
    fn clear(&mut self) {
        self.nodes.clear();
        self.edges.clear();
        assert(self.spec_adj() =~= Seq::empty());
    }

    fn clear_edges(&mut self) {
        self.edges.clear();
        proof {
            let adj = self.spec_adj();
            assert forall|u: int| 0 <= u < adj.len() implies #[trigger] adj[u].len() == 0 by {
                lemma_row_empty(self.edges.entries(), u as usize);
            }
            lemma_total_zero(adj);
        }
    }
}

impl<N, W, const DI: bool> Contains for AdjacencyMatrix<N, W, DI> {
    fn contains_node(&self, node: &N) -> (r: Option<NodeId>)
        where N: PartialEq
    {
        let n = self.nodes.len();
        let mut i: usize = 0;
        while i < n
            invariant
                n == self.nodes@.len(),
                i <= n,
                N::obeys_eq_spec() ==> forall|j: int| 0 <= j < i ==> !self.nodes@[j].eq_spec(node),
            decreases n - i,
        {
            if self.nodes[i] == *node {
                return Some(NodeId(i));
            }
            i = i + 1;
        }
        None
    }

    fn contains_edge(&self, from: NodeId, to: NodeId) -> (r: Option<EdgeId>) {
        proof {
            lemma_matrix_weight(self.edges.entries(), from.0, to.0);
        }
        if self.edges.get(from.0, to.0).is_some() {
            Some(EdgeId { from, to })
        } else {
            None
        }
    }
}

impl<N, W, const DI: bool> Count for AdjacencyMatrix<N, W, DI> {
    /// Every stored entry counts, both directions of an undirected edge too.
    open spec fn spec_edge_count(&self) -> nat {
        total_edges(self.spec_adj())
    }

    fn node_count(&self) -> (r: usize) {
        self.nodes.len()
    }

    fn edge_count(&self) -> (r: usize) {
        let n = self.nodes.len();
        proof {
            lemma_matrix_total(n as nat, self.edges.entries());
        }
        self.edges.nnz()
    }
}

impl<N, W, const DI: bool> Directed for AdjacencyMatrix<N, W, DI> {
    open spec fn spec_directed() -> bool {
        DI
    }

    fn directed() -> (r: bool) {
        DI
    }
}

impl<N, W, const DI: bool> Get for AdjacencyMatrix<N, W, DI> {
    fn node(&self, node_id: NodeId) -> (r: Option<&N>) {
        if node_id.0 < self.nodes.len() {
            Some(&self.nodes[node_id.0])
        } else {
            None
        }
    }

    fn weight(&self, edge_id: EdgeId) -> (r: Option<&W>) {
        proof {
            lemma_matrix_weight(self.edges.entries(), edge_id.from.0, edge_id.to.0);
        }
        self.edges.get(edge_id.from.0, edge_id.to.0)
    }
}

impl<N, W, const DI: bool> Index for AdjacencyMatrix<N, W, DI> {
    fn node_ids(&self) -> (r: Vec<NodeId>) {
        let n = self.nodes.len();
        let mut res: Vec<NodeId> = Vec::new();
        let mut i: usize = 0;
        while i < n
            invariant
                i <= n,
                res@.len() == i,
                forall|k: int| 0 <= k < i ==> (#[trigger] res@[k]).0 == k,
            decreases n - i,
        {
            res.push(NodeId(i));
            i = i + 1;
        }
        res
    }

    /// The indices of all stored edges, in the order they were stored.
    fn edge_ids(&self) -> (r: Vec<EdgeId>) {
        let _ = self.nodes.len();
        proof {
            lemma_matrix_total(self.nodes@.len(), self.edges.entries());
        }
        let n = self.edges.nnz();
        let mut res: Vec<EdgeId> = Vec::new();
        let mut i: usize = 0;
        let ghost adj = self.spec_adj();
        while i < n
            invariant
                self.spec_wf(),
                adj == self.spec_adj(),
                n == self.edges.entries().len(),
                i <= n,
                res@.len() == i,
                forall|j: int|
                    0 <= j < i ==> 0 <= (#[trigger] res@[j]).from.0 < adj.len() && exists|k: int|
                        0 <= k < adj[res@[j].from.0 as int].len() && #[trigger] adj[res@[j].from.0 as int][k].0 == res@[j].to.0,
            decreases n - i,
        {
            let (from, to) = self.edges.entry_at(i);
            proof {
                let es = self.edges.entries();
                lemma_entry_in_row(es, i as int);
                assert(es[i as int].0 < self.nodes@.len());
                let k = choose|k: int|
                    0 <= k < row_entries(es, from).len() && #[trigger] row_entries(es, from)[k] == (to, es[i as int].2);
                assert(adj[from as int] == row_entries(es, from));
                assert(adj[from as int][k].0 == to);
            }
            res.push(EdgeId { from: NodeId(from), to: NodeId(to) });
            i = i + 1;
        }
        res
    }
}

impl<N, W, const DI: bool> IndexAdjacent for AdjacencyMatrix<N, W, DI> {
    fn adjacent_node_ids(&self, node_id: NodeId) -> (r: Vec<NodeId>) {
        let row = self.edges.row_indices_of(node_id.0);
        let m = row.len();
        let mut res: Vec<NodeId> = Vec::new();
        let mut k: usize = 0;
        while k < m
            invariant
                row@ == row_entries(self.edges.entries(), node_id.0).map_values(|e: (usize, W)| e.0),
                m == row@.len(),
                k <= m,
                res@.len() == k,
                forall|j: int| 0 <= j < k ==> (#[trigger] res@[j]).0 == row@[j],
            decreases m - k,
        {
            res.push(NodeId(row[k]));
            k = k + 1;
        }
        res
    }

    fn adjacent_edge_ids(&self, node_id: NodeId) -> (r: Vec<EdgeId>) {
        let row = self.edges.row_indices_of(node_id.0);
        let m = row.len();
        let mut res: Vec<EdgeId> = Vec::new();
        let mut k: usize = 0;
        while k < m
            invariant
                row@ == row_entries(self.edges.entries(), node_id.0).map_values(|e: (usize, W)| e.0),
                m == row@.len(),
                k <= m,
                res@.len() == k,
                forall|j: int| 0 <= j < k ==> (#[trigger] res@[j]).from == node_id && res@[j].to.0 == row@[j],
            decreases m - k,
        {
            res.push(EdgeId { from: node_id, to: NodeId(row[k]) });
            k = k + 1;
        }
        res
    }
}

impl<N, W: Copy, const DI: bool> IterAdjacent for AdjacencyMatrix<N, W, DI> {
    fn iter_adjacent_edges(&self, node_id: NodeId) -> (r: Vec<Edge<W>>) {
        let row = self.edges.row(node_id.0);
        let m = row.len();
        let mut res: Vec<Edge<W>> = Vec::new();
        let mut k: usize = 0;
        while k < m
            invariant
                row@ == row_entries(self.edges.entries(), node_id.0),
                m == row@.len(),
                k <= m,
                res@.len() == k,
                forall|j: int|
                    0 <= j < k ==> (#[trigger] res@[j]).edge_id.from == node_id && res@[j].edge_id.to.0 == row@[j].0
                        && res@[j].weight == row@[j].1,
            decreases m - k,
        {
            let (to, weight) = row[k];
            res.push(Edge { edge_id: EdgeId { from: node_id, to: NodeId(to) }, weight });
            k = k + 1;
        }
        res
    }
}

/// Every stored entry is an edge of its row.
proof fn lemma_entry_in_row<W>(entries: Seq<(usize, usize, W)>, i: int)
    requires
        0 <= i < entries.len(),
    ensures
        exists|k: int|
            0 <= k < row_entries(entries, entries[i].0).len() && #[trigger] row_entries(entries, entries[i].0)[k] == (
                entries[i].1,
                entries[i].2,
            ),
    decreases entries.len(),
{
    let prev = entries.drop_last();
    let x = entries.last();
    let r = entries[i].0;
    assert(prev.push(x) =~= entries);
    lemma_row_push(prev, x, r);
    if i == entries.len() - 1 {
        let k = row_entries(prev, r).len() as int;
        assert(row_entries(entries, r)[k] == (entries[i].1, entries[i].2));
    } else {
        assert(entries[i] == prev[i]);
        lemma_entry_in_row(prev, i);
        let k = choose|k: int| 0 <= k < row_entries(prev, r).len() && #[trigger] row_entries(prev, r)[k] == (prev[i].1, prev[i].2);
        assert(row_entries(entries, r)[k] == row_entries(prev, r)[k]);
    }
}

impl<N, W, const DI: bool> Reserve for AdjacencyMatrix<N, W, DI> {
    fn reserve_nodes(&mut self, additional: usize) {
        self.nodes.reserve(additional);
    }
}

impl<N, W, const DI: bool> Iter for AdjacencyMatrix<N, W, DI> {
    fn iter_nodes(&self) -> (r: Vec<&N>) {
        let n = self.nodes.len();
        let mut res: Vec<&N> = Vec::new();
        let mut i: usize = 0;
        while i < n
            invariant
                n == self.nodes@.len(),
                i <= n,
                res@.len() == i,
                forall|k: int| 0 <= k < i ==> *(#[trigger] res@[k]) == self.nodes@[k],
            decreases n - i,
        {
            res.push(&self.nodes[i]);
            i = i + 1;
        }
        res
    }

    /// In the order the entries were stored.
    fn iter_edges(&self) -> (r: Vec<Edge<W>>)
        where
            W: Copy,
    {
        let _ = self.nodes.len();
        let ghost adj = self.spec_adj();
        proof {
            lemma_matrix_total(self.nodes@.len(), self.edges.entries());
        }
        let list = self.edges.iter();
        let mut res: Vec<Edge<W>> = Vec::new();
        let mut i: usize = 0;
        while i < list.len()
            invariant
                self.spec_wf(),
                adj == self.spec_adj(),
                list@ == self.edges.entries(),
                i <= list@.len(),
                res@.len() == i,
                forall|k: int| 0 <= k < i ==> #[trigger] stored(adj, res@[k]),
            decreases list@.len() - i,
        {
            let (from, to, weight) = list[i];
            let e = Edge { edge_id: EdgeId { from: NodeId(from), to: NodeId(to) }, weight };
            proof {
                lemma_entry_in_row(self.edges.entries(), i as int);
                assert(self.edges.entries()[i as int].0 < self.nodes@.len());
                let k = choose|k: int|
                    0 <= k < row_entries(self.edges.entries(), from).len() && #[trigger] row_entries(self.edges.entries(), from)[k] == (
                        to,
                        weight,
                    );
                assert(adj[from as int] == row_entries(self.edges.entries(), from));
                assert(0 <= k < adj[from as int].len());
                assert(adj[from as int][k] == (to, weight));
                assert(adj[e.edge_id.from.0 as int][k] == (e.edge_id.to.0, e.weight));
                assert(stored(adj, e));
            }
            res.push(e);
            i = i + 1;
        }
        res
    }
}

impl<N, W, const DI: bool> GetMut for AdjacencyMatrix<N, W, DI> {
    fn node_mut(&mut self, node_id: NodeId) -> (r: Option<&mut N>) {
        if node_id.0 < self.nodes.len() {
            Some(&mut self.nodes[node_id.0])
        } else {
            None
        }
    }
}

} // verus!
