use crate::graph::index::{EdgeId, NodeId};
use crate::graph::reach::{found, has_edge, in_run};
use crate::graph::traits::{adj_wf, first_edge, lemma_first_edge, total_edges, Base, Count, Directed, IndexAdjacent};
use crate::structures::parents::Parents;
use vstd::prelude::*;

verus! {

/// Stores the undirected edge `from - to` in `edges` (both directions, each once) and marks
/// both ends in `nodes` and in `parents`.
fn add_tree_edge(
    nodes: &mut Vec<bool>,
    edges: &mut Vec<EdgeId>,
    parents: &mut Parents,
    from: NodeId,
    to: NodeId,
)
    requires
        from.0 < old(nodes)@.len(),
        to.0 < old(nodes)@.len(),
        old(parents)@.len() == old(nodes)@.len(),
        old(edges)@.no_duplicates(),
    ensures
        final(nodes)@ == old(nodes)@.update(from.0 as int, true).update(to.0 as int, true),
        final(edges)@.no_duplicates(),
        final(edges)@.to_set() == old(edges)@.to_set().insert(EdgeId { from, to }).insert(
            EdgeId { from: to, to: from },
        ),
        final(parents)@ == old(parents)@.update(from.0 as int, Some(to)).update(to.0 as int, Some(from)),
{
    nodes.set(from.0, true);
    nodes.set(to.0, true);
    parents.insert(to, from);
    parents.insert(from, to);
    let edge_id = EdgeId { from, to };
    push_unique(edges, edge_id);
    push_unique(edges, EdgeId { from: to, to: from });
}

/// Appends the edge unless it is there already.
fn push_unique(edges: &mut Vec<EdgeId>, e: EdgeId)
    requires
        old(edges)@.no_duplicates(),
    ensures
        final(edges)@.no_duplicates(),
        final(edges)@.to_set() == old(edges)@.to_set().insert(e),
{
    if contains_edge_id(edges, e) {
        proof {
            assert(edges@.to_set().insert(e) =~= edges@.to_set());
        }
    } else {
        let ghost before = edges@;
        edges.push(e);
        proof {
            before.lemma_push_to_set_commute(e);
            assert(!before.contains(e));
        }
    }
}

/// Collects the edges of a tree before the tree is tied to its graph.
pub struct TreeBuilder {
    edges: Vec<EdgeId>,
    nodes: Vec<bool>,
    rank: Vec<Option<u32>>,
    parents: Parents,
}

impl TreeBuilder {
    pub closed spec fn spec_count(&self) -> nat {
        self.nodes@.len()
    }

    pub closed spec fn spec_edges(&self) -> Set<EdgeId> {
        self.edges@.to_set()
    }

    pub closed spec fn spec_nodes(&self) -> Seq<bool> {
        self.nodes@
    }

    /// The rank recorded for each node, if any.
    pub closed spec fn spec_ranks(&self) -> Seq<Option<u32>> {
        self.rank@
    }

    pub closed spec fn wf(&self) -> bool {
        &&& self.edges@.no_duplicates()
        &&& self.rank@.len() == self.nodes@.len()
        &&& self.parents@.len() == self.nodes@.len()
    }

    /// A builder for a tree over `count` nodes, without edges.
    pub fn with_count(count: usize) -> (r: Self)
        ensures
            r.wf(),
            r.spec_count() == count,
            r.spec_edges() == Set::<EdgeId>::empty(),
            forall|i: int| 0 <= i < count ==> !#[trigger] r.spec_nodes()[i],
            r.spec_ranks() == Seq::new(count as nat, |i: int| None::<u32>),
    {
        let mut nodes: Vec<bool> = Vec::new();
        let mut rank: Vec<Option<u32>> = Vec::new();
        let mut i: usize = 0;
        while i < count
            invariant
                i <= count,
                nodes@.len() == i,
                rank@ == Seq::new(i as nat, |k: int| None::<u32>),
                forall|k: int| 0 <= k < i ==> !#[trigger] nodes@[k],
            decreases count - i,
        {
            nodes.push(false);
            rank.push(None);
            i = i + 1;
            proof {
                assert(rank@ =~= Seq::new(i as nat, |k: int| None::<u32>));
            }
        }
        let r = TreeBuilder { nodes, edges: Vec::new(), rank, parents: Parents::with_count(count) };
        assert(r.edges@.to_set() =~= Set::<EdgeId>::empty());
        r
    }

    /// Adds the undirected edge `from - to`.
    pub fn insert(&mut self, from: NodeId, to: NodeId)
        requires
            old(self).wf(),
            from.0 < old(self).spec_count(),
            to.0 < old(self).spec_count(),
        ensures
            final(self).wf(),
            final(self).spec_count() == old(self).spec_count(),
            final(self).spec_nodes() == old(self).spec_nodes().update(from.0 as int, true).update(
                to.0 as int,
                true,
            ),
            final(self).spec_edges() == old(self).spec_edges().insert(EdgeId { from, to }).insert(
                EdgeId { from: to, to: from },
            ),
    {
        add_tree_edge(&mut self.nodes, &mut self.edges, &mut self.parents, from, to);
    }

    /// Records the rank of a node (zero for none).
    pub fn rank(&mut self, node: NodeId, rank: u32)
        requires
            old(self).wf(),
            node.0 < old(self).spec_count(),
        ensures
            final(self).wf(),
            final(self).spec_count() == old(self).spec_count(),
            final(self).spec_nodes() == old(self).spec_nodes(),
            final(self).spec_edges() == old(self).spec_edges(),
            final(self).spec_ranks() == old(self).spec_ranks().update(
                node.0 as int,
                if rank == 0 {
                    None
                } else {
                    Some(rank)
                },
            ),
    {
        let r = if rank == 0 {
            None
        } else {
            Some(rank)
        };
        self.rank.set(node.0, r);
    }

    /// The tree over `graph`, rooted at `root`.
    pub fn build<'a, G: Base>(self, root: NodeId, graph: &'a G) -> (r: Tree<'a, G>)
        requires
            self.wf(),
        ensures
            r.wf(),
            r.spec_root() == root,
            *r.spec_graph() == *graph,
            r.spec_edges() == self.spec_edges(),
            r.spec_tree_nodes() == self.spec_nodes(),
            r.spec_tree_nodes().len() == self.spec_count(),
            r.spec_ranks() == self.spec_ranks(),
    {
        let TreeBuilder { nodes, edges, parents, rank } = self;
        Tree { root, graph, nodes, edges, parents, rank }
    }
}

/// A tree (or forest) drawn from the edges of a graph: the nodes it touches and its edges,
/// each stored in both directions.
pub struct Tree<'a, G> {
    graph: &'a G,
    root: NodeId,
    nodes: Vec<bool>,
    edges: Vec<EdgeId>,
    parents: Parents,
    rank: Vec<Option<u32>>,
}

impl<'a, G> Tree<'a, G> {
    pub closed spec fn spec_root(&self) -> NodeId {
        self.root
    }

    pub closed spec fn spec_graph(&self) -> &'a G {
        self.graph
    }

    /// Which nodes the tree touches.
    pub closed spec fn spec_tree_nodes(&self) -> Seq<bool> {
        self.nodes@
    }

    /// The edges of the tree, both directions of each.
    pub closed spec fn spec_edges(&self) -> Set<EdgeId> {
        self.edges@.to_set()
    }

    /// The number of edges stored (both directions counted).
    /// The rank recorded for each node, if any.
    pub closed spec fn spec_ranks(&self) -> Seq<Option<u32>> {
        self.rank@
    }

    pub closed spec fn spec_edge_len(&self) -> nat {
        self.edges@.len()
    }

    pub closed spec fn wf(&self) -> bool {
        &&& self.edges@.no_duplicates()
        &&& self.rank@.len() == self.nodes@.len()
        &&& self.parents@.len() == self.nodes@.len()
    }

    /// The number of edges the tree reports is the number of distinct edges it holds.
    pub proof fn lemma_edge_len(&self)
        requires
            self.wf(),
        ensures
            self.spec_edge_len() == self.spec_edges().len(),
    {
        self.edges@.unique_seq_to_set();
    }

    pub fn root(&self) -> (r: NodeId)
        ensures
            r == self.spec_root(),
    {
        self.root
    }

    /// Adds the undirected edge `from - to` and returns `from -> to`.
    pub fn insert(&mut self, from: NodeId, to: NodeId) -> (r: EdgeId)
        requires
            old(self).wf(),
            from.0 < old(self).spec_tree_nodes().len(),
            to.0 < old(self).spec_tree_nodes().len(),
        ensures
            final(self).wf(),
            r == (EdgeId { from, to }),
            final(self).spec_root() == old(self).spec_root(),
            final(self).spec_graph() == old(self).spec_graph(),
            final(self).spec_tree_nodes() == old(self).spec_tree_nodes().update(from.0 as int, true).update(
                to.0 as int,
                true,
            ),
            final(self).spec_edges() == old(self).spec_edges().insert(EdgeId { from, to }).insert(
                EdgeId { from: to, to: from },
            ),
    {
        add_tree_edge(&mut self.nodes, &mut self.edges, &mut self.parents, from, to);
        EdgeId { from, to }
    }
}

impl<'a, G: Count> Tree<'a, G> {
    /// An empty tree over `graph`, rooted at `root`.
    pub fn new(root: NodeId, graph: &'a G) -> (r: Self)
        requires
            graph.spec_wf(),
        ensures
            r.wf(),
            r.spec_root() == root,
            *r.spec_graph() == *graph,
            r.spec_tree_nodes().len() == graph.spec_nodes().len(),
            forall|i: int| 0 <= i < r.spec_tree_nodes().len() ==> !#[trigger] r.spec_tree_nodes()[i],
            r.spec_edges() == Set::<EdgeId>::empty(),
    {
        let count = graph.node_count();
        let b = TreeBuilder::with_count(count);
        b.build(root, graph)
    }
}

impl<'a, G: Base> Base for Tree<'a, G> {
    type Node = G::Node;
    type Weight = G::Weight;

    closed spec fn spec_nodes(&self) -> Seq<G::Node> {
        self.graph.spec_nodes()
    }

    /// The edges of the graph that belong to the tree.
    closed spec fn spec_adj(&self) -> Seq<Seq<(usize, G::Weight)>> {
        tree_adj(self.graph.spec_adj(), self.edges@.to_set())
    }

    closed spec fn spec_wf(&self) -> bool {
        &&& self.wf()
        &&& self.graph.spec_wf()
        &&& self.nodes@.len() == self.graph.spec_nodes().len()
    }

    proof fn lemma_wf(&self) {
        self.graph.lemma_wf();
        lemma_tree_adj_total(self.graph.spec_adj(), self.edges@.to_set());
    }
}

impl<'a, G: Base> Tree<'a, G> {
    /// The tree as a graph: the nodes of the graph it was drawn from, and those of its edges
    /// that the tree holds.
    pub proof fn lemma_as_graph(&self)
        requires
            self.wf(),
            self.spec_graph().spec_wf(),
            self.spec_tree_nodes().len() == self.spec_graph().spec_nodes().len(),
        ensures
            self.spec_wf(),
            self.spec_nodes() == self.spec_graph().spec_nodes(),
            self.spec_adj() == tree_adj(self.spec_graph().spec_adj(), self.spec_edges()),
    {
    }
}

/// The edges of `adj` that `edges` holds.
pub open spec fn tree_adj<W>(adj: Seq<Seq<(usize, W)>>, edges: Set<EdgeId>) -> Seq<Seq<(usize, W)>> {
    Seq::new(
        adj.len(),
        |u: int| adj[u].filter(|e: (usize, W)| edges.contains(EdgeId { from: NodeId(u as usize), to: NodeId(e.0) })),
    )
}

pub proof fn lemma_tree_adj_total<W>(adj: Seq<Seq<(usize, W)>>, edges: Set<EdgeId>)
    ensures
        total_edges(tree_adj(adj, edges)) <= total_edges(adj),
        tree_adj(adj, edges).len() == adj.len(),
    decreases adj.len(),
{
    if adj.len() > 0 {
        let t = tree_adj(adj, edges);
        let u = adj.len() - 1;
        assert(t.drop_last() =~= tree_adj(adj.drop_last(), edges));
        lemma_tree_adj_total(adj.drop_last(), edges);
        adj[u].lemma_filter_len(|e: (usize, W)| edges.contains(EdgeId { from: NodeId(u as usize), to: NodeId(e.0) }));
    }
}

pub proof fn lemma_tree_adj_wf<W>(adj: Seq<Seq<(usize, W)>>, edges: Set<EdgeId>)
    requires
        adj_wf(adj),
    ensures
        adj_wf(tree_adj(adj, edges)),
{
    let t = tree_adj(adj, edges);
    assert forall|u: int, k: int| 0 <= u < t.len() && 0 <= k < t[u].len() implies #[trigger] t[u][k].0 < t.len() by {
        let p = |e: (usize, W)| edges.contains(EdgeId { from: NodeId(u as usize), to: NodeId(e.0) });
        assert(t[u] == adj[u].filter(p));
        assert(t[u].contains(t[u][k]));
        adj[u].lemma_filter_contains_rev(p, t[u][k]);
        let j = choose|j: int| 0 <= j < adj[u].len() && adj[u][j] == t[u][k];
        assert(adj[u][j].0 < adj.len());
    }
}

impl<'a, G: Base> Directed for Tree<'a, G> {
    open spec fn spec_directed() -> bool {
        false
    }

    fn directed() -> (r: bool) {
        false
    }
}

impl<'a, G: Base> Count for Tree<'a, G> {
    open spec fn spec_edge_count(&self) -> nat {
        self.spec_edge_len()
    }

    fn node_count(&self) -> (r: usize) {
        self.parents.count()
    }

    fn edge_count(&self) -> (r: usize) {
        self.edges.len()
    }
}

impl<'a, G: IndexAdjacent> IndexAdjacent for Tree<'a, G> {
    fn adjacent_node_ids(&self, node_id: NodeId) -> (r: Vec<NodeId>) {
        proof {
            self.graph.lemma_wf();
        }
        let all = self.graph.adjacent_node_ids(node_id);
        let ghost out = self.graph.spec_adj()[node_id.0 as int];
        let ghost pred = |e: (usize, G::Weight)| self.edges@.to_set().contains(EdgeId { from: node_id, to: NodeId(e.0) });
        let m = all.len();
        let mut res: Vec<NodeId> = Vec::new();
        let mut k: usize = 0;
        while k < m
            invariant
                m == all@.len(),
                m == out.len(),
                forall|j: int| 0 <= j < m ==> (#[trigger] all@[j]).0 == out[j].0,
                k <= m,
                res@.len() == out.take(k as int).filter(pred).len(),
                forall|j: int| 0 <= j < res@.len() ==> (#[trigger] res@[j]).0 == out.take(k as int).filter(pred)[j].0,
                pred == (|e: (usize, G::Weight)| self.edges@.to_set().contains(EdgeId { from: node_id, to: NodeId(e.0) })),
            decreases m - k,
        {
            proof {
                reveal(Seq::filter);
                assert(out.take(k + 1).drop_last() =~= out.take(k as int));
            }
            let e = EdgeId { from: node_id, to: all[k] };
            if contains_edge_id(&self.edges, e) {
                res.push(all[k]);
            }
            k = k + 1;
        }
        proof {
            self.graph.lemma_wf();
            assert(out.take(m as int) =~= out);
            let u = node_id.0 as int;
            let f = |e: (usize, G::Weight)|
                self.edges@.to_set().contains(EdgeId { from: NodeId(u as usize), to: NodeId(e.0) });
            assert(f =~= pred);
            assert(self.spec_adj()[u] == out.filter(f));
        }
        res
    }

    fn adjacent_edge_ids(&self, node_id: NodeId) -> (r: Vec<EdgeId>) {
        let ids = self.adjacent_node_ids(node_id);
        let m = ids.len();
        let mut res: Vec<EdgeId> = Vec::new();
        let mut k: usize = 0;
        while k < m
            invariant
                m == ids@.len(),
                k <= m,
                res@.len() == k,
                forall|j: int| 0 <= j < k ==> (#[trigger] res@[j]).from == node_id && res@[j].to == ids@[j],
            decreases m - k,
        {
            res.push(EdgeId { from: node_id, to: ids[k] });
            k = k + 1;
        }
        res
    }
}

/// Whether the list holds the edge.
fn contains_edge_id(edges: &Vec<EdgeId>, e: EdgeId) -> (r: bool)
    ensures
        r == edges@.to_set().contains(e),
{
    let n = edges.len();
    let mut i: usize = 0;
    while i < n
        invariant
            n == edges@.len(),
            i <= n,
            forall|j: int| 0 <= j < i ==> edges@[j] != e,
        decreases n - i,
    {
        if edges[i] == e {
            assert(edges@.contains(e));
            return true;
        }
        i = i + 1;
    }
    assert(!edges@.contains(e));
    false
}

/// An edge `p -> v` of a search from `from` over the free nodes of `old`: `v` was found, and
/// `p` is `from` or was found too.
pub open spec fn search_edge<W>(adj: Seq<Seq<(usize, W)>>, old: Seq<usize>, from: int, p: int, v: int) -> bool {
    &&& p == from || found(adj, old, from, p)
    &&& found(adj, old, from, v)
    &&& has_edge(adj, p, v)
}

/// The edge `p -> v` as an index.
pub open spec fn edge_between(p: int, v: int) -> EdgeId {
    EdgeId { from: NodeId(p as usize), to: NodeId(v as usize) }
}

/// The tree of a search from `from` over the free nodes of `old`: it touches exactly the nodes
/// found, and `from` once something is found; each of its edges joins two nodes of the search
/// along an edge of the graph; and every node found hangs from a node of the search.
pub open spec fn search_tree<'a, G, W>(
    t: Tree<'a, G>,
    adj: Seq<Seq<(usize, W)>>,
    old: Seq<usize>,
    from: int,
) -> bool {
    &&& t.wf()
    &&& t.spec_root().0 == from
    &&& t.spec_tree_nodes().len() == old.len()
    &&& forall|v: int|
        0 <= v < old.len() ==> (#[trigger] t.spec_tree_nodes()[v] <==> (found(adj, old, from, v) || (
        v == from && exists|w: int| #[trigger] found(adj, old, from, w))))
    &&& forall|e: EdgeId| #[trigger]
        t.spec_edges().contains(e) ==> search_edge(adj, old, from, e.from.0 as int, e.to.0 as int)
            || search_edge(adj, old, from, e.to.0 as int, e.from.0 as int)
    &&& forall|v: int| #[trigger]
        found(adj, old, from, v) ==> exists|p: int|
            #[trigger] search_edge(adj, old, from, p, v) && t.spec_edges().contains(edge_between(p, v))
                && t.spec_edges().contains(edge_between(v, p))
}

/// An edge `p -> v` of a search under way: `v` is not `from`, both ends are in the run.
pub open spec fn run_edge<W>(adj: Seq<Seq<(usize, W)>>, old: Seq<usize>, cur: Seq<usize>, from: int, p: int, v: int) -> bool {
    &&& in_run(old, cur, from, p)
    &&& v != from
    &&& in_run(old, cur, from, v)
    &&& has_edge(adj, p, v)
}

/// The tree of a search under way, `started` telling whether it has an edge yet.
pub open spec fn run_tree<'a, G, W>(
    t: Tree<'a, G>,
    adj: Seq<Seq<(usize, W)>>,
    old: Seq<usize>,
    cur: Seq<usize>,
    from: int,
    started: bool,
) -> bool {
    &&& t.wf()
    &&& t.spec_root().0 == from
    &&& t.spec_tree_nodes().len() == old.len()
    &&& forall|v: int|
        0 <= v < old.len() ==> (#[trigger] t.spec_tree_nodes()[v] <==> ((v != from && in_run(old, cur, from, v))
            || (v == from && started)))
    &&& forall|e: EdgeId| #[trigger]
        t.spec_edges().contains(e) ==> run_edge(adj, old, cur, from, e.from.0 as int, e.to.0 as int)
            || run_edge(adj, old, cur, from, e.to.0 as int, e.from.0 as int)
    &&& forall|v: int|
        0 <= v < old.len() && v != from && #[trigger] in_run(old, cur, from, v) ==> exists|p: int|
            #[trigger] run_edge(adj, old, cur, from, p, v) && t.spec_edges().contains(edge_between(p, v))
                && t.spec_edges().contains(edge_between(v, p))
}

/// Marking `to` from `u` and adding the edge between them keeps the tree of a search under
/// way.
pub proof fn lemma_run_tree_step<'a, G, W>(
    t0: Tree<'a, G>,
    t1: Tree<'a, G>,
    adj: Seq<Seq<(usize, W)>>,
    old: Seq<usize>,
    cur0: Seq<usize>,
    cur1: Seq<usize>,
    from: int,
    started: bool,
    u: int,
    to: int,
    mark: usize,
)
    requires
        run_tree(t0, adj, old, cur0, from, started),
        cur0.len() == old.len(),
        0 <= from < old.len(),
        0 <= u < old.len(),
        0 <= to < old.len(),
        in_run(old, cur0, from, u),
        !in_run(old, cur0, from, to),
        old[to] == 0,
        mark != 0,
        cur1 == cur0.update(to, mark),
        has_edge(adj, u, to),
        started || u == from,
        t1.wf(),
        t1.spec_root() == t0.spec_root(),
        t1.spec_tree_nodes() == t0.spec_tree_nodes().update(u, true).update(to, true),
        t1.spec_edges() == t0.spec_edges().insert(edge_between(u, to)).insert(edge_between(to, u)),
    ensures
        run_tree(t1, adj, old, cur1, from, true),
{
    assert forall|v: int| #[trigger] in_run(old, cur0, from, v) implies in_run(old, cur1, from, v) by {
        if v != to {
        }
    }
    assert forall|p: int, v: int| #[trigger] run_edge(adj, old, cur0, from, p, v) implies run_edge(
        adj,
        old,
        cur1,
        from,
        p,
        v,
    ) by {
        assert(in_run(old, cur0, from, p));
        assert(in_run(old, cur0, from, v));
    }
    assert(run_edge(adj, old, cur1, from, u, to));
    assert forall|e: EdgeId| #[trigger] t1.spec_edges().contains(e) implies run_edge(
        adj,
        old,
        cur1,
        from,
        e.from.0 as int,
        e.to.0 as int,
    ) || run_edge(adj, old, cur1, from, e.to.0 as int, e.from.0 as int) by {
        if e == edge_between(u, to) || e == edge_between(to, u) {
        } else {
            assert(t0.spec_edges().contains(e));
        }
    }
    assert forall|v: int|
        0 <= v < old.len() && v != from && #[trigger] in_run(old, cur1, from, v) implies exists|p: int|
        #[trigger] run_edge(adj, old, cur1, from, p, v) && t1.spec_edges().contains(edge_between(p, v))
            && t1.spec_edges().contains(edge_between(v, p)) by {
        if v == to {
            assert(run_edge(adj, old, cur1, from, u, v));
        } else {
            assert(in_run(old, cur0, from, v));
            let p = choose|p: int|
                #[trigger] run_edge(adj, old, cur0, from, p, v) && t0.spec_edges().contains(edge_between(p, v))
                    && t0.spec_edges().contains(edge_between(v, p));
            assert(run_edge(adj, old, cur1, from, p, v));
        }
    }
    assert forall|v: int| 0 <= v < old.len() implies (#[trigger] t1.spec_tree_nodes()[v] <==> ((v != from
        && in_run(old, cur1, from, v)) || (v == from && true))) by {
        if v != to && v != u {
            assert(in_run(old, cur1, from, v) == in_run(old, cur0, from, v));
        }
    }
}

/// A search that has entered every node it can reach leaves the tree of the search.
pub proof fn lemma_run_tree_done<'a, G, W>(
    t: Tree<'a, G>,
    adj: Seq<Seq<(usize, W)>>,
    old: Seq<usize>,
    cur: Seq<usize>,
    from: int,
    started: bool,
)
    requires
        run_tree(t, adj, old, cur, from, started),
        cur.len() == old.len(),
        0 <= from < old.len(),
        forall|v: int|
            0 <= v < old.len() && v != from ==> (#[trigger] in_run(old, cur, from, v) <==> found(
                adj,
                old,
                from,
                v,
            )),
        started <==> exists|v: int| 0 <= v < old.len() && v != from && #[trigger] in_run(old, cur, from, v),
    ensures
        search_tree(t, adj, old, from),
{
    assert forall|p: int, v: int| #[trigger] run_edge(adj, old, cur, from, p, v) implies search_edge(
        adj,
        old,
        from,
        p,
        v,
    ) by {
        assert(in_run(old, cur, from, v));
        if p != from {
            assert(in_run(old, cur, from, p));
        }
    }
    assert forall|v: int| #[trigger] found(adj, old, from, v) implies exists|p: int|
        #[trigger] search_edge(adj, old, from, p, v) && t.spec_edges().contains(edge_between(p, v))
            && t.spec_edges().contains(edge_between(v, p)) by {
        assert(in_run(old, cur, from, v));
        let p = choose|p: int|
            #[trigger] run_edge(adj, old, cur, from, p, v) && t.spec_edges().contains(edge_between(p, v))
                && t.spec_edges().contains(edge_between(v, p));
        assert(search_edge(adj, old, from, p, v));
    }
    assert forall|v: int| 0 <= v < old.len() implies (#[trigger] t.spec_tree_nodes()[v] <==> (found(
        adj,
        old,
        from,
        v,
    ) || (v == from && exists|w: int| #[trigger] found(adj, old, from, w)))) by {
        if v == from {
            if started {
                let w = choose|w: int| 0 <= w < old.len() && w != from && #[trigger] in_run(old, cur, from, w);
                assert(found(adj, old, from, w));
            }
            if exists|w: int| #[trigger] found(adj, old, from, w) {
                let w = choose|w: int| #[trigger] found(adj, old, from, w);
                assert(in_run(old, cur, from, w));
            }
        }
    }
}

/// `v` belongs to the tree: it is the root or a node the tree touches.
pub open spec fn tree_member<'a, G>(t: Tree<'a, G>, v: int) -> bool {
    v == t.spec_root().0 || (0 <= v < t.spec_tree_nodes().len() && t.spec_tree_nodes()[v])
}

/// What the tree of a search says of its members: they are the root and the nodes found, each
/// of its edges joins two members along an edge of the graph, and every member but the root
/// hangs from another member.
pub proof fn lemma_search_tree_members<'a, G, W>(
    t: Tree<'a, G>,
    adj: Seq<Seq<(usize, W)>>,
    old: Seq<usize>,
    from: int,
)
    requires
        search_tree(t, adj, old, from),
        0 <= from < old.len(),
    ensures
        forall|v: int| 0 <= v < old.len() ==> (#[trigger] tree_member(t, v) <==> (v == from || found(adj, old, from, v))),
        forall|e: EdgeId| #[trigger]
            t.spec_edges().contains(e) ==> tree_member(t, e.from.0 as int) && tree_member(t, e.to.0 as int) && (
            has_edge(adj, e.from.0 as int, e.to.0 as int) || has_edge(adj, e.to.0 as int, e.from.0 as int)),
        forall|v: int|
            #[trigger] tree_member(t, v) && v != t.spec_root().0 ==> exists|p: int|
                tree_member(t, p) && #[trigger] has_edge(adj, p, v) && t.spec_edges().contains(edge_between(p, v))
                    && t.spec_edges().contains(edge_between(v, p)),
{
    assert forall|v: int| #[trigger] found(adj, old, from, v) implies tree_member(t, v) by {
        assert(0 <= v < old.len());
        assert(t.spec_tree_nodes()[v]);
    }
    assert forall|e: EdgeId| #[trigger] t.spec_edges().contains(e) implies tree_member(t, e.from.0 as int)
        && tree_member(t, e.to.0 as int) && (has_edge(adj, e.from.0 as int, e.to.0 as int) || has_edge(
        adj,
        e.to.0 as int,
        e.from.0 as int,
    )) by {
        if search_edge(adj, old, from, e.from.0 as int, e.to.0 as int) {
            assert(found(adj, old, from, e.to.0 as int));
            if e.from.0 != from {
                assert(found(adj, old, from, e.from.0 as int));
            }
        } else {
            assert(found(adj, old, from, e.from.0 as int));
            if e.to.0 != from {
                assert(found(adj, old, from, e.to.0 as int));
            }
        }
    }
    assert forall|v: int| #[trigger] tree_member(t, v) && v != t.spec_root().0 implies exists|p: int|
        tree_member(t, p) && #[trigger] has_edge(adj, p, v) && t.spec_edges().contains(edge_between(p, v))
            && t.spec_edges().contains(edge_between(v, p)) by {
        assert(t.spec_tree_nodes()[v]);
        assert(found(adj, old, from, v));
        let p = choose|p: int|
            #[trigger] search_edge(adj, old, from, p, v) && t.spec_edges().contains(edge_between(p, v))
                && t.spec_edges().contains(edge_between(v, p));
        if p != from {
            assert(found(adj, old, from, p));
        }
        assert(tree_member(t, p));
    }
}


/// Where `v` first stands among the stored edges of `u`: the place a scan of `u`'s edges
/// meets it.
pub open spec fn scan_pos<W>(adj: Seq<Seq<(usize, W)>>, u: int, v: int) -> int {
    first_edge(adj[u], v as usize).unwrap()
}

/// A scan of `u`'s edges meets `v` first at position `k` when no earlier edge leads to it.
pub proof fn lemma_scan_pos<W>(adj: Seq<Seq<(usize, W)>>, u: int, k: int)
    requires
        0 <= u < adj.len(),
        0 <= k < adj[u].len(),
        forall|j: int| 0 <= j < k ==> adj[u][j].0 != adj[u][k].0,
    ensures
        scan_pos(adj, u, adj[u][k].0 as int) == k,
{
    let v = adj[u][k].0;
    lemma_first_edge(adj[u], v);
    match first_edge(adj[u], v) {
        Some(i) => {
            if i < k {
                assert(adj[u][i].0 == v);
            } else if i > k {
                assert(adj[u][k].0 != v);
            }
        },
        None => {
            assert(adj[u][k].0 != v);
        },
    }
}

/// Edge `e` joins the `i`-th node of `order` (after the first) and the node that found it,
/// `order[pa[i]]`, in one direction or the other.
pub open spec fn found_edge(order: Seq<NodeId>, pa: Seq<int>, i: int, e: EdgeId) -> bool {
    &&& 1 <= i < order.len()
    &&& (e == edge_between(order[pa[i]].0 as int, order[i].0 as int) || e == edge_between(
        order[i].0 as int,
        order[pa[i]].0 as int,
    ))
}

/// The edges of `t` are exactly those between each node of `order` after the first and the
/// node that found it.
pub open spec fn tree_by<'a, G>(t: Tree<'a, G>, order: Seq<NodeId>, pa: Seq<int>) -> bool {
    forall|e: EdgeId| #[trigger] t.spec_edges().contains(e) <==> exists|i: int| #[trigger] found_edge(order, pa, i, e)
}

/// Adding to a tree the edge between `v` and its finder `c[f]` adds `v` to the list the tree
/// is built by.
pub proof fn lemma_tree_by_push<'a, G>(t0: Tree<'a, G>, t: Tree<'a, G>, c: Seq<NodeId>, p: Seq<int>, v: NodeId, f: int)
    requires
        tree_by(t0, c, p),
        p.len() == c.len(),
        0 <= f < c.len(),
        forall|i: int| 1 <= i < c.len() ==> 0 <= #[trigger] p[i] < c.len(),
        t.spec_edges() == t0.spec_edges().insert(edge_between(c[f].0 as int, v.0 as int)).insert(
            edge_between(v.0 as int, c[f].0 as int),
        ),
    ensures
        tree_by(t, c.push(v), p.push(f)),
{
    let c1 = c.push(v);
    let p1 = p.push(f);
    let l = c.len() as int;
    assert forall|e: EdgeId| #[trigger] t.spec_edges().contains(e) <==> exists|i: int| #[trigger] found_edge(c1, p1, i, e) by {
        if t.spec_edges().contains(e) {
            if e == edge_between(c[f].0 as int, v.0 as int) || e == edge_between(v.0 as int, c[f].0 as int) {
                assert(c1[l] == v && p1[l] == f && c1[f] == c[f]);
                assert(found_edge(c1, p1, l, e));
            } else {
                assert(t0.spec_edges().contains(e));
                let i = choose|i: int| #[trigger] found_edge(c, p, i, e);
                assert(c1[i] == c[i] && p1[i] == p[i] && c1[p[i]] == c[p[i]]);
                assert(found_edge(c1, p1, i, e));
            }
        }
        if exists|i: int| #[trigger] found_edge(c1, p1, i, e) {
            let i = choose|i: int| #[trigger] found_edge(c1, p1, i, e);
            if i < l {
                assert(c1[i] == c[i] && p1[i] == p[i] && c1[p[i]] == c[p[i]]);
                assert(found_edge(c, p, i, e));
            } else {
                assert(c1[l] == v && p1[l] == f && c1[f] == c[f]);
            }
        }
    }
}

/// Moving the last entry of `c + s` to just after `c` keeps the tree built by the list, so long
/// as every finder lies in `c`.
pub proof fn lemma_tree_by_move<'a, G>(t: Tree<'a, G>, c: Seq<NodeId>, p: Seq<int>, s: Seq<NodeId>, sp: Seq<int>)
    requires
        tree_by(t, c + s, p + sp),
        s.len() > 0,
        p.len() == c.len(),
        sp.len() == s.len(),
        c.len() == 0 ==> s.len() == 1,
        forall|i: int| 1 <= i < c.len() ==> 0 <= #[trigger] p[i] < c.len(),
        c.len() > 0 ==> forall|j: int| 0 <= j < s.len() ==> 0 <= #[trigger] sp[j] < c.len(),
    ensures
        tree_by(t, c.push(s.last()) + s.drop_last(), p.push(sp.last()) + sp.drop_last()),
{
    let c0 = c + s;
    let p0 = p + sp;
    let c1 = c.push(s.last()) + s.drop_last();
    let p1 = p.push(sp.last()) + sp.drop_last();
    let l = c.len() as int;
    let m = s.len() as int;
    assert(c1.len() == c0.len());
    assert forall|e: EdgeId| #[trigger] t.spec_edges().contains(e) <==> exists|i: int| #[trigger] found_edge(c1, p1, i, e) by {
        if t.spec_edges().contains(e) {
            let i = choose|i: int| #[trigger] found_edge(c0, p0, i, e);
            let j = if i < l { i } else if i == l + m - 1 { l } else { i + 1 };
            if i < l {
                assert(c0[i] == c[i] && p0[i] == p[i] && c1[i] == c[i] && p1[i] == p[i]);
                assert(c0[p[i]] == c[p[i]] && c1[p[i]] == c[p[i]]);
            } else {
                assert(l > 0);
                assert(c0[i] == s[i - l] && p0[i] == sp[i - l]);
                assert(c1[j] == s[i - l] && p1[j] == sp[i - l]);
                assert(c0[sp[i - l]] == c[sp[i - l]] && c1[sp[i - l]] == c[sp[i - l]]);
            }
            assert(found_edge(c1, p1, j, e));
        }
        if exists|j: int| #[trigger] found_edge(c1, p1, j, e) {
            let j = choose|j: int| #[trigger] found_edge(c1, p1, j, e);
            let i = if j < l { j } else if j == l { l + m - 1 } else { j - 1 };
            if j < l {
                assert(c0[j] == c[j] && p0[j] == p[j] && c1[j] == c[j] && p1[j] == p[j]);
                assert(c0[p[j]] == c[p[j]] && c1[p[j]] == c[p[j]]);
            } else {
                assert(l > 0);
                assert(c0[i] == s[i - l] && p0[i] == sp[i - l]);
                assert(c1[j] == s[i - l] && p1[j] == sp[i - l]);
                assert(c0[sp[i - l]] == c[sp[i - l]] && c1[sp[i - l]] == c[sp[i - l]]);
            }
            assert(found_edge(c0, p0, i, e));
        }
    }
}

} // verus!
