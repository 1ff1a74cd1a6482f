use crate::algorithms::union_find::UnionFind;
use crate::graph::index::{EdgeId, NodeId};
use crate::graph::reach::{has_edge, lemma_has_edge_range};
use crate::graph::traits::{adj_wf, Base, Count, Index, IterAdjacent};
use crate::graph::weight::{add_cost, cost_add, EdgeCost};
use crate::graph_impl::tree::{edge_between, Tree, TreeBuilder};
use vstd::prelude::*;
use vstd::seq_lib::to_multiset_insert;

verus! {

/// An edge with its cost: `(cost, from, to)`.
pub type CostEdge = (i64, NodeId, NodeId);

/// The edges are in order of cost.
pub open spec fn sorted_by_cost(s: Seq<CostEdge>) -> bool {
    forall|i: int, j: int| 0 <= i < j < s.len() ==> s[i].0 <= s[j].0
}

/// The same edges in order of cost; edges of equal cost keep their order.
pub fn sort_by_cost(edges: Vec<CostEdge>) -> (r: Vec<CostEdge>)
    ensures
        r@.to_multiset() == edges@.to_multiset(),
        sorted_by_cost(r@),
{
    let mut r: Vec<CostEdge> = Vec::new();
    let mut i: usize = 0;
    proof {
        assert(edges@.take(0) =~= Seq::<CostEdge>::empty());
    }
    while i < edges.len()
        invariant
            i <= edges@.len(),
            r@.to_multiset() == edges@.take(i as int).to_multiset(),
            sorted_by_cost(r@),
        decreases edges@.len() - i,
    {
        let x = edges[i];
        let mut p: usize = 0;
        while p < r.len() && r[p].0 <= x.0
            invariant
                p <= r@.len(),
                forall|k: int| 0 <= k < p ==> r@[k].0 <= x.0,
            decreases r@.len() - p,
        {
            p = p + 1;
        }
        let ghost r0 = r@;
        r.insert(p, x);
        proof {
            to_multiset_insert(r0, p as int, x);
            assert(edges@.take(i + 1) =~= edges@.take(i as int).push(x));
            vstd::seq_lib::to_multiset_build(edges@.take(i as int), x);
            assert forall|a: int, b: int| 0 <= a < b < r@.len() implies r@[a].0 <= r@[b].0 by {
                if b < p {
                } else if b == p {
                    assert(r@[a] == r0[a]);
                } else if a < p {
                    assert(r@[a] == r0[a]);
                    assert(r@[b] == r0[b - 1]);
                    if p < r0.len() {
                        assert(r0[p as int].0 > x.0);
                    }
                } else if a == p {
                    assert(r@[b] == r0[b - 1]);
                    assert(r0[p as int].0 > x.0);
                    assert(r0[p as int].0 <= r0[b - 1].0);
                } else {
                    assert(r@[a] == r0[a - 1]);
                    assert(r@[b] == r0[b - 1]);
                }
            }
        }
        i = i + 1;
    }
    proof {
        assert(edges@.take(edges@.len() as int) =~= edges@);
    }
    r
}

/// The edges of the lists from `adj`, each with its cost, node by node in the order stored.
pub open spec fn cost_list<W: EdgeCost>(adj: Seq<Seq<(usize, W)>>) -> Seq<CostEdge>
    decreases adj.len(),
{
    if adj.len() == 0 {
        Seq::empty()
    } else {
        cost_list(adj.drop_last()) + row_costs((adj.len() - 1) as usize, adj.last())
    }
}

/// The edges of one list, leaving `u`, each with its cost.
pub open spec fn row_costs<W: EdgeCost>(u: usize, out: Seq<(usize, W)>) -> Seq<CostEdge> {
    out.map_values(|e: (usize, W)| (e.1.spec_cost(), NodeId(u), NodeId(e.0)))
}

/// Every stored edge of the graph with its cost, node by node.
pub fn cost_edges<G: Index + IterAdjacent>(graph: &G) -> (r: Vec<CostEdge>)
    where
        G::Weight: EdgeCost + Copy,
    requires
        graph.spec_wf(),
    ensures
        r@ == cost_list(graph.spec_adj()),
        forall|i: int| 0 <= i < r@.len() ==> has_edge(graph.spec_adj(), (#[trigger] r@[i]).1.0 as int, r@[i].2.0 as int),
        forall|i: int| 0 <= i < r@.len() ==> (#[trigger] r@[i]).1.0 < graph.spec_nodes().len(),
{
    proof {
        graph.lemma_wf();
    }
    let ids = graph.node_ids();
    let mut r: Vec<CostEdge> = Vec::new();
    let mut i: usize = 0;
    while i < ids.len()
        invariant
            graph.spec_wf(),
            graph.spec_adj().len() == graph.spec_nodes().len(),
            ids@.len() == graph.spec_nodes().len(),
            forall|j: int| 0 <= j < ids@.len() ==> (#[trigger] ids@[j]).0 == j,
            i <= ids@.len(),
            r@ == cost_list(graph.spec_adj().take(i as int)),
            forall|k: int| 0 <= k < r@.len() ==> has_edge(graph.spec_adj(), (#[trigger] r@[k]).1.0 as int, r@[k].2.0 as int),
            forall|k: int| 0 <= k < r@.len() ==> (#[trigger] r@[k]).1.0 < graph.spec_nodes().len(),
        decreases ids@.len() - i,
    {
        let from = ids[i];
        let out = graph.iter_adjacent_edges(from);
        let ghost start = r@;
        let mut k: usize = 0;
        while k < out.len()
            invariant
                graph.spec_wf(),
                graph.spec_adj().len() == graph.spec_nodes().len(),
                from.0 < graph.spec_nodes().len(),
                out@.len() == graph.spec_adj()[from.0 as int].len(),
                forall|j: int|
                    0 <= j < out@.len() ==> (#[trigger] out@[j]).edge_id.from == from && out@[j].edge_id.to.0
                        == graph.spec_adj()[from.0 as int][j].0,
                k <= out@.len(),
                from.0 == i,
                i < graph.spec_adj().len(),
                forall|j: int| 0 <= j < out@.len() ==> (#[trigger] out@[j]).weight == graph.spec_adj()[i as int][j].1,
                r@ == start + row_costs(i as usize, graph.spec_adj()[i as int].take(k as int)),
                forall|j: int| 0 <= j < r@.len() ==> has_edge(graph.spec_adj(), (#[trigger] r@[j]).1.0 as int, r@[j].2.0 as int),
                forall|j: int| 0 <= j < r@.len() ==> (#[trigger] r@[j]).1.0 < graph.spec_nodes().len(),
            decreases out@.len() - k,
        {
            let e = out[k];
            proof {
                assert(graph.spec_adj()[from.0 as int][k as int].0 == e.edge_id.to.0);
            }
            let ghost before = r@;
            r.push((e.weight.cost(), e.edge_id.from, e.edge_id.to));
            proof {
                let row = graph.spec_adj()[i as int];
                assert(row.take(k + 1) =~= row.take(k as int).push(row[k as int]));
                assert(row_costs(i as usize, row.take(k + 1)) =~= row_costs(i as usize, row.take(k as int)).push(
                    (row[k as int].1.spec_cost(), NodeId(i as usize), NodeId(row[k as int].0)),
                ));
                assert(r@ =~= start + row_costs(i as usize, row.take(k + 1)));
            }
            k = k + 1;
        }
        proof {
            let adj = graph.spec_adj();
            assert(adj[i as int].take(out@.len() as int) =~= adj[i as int]);
            assert(adj.take(i + 1).drop_last() =~= adj.take(i as int));
            assert(adj.take(i + 1).last() == adj[i as int]);
        }
        i = i + 1;
    }
    proof {
        assert(graph.spec_adj().take(ids@.len() as int) =~= graph.spec_adj());
    }
    r
}

/// Every stored edge is in the list, with its cost.
pub proof fn lemma_cost_list_has<W: EdgeCost>(adj: Seq<Seq<(usize, W)>>, u: int, j: int)
    requires
        0 <= u < adj.len() <= usize::MAX,
        0 <= j < adj[u].len(),
    ensures
        cost_list(adj).contains((adj[u][j].1.spec_cost(), NodeId(u as usize), NodeId(adj[u][j].0))),
    decreases adj.len(),
{
    let x = (adj[u][j].1.spec_cost(), NodeId(u as usize), NodeId(adj[u][j].0));
    let prev = cost_list(adj.drop_last());
    let row = row_costs((adj.len() - 1) as usize, adj.last());
    if u == adj.len() - 1 {
        assert(row[j] == x);
        assert((prev + row)[prev.len() + j] == x);
    } else {
        assert(adj.drop_last()[u] == adj[u]);
        lemma_cost_list_has(adj.drop_last(), u, j);
        let i = choose|i: int| 0 <= i < prev.len() && prev[i] == x;
        assert((prev + row)[i] == x);
    }
}

/// The sum of the costs, in order.
pub open spec fn total_cost(s: Seq<CostEdge>) -> i64
    decreases s.len(),
{
    if s.len() == 0 {
        0
    } else {
        add_cost(total_cost(s.drop_last()), s.last().0)
    }
}

/// `path` runs through node numbers along edges of `edges`, each taken either way.
pub open spec fn along(edges: Set<EdgeId>, path: Seq<int>) -> bool {
    &&& forall|i: int| 0 <= i < path.len() ==> 0 <= #[trigger] path[i] <= usize::MAX
    &&& forall|i: int|
        0 <= i < path.len() - 1 ==> edges.contains(edge_between(#[trigger] path[i], path[i + 1])) || edges.contains(
            edge_between(path[i + 1], path[i]),
        )
}

/// A path along `edges` joins `a` and `b`.
pub open spec fn joined(edges: Set<EdgeId>, a: int, b: int) -> bool {
    exists|path: Seq<int>| #[trigger] along(edges, path) && path.len() >= 1 && path[0] == a && path.last() == b
}

pub proof fn lemma_joined_refl(edges: Set<EdgeId>, a: int)
    requires
        0 <= a <= usize::MAX,
    ensures
        joined(edges, a, a),
{
    let p = seq![a];
    assert(along(edges, p));
}

pub proof fn lemma_joined_trans(edges: Set<EdgeId>, a: int, b: int, c: int)
    requires
        joined(edges, a, b),
        joined(edges, b, c),
    ensures
        joined(edges, a, c),
{
    let p1 = choose|path: Seq<int>| #[trigger] along(edges, path) && path.len() >= 1 && path[0] == a && path.last() == b;
    let p2 = choose|path: Seq<int>| #[trigger] along(edges, path) && path.len() >= 1 && path[0] == b && path.last() == c;
    let p = p1 + p2.drop_first();
    assert forall|i: int| 0 <= i < p.len() - 1 implies edges.contains(edge_between(#[trigger] p[i], p[i + 1])) || edges.contains(
        edge_between(p[i + 1], p[i]),
    ) by {
        if i < p1.len() - 1 {
            assert(p[i] == p1[i] && p[i + 1] == p1[i + 1]);
            assert(edges.contains(edge_between(p1[i], p1[i + 1])) || edges.contains(edge_between(p1[i + 1], p1[i])));
        } else {
            let j = i - p1.len() + 1;
            assert(p[i] == p2[j]);
            assert(p[i + 1] == p2[j + 1]);
            assert(edges.contains(edge_between(p2[j], p2[j + 1])) || edges.contains(edge_between(p2[j + 1], p2[j])));
        }
    }
    assert(along(edges, p));
    if p2.len() > 1 {
        assert(p.last() == p2.last());
    } else {
        assert(p =~= p1);
    }
}

pub proof fn lemma_joined_sym(edges: Set<EdgeId>, a: int, b: int)
    requires
        joined(edges, a, b),
    ensures
        joined(edges, b, a),
{
    let p1 = choose|path: Seq<int>| #[trigger] along(edges, path) && path.len() >= 1 && path[0] == a && path.last() == b;
    let p = p1.reverse();
    assert forall|i: int| 0 <= i < p.len() - 1 implies edges.contains(edge_between(#[trigger] p[i], p[i + 1])) || edges.contains(
        edge_between(p[i + 1], p[i]),
    ) by {
        let j = p1.len() - 2 - i;
        assert(p[i] == p1[j + 1]);
        assert(p[i + 1] == p1[j]);
        assert(edges.contains(edge_between(p1[j], p1[j + 1])) || edges.contains(edge_between(p1[j + 1], p1[j])));
    }
    assert(along(edges, p));
}

/// `kept[m]` joins `x` and `y`, one way or the other, at a cost of at most `c`.
pub open spec fn kept_link(kept: Seq<CostEdge>, c: i64, x: int, y: int) -> bool {
    exists|m: int|
        0 <= m < kept.len() && (#[trigger] kept[m]).0 <= c && ((kept[m].1.0 == x && kept[m].2.0 == y) || (kept[m].1.0 == y
            && kept[m].2.0 == x))
}

/// A path through node numbers, each step along a kept edge of cost at most `c`.
pub open spec fn along_kept(kept: Seq<CostEdge>, c: i64, path: Seq<int>) -> bool {
    &&& forall|i: int| 0 <= i < path.len() ==> 0 <= #[trigger] path[i] <= usize::MAX
    &&& forall|i: int| 0 <= i < path.len() - 1 ==> kept_link(kept, c, #[trigger] path[i], path[i + 1])
}

/// Kept edges of cost at most `c` join `a` and `b`.
pub open spec fn joined_kept(kept: Seq<CostEdge>, c: i64, a: int, b: int) -> bool {
    exists|path: Seq<int>| #[trigger] along_kept(kept, c, path) && path.len() >= 1 && path[0] == a && path.last() == b
}

/// The ends of every edge of the graph are joined by kept edges that cost no more than it: no
/// edge left out could replace a dearer kept one.
pub open spec fn lightest_joins<W: EdgeCost>(adj: Seq<Seq<(usize, W)>>, kept: Seq<CostEdge>) -> bool {
    forall|u: int, k: int|
        #![trigger adj[u][k]]
        0 <= u < adj.len() && 0 <= k < adj[u].len() ==> joined_kept(kept, adj[u][k].1.spec_cost(), u, adj[u][k].0 as int)
}

pub proof fn lemma_joined_kept_refl(kept: Seq<CostEdge>, c: i64, a: int)
    requires
        0 <= a <= usize::MAX,
    ensures
        joined_kept(kept, c, a, a),
{
    let p = seq![a];
    assert(along_kept(kept, c, p));
}

pub proof fn lemma_joined_kept_edge(kept: Seq<CostEdge>, m: int, c: i64)
    requires
        0 <= m < kept.len(),
        kept[m].0 <= c,
    ensures
        joined_kept(kept, c, kept[m].1.0 as int, kept[m].2.0 as int),
{
    let p = seq![kept[m].1.0 as int, kept[m].2.0 as int];
    assert forall|i: int| 0 <= i < p.len() - 1 implies kept_link(kept, c, #[trigger] p[i], p[i + 1]) by {
        assert(i == 0);
    }
    assert(along_kept(kept, c, p));
}

pub proof fn lemma_joined_kept_trans(kept: Seq<CostEdge>, c: i64, a: int, b: int, d: int)
    requires
        joined_kept(kept, c, a, b),
        joined_kept(kept, c, b, d),
    ensures
        joined_kept(kept, c, a, d),
{
    let p1 = choose|path: Seq<int>| #[trigger] along_kept(kept, c, path) && path.len() >= 1 && path[0] == a && path.last() == b;
    let p2 = choose|path: Seq<int>| #[trigger] along_kept(kept, c, path) && path.len() >= 1 && path[0] == b && path.last() == d;
    let p = p1 + p2.drop_first();
    assert forall|i: int| 0 <= i < p.len() implies 0 <= #[trigger] p[i] <= usize::MAX by {
        if i < p1.len() {
            assert(p[i] == p1[i]);
        } else {
            assert(p[i] == p2[i - p1.len() + 1]);
        }
    }
    assert forall|i: int| 0 <= i < p.len() - 1 implies kept_link(kept, c, #[trigger] p[i], p[i + 1]) by {
        if i < p1.len() - 1 {
            assert(p[i] == p1[i] && p[i + 1] == p1[i + 1]);
            assert(kept_link(kept, c, p1[i], p1[i + 1]));
        } else {
            let j = i - p1.len() + 1;
            assert(p[i] == p2[j]);
            assert(p[i + 1] == p2[j + 1]);
            assert(kept_link(kept, c, p2[j], p2[j + 1]));
        }
    }
    assert(along_kept(kept, c, p));
    if p2.len() > 1 {
        assert(p.last() == p2.last());
    } else {
        assert(p =~= p1);
    }
}

pub proof fn lemma_joined_kept_sym(kept: Seq<CostEdge>, c: i64, a: int, b: int)
    requires
        joined_kept(kept, c, a, b),
    ensures
        joined_kept(kept, c, b, a),
{
    let p1 = choose|path: Seq<int>| #[trigger] along_kept(kept, c, path) && path.len() >= 1 && path[0] == a && path.last() == b;
    let p = p1.reverse();
    assert forall|i: int| 0 <= i < p.len() implies 0 <= #[trigger] p[i] <= usize::MAX by {
        assert(p[i] == p1[p1.len() - 1 - i]);
    }
    assert forall|i: int| 0 <= i < p.len() - 1 implies kept_link(kept, c, #[trigger] p[i], p[i + 1]) by {
        let j = p1.len() - 2 - i;
        assert(p[i] == p1[j + 1]);
        assert(p[i + 1] == p1[j]);
        assert(kept_link(kept, c, p1[j], p1[j + 1]));
        let m = choose|m: int|
            0 <= m < kept.len() && (#[trigger] kept[m]).0 <= c && ((kept[m].1.0 == p1[j] && kept[m].2.0 == p1[j + 1]) || (
            kept[m].1.0 == p1[j + 1] && kept[m].2.0 == p1[j]));
    }
    assert(along_kept(kept, c, p));
}

/// More edges, or a higher bound on their cost, join at least as much.
pub proof fn lemma_joined_kept_mono(kept: Seq<CostEdge>, more: Seq<CostEdge>, c: i64, c2: i64, a: int, b: int)
    requires
        joined_kept(kept, c, a, b),
        c <= c2,
        kept.len() <= more.len(),
        forall|m: int| 0 <= m < kept.len() ==> #[trigger] more[m] == kept[m],
    ensures
        joined_kept(more, c2, a, b),
{
    let p = choose|path: Seq<int>| #[trigger] along_kept(kept, c, path) && path.len() >= 1 && path[0] == a && path.last() == b;
    assert forall|i: int| 0 <= i < p.len() - 1 implies kept_link(more, c2, #[trigger] p[i], p[i + 1]) by {
        assert(kept_link(kept, c, p[i], p[i + 1]));
        let m = choose|m: int|
            0 <= m < kept.len() && (#[trigger] kept[m]).0 <= c && ((kept[m].1.0 == p[i] && kept[m].2.0 == p[i + 1]) || (
            kept[m].1.0 == p[i + 1] && kept[m].2.0 == p[i]));
        assert(more[m] == kept[m]);
    }
    assert(along_kept(more, c2, p));
}

/// Kept edges that the set holds both ways join in the set what they join.
pub proof fn lemma_joined_kept_edges(kept: Seq<CostEdge>, c: i64, edges: Set<EdgeId>, a: int, b: int)
    requires
        joined_kept(kept, c, a, b),
        forall|m: int|
            0 <= m < kept.len() ==> edges.contains(edge_between((#[trigger] kept[m]).1.0 as int, kept[m].2.0 as int))
                && edges.contains(edge_between(kept[m].2.0 as int, kept[m].1.0 as int)),
    ensures
        joined(edges, a, b),
{
    let p = choose|path: Seq<int>| #[trigger] along_kept(kept, c, path) && path.len() >= 1 && path[0] == a && path.last() == b;
    assert forall|i: int| 0 <= i < p.len() - 1 implies edges.contains(edge_between(#[trigger] p[i], p[i + 1])) || edges.contains(
        edge_between(p[i + 1], p[i]),
    ) by {
        assert(kept_link(kept, c, p[i], p[i + 1]));
        let m = choose|m: int|
            0 <= m < kept.len() && (#[trigger] kept[m]).0 <= c && ((kept[m].1.0 == p[i] && kept[m].2.0 == p[i + 1]) || (
            kept[m].1.0 == p[i + 1] && kept[m].2.0 == p[i]));
        assert(edges.contains(edge_between(kept[m].1.0 as int, kept[m].2.0 as int)));
    }
    assert(along(edges, p));
}

/// The edges kept, in order of cost, are edges of the graph, and the tree holds both
/// directions of each.
pub open spec fn kept_edges<'a, G, W>(adj: Seq<Seq<(usize, W)>>, t: Tree<'a, G>, kept: Seq<CostEdge>) -> bool {
    &&& sorted_by_cost(kept)
    &&& forall|i: int|
        0 <= i < kept.len() ==> has_edge(adj, (#[trigger] kept[i]).1.0 as int, kept[i].2.0 as int)
            && t.spec_edges().contains(edge_between(kept[i].1.0 as int, kept[i].2.0 as int))
            && t.spec_edges().contains(edge_between(kept[i].2.0 as int, kept[i].1.0 as int))
}

/// Kruskal's algorithm: takes the edges in order of cost and keeps each that joins two nodes
/// not yet joined. Returns the tree, rooted at the root of the last join (the first node when
/// there was none), and the sum of the costs of the edges kept.
pub fn kruskal<'a, G: Index + IterAdjacent + Count>(graph: &'a G) -> (r: (Tree<'a, G>, i64))
    where
        G::Weight: EdgeCost + Copy,
    requires
        graph.spec_wf(),
        adj_wf(graph.spec_adj()),
        0 < graph.spec_nodes().len() <= u32::MAX,
    ensures
        r.0.wf(),
        *r.0.spec_graph() == *graph,
        r.0.spec_root().0 < graph.spec_nodes().len(),
        r.0.spec_tree_nodes().len() == graph.spec_nodes().len(),
        forall|e: EdgeId| #[trigger]
            r.0.spec_edges().contains(e) ==> has_edge(graph.spec_adj(), e.from.0 as int, e.to.0 as int)
                || has_edge(graph.spec_adj(), e.to.0 as int, e.from.0 as int),
        exists|kept: Seq<CostEdge>|
            #[trigger] kept_edges(graph.spec_adj(), r.0, kept) && total_cost(kept) == r.1 && lightest_joins(graph.spec_adj(), kept),
        forall|u: int, v: int| #[trigger] has_edge(graph.spec_adj(), u, v) ==> joined(r.0.spec_edges(), u, v),
        forall|e: EdgeId| #[trigger] r.0.spec_edges().contains(e) ==> r.0.spec_edges().contains(EdgeId { from: e.to, to: e.from }),
{
    proof {
        graph.lemma_wf();
    }
    let ghost adj = graph.spec_adj();
    let ghost n = graph.spec_nodes().len();
    let all = cost_edges(graph);
    let queue = sort_by_cost(all);
    proof {
        assert forall|i: int| 0 <= i < queue@.len() implies has_edge(adj, (#[trigger] queue@[i]).1.0 as int, queue@[i].2.0 as int)
            && queue@[i].1.0 < n by {
            vstd::seq_lib::to_multiset_contains(queue@, queue@[i]);
            vstd::seq_lib::to_multiset_contains(all@, queue@[i]);
            assert(queue@.contains(queue@[i]));
            assert(all@.contains(queue@[i]));
        }
    }
    let count = graph.node_count();
    let mut tree = TreeBuilder::with_count(count);
    let ids = graph.node_ids();
    let mut root = ids[0];
    let mut union_find = UnionFind::with_node_ids(ids);
    let mut total: i64 = 0;
    let ghost mut kept: Seq<CostEdge> = Seq::empty();
    let ghost q = queue@;
    let ghost thr0: i64 = if 0 < q.len() { q[0].0 } else { i64::MAX };
    proof {
        assert forall|a: int, b: int|
            0 <= a < n && 0 <= b < n && #[trigger] union_find.class_root(a) == #[trigger] union_find.class_root(b) implies joined_kept(
            kept,
            thr0,
            a,
            b,
        ) by {
            lemma_joined_kept_refl(kept, thr0, a);
        }
    }
    let mut i: usize = 0;
    while i < queue.len()
        invariant
            adj == graph.spec_adj(),
            adj_wf(adj),
            adj.len() == n,
            graph.spec_nodes().len() == n,
            count == n,
            q == queue@,
            forall|k: int| 0 <= k < q.len() ==> has_edge(adj, (#[trigger] q[k]).1.0 as int, q[k].2.0 as int) && q[k].1.0 < n,
            sorted_by_cost(q),
            i <= q.len(),
            tree.wf(),
            tree.spec_count() == n,
            union_find.wf(),
            union_find.spec_count() == n,
            root.0 < n,
            total == total_cost(kept),
            sorted_by_cost(kept),
            kept.len() > 0 ==> kept.last().0 <= (if i < q.len() { q[i as int].0 } else { i64::MAX }),
            forall|e: EdgeId| #[trigger]
                tree.spec_edges().contains(e) ==> has_edge(adj, e.from.0 as int, e.to.0 as int) || has_edge(
                    adj,
                    e.to.0 as int,
                    e.from.0 as int,
                ),
            forall|k: int|
                0 <= k < kept.len() ==> has_edge(adj, (#[trigger] kept[k]).1.0 as int, kept[k].2.0 as int)
                    && tree.spec_edges().contains(edge_between(kept[k].1.0 as int, kept[k].2.0 as int))
                    && tree.spec_edges().contains(edge_between(kept[k].2.0 as int, kept[k].1.0 as int)),
            forall|a: int, b: int|
                0 <= a < n && 0 <= b < n && #[trigger] union_find.class_root(a) == #[trigger] union_find.class_root(b) ==> joined_kept(
                    kept,
                    if i < q.len() { q[i as int].0 } else { i64::MAX },
                    a,
                    b,
                ),
            forall|k: int| 0 <= k < i ==> joined_kept(kept, (#[trigger] q[k]).0, q[k].1.0 as int, q[k].2.0 as int),
            forall|e: EdgeId| #[trigger] tree.spec_edges().contains(e) ==> tree.spec_edges().contains(EdgeId { from: e.to, to: e.from }),
        decreases q.len() - i,
    {
        let edge = queue[i];
        let from = edge.1;
        let to = edge.2;
        let ghost ci = q[i as int].0;
        let ghost next: i64 = if i + 1 < q.len() { q[i + 1].0 } else { i64::MAX };
        proof {
            lemma_has_edge_range(adj, from.0 as int, to.0 as int);
            assert(ci <= next);
        }
        let ghost uf0 = union_find;
        let rf = union_find.find(from);
        let rt = union_find.find(to);
        proof {
            assert forall|a: int, b: int|
                0 <= a < n && 0 <= b < n && #[trigger] union_find.class_root(a) == #[trigger] union_find.class_root(b) implies joined_kept(
                kept,
                ci,
                a,
                b,
            ) by {
                assert(uf0.class_root(a) == uf0.class_root(b));
            }
        }
        if rf.0 != rt.0 {
            let ghost uf1 = union_find;
            let ghost k0 = kept;
            root = union_find.union(from, to);
            proof {
                union_find.lemma_root(from.0 as int);
            }
            let ghost e0 = tree.spec_edges();
            tree.insert(from, to);
            total = cost_add(total, edge.0);
            proof {
                kept = kept.push(edge);
                assert(kept.drop_last() =~= k0);
                let e1 = tree.spec_edges();
                let rx = uf1.class_root(from.0 as int);
                let ry = uf1.class_root(to.0 as int);
                assert(edge_between(from.0 as int, to.0 as int) == (EdgeId { from, to }));
                assert(edge_between(to.0 as int, from.0 as int) == (EdgeId { from: to, to: from }));
                assert forall|m: int| 0 <= m < k0.len() implies #[trigger] kept[m] == k0[m] by {}
                assert(kept[k0.len() as int] == edge);
                lemma_joined_kept_edge(kept, k0.len() as int, ci);
                lemma_joined_kept_sym(kept, ci, from.0 as int, to.0 as int);
                assert(root.0 == rx || root.0 == ry);
                assert forall|a: int, b: int|
                    0 <= a < n && 0 <= b < n && #[trigger] union_find.class_root(a) == #[trigger] union_find.class_root(b) implies joined_kept(
                    kept,
                    next,
                    a,
                    b,
                ) by {
                    let ra = uf1.class_root(a);
                    let rb = uf1.class_root(b);
                    if (ra == rx || ra == ry) && (rb == rx || rb == ry) {
                        let xa = if ra == rx { from.0 as int } else { to.0 as int };
                        let xb = if rb == rx { from.0 as int } else { to.0 as int };
                        assert(uf1.class_root(a) == uf1.class_root(xa));
                        assert(uf1.class_root(b) == uf1.class_root(xb));
                        lemma_joined_kept_mono(k0, kept, ci, ci, a, xa);
                        lemma_joined_kept_mono(k0, kept, ci, ci, xb, b);
                        if xa == xb {
                            lemma_joined_kept_trans(kept, ci, a, xa, b);
                        } else {
                            lemma_joined_kept_trans(kept, ci, a, xa, xb);
                            lemma_joined_kept_trans(kept, ci, a, xb, b);
                        }
                        lemma_joined_kept_mono(kept, kept, ci, next, a, b);
                    } else if !(ra == rx || ra == ry) && !(rb == rx || rb == ry) {
                        assert(uf1.class_root(a) == uf1.class_root(b));
                        lemma_joined_kept_mono(k0, kept, ci, next, a, b);
                    } else {
                        uf1.lemma_root(a);
                        uf1.lemma_root(b);
                    }
                }
                assert forall|k: int| 0 <= k < i + 1 implies joined_kept(kept, (#[trigger] q[k]).0, q[k].1.0 as int, q[k].2.0 as int) by {
                    if k < i {
                        lemma_joined_kept_mono(k0, kept, q[k].0, q[k].0, q[k].1.0 as int, q[k].2.0 as int);
                    }
                }
                assert forall|k: int|
                    0 <= k < kept.len() implies has_edge(adj, (#[trigger] kept[k]).1.0 as int, kept[k].2.0 as int)
                        && tree.spec_edges().contains(edge_between(kept[k].1.0 as int, kept[k].2.0 as int))
                        && tree.spec_edges().contains(edge_between(kept[k].2.0 as int, kept[k].1.0 as int)) by {
                    if k < k0.len() {
                        assert(kept[k] == k0[k]);
                    }
                }
                assert forall|e: EdgeId| #[trigger]
                    tree.spec_edges().contains(e) implies has_edge(adj, e.from.0 as int, e.to.0 as int) || has_edge(
                        adj,
                        e.to.0 as int,
                        e.from.0 as int,
                    ) by {
                    if e0.contains(e) {
                    }
                }
                assert forall|e: EdgeId| #[trigger] e1.contains(e) implies e1.contains(EdgeId { from: e.to, to: e.from }) by {
                    if e0.contains(e) {
                        assert(e0.contains(EdgeId { from: e.to, to: e.from }));
                    }
                }
            }
        } else {
            proof {
                assert(union_find.class_root(from.0 as int) == union_find.class_root(to.0 as int));
                assert forall|a: int, b: int|
                    0 <= a < n && 0 <= b < n && #[trigger] union_find.class_root(a) == #[trigger] union_find.class_root(b) implies joined_kept(
                    kept,
                    next,
                    a,
                    b,
                ) by {
                    lemma_joined_kept_mono(kept, kept, ci, next, a, b);
                }
            }
        }
        i = i + 1;
    }
    let built = tree.build(root, graph);
    proof {
        assert(kept_edges(adj, built, kept));
        assert forall|u: int, j: int|
            #![trigger adj[u][j]]
            0 <= u < adj.len() && 0 <= j < adj[u].len() implies joined_kept(kept, adj[u][j].1.spec_cost(), u, adj[u][j].0 as int) by {
            lemma_cost_list_has(adj, u, j);
            let x = (adj[u][j].1.spec_cost(), NodeId(u as usize), NodeId(adj[u][j].0));
            vstd::seq_lib::to_multiset_contains(all@, x);
            vstd::seq_lib::to_multiset_contains(queue@, x);
            assert(queue@.to_multiset().count(x) > 0);
            let k = choose|k: int| 0 <= k < q.len() && q[k] == x;
            assert(joined_kept(kept, q[k].0, q[k].1.0 as int, q[k].2.0 as int));
        }
        assert(lightest_joins(adj, kept));
        assert forall|u: int, v: int| #[trigger] has_edge(adj, u, v) implies joined(built.spec_edges(), u, v) by {
            let j = choose|j: int| 0 <= j < adj[u].len() && #[trigger] adj[u][j].0 == v;
            assert(joined_kept(kept, adj[u][j].1.spec_cost(), u, adj[u][j].0 as int));
            lemma_joined_kept_edges(kept, adj[u][j].1.spec_cost(), built.spec_edges(), u, v);
        }
    }
    (built, total)
}

} // verus!
