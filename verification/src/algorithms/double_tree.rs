use crate::algorithms::dfs::{depth_first, dfs_iter};
use crate::algorithms::dijkstra::dijkstra_between;
use crate::algorithms::kruskal::{along, joined, kept_edges, kruskal, lemma_joined_refl, lemma_joined_sym, lemma_joined_trans, lightest_joins, CostEdge};
use crate::algorithms::nearest_neighbor::sum_costs;
use crate::graph::index::{EdgeId, NodeId};
use crate::graph::reach::{found, free, has_edge, is_path, lemma_has_edge_range, lemma_reach_start, lemma_reach_step, no_marks, reachable, search_order};
use crate::graph::traits::{
    adj_wf, edge_weight, total_edges, Base, Contains, Count, Get, Index, IndexAdjacent, IterAdjacent,
};
use crate::graph::walk::{costs_nonneg, least_cost, walk_exists};
use crate::graph::weight::{cost_add, EdgeCost};
use crate::graph_impl::tree::{edge_between, lemma_tree_adj_wf, tree_adj, Tree};
use crate::pq::PQ_LIMIT;
use crate::structures::tour::Tour;
use vstd::prelude::*;

verus! {

/// A tree that `kruskal` may return for `graph`: its edges are edges of the graph, kept in
/// order of cost, each edge of the graph having its ends joined by kept edges no dearer than it,
/// and it joins the two ends of every edge of the graph.
pub open spec fn kruskal_tree<'a, G: Base>(graph: &'a G, t: Tree<'a, G>) -> bool
    where
        G::Weight: EdgeCost,
{
    &&& t.wf()
    &&& *t.spec_graph() == *graph
    &&& t.spec_root().0 < graph.spec_nodes().len()
    &&& t.spec_tree_nodes().len() == graph.spec_nodes().len()
    &&& forall|e: EdgeId| #[trigger]
        t.spec_edges().contains(e) ==> has_edge(graph.spec_adj(), e.from.0 as int, e.to.0 as int)
            || has_edge(graph.spec_adj(), e.to.0 as int, e.from.0 as int)
    &&& exists|kept: Seq<CostEdge>| #[trigger] kept_edges(graph.spec_adj(), t, kept) && lightest_joins(graph.spec_adj(), kept)
    &&& forall|u: int, v: int| #[trigger] has_edge(graph.spec_adj(), u, v) ==> joined(t.spec_edges(), u, v)
    &&& forall|e: EdgeId| #[trigger] t.spec_edges().contains(e) ==> t.spec_edges().contains(EdgeId { from: e.to, to: e.from })
}

/// The cost of going from `u` to `v`: that of the first edge `u -> v` where there is one,
/// else that of a cheapest walk.
pub open spec fn hop_cost<W: EdgeCost>(adj: Seq<Seq<(usize, W)>>, u: int, v: int, c: i64) -> bool {
    match edge_weight(adj, u as usize, v as usize) {
        Some(w) => c == w.spec_cost(),
        None => least_cost(adj, u, v, c),
    }
}

/// `costs` holds the cost of each hop of `route`.
pub open spec fn hop_costs<W: EdgeCost>(adj: Seq<Seq<(usize, W)>>, route: Seq<NodeId>, costs: Seq<i64>) -> bool {
    &&& route.len() >= 1
    &&& costs.len() == route.len() - 1
    &&& forall|k: int| 0 <= k < costs.len() ==> hop_cost(adj, route[k].0 as int, route[k + 1].0 as int, #[trigger] costs[k])
}

/// Every edge `u -> v` of the graph has an edge `v -> u` beside it.
pub open spec fn undirected_adj<W>(adj: Seq<Seq<(usize, W)>>) -> bool {
    forall|u: int, v: int| #[trigger] has_edge(adj, u, v) ==> has_edge(adj, v, u)
}

/// `v` is on the route.
pub open spec fn visits(route: Seq<NodeId>, v: int) -> bool {
    exists|i: int| 0 <= i < route.len() && (#[trigger] route[i]).0 == v
}

/// Every node can be reached from the first one.
pub open spec fn connected<W>(adj: Seq<Seq<(usize, W)>>) -> bool {
    forall|v: int| 0 <= v < adj.len() ==> #[trigger] reachable(adj, no_marks(adj.len()), 0, v)
}

/// Where every edge of the graph has its ends joined by `edges`, so has every path.
proof fn lemma_path_joined<W>(adj: Seq<Seq<(usize, W)>>, markers: Seq<usize>, edges: Set<EdgeId>, from: int, path: Seq<int>)
    requires
        is_path(adj, markers, from, path),
        0 <= from <= usize::MAX,
        forall|u: int, v: int| #[trigger] has_edge(adj, u, v) ==> joined(edges, u, v),
    ensures
        joined(edges, from, path.last()),
    decreases path.len(),
{
    if path.len() == 1 {
        lemma_joined_refl(edges, from);
    } else {
        let d = path.drop_last();
        assert forall|i: int| 1 <= i < d.len() implies has_edge(adj, d[i - 1], #[trigger] d[i]) && free(markers, d[i]) by {
            assert(d[i] == path[i] && d[i - 1] == path[i - 1]);
        }
        lemma_path_joined(adj, markers, edges, from, d);
        let j = path.len() - 1;
        assert(has_edge(adj, path[j - 1], path[j]));
        assert(d.last() == path[j - 1]);
        lemma_joined_trans(edges, from, d.last(), path.last());
    }
}

/// A path along `edges`, which come in both directions and are edges of an undirected graph,
/// is a path of the graph's edges that `edges` holds.
proof fn lemma_along_reachable<W>(adj: Seq<Seq<(usize, W)>>, edges: Set<EdgeId>, path: Seq<int>)
    requires
        adj_wf(adj),
        undirected_adj(adj),
        along(edges, path),
        path.len() >= 1,
        0 <= path[0] < adj.len(),
        forall|e: EdgeId| #[trigger] edges.contains(e) ==> edges.contains(EdgeId { from: e.to, to: e.from }),
        forall|e: EdgeId| #[trigger]
            edges.contains(e) ==> has_edge(adj, e.from.0 as int, e.to.0 as int) || has_edge(adj, e.to.0 as int, e.from.0 as int),
    ensures
        reachable(tree_adj(adj, edges), no_marks(adj.len()), path[0], path.last()),
    decreases path.len(),
{
    let t = tree_adj(adj, edges);
    let marks = no_marks(adj.len());
    if path.len() == 1 {
        lemma_reach_start(t, marks, path[0]);
    } else {
        let d = path.drop_last();
        assert forall|i: int| 0 <= i < d.len() - 1 implies edges.contains(edge_between(#[trigger] d[i], d[i + 1])) || edges.contains(
            edge_between(d[i + 1], d[i]),
        ) by {
            assert(d[i] == path[i] && d[i + 1] == path[i + 1]);
        }
        lemma_along_reachable(adj, edges, d);
        let j = path.len() - 2;
        let x = path[j];
        let y = path[j + 1];
        assert(d.last() == x);
        assert(edges.contains(edge_between(x, y)) || edges.contains(edge_between(y, x)));
        let e = if edges.contains(edge_between(x, y)) { edge_between(x, y) } else { edge_between(y, x) };
        assert(edges.contains(EdgeId { from: e.to, to: e.from }));
        assert(has_edge(adj, e.from.0 as int, e.to.0 as int) || has_edge(adj, e.to.0 as int, e.from.0 as int));
        assert(0 <= x <= usize::MAX && 0 <= y <= usize::MAX);
        if has_edge(adj, e.from.0 as int, e.to.0 as int) {
            lemma_has_edge_range(adj, e.from.0 as int, e.to.0 as int);
        } else {
            lemma_has_edge_range(adj, e.to.0 as int, e.from.0 as int);
        }
        assert(0 <= y < adj.len());
        assert(has_edge(adj, x, y));
        let k = choose|k: int| 0 <= k < adj[x].len() && #[trigger] adj[x][k].0 == y;
        let pred = |e: (usize, W)| edges.contains(EdgeId { from: NodeId(x as usize), to: NodeId(e.0) });
        assert(edges.contains(edge_between(x, y)));
        assert(pred(adj[x][k]));
        adj[x].lemma_filter_contains(pred, k);
        assert(t[x] == adj[x].filter(pred));
        let i = choose|i: int| 0 <= i < t[x].len() && t[x][i] == adj[x][k];
        assert(t[x][i].0 == y);
        assert(has_edge(t, x, y));
        lemma_reach_step(t, marks, path[0], x, y);
    }
}

/// In an undirected, connected graph, a search of the tree `kruskal` builds meets every node.
proof fn lemma_tree_covers<'a, G: Base>(graph: &'a G, t: Tree<'a, G>, route: Seq<NodeId>)
    where
        G::Weight: EdgeCost,
    requires
        graph.spec_wf(),
        adj_wf(graph.spec_adj()),
        kruskal_tree(graph, t),
        search_order(t.spec_adj(), no_marks(graph.spec_nodes().len()), t.spec_root().0 as int, route),
        undirected_adj(graph.spec_adj()),
        connected(graph.spec_adj()),
    ensures
        forall|v: int| 0 <= v < graph.spec_nodes().len() ==> #[trigger] visits(route, v),
{
    graph.lemma_wf();
    t.lemma_as_graph();
    let adj = graph.spec_adj();
    let n = adj.len();
    let e = t.spec_edges();
    let marks = no_marks(n);
    let root = t.spec_root().0 as int;
    assert(reachable(adj, marks, 0, root));
    let pr = choose|path: Seq<int>| #[trigger] is_path(adj, marks, 0, path) && path.last() == root;
    lemma_path_joined(adj, marks, e, 0, pr);
    lemma_joined_sym(e, 0, root);
    assert forall|v: int| 0 <= v < n implies #[trigger] visits(route, v) by {
        if v == root {
            assert(route[0].0 == v);
        } else {
            assert(reachable(adj, marks, 0, v));
            let pv = choose|path: Seq<int>| #[trigger] is_path(adj, marks, 0, path) && path.last() == v;
            lemma_path_joined(adj, marks, e, 0, pv);
            lemma_joined_trans(e, root, 0, v);
            let q = choose|path: Seq<int>| #[trigger] along(e, path) && path.len() >= 1 && path[0] == root && path.last() == v;
            lemma_along_reachable(adj, e, q);
            assert(found(t.spec_adj(), marks, root, v));
        }
    }
}

/// The double-tree heuristic: the nodes in the order in which a depth-first search of a
/// minimum spanning tree (Kruskal's) meets them, each hop costed by its direct edge or, where
/// there is none, by a cheapest walk. Nothing where some hop has neither.
pub fn double_tree<'a, G: Index + IterAdjacent + IndexAdjacent + Count + Contains + Get>(graph: &'a G) -> (r: Option<Tour<i64>>)
    where
        G::Weight: EdgeCost + Copy,
    requires
        graph.spec_wf(),
        adj_wf(graph.spec_adj()),
        costs_nonneg(graph.spec_adj()),
        0 < graph.spec_nodes().len() <= u32::MAX,
        total_edges(graph.spec_adj()) + 1 < PQ_LIMIT,
    ensures
        exists|t: Tree<'a, G>, route: Seq<NodeId>|
            #![trigger kruskal_tree(graph, t), search_order(t.spec_adj(), no_marks(graph.spec_nodes().len()), t.spec_root().0 as int, route)]
            kruskal_tree(graph, t) && search_order(t.spec_adj(), no_marks(graph.spec_nodes().len()), t.spec_root().0 as int, route)
            && depth_first(t.spec_adj(), route) && match r {
                Some(tour) => tour.route@ == route && exists|costs: Seq<i64>|
                    hop_costs(graph.spec_adj(), route, costs) && tour.weight == sum_costs(costs),
                None => exists|k: int|
                    0 <= k < route.len() - 1 && edge_weight(graph.spec_adj(), route[k].0, route[k + 1].0) is None
                        && !walk_exists(graph.spec_adj(), #[trigger] route[k].0 as int, route[k + 1].0 as int),
            } && (undirected_adj(graph.spec_adj()) && connected(graph.spec_adj()) ==> forall|v: int|
                0 <= v < graph.spec_nodes().len() ==> #[trigger] visits(route, v)),
{
    proof {
        graph.lemma_wf();
    }
    let ghost adj = graph.spec_adj();
    let ghost n = graph.spec_nodes().len();
    let (tree, _) = kruskal(graph);
    proof {
        tree.lemma_as_graph();
        tree.lemma_wf();
        lemma_tree_adj_wf(adj, tree.spec_edges());
    }
    let route = dfs_iter(&tree, tree.root());
    let ghost rt = route@;
    proof {
        assert(kruskal_tree(graph, tree));
        if undirected_adj(adj) && connected(adj) {
            lemma_tree_covers(graph, tree, rt);
        }
    }
    let mut total: i64 = 0;
    let mut k: usize = 0;
    let ghost mut costs: Seq<i64> = Seq::empty();
    while k < route.len() - 1
        invariant
            graph.spec_wf(),
            adj == graph.spec_adj(),
            adj_wf(adj),
            costs_nonneg(adj),
            n == graph.spec_nodes().len(),
            n == adj.len(),
            total_edges(adj) + 1 < PQ_LIMIT,
            rt == route@,
            rt.len() >= 1,
            kruskal_tree(graph, tree),
            search_order(tree.spec_adj(), no_marks(n), tree.spec_root().0 as int, rt),
            depth_first(tree.spec_adj(), rt),
            undirected_adj(adj) && connected(adj) ==> forall|v: int| 0 <= v < n ==> #[trigger] visits(rt, v),
            forall|i: int| 0 <= i < rt.len() ==> (#[trigger] rt[i]).0 < n,
            k + 1 <= rt.len(),
            costs.len() == k,
            forall|i: int| 0 <= i < k ==> hop_cost(adj, rt[i].0 as int, rt[i + 1].0 as int, #[trigger] costs[i]),
            total == sum_costs(costs),
        decreases rt.len() - k,
    {
        let from = route[k];
        let to = route[k + 1];
        let c = match graph.contains_edge(from, to) {
            Some(e) => {
                let w = graph.weight(e).unwrap();
                w.cost()
            },
            None => {
                match dijkstra_between(graph, from, to) {
                    Some(d) => d,
                    None => {
                        proof {
                            assert(edge_weight(adj, rt[k as int].0, rt[k + 1].0) is None);
                            assert(!walk_exists(adj, rt[k as int].0 as int, rt[k + 1].0 as int));
                            assert(kruskal_tree(graph, tree));
                        }
                        return None;
                    },
                }
            },
        };
        proof {
            let nc = costs.push(c);
            assert(nc.drop_last() =~= costs);
            assert forall|i: int| 0 <= i < k + 1 implies hop_cost(adj, rt[i].0 as int, rt[i + 1].0 as int, #[trigger] nc[i]) by {
                if i < k {
                    assert(nc[i] == costs[i]);
                }
            }
            costs = nc;
        }
        total = cost_add(total, c);
        k = k + 1;
    }
    let tour = Tour::new(route, total);
    proof {
        assert(hop_costs(adj, rt, costs));
        assert(tour.route@ == rt);
    }
    Some(tour)
}

} // verus!
