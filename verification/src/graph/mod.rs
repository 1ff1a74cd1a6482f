pub mod access;
pub mod edge;
pub mod index;
pub mod node;
pub mod reach;
pub mod traits;
pub mod walk;
pub mod weight;

use crate::algorithms::bellman_ford::{bellman_ford, bellman_ford_between, least_walks_within};
use crate::algorithms::bfs::{bfs, bfs_tree_of};
use crate::algorithms::branch_bound::{branch_bound, branch_bound_rec, ham_walk, rec_found, rec_walk, trip_cost};
use crate::algorithms::brute_force::{all_hops, all_nodes, brute_force, closed, node_permutations, route_cost};
use crate::algorithms::dfs::{depth_first, dfs, dfs_tree_of};
use crate::algorithms::dijkstra::dijkstra;
use crate::algorithms::double_tree::{connected, double_tree, hop_costs, kruskal_tree, undirected_adj, visits};
use crate::algorithms::kruskal::{joined, kept_edges, kruskal, lightest_joins, total_cost, CostEdge};
use crate::algorithms::nearest_neighbor::{complete, greedy, greedy_but_one, is_tour, nearest_neighbor, nearest_neighbor_from_first, sum_costs};
use crate::algorithms::prim::{prim, spanning_cost};
use crate::algorithms::search::{bfs_scc, dfs_scc, tree_components};
use crate::algorithms::Distances;
use crate::graph::index::{EdgeId, NodeId};
use crate::graph::reach::{has_edge, no_marks, search_order};
use crate::graph::traits::{adj_wf, edge_weight, total_edges, Base, Clear, Contains, Count, Directed, Get, Index, IndexAdjacent, IterAdjacent};
use crate::graph::walk::{costs_nonneg, least_cost, res_least_cost, res_walk_exists, walk_end, walk_exists, walk_node, walk_to};
use crate::graph::weight::{EdgeCapacity, EdgeCost, EdgeFlow};
use crate::graph_impl::adjacency_list::AdjacencyList;
use crate::graph_impl::adjacency_matrix::AdjacencyMatrix;
use crate::graph_impl::tree::{search_tree, Tree};
use crate::pq::PQ_LIMIT;
use crate::structures::route::Route;
use crate::structures::tour::Tour;
use vstd::prelude::*;

verus! {

/// A graph that the algorithms of this library run on, each as a method.
pub trait Graph: Base + Clear + Contains + Count + Directed + Get + Index + IndexAdjacent + IterAdjacent + Sized {
    /// The least cost of a walk with room between two nodes: see `bellman_ford_between`.
    fn bellman_ford_between(&self, from: NodeId, to: NodeId) -> (r: Option<i64>)
        where
            Self::Weight: EdgeCost + EdgeCapacity + EdgeFlow + Copy,
        requires
            self.spec_wf(),
            adj_wf(self.spec_adj()),
            from.0 < self.spec_nodes().len(),
            to.0 < self.spec_nodes().len(),
        ensures
            self.spec_nodes().len() >= 2 ==> (r matches Some(c) ==> res_least_cost(self.spec_adj(), from.0 as int, to.0 as int, c)),
            self.spec_nodes().len() >= 2 && least_walks_within(self.spec_adj(), from.0 as int, self.spec_nodes().len() - 1) ==> (r is Some
                <==> res_walk_exists(self.spec_adj(), from.0 as int, to.0 as int)),
            self.spec_nodes().len() < 2 ==> r == Some(0i64),
    {
        bellman_ford_between(self, from, to)
    }

    /// The least costs of walks with room from a node: see `bellman_ford`.
    fn bellman_ford(&self, start: NodeId) -> (r: Option<Distances>)
        where
            Self::Weight: EdgeCost + EdgeCapacity + EdgeFlow + Copy,
        requires
            self.spec_wf(),
            adj_wf(self.spec_adj()),
            start.0 < self.spec_nodes().len(),
        ensures
            r matches Some(d) ==> d.from == start && d.distances@.len() == self.spec_nodes().len(),
            self.spec_nodes().len() >= 2 ==> (r matches Some(d) ==> forall|v: int|
                0 <= v < d.distances@.len() ==> match #[trigger] d.distances@[v] {
                    Some(c) => res_least_cost(self.spec_adj(), start.0 as int, v, c),
                    None => !res_walk_exists(self.spec_adj(), start.0 as int, v),
                }),
            self.spec_nodes().len() < 2 ==> (r matches Some(d) && d.distances@ == seq![Some(0i64)]),
            self.spec_nodes().len() >= 2 && least_walks_within(self.spec_adj(), start.0 as int, self.spec_nodes().len() - 1)
                ==> r is Some,
    {
        bellman_ford(self, start)
    }

    /// Dijkstra's search from `from` until it settles `to`: see `dijkstra`.
    fn dijkstra(&self, from: NodeId, to: NodeId) -> (r: Distances)
        where
            Self::Weight: EdgeCost + Copy,
        requires
            self.spec_wf(),
            adj_wf(self.spec_adj()),
            costs_nonneg(self.spec_adj()),
            from.0 < self.spec_nodes().len(),
            to.0 < self.spec_nodes().len(),
            total_edges(self.spec_adj()) + 1 < PQ_LIMIT,
        ensures
            r.from == from,
            r.distances@.len() == self.spec_nodes().len(),
            r.distances@[from.0 as int] == Some(0i64),
            forall|v: int|
                0 <= v < r.distances@.len() && (#[trigger] r.distances@[v]) is Some ==> walk_to(
                    self.spec_adj(),
                    from.0 as int,
                    v,
                    r.distances@[v].unwrap(),
                ),
            match r.distances@[to.0 as int] {
                Some(d) => least_cost(self.spec_adj(), from.0 as int, to.0 as int, d),
                None => !walk_exists(self.spec_adj(), from.0 as int, to.0 as int),
            },
    {
        dijkstra(self, from, to)
    }

    /// The cost of the tree that `kruskal` builds.
    fn kruskal_weight<'a>(&'a self) -> (r: i64)
        where
            Self::Weight: EdgeCost + Copy,
        requires
            self.spec_wf(),
            adj_wf(self.spec_adj()),
            0 < self.spec_nodes().len() <= u32::MAX,
        ensures
            exists|t: Tree<'a, Self>, kept: Seq<CostEdge>|
                #![trigger kruskal_tree(self, t), kept_edges(self.spec_adj(), t, kept)]
                kruskal_tree(self, t) && kept_edges(self.spec_adj(), t, kept) && total_cost(kept) == r && lightest_joins(
                    self.spec_adj(),
                    kept,
                ),
    {
        let (t, c) = kruskal(self);
        proof {
            let kept = choose|kept: Seq<CostEdge>|
                #[trigger] kept_edges(self.spec_adj(), t, kept) && total_cost(kept) == c && lightest_joins(self.spec_adj(), kept);
            assert(kruskal_tree(self, t));
        }
        c
    }

    /// A spanning forest by Kruskal's method, and its cost: see `kruskal`.
    fn kruskal<'a>(&'a self) -> (r: (Tree<'a, Self>, i64))
        where
            Self::Weight: EdgeCost + Copy,
        requires
            self.spec_wf(),
            adj_wf(self.spec_adj()),
            0 < self.spec_nodes().len() <= u32::MAX,
        ensures
            r.0.wf(),
            *r.0.spec_graph() == *self,
            r.0.spec_root().0 < self.spec_nodes().len(),
            r.0.spec_tree_nodes().len() == self.spec_nodes().len(),
            forall|e: EdgeId| #[trigger]
                r.0.spec_edges().contains(e) ==> has_edge(self.spec_adj(), e.from.0 as int, e.to.0 as int)
                    || has_edge(self.spec_adj(), e.to.0 as int, e.from.0 as int),
            exists|kept: Seq<CostEdge>|
                #[trigger] kept_edges(self.spec_adj(), r.0, kept) && total_cost(kept) == r.1 && lightest_joins(self.spec_adj(), kept),
            forall|u: int, v: int| #[trigger] has_edge(self.spec_adj(), u, v) ==> joined(r.0.spec_edges(), u, v),
    {
        kruskal(self)
    }

    /// The cost of the tree that Prim's method grows from the first node: see `prim`.
    fn prim(&self) -> (r: i64)
        where
            Self::Weight: EdgeCost + Copy,
        requires
            self.spec_wf(),
            adj_wf(self.spec_adj()),
            self.spec_nodes().len() < PQ_LIMIT,
            total_edges(self.spec_adj()) + 1 < PQ_LIMIT,
        ensures
            self.spec_nodes().len() == 0 ==> r == 0,
            self.spec_nodes().len() > 0 ==> spanning_cost(self.spec_adj(), 0, r),
    {
        prim(self)
    }

    /// The components of the graph, each a depth-first tree: see `dfs_scc`.
    fn dfs_scc<'a>(&'a self) -> (r: Vec<Tree<'a, Self>>)
        requires
            self.spec_wf(),
            adj_wf(self.spec_adj()),
        ensures
            tree_components(r@, self.spec_adj(), self.spec_nodes().len() as int),
            forall|i: int| 0 <= i < r@.len() ==> *(#[trigger] r@[i]).spec_graph() == *self,
    {
        dfs_scc(self)
    }

    /// The components of the graph, each a breadth-first tree: see `bfs_scc`.
    fn bfs_scc<'a>(&'a self) -> (r: Vec<Tree<'a, Self>>)
        requires
            self.spec_wf(),
            adj_wf(self.spec_adj()),
        ensures
            tree_components(r@, self.spec_adj(), self.spec_nodes().len() as int),
            forall|i: int| 0 <= i < r@.len() ==> *(#[trigger] r@[i]).spec_graph() == *self,
    {
        bfs_scc(self)
    }

    /// The depth-first tree from a node: see `dfs`.
    fn dfs<'a>(&'a self, from: NodeId) -> (r: Tree<'a, Self>)
        requires
            self.spec_wf(),
            adj_wf(self.spec_adj()),
            from.0 < self.spec_nodes().len(),
        ensures
            search_tree(r, self.spec_adj(), no_marks(self.spec_nodes().len()), from.0 as int),
            *r.spec_graph() == *self,
            exists|order: Seq<NodeId>|
                #[trigger] search_order(self.spec_adj(), no_marks(self.spec_nodes().len()), from.0 as int, order) && dfs_tree_of(
                    r,
                    self.spec_adj(),
                    order,
                ),
    {
        dfs(self, from)
    }

    /// The breadth-first tree from a node: see `bfs`.
    fn bfs<'a>(&'a self, from: NodeId) -> (r: Tree<'a, Self>)
        requires
            self.spec_wf(),
            adj_wf(self.spec_adj()),
            from.0 < self.spec_nodes().len(),
        ensures
            search_tree(r, self.spec_adj(), no_marks(self.spec_nodes().len()), from.0 as int),
            *r.spec_graph() == *self,
            exists|order: Seq<NodeId>|
                #[trigger] search_order(self.spec_adj(), no_marks(self.spec_nodes().len()), from.0 as int, order) && bfs_tree_of(
                    r,
                    self.spec_adj(),
                    order,
                ),
    {
        bfs(self, from)
    }

    /// A round trip by the nearest neighbour heuristic: see `nearest_neighbor`.
    fn nearest_neighbor(&self, start: NodeId) -> (r: Option<Tour<i64>>)
        where
            Self::Weight: EdgeCost + Copy,
        requires
            self.spec_wf(),
            adj_wf(self.spec_adj()),
            costs_nonneg(self.spec_adj()),
            start.0 < self.spec_nodes().len(),
            total_edges(self.spec_adj()) + 1 < PQ_LIMIT,
        ensures
            r matches Some(t) ==> exists|costs: Seq<i64>|
                is_tour(self.spec_adj(), start.0 as int, t.route@, costs) && t.weight == sum_costs(costs) && greedy_but_one(
                    self.spec_adj(),
                    t.route@,
                    costs,
                ) && (complete(self.spec_adj()) ==> greedy(self.spec_adj(), t.route@, costs)),
            complete(self.spec_adj()) ==> r is Some,
    {
        nearest_neighbor(self, start)
    }

    /// `nearest_neighbor` from the first node.
    fn nearest_neighbor_from_first(&self) -> (r: Option<Tour<i64>>)
        where
            Self::Weight: EdgeCost + Copy,
        requires
            self.spec_wf(),
            adj_wf(self.spec_adj()),
            costs_nonneg(self.spec_adj()),
            total_edges(self.spec_adj()) + 1 < PQ_LIMIT,
        ensures
            self.spec_nodes().len() == 0 ==> r is None,
            r matches Some(t) ==> exists|costs: Seq<i64>|
                is_tour(self.spec_adj(), 0, t.route@, costs) && t.weight == sum_costs(costs) && greedy_but_one(
                    self.spec_adj(),
                    t.route@,
                    costs,
                ) && (complete(self.spec_adj()) ==> greedy(self.spec_adj(), t.route@, costs)),
            self.spec_nodes().len() > 0 && complete(self.spec_adj()) ==> r is Some,
    {
        nearest_neighbor_from_first(self)
    }

    /// A round trip along a doubled spanning tree: see `double_tree`.
    fn double_tree<'a>(&'a self) -> (r: Option<Tour<i64>>)
        where
            Self::Weight: EdgeCost + Copy,
        requires
            self.spec_wf(),
            adj_wf(self.spec_adj()),
            costs_nonneg(self.spec_adj()),
            0 < self.spec_nodes().len() <= u32::MAX,
            total_edges(self.spec_adj()) + 1 < PQ_LIMIT,
        ensures
            exists|t: Tree<'a, Self>, route: Seq<NodeId>|
                #![trigger kruskal_tree(self, t), search_order(t.spec_adj(), no_marks(self.spec_nodes().len()), t.spec_root().0 as int, route)]
                kruskal_tree(self, t) && search_order(t.spec_adj(), no_marks(self.spec_nodes().len()), t.spec_root().0 as int, route)
                && depth_first(t.spec_adj(), route) && match r {
                    Some(tour) => tour.route@ == route && exists|costs: Seq<i64>|
                        hop_costs(self.spec_adj(), route, costs) && tour.weight == sum_costs(costs),
                    None => exists|k: int|
                        0 <= k < route.len() - 1 && edge_weight(self.spec_adj(), route[k].0, route[k + 1].0) is None
                            && !walk_exists(self.spec_adj(), #[trigger] route[k].0 as int, route[k + 1].0 as int),
                } && (undirected_adj(self.spec_adj()) && connected(self.spec_adj()) ==> forall|v: int|
                    0 <= v < self.spec_nodes().len() ==> #[trigger] visits(route, v)),
    {
        double_tree(self)
    }

    /// A cheapest round trip by branch and bound: see `branch_bound`.
    fn branch_bound(&self) -> (r: Option<Tour<i64>>)
        where
            Self::Weight: EdgeCost + Copy,
        requires
            self.spec_wf(),
            adj_wf(self.spec_adj()),
            costs_nonneg(self.spec_adj()),
            total_edges(self.spec_adj()) + 1 < PQ_LIMIT,
        ensures
            r is None <==> self.spec_nodes().len() == 0,
            r matches Some(t) ==> forall|h: Seq<(int, int)>, d: i64|
                #![trigger ham_walk(self.spec_adj(), 0, h), trip_cost(self.spec_adj(), h, d)]
                ham_walk(self.spec_adj(), 0, h) && h.len() >= 1 && least_cost(self.spec_adj(), walk_end(self.spec_adj(), 0, h), 0, d)
                    ==> t.weight <= trip_cost(self.spec_adj(), h, d),
            r matches Some(t) ==> (t.route@.len() > 0 ==> exists|h: Seq<(int, int)>, d: i64|
                {
                    &&& ham_walk(self.spec_adj(), 0, h)
                    &&& least_cost(self.spec_adj(), walk_end(self.spec_adj(), 0, h), 0, d)
                    &&& t.weight == trip_cost(self.spec_adj(), h, d)
                    &&& t.route@.len() == h.len() + 1
                    &&& forall|i: int| 0 <= i < t.route@.len() ==> (#[trigger] t.route@[i]).0 == walk_node(self.spec_adj(), 0, h, i)
                }),
    {
        branch_bound(self)
    }

    /// Branch and bound, searching recursively: see `branch_bound_rec`.
    fn branch_bound_rec(&self) -> (r: Option<Tour<i64>>)
        where
            Self::Weight: EdgeCost + Copy,
        requires
            self.spec_wf(),
            adj_wf(self.spec_adj()),
            costs_nonneg(self.spec_adj()),
            total_edges(self.spec_adj()) + 1 < PQ_LIMIT,
        ensures
            r is None <==> self.spec_nodes().len() == 0,
            r matches Some(t) ==> {
                &&& t.route@ == seq![NodeId(0)]
                &&& (t.weight == i64::MAX || rec_found(self.spec_adj(), 0, t.weight, Seq::empty()) || exists|
                    costs: Seq<i64>,
                    tour: Seq<NodeId>,
                | is_tour(self.spec_adj(), 0, tour, costs) && t.weight == sum_costs(costs))
                &&& forall|h: Seq<(int, int)>, d: i64|
                    #![trigger rec_walk(self.spec_adj(), 0, h), trip_cost(self.spec_adj(), h, d)]
                    rec_walk(self.spec_adj(), 0, h) && least_cost(self.spec_adj(), walk_end(self.spec_adj(), 0, h), 0, d)
                        ==> t.weight <= trip_cost(self.spec_adj(), h, d)
            },
    {
        branch_bound_rec(self)
    }

    /// A cheapest round trip over every order of the nodes: see `brute_force`.
    fn brute_force(&self) -> (r: Option<(Route, i64)>)
        where
            Self::Weight: EdgeCost,
        requires
            self.spec_wf(),
            self.spec_nodes().len() >= 1,
        ensures
            match r {
                Some((route, c)) => exists|p: Seq<NodeId>|
                    {
                        &&& p.to_multiset() == all_nodes(self.spec_nodes().len()).to_multiset()
                        &&& route@ == closed(p)
                        &&& all_hops(self.spec_adj(), closed(p))
                        &&& c == route_cost(self.spec_adj(), closed(p))
                        &&& c < i64::MAX
                        &&& exists|j: int|
                            0 <= j < node_permutations(all_nodes(self.spec_nodes().len())).len() && #[trigger] node_permutations(
                                all_nodes(self.spec_nodes().len()),
                            )[j] == p && forall|k: int|
                                0 <= k < j && all_hops(self.spec_adj(), closed(node_permutations(all_nodes(self.spec_nodes().len()))[k]))
                                    ==> c < route_cost(
                                    self.spec_adj(),
                                    #[trigger] closed(node_permutations(all_nodes(self.spec_nodes().len()))[k]),
                                )
                        &&& forall|q: Seq<NodeId>|
                            q.to_multiset() == all_nodes(self.spec_nodes().len()).to_multiset() && all_hops(
                                self.spec_adj(),
                                #[trigger] closed(q),
                            ) ==> c <= route_cost(self.spec_adj(), closed(q))
                    },
                None => forall|q: Seq<NodeId>|
                    q.to_multiset() == all_nodes(self.spec_nodes().len()).to_multiset() && all_hops(
                        self.spec_adj(),
                        #[trigger] closed(q),
                    ) ==> route_cost(self.spec_adj(), closed(q)) == i64::MAX,
            },
    {
        brute_force(self)
    }
}

/// A graph without weights, searched as a method.
pub trait WeightlessGraph: Base + Count + Index + IndexAdjacent + Sized {
    /// The components of the graph, each a depth-first tree: see `dfs_scc`.
    fn dfs_scc<'a>(&'a self) -> (r: Vec<Tree<'a, Self>>)
        requires
            self.spec_wf(),
            adj_wf(self.spec_adj()),
        ensures
            tree_components(r@, self.spec_adj(), self.spec_nodes().len() as int),
            forall|i: int| 0 <= i < r@.len() ==> *(#[trigger] r@[i]).spec_graph() == *self,
    {
        dfs_scc(self)
    }

    /// The components of the graph, each a breadth-first tree: see `bfs_scc`.
    fn bfs_scc<'a>(&'a self) -> (r: Vec<Tree<'a, Self>>)
        requires
            self.spec_wf(),
            adj_wf(self.spec_adj()),
        ensures
            tree_components(r@, self.spec_adj(), self.spec_nodes().len() as int),
            forall|i: int| 0 <= i < r@.len() ==> *(#[trigger] r@[i]).spec_graph() == *self,
    {
        bfs_scc(self)
    }

    /// The depth-first tree from a node: see `dfs`.
    fn dfs<'a>(&'a self, from: NodeId) -> (r: Tree<'a, Self>)
        requires
            self.spec_wf(),
            adj_wf(self.spec_adj()),
            from.0 < self.spec_nodes().len(),
        ensures
            search_tree(r, self.spec_adj(), no_marks(self.spec_nodes().len()), from.0 as int),
            *r.spec_graph() == *self,
            exists|order: Seq<NodeId>|
                #[trigger] search_order(self.spec_adj(), no_marks(self.spec_nodes().len()), from.0 as int, order) && dfs_tree_of(
                    r,
                    self.spec_adj(),
                    order,
                ),
    {
        dfs(self, from)
    }

    /// The breadth-first tree from a node: see `bfs`.
    fn bfs<'a>(&'a self, from: NodeId) -> (r: Tree<'a, Self>)
        requires
            self.spec_wf(),
            adj_wf(self.spec_adj()),
            from.0 < self.spec_nodes().len(),
        ensures
            search_tree(r, self.spec_adj(), no_marks(self.spec_nodes().len()), from.0 as int),
            *r.spec_graph() == *self,
            exists|order: Seq<NodeId>|
                #[trigger] search_order(self.spec_adj(), no_marks(self.spec_nodes().len()), from.0 as int, order) && bfs_tree_of(
                    r,
                    self.spec_adj(),
                    order,
                ),
    {
        bfs(self, from)
    }
}

impl<N, W: Copy, const DI: bool> Graph for AdjacencyList<N, W, DI> {
}

impl<N, W: Copy, const DI: bool> Graph for AdjacencyMatrix<N, W, DI> {
}

impl<N, const DI: bool> WeightlessGraph for AdjacencyList<N, (), DI> {
}

impl<N, const DI: bool> WeightlessGraph for AdjacencyMatrix<N, (), DI> {
}

} // verus!
