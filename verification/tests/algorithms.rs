use grph::algorithms::bfs::bfs_iter;
use grph::algorithms::dfs::dfs_iter;
use grph::algorithms::bellman_ford::{bellman_ford, bellman_ford_between, bellman_ford_cycle, Either};
use grph::algorithms::branch_bound::{_branch_bound, branch_bound, branch_bound_rec};
use grph::algorithms::brute_force::brute_force;
use grph::algorithms::cycle_canceling::cycle_canceling;
use grph::error::GraphError;
use grph::algorithms::dijkstra::{dijkstra, dijkstra_between};
use grph::algorithms::double_tree::double_tree;
use grph::algorithms::edmonds_karp::edmonds_karp;
use grph::algorithms::ford_fulkerson::{_edmonds_karp, _ford_fulkerson, bfs_sp, dfs_sp};
use grph::algorithms::iter_edges::{bfs_iter_edges, dfs_iter_edges};
use grph::algorithms::kruskal::{cost_edges, kruskal};
use grph::algorithms::mcf::{cost_mul, ssp, Mcf};
use grph::algorithms::nearest_neighbor::{nearest_neighbor, nearest_neighbor_from_first};
use grph::algorithms::prim::prim;
use grph::algorithms::search::{bfs_connected_components, dfs_connected_components};
use grph::graph::index::{EdgeId, NodeId};
use grph::graph::{Graph, WeightlessGraph};
use grph::graph::node::BalancedNode;
use grph::graph::traits::{Count, Create, Get, IndexAdjacent, Insert};
use grph::graph::weight::{cost_add, FlowWeight};
use grph::graph_impl::adjacency_list::AdjacencyList;
use grph::graph_impl::residual_graph::ResidualGraph;

fn undirected(n: usize, edges: &[(usize, usize, i64)]) -> AdjacencyList<(), i64, false> {
    let mut g: AdjacencyList<(), i64, false> = AdjacencyList::with_nodes(vec![(); n]);
    for &(a, b, w) in edges {
        g.insert_edge(NodeId(a), NodeId(b), w);
        g.insert_edge(NodeId(b), NodeId(a), w);
    }
    g
}

fn directed(n: usize, edges: &[(usize, usize, i64)]) -> AdjacencyList<(), i64, true> {
    let mut g: AdjacencyList<(), i64, true> = AdjacencyList::with_nodes(vec![(); n]);
    for &(a, b, w) in edges {
        g.insert_edge(NodeId(a), NodeId(b), w);
    }
    g
}

/// A complete graph on four nodes whose cheapest round trip is 0-1-2-3-0 at cost 4.
fn square() -> AdjacencyList<(), i64, false> {
    undirected(
        4,
        &[(0, 1, 1), (1, 2, 1), (2, 3, 1), (3, 0, 1), (0, 2, 5), (1, 3, 5)],
    )
}

#[test]
fn nearest_neighbor_follows_cheapest_edges() {
    let g = square();
    let t = nearest_neighbor(&g, NodeId(0)).unwrap();
    assert_eq!(t.route, vec![NodeId(0), NodeId(1), NodeId(2), NodeId(3), NodeId(0)]);
    assert_eq!(t.weight, 4);
}

#[test]
fn nearest_neighbor_from_first_on_empty_graph() {
    let g = undirected(0, &[]);
    assert!(nearest_neighbor_from_first(&g).is_none());
}

#[test]
fn nearest_neighbor_single_node() {
    let g = undirected(1, &[]);
    let t = nearest_neighbor_from_first(&g).unwrap();
    assert_eq!(t.route, vec![NodeId(0), NodeId(0)]);
    assert_eq!(t.weight, 0);
}

#[test]
fn nearest_neighbor_stuck_path_gives_up() {
    // a star: from the centre no round trip through all leaves exists
    let g = undirected(4, &[(0, 1, 1), (0, 2, 1), (0, 3, 1)]);
    assert!(nearest_neighbor(&g, NodeId(0)).is_none());
}

#[test]
fn nearest_neighbor_goes_back_by_a_walk() {
    // a path 0-1-2: the way back from 2 to 0 is a walk of cost 3
    let g = undirected(3, &[(0, 1, 1), (1, 2, 2)]);
    let t = nearest_neighbor(&g, NodeId(0)).unwrap();
    assert_eq!(t.route, vec![NodeId(0), NodeId(1), NodeId(2), NodeId(0)]);
    assert_eq!(t.weight, 6);
}

#[test]
fn branch_bound_finds_the_optimum() {
    let g = square();
    let t = branch_bound(&g).unwrap();
    assert_eq!(t.weight, 4);
    let t = _branch_bound(&g, NodeId(0));
    assert_eq!(t.weight, 4);
}

#[test]
fn branch_bound_beats_greedy() {
    // greedy from 0 takes 0-1 (1), 1-2 (1), then 2-3 (10), back 3-0 (1): 13;
    // 0-1-3-2-0 costs 1 + 2 + 10 + 1 = 14, 0-2-1-3-0 costs 1 + 1 + 2 + 1 = 5
    let g = undirected(
        4,
        &[(0, 1, 1), (1, 2, 1), (2, 3, 10), (3, 0, 1), (0, 2, 1), (1, 3, 2)],
    );
    let nn = nearest_neighbor(&g, NodeId(0)).unwrap();
    let bb = _branch_bound(&g, NodeId(0));
    assert!(bb.weight <= nn.weight);
    assert_eq!(bb.weight, 5);
    assert_eq!(bb.route, vec![NodeId(0), NodeId(2), NodeId(1), NodeId(3)]);
    let rec = branch_bound_rec(&g).unwrap();
    assert_eq!(rec.weight, 5);
    assert_eq!(rec.route, vec![NodeId(0)]);
}

#[test]
fn branch_bound_on_empty_graph() {
    let g = undirected(0, &[]);
    assert!(branch_bound(&g).is_none());
    assert!(branch_bound_rec(&g).is_none());
}

#[test]
fn brute_force_finds_the_optimum() {
    let g = undirected(
        4,
        &[(0, 1, 1), (1, 2, 1), (2, 3, 10), (3, 0, 1), (0, 2, 1), (1, 3, 2)],
    );
    let (route, cost) = brute_force(&g).unwrap();
    assert_eq!(cost, 5);
    assert_eq!(route.count(), 5);
    assert_eq!(route.first(), route.last());
}

#[test]
fn brute_force_without_round_trip() {
    let g = undirected(3, &[(0, 1, 1), (1, 2, 1)]);
    assert!(brute_force(&g).is_none());
}

#[test]
fn double_tree_tour_of_square() {
    let g = square();
    let t = double_tree(&g).unwrap();
    assert_eq!(t.route.len(), 4);
    assert_eq!(t.route[0], NodeId(0));
    let mut sorted = t.route.clone();
    sorted.sort();
    assert_eq!(sorted, vec![NodeId(0), NodeId(1), NodeId(2), NodeId(3)]);
}

#[test]
fn double_tree_costs_missing_hops_by_walks() {
    // a path: the tree is the path itself and every hop is an edge
    let g = undirected(3, &[(0, 1, 2), (1, 2, 3)]);
    let t = double_tree(&g).unwrap();
    assert_eq!(t.route.len(), 3);
    assert_eq!(t.weight, 5);
}

#[test]
fn dijkstra_and_bellman_ford_agree() {
    let g = directed(4, &[(0, 1, 4), (0, 2, 1), (2, 1, 2), (1, 3, 1), (2, 3, 5)]);
    assert_eq!(dijkstra_between(&g, NodeId(0), NodeId(3)), Some(4));
    assert_eq!(bellman_ford_between(&g, NodeId(0), NodeId(3)), Some(4));
    let d = dijkstra(&g, NodeId(0), NodeId(3));
    assert_eq!(d.to(NodeId(1)), Some(&3));
    let b = bellman_ford(&g, NodeId(0)).unwrap();
    assert_eq!(b.to(NodeId(1)), Some(&3));
    assert_eq!(b.to(NodeId(3)), Some(&4));
}

#[test]
fn dijkstra_unreachable() {
    let g = directed(3, &[(0, 1, 1)]);
    assert_eq!(dijkstra_between(&g, NodeId(0), NodeId(2)), None);
    assert_eq!(bellman_ford_between(&g, NodeId(0), NodeId(2)), None);
}

#[test]
fn bellman_ford_negative_cycle() {
    let g = directed(3, &[(0, 1, 1), (1, 2, -3), (2, 1, 1)]);
    assert!(bellman_ford(&g, NodeId(0)).is_none());
    match bellman_ford_cycle(&g, NodeId(0)) {
        Either::Right(route) => assert!(route.count() >= 2),
        Either::Left(_) => panic!("a negative cycle was expected"),
    }
}

#[test]
fn spanning_tree_costs() {
    let g = square();
    assert_eq!(prim(&g), 3);
    let (_, cost) = kruskal(&g);
    assert_eq!(cost, 3);
}

#[test]
fn components_agree() {
    let g = undirected(5, &[(0, 1, 1), (2, 3, 1)]);
    assert_eq!(dfs_connected_components(&g).count(), 3);
    assert_eq!(bfs_connected_components(&g).count(), 3);
}

#[test]
fn iter_edges_walk_greedily() {
    let g = undirected(4, &[(0, 1, 1), (0, 2, 1), (1, 3, 1)]);
    let d = dfs_iter_edges(&g, NodeId(0));
    let b = bfs_iter_edges(&g, NodeId(0));
    assert_eq!(
        d,
        vec![
            EdgeId { from: NodeId(0), to: NodeId(1) },
            EdgeId { from: NodeId(1), to: NodeId(3) }
        ]
    );
    assert_eq!(d, b);
}

/// The network of the flow tests: two paths from 0 to 3, of capacities 2 and 3, and a link
/// between them.
fn network() -> AdjacencyList<(), i64, true> {
    directed(4, &[(0, 1, 2), (0, 2, 3), (1, 3, 3), (2, 3, 2), (2, 1, 1)])
}

#[test]
fn edmonds_karp_max_flow() {
    let g = network();
    assert_eq!(edmonds_karp(&g, NodeId(0), NodeId(3)), 5);
}

#[test]
fn edmonds_karp_no_path() {
    let g = directed(3, &[(0, 1, 4)]);
    assert_eq!(edmonds_karp(&g, NodeId(0), NodeId(2)), 0);
}

fn flow_network() -> AdjacencyList<(), FlowWeight<i64>, true> {
    let mut g: AdjacencyList<(), FlowWeight<i64>, true> = AdjacencyList::with_nodes(vec![(); 3]);
    g.insert_edge(NodeId(0), NodeId(1), FlowWeight::new(4, 1, 0));
    g.insert_edge(NodeId(1), NodeId(0), FlowWeight::rev(4, -1, 4));
    g.insert_edge(NodeId(1), NodeId(2), FlowWeight::new(2, 1, 0));
    g.insert_edge(NodeId(2), NodeId(1), FlowWeight::rev(2, -1, 2));
    g
}

#[test]
fn ford_fulkerson_with_depth_first_paths() {
    let mut g = flow_network();
    let total = _ford_fulkerson(&mut g, NodeId(0), NodeId(2), |g, s, t| {
        dfs_sp(g, s, t, |w: &FlowWeight<i64>| w.capacity > w.flow)
    });
    assert_eq!(total, 2);
    let mut h = flow_network();
    assert_eq!(_edmonds_karp(&mut h, NodeId(0), NodeId(2)), 2);
}

#[test]
fn path_finders_give_up_when_the_open_edges_do_not_reach() {
    // 0 -> 1 -> 2 exists, but the edge 1 -> 2 is full
    let mut g: AdjacencyList<(), FlowWeight<i64>, true> = AdjacencyList::with_nodes(vec![(); 3]);
    g.insert_edge(NodeId(0), NodeId(1), FlowWeight::new(3, 1, 0));
    g.insert_edge(NodeId(1), NodeId(2), FlowWeight::new(2, 1, 2));
    assert!(bfs_sp(&g, NodeId(0), NodeId(2), |w: &FlowWeight<i64>| w.capacity > w.flow).is_none());
    assert!(dfs_sp(&g, NodeId(0), NodeId(2), |w: &FlowWeight<i64>| w.capacity > w.flow).is_none());
    assert!(bfs_sp(&g, NodeId(0), NodeId(2), |_w: &FlowWeight<i64>| true).is_some());
}

#[test]
fn path_finders_follow_open_edges() {
    let g = flow_network();
    let p = bfs_sp(&g, NodeId(0), NodeId(2), |w: &FlowWeight<i64>| w.capacity > w.flow).unwrap();
    assert_eq!(p.parent(NodeId(2)), Some(NodeId(1)));
    assert_eq!(p.parent(NodeId(1)), Some(NodeId(0)));
    assert!(dfs_sp(&g, NodeId(2), NodeId(0), |w: &FlowWeight<i64>| w.capacity > w.flow).is_none());
}

#[test]
fn residual_graph_edmonds_karp() {
    let g = network();
    let mut r = ResidualGraph::from(&g);
    assert_eq!(r.graph.node_count(), 4);
    assert_eq!(r.edmonds_karp(NodeId(0), NodeId(3)), 5);
}

#[test]
fn residual_graph_from_capacities() {
    // parallel edges 0 -> 1: the last one sets the capacity; 1 -> 0 only comes back empty
    let g = directed(3, &[(0, 1, 4), (0, 1, 6), (1, 2, 2), (2, 1, 5)]);
    let r = ResidualGraph::from(&g);
    let cap = |a: usize, b: usize| r.capacity.weight(EdgeId { from: NodeId(a), to: NodeId(b) }).copied();
    assert_eq!(cap(0, 1), Some(6));
    assert_eq!(cap(1, 0), Some(0));
    assert_eq!(cap(1, 2), Some(2));
    assert_eq!(cap(2, 1), Some(5));
    assert_eq!(cap(0, 2), None);
    let w = |a: usize, b: usize| r.graph.weight(EdgeId { from: NodeId(a), to: NodeId(b) }).copied();
    assert_eq!(w(0, 1), Some(4));
    assert_eq!(w(1, 0), Some(4));
    assert_eq!(w(2, 0), None);
}

fn balanced() -> AdjacencyList<BalancedNode<u32, i64>, FlowWeight<i64>, true> {
    let mut g: AdjacencyList<BalancedNode<u32, i64>, FlowWeight<i64>, true> = AdjacencyList::with_nodes(vec![
        BalancedNode::new(0, 2),
        BalancedNode::new(1, 0),
        BalancedNode::new(2, -2),
    ]);
    g.insert_edge(NodeId(0), NodeId(1), FlowWeight::new(2, 3, 0));
    g.insert_edge(NodeId(1), NodeId(2), FlowWeight::new(2, 1, 0));
    g.insert_edge(NodeId(0), NodeId(2), FlowWeight::new(1, 10, 0));
    g
}

#[test]
fn mcf_network_and_solvability() {
    let g = balanced();
    let mut mcf = Mcf::init(&g);
    assert_eq!(mcf.source, NodeId(3));
    assert_eq!(mcf.sink, NodeId(4));
    assert_eq!(mcf.residual_graph.node_count(), 5);
    assert!(mcf.solvable());
}

#[test]
fn mcf_unsolvable_when_demand_cannot_be_met() {
    let mut g: AdjacencyList<BalancedNode<u32, i64>, FlowWeight<i64>, true> =
        AdjacencyList::with_nodes(vec![BalancedNode::new(0, 3), BalancedNode::new(1, -3)]);
    g.insert_edge(NodeId(0), NodeId(1), FlowWeight::new(1, 1, 0));
    let mut mcf = Mcf::init(&g);
    assert!(!mcf.solvable());
}

#[test]
fn ssp_cost_of_the_flow() {
    // the search takes the path with fewest edges first: one unit over 0 -> 2 (cost 10),
    // then one unit over 0 -> 1 -> 2 (cost 3 + 1)
    let g = balanced();
    let cost = ssp(&g);
    assert_eq!(cost, Ok(14));
}

#[test]
fn ssp_refuses_an_unsolvable_network() {
    let mut g: AdjacencyList<BalancedNode<u32, i64>, FlowWeight<i64>, true> =
        AdjacencyList::with_nodes(vec![BalancedNode::new(0, 3), BalancedNode::new(1, -3)]);
    g.insert_edge(NodeId(0), NodeId(1), FlowWeight::new(1, 1, 0));
    assert_eq!(ssp(&g), Err(GraphError::McfNotSolvable));
}

#[test]
fn saturating_arithmetic() {
    assert_eq!(cost_mul(3, 4), 12);
    assert_eq!(cost_mul(i64::MAX, 2), i64::MAX);
    assert_eq!(cost_mul(i64::MIN, 2), i64::MIN);
    assert_eq!(cost_add(i64::MAX, 1), i64::MAX);
    assert_eq!(cost_add(-5, 7), 2);
}

#[test]
fn cycle_canceling_reaches_the_cheapest_flow() {
    // the largest flow first sends one unit over 0 -> 2 (cost 10); cancelling the cycle
    // 0 -> 1 -> 2 -> 0 moves it onto 0 -> 1 -> 2, so both units cost 3 + 1 each
    let g = balanced();
    assert_eq!(cycle_canceling(&g), Ok(8));
}

#[test]
fn cycle_canceling_refuses_an_unsolvable_network() {
    let mut g: AdjacencyList<BalancedNode<u32, i64>, FlowWeight<i64>, true> =
        AdjacencyList::with_nodes(vec![BalancedNode::new(0, 3), BalancedNode::new(1, -3)]);
    g.insert_edge(NodeId(0), NodeId(1), FlowWeight::new(1, 1, 0));
    assert_eq!(cycle_canceling(&g), Err(GraphError::McfNotSolvable));
}

#[test]
fn error_messages() {
    assert_eq!(GraphError::NoCycle.message(), "Not all nodes have been visited");
    assert_eq!(GraphError::McfNotSolvable.message(), "Minimal cost flow not solvable");
    assert_eq!(GraphError::BadEdgeListFormat.message(), "The given edge list has a bad format");
}

#[test]
fn bellman_ford_cycle_reports_edges_with_room() {
    // 0 -> 1 -> 2 -> 1 where 1 -> 2 -> 1 costs -2 in total
    let mut g: AdjacencyList<(), FlowWeight<i64>, true> = AdjacencyList::with_nodes(vec![(); 3]);
    g.insert_edge(NodeId(0), NodeId(1), FlowWeight::new(5, 1, 0));
    g.insert_edge(NodeId(1), NodeId(2), FlowWeight::new(5, 1, 0));
    g.insert_edge(NodeId(2), NodeId(1), FlowWeight::new(5, -3, 0));
    match bellman_ford_cycle(&g, NodeId(0)) {
        Either::Right(route) => {
            let nodes = route.node_ids().clone();
            assert_eq!(nodes.len(), 2);
            assert!(nodes.contains(&NodeId(1)) && nodes.contains(&NodeId(2)));
        }
        Either::Left(_) => panic!("a negative cycle is reachable"),
    }
}

#[test]
fn graph_methods_run_the_algorithms() {
    let g = square();
    assert_eq!(Graph::prim(&g), 3);
    assert_eq!(g.kruskal_weight(), 3);
    assert_eq!(g.bellman_ford_between(NodeId(0), NodeId(2)), Some(2));
    assert_eq!(g.dijkstra(NodeId(0), NodeId(2)).to(NodeId(2)), Some(&2));
    assert_eq!(g.branch_bound().map(|t| t.weight), Some(4));
    assert_eq!(Graph::dfs_scc(&g).len(), 1);
    let plain: AdjacencyList<(), (), false> = AdjacencyList::with_nodes(vec![(); 3]);
    assert_eq!(WeightlessGraph::bfs_scc(&plain).len(), 3);
}

#[test]
fn cost_edges_lists_every_edge_in_order() {
    let g = directed(3, &[(2, 0, 7), (0, 1, 4), (0, 2, 5)]);
    assert_eq!(
        cost_edges(&g),
        vec![(4, NodeId(0), NodeId(1)), (5, NodeId(0), NodeId(2)), (7, NodeId(2), NodeId(0))]
    );
}

#[test]
fn nearest_neighbor_on_complete_four_nodes() {
    let g = undirected(4, &[(0, 1, 1), (0, 2, 2), (0, 3, 10), (1, 2, 3), (1, 3, 4), (2, 3, 5)]);
    let t = nearest_neighbor(&g, NodeId(0)).unwrap();
    assert_eq!(t.route, vec![NodeId(0), NodeId(1), NodeId(2), NodeId(3), NodeId(0)]);
    // legs 1 + 3 + 5, then the cheapest walk 3 -> 1 -> 0 of cost 5
    assert_eq!(t.weight, 14);
    let f = nearest_neighbor_from_first(&g).unwrap();
    assert_eq!(f.route, t.route);
    assert_eq!(f.weight, t.weight);
}

#[test]
fn bellman_ford_settles_when_cheapest_walks_are_short() {
    let g = directed(3, &[(0, 1, 1), (1, 2, 1)]);
    let d = bellman_ford(&g, NodeId(0)).unwrap();
    assert_eq!(d.to(NodeId(2)), Some(&2));
    assert_eq!(bellman_ford_between(&g, NodeId(0), NodeId(2)), Some(2));
}

#[test]
fn bellman_ford_path_against_the_node_order() {
    // The passes visit the nodes in order, so the walk 2 -> 1 -> 0 takes every pass there is;
    // the check after the last pass finds nothing left to lower.
    let g = directed(3, &[(2, 1, 1), (1, 0, 1)]);
    let d = bellman_ford(&g, NodeId(2)).unwrap();
    assert_eq!(d.distances, vec![Some(2), Some(1), Some(0)]);
    assert_eq!(bellman_ford_between(&g, NodeId(2), NodeId(0)), Some(2));
}

#[test]
fn spanning_trees_skip_the_dear_edge() {
    // the edge 0 - 1 of cost 5 closes a cycle of cheaper edges and stays out of both trees
    let g = undirected(3, &[(0, 1, 5), (1, 2, 1), (0, 2, 2)]);
    assert_eq!(prim(&g), 3);
    let (tree, cost) = kruskal(&g);
    assert_eq!(cost, 3);
    assert_eq!(tree.edge_count(), 4);
}

#[test]
fn dfs_iter_goes_deep_before_wide() {
    let g = directed(5, &[(0, 1, 1), (0, 2, 1), (1, 3, 1), (2, 4, 1)]);
    let d = dfs_iter(&g, NodeId(0));
    assert_eq!(d, vec![NodeId(0), NodeId(2), NodeId(4), NodeId(1), NodeId(3)]);
    let b = bfs_iter(&g, NodeId(0));
    assert_eq!(b, vec![NodeId(0), NodeId(1), NodeId(2), NodeId(3), NodeId(4)]);
}

#[test]
fn bellman_ford_between_agrees_with_distances() {
    let g = directed(4, &[(0, 1, 2), (1, 2, -1), (0, 2, 3), (2, 3, 4)]);
    let d = bellman_ford(&g, NodeId(0)).unwrap();
    for to in 0..4 {
        assert_eq!(bellman_ford_between(&g, NodeId(0), NodeId(to)), d.distances[to]);
    }
    assert_eq!(d.distances, vec![Some(0), Some(2), Some(1), Some(5)]);
}

#[test]
fn bellman_ford_gives_no_distances_past_a_negative_cycle() {
    let reached = directed(3, &[(0, 1, 1), (1, 2, -3), (2, 1, 1)]);
    assert!(bellman_ford(&reached, NodeId(0)).is_none());
    let apart = directed(4, &[(0, 1, 2), (2, 3, -3), (3, 2, 1)]);
    let d = bellman_ford(&apart, NodeId(0)).unwrap();
    assert_eq!(d.distances, vec![Some(0), Some(2), None, None]);
}

#[test]
fn mcf_source_and_sink_join_supply_and_demand() {
    let g = balanced();
    let mcf = Mcf::init(&g);
    let net = &mcf.residual_graph;
    assert!(net.adjacent_node_ids(mcf.source).contains(&NodeId(0)));
    assert!(!net.adjacent_node_ids(mcf.source).contains(&NodeId(1)));
    assert!(!net.adjacent_node_ids(mcf.source).contains(&NodeId(2)));
    let out = net.weight(EdgeId { from: mcf.source, to: NodeId(0) }).unwrap();
    assert_eq!(out.capacity, 2);
    assert_eq!(out.cost, 0);
    let into = net.weight(EdgeId { from: NodeId(2), to: mcf.sink }).unwrap();
    assert_eq!(into.capacity, 2);
    assert!(net.weight(EdgeId { from: NodeId(1), to: mcf.sink }).is_none());
}
