use grph::algorithms::dijkstra::dijkstra_between;
use grph::algorithms::prim::prim;
use grph::algorithms::search::bfs_connected_components;
use grph::edge_list::EdgeList;
use grph::graph::index::{EdgeId, NodeId};
use grph::graph::traits::{Clear, Contains, Count, Get, Index, IndexAdjacent, Iter, IterAdjacent, Reserve};
use grph::graph_impl::adjacency_matrix::AdjacencyMatrix;

#[test]
fn adj_mat_create_with_nodes() {
    let graph = AdjacencyMatrix::<u32, i64, true>::with_nodes(vec![7, 8, 9]);
    assert_eq!(graph.node_count(), 3);
    assert_eq!(graph.edge_count(), 0);
    assert_eq!(graph.node(NodeId(1)), Some(&8));
    assert_eq!(graph.node(NodeId(3)), None);
}

#[test]
fn adj_mat_create_with_capacity() {
    let graph = AdjacencyMatrix::<u32, i64, true>::with_capacity(10, 20);
    assert_eq!(graph.node_count(), 0);
    assert_eq!(graph.edge_count(), 0);
    assert!(graph.nodes_empty());
    assert!(graph.edges_empty());
}

#[test]
fn adj_mat_insert_and_contains() {
    let mut graph = AdjacencyMatrix::<u32, i64, true>::with_capacity(2, 1);
    let a = graph.insert_node(1);
    let b = graph.insert_node(2);
    let e = graph.insert_edge(a, b, 5);
    assert_eq!(graph.contains_node(&2), Some(b));
    assert_eq!(graph.contains_node(&3), None);
    assert_eq!(graph.contains_edge(a, b), Some(e));
    assert_eq!(graph.contains_edge(b, a), None);
    assert_eq!(graph.edge_count(), 1);
}

#[test]
fn adj_mat_clear() {
    let mut graph = AdjacencyMatrix::<u32, i64, true>::with_nodes(vec![1, 2, 3]);
    graph.insert_edge(NodeId(0), NodeId(1), 1);
    graph.insert_edge(NodeId(1), NodeId(2), 1);
    graph.clear_edges();
    assert_eq!(graph.node_count(), 3);
    assert_eq!(graph.edge_count(), 0);
    graph.clear();
    assert_eq!(graph.node_count(), 0);
}

#[test]
fn adj_mat_get() {
    let mut graph = AdjacencyMatrix::<u32, i64, true>::with_nodes(vec![4, 5]);
    let e = graph.insert_edge(NodeId(0), NodeId(1), 9);
    graph.insert_edge(NodeId(0), NodeId(1), 3);
    assert_eq!(graph.node(NodeId(0)), Some(&4));
    assert_eq!(graph.weight(e), Some(&9));
    assert_eq!(graph.weight(EdgeId { from: NodeId(1), to: NodeId(0) }), None);
    assert!(graph.contains_node_id(NodeId(1)));
    assert!(!graph.contains_node_id(NodeId(2)));
    assert!(graph.contains_edge_id(e));
}

#[test]
fn adj_mat_index() {
    let mut graph = AdjacencyMatrix::<u32, i64, true>::with_nodes(vec![4, 5, 6]);
    graph.insert_edge(NodeId(2), NodeId(0), 1);
    graph.insert_edge(NodeId(0), NodeId(1), 1);
    assert_eq!(graph.node_ids(), vec![NodeId(0), NodeId(1), NodeId(2)]);
    let edges = graph.edge_ids();
    assert_eq!(edges.len(), 2);
    assert_eq!((edges[0].from, edges[0].to), (NodeId(2), NodeId(0)));
    assert_eq!((edges[1].from, edges[1].to), (NodeId(0), NodeId(1)));
}

#[test]
fn adj_mat_index_adjacent() {
    let mut graph = AdjacencyMatrix::<u32, i64, false>::with_nodes(vec![4, 5, 6]);
    graph.insert_edge(NodeId(0), NodeId(1), 1);
    graph.insert_edge(NodeId(0), NodeId(2), 2);
    graph.insert_edge(NodeId(1), NodeId(2), 3);
    assert_eq!(graph.adjacent_node_ids(NodeId(0)), vec![NodeId(1), NodeId(2)]);
    assert_eq!(graph.adjacent_node_ids(NodeId(2)), vec![]);
    let edges = graph.adjacent_edge_ids(NodeId(1));
    assert_eq!(edges.len(), 1);
    assert_eq!(edges[0].to, NodeId(2));
    let weighted = graph.iter_adjacent_edges(NodeId(0));
    assert_eq!(weighted.len(), 2);
    assert_eq!(weighted[1].weight, 2);
}

#[test]
fn adj_mat_from_edge_list_both_directions() {
    let list: EdgeList<usize, i64, false> = EdgeList::with(vec![(0, 1, 4), (1, 2, 6)], 3);
    let graph = AdjacencyMatrix::from_edge_list(list);
    assert_eq!(graph.edge_count(), 4);
    assert_eq!(graph.weight(EdgeId { from: NodeId(1), to: NodeId(0) }), Some(&4));
    assert_eq!(graph.weight(EdgeId { from: NodeId(2), to: NodeId(1) }), Some(&6));
    assert_eq!(graph.adjacent_node_ids(NodeId(1)), vec![NodeId(0), NodeId(2)]);
}

#[test]
fn adj_mat_runs_the_algorithms() {
    // a square 0 - 1 - 2 - 3 - 0 with one heavy side
    let list: EdgeList<usize, i64, false> =
        EdgeList::with(vec![(0, 1, 1), (1, 2, 1), (2, 3, 1), (3, 0, 5)], 4);
    let graph = AdjacencyMatrix::from_edge_list(list);
    assert_eq!(prim(&graph), 3);
    assert_eq!(dijkstra_between(&graph, NodeId(0), NodeId(3)), Some(3));
    assert_eq!(bfs_connected_components(&graph).count(), 1);
}

#[test]
fn adj_mat_iterates_in_the_order_stored() {
    let mut graph = AdjacencyMatrix::<u32, i64, true>::with_nodes(vec![1, 2, 3]);
    graph.reserve_nodes(4);
    graph.insert_edge(NodeId(2), NodeId(0), 7);
    graph.insert_edge(NodeId(0), NodeId(1), 4);
    assert_eq!(graph.iter_nodes(), vec![&1, &2, &3]);
    let flat: Vec<(usize, usize, i64)> =
        graph.iter_edges().iter().map(|e| (e.edge_id.from.0, e.edge_id.to.0, e.weight)).collect();
    assert_eq!(flat, vec![(2, 0, 7), (0, 1, 4)]);
}
