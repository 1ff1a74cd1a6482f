use grph::graph::index::{EdgeId, NodeId};
use grph::graph::traits::{Clear, Contains, Count, Create, Extend, Get, GetMut, Index, IndexAdjacent, Insert, Iter, Remove, Reserve};
use grph::graph_impl::adjacency_list::AdjacencyList;

#[test]
fn adj_list_create_with_nodes() {
    let graph = AdjacencyList::<u32, i64, true>::with_nodes(vec![7, 8, 9]);
    assert_eq!(graph.node_count(), 3);
    assert_eq!(graph.edge_count(), 0);
    assert_eq!(graph.node(NodeId(1)), Some(&8));
    assert_eq!(graph.node(NodeId(3)), None);
}

#[test]
fn adj_list_create_with_capacity() {
    let graph = AdjacencyList::<u32, i64, true>::with_capacity(10, 20);
    assert_eq!(graph.node_count(), 0);
    assert_eq!(graph.edge_count(), 0);
    assert!(graph.nodes_empty());
    assert!(graph.edges_empty());
}

#[test]
fn adj_list_insert_and_contains() {
    let mut graph = AdjacencyList::<u32, i64, true>::with_capacity(2, 1);
    let a = graph.insert_node(1);
    let b = graph.insert_node(2);
    let e = graph.insert_edge(a, b, 5);
    assert_eq!(graph.contains_node(&2), Some(b));
    assert_eq!(graph.contains_node(&3), None);
    assert_eq!(graph.contains_edge(a, b), Some(e));
    assert_eq!(graph.contains_edge(b, a), None);
    assert_eq!(graph.edge_count(), 1);
}

#[test]
fn adj_list_clear() {
    let mut graph = AdjacencyList::<u32, i64, true>::with_nodes(vec![1, 2, 3]);
    graph.insert_edge(NodeId(0), NodeId(1), 1);
    graph.insert_edge(NodeId(1), NodeId(2), 1);
    graph.clear_edges();
    assert_eq!(graph.node_count(), 3);
    assert_eq!(graph.edge_count(), 0);
    graph.clear();
    assert_eq!(graph.node_count(), 0);
}

#[test]
fn adj_list_get() {
    let mut graph = AdjacencyList::<u32, i64, true>::with_nodes(vec![4, 5]);
    let e = graph.insert_edge(NodeId(0), NodeId(1), 9);
    assert_eq!(graph.node(NodeId(0)), Some(&4));
    assert_eq!(graph.weight(e), Some(&9));
    assert_eq!(graph.weight(EdgeId { from: NodeId(1), to: NodeId(0) }), None);
    assert!(graph.contains_node_id(NodeId(1)));
    assert!(!graph.contains_node_id(NodeId(2)));
    assert!(graph.contains_edge_id(e));
}

#[test]
fn adj_list_index() {
    let mut graph = AdjacencyList::<u32, i64, true>::with_nodes(vec![4, 5, 6]);
    graph.insert_edge(NodeId(2), NodeId(0), 1);
    graph.insert_edge(NodeId(0), NodeId(1), 1);
    assert_eq!(graph.node_ids(), vec![NodeId(0), NodeId(1), NodeId(2)]);
    let edges = graph.edge_ids();
    assert_eq!(edges.len(), 2);
    assert_eq!((edges[0].from, edges[0].to), (NodeId(0), NodeId(1)));
    assert_eq!((edges[1].from, edges[1].to), (NodeId(2), NodeId(0)));
}

#[test]
fn adj_list_index_adjacent() {
    let mut graph = AdjacencyList::<u32, i64, false>::with_nodes(vec![4, 5, 6]);
    graph.insert_edge(NodeId(0), NodeId(1), 1);
    graph.insert_edge(NodeId(0), NodeId(2), 1);
    graph.insert_edge(NodeId(1), NodeId(2), 1);
    assert_eq!(graph.adjacent_node_ids(NodeId(0)), vec![NodeId(1), NodeId(2)]);
    assert_eq!(graph.adjacent_node_ids(NodeId(2)), vec![]);
    let edges = graph.adjacent_edge_ids(NodeId(1));
    assert_eq!(edges.len(), 1);
    assert_eq!(edges[0].to, NodeId(2));
}

#[test]
fn adj_list_extend_and_iterate() {
    let mut graph = AdjacencyList::<u32, i64, true>::with_nodes(vec![1]);
    graph.extend_nodes(vec![2, 3]);
    graph.reserve_nodes(10);
    assert_eq!(graph.iter_nodes(), vec![&1, &2, &3]);
    graph.extend_edges(vec![(NodeId(2), NodeId(0), 7), (NodeId(0), NodeId(1), 4), (NodeId(0), NodeId(2), 5)]);
    let edges = graph.iter_edges();
    let flat: Vec<(usize, usize, i64)> = edges.iter().map(|e| (e.edge_id.from.0, e.edge_id.to.0, e.weight)).collect();
    assert_eq!(flat, vec![(0, 1, 4), (0, 2, 5), (2, 0, 7)]);
}

#[test]
fn adj_list_remove_node() {
    let mut graph = AdjacencyList::<u32, i64, true>::with_nodes(vec![7, 8, 9]);
    graph.insert_edge(NodeId(0), NodeId(1), 1);
    graph.insert_edge(NodeId(1), NodeId(2), 2);
    graph.insert_edge(NodeId(2), NodeId(1), 3);
    graph.insert_edge(NodeId(2), NodeId(0), 4);
    assert_eq!(graph.remove_node(NodeId(1)), 8);
    assert_eq!(graph.node_count(), 3);
    assert_eq!(graph.node(NodeId(1)), Some(&0));
    assert_eq!(graph.node(NodeId(2)), Some(&9));
    assert_eq!(graph.adjacent_node_ids(NodeId(0)), vec![]);
    assert_eq!(graph.adjacent_node_ids(NodeId(1)), vec![]);
    assert_eq!(graph.adjacent_node_ids(NodeId(2)), vec![NodeId(0)]);
}

#[test]
fn adj_list_node_mut() {
    let mut graph = AdjacencyList::<u32, i64, true>::with_nodes(vec![7, 8]);
    if let Some(n) = graph.node_mut(NodeId(1)) {
        *n = 42;
    }
    assert_eq!(graph.node(NodeId(1)), Some(&42));
    assert!(graph.node_mut(NodeId(2)).is_none());
}
