use grph::graph::traits::{Index, Iter};
use grph::edge_list::EdgeList;
use grph::graph::access::{GraphAccess, GraphCompare, GraphTopology};
use grph::graph_impl::adjacency_list::AdjacencyList;
use std::str::FromStr;

#[test]
fn add_node() {
    let mut graph = AdjacencyList::<u32, (), false>::new();
    let _idx1 = graph.add_node(1);
    let _idx2 = graph.add_node(2);
    let _idx3 = graph.add_node(3);

    graph.contains_node(&1).unwrap();
    graph.contains_node(&2).unwrap();
    graph.contains_node(&3).unwrap();

    assert!(graph.contains_node(&100).is_none());
}

#[test]
fn update_node() {
    let mut graph = AdjacencyList::<u32, (), false>::new();
    let idx1 = graph.add_node(1);

    assert_eq!(graph.update_node(idx1, 5), 1);

    graph.contains_node(&5).unwrap();
    assert!(graph.contains_node(&1).is_none());
}

#[test]
fn add_edge() {
    let mut graph = AdjacencyList::<u32, (), false>::new();
    let idx1 = graph.add_node(1);
    let idx2 = graph.add_node(2);
    let _idx3 = graph.add_node(3);

    let _ = graph.add_edge(idx1, idx2, ()).unwrap();

    graph.contains_edge(idx1, idx2).unwrap();

    assert!(graph.contains_edge(idx2, idx1).is_none());
}

#[test]
fn update_edge() {
    let mut graph = AdjacencyList::<u32, u32, false>::new();
    let idx1 = graph.add_node(1);
    let idx2 = graph.add_node(2);

    let edge = graph.add_edge(idx1, idx2, 2).unwrap();

    assert_eq!(graph.update_edge(edge, 5), 2);
    assert_eq!(graph.weight(edge), &5);
}

#[test]
fn from_edge_list() {
    let edge_list = "4
        0 2
        1 2
        2 3
        3 1";
    let edge_list = EdgeList::<usize, (), false>::from_str(&edge_list).unwrap();
    let graph = AdjacencyList::<usize, (), false>::try_from(edge_list).unwrap();

    assert_eq!(graph.node_count(), 4);

    let idx0 = graph.contains_node(&0).unwrap();
    let idx1 = graph.contains_node(&1).unwrap();
    let idx2 = graph.contains_node(&2).unwrap();
    let idx3 = graph.contains_node(&3).unwrap();

    graph.contains_edge(idx0, idx2).unwrap();
    graph.contains_edge(idx1, idx2).unwrap();
    graph.contains_edge(idx2, idx3).unwrap();
    graph.contains_edge(idx3, idx1).unwrap();

    graph.contains_edge(idx2, idx0).unwrap();
    graph.contains_edge(idx2, idx1).unwrap();
    graph.contains_edge(idx3, idx2).unwrap();
    graph.contains_edge(idx1, idx3).unwrap();

    assert!(graph.contains_edge(idx1, idx0).is_none());
}

#[test]
fn djikstra() {
    // Weights in halves: 1.0, 3.0, 1.0, 4.0 and 1.5 are written as 2, 6, 2, 8 and 3.
    let edge_list = EdgeList::<usize, i64, true>::with(vec![(0, 1, 2), (0, 2, 6), (1, 2, 2), (2, 3, 8), (3, 0, 3)], 4);

    let graph = AdjacencyList::<usize, i64, true>::try_from(edge_list).unwrap();
    let dist = grph::algorithms::dijkstra::dijkstra_between(&graph, grph::graph::index::NodeId(0), grph::graph::index::NodeId(2));

    assert_eq!(dist, Some(4));
}

#[test]
fn edge_ids_follow_iter_edges() {
    let edge_list = EdgeList::<usize, i64, true>::with(vec![(0, 1, 2), (0, 2, 6), (1, 2, 2), (2, 3, 8), (3, 0, 3)], 4);
    let graph = AdjacencyList::<usize, i64, true>::try_from(edge_list).unwrap();
    let ids: Vec<_> = graph.iter_edges().iter().map(|e| e.edge_id).collect();
    assert_eq!(ids, graph.edge_ids());
    assert_eq!(ids.len(), 5);
}
