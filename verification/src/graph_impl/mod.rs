pub mod adjacency_list;
pub mod adjacency_matrix;
pub mod residual_graph;
pub mod tree;
