use vstd::prelude::*;

pub mod algorithms;
pub mod edge_list;
pub mod error;
pub mod graph;
pub mod graph_impl;
pub mod parse;
pub mod pq;
pub mod structures;
pub mod utils;

verus! {

} // verus!
