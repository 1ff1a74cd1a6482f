use crate::graph::index::NodeId;
use vstd::prelude::*;

verus! {

/// What can go wrong when graphs are built or searched.
#[derive(Debug, PartialEq, Eq, Clone, Copy)]
pub enum GraphError {
    /// The edge between the two nodes exists already.
    EdgeAlreadyExists { from: NodeId, to: NodeId },
    /// An edge in both directions between the two nodes is not allowed in a directed graph.
    TwoSidedEdgeForbidden { from: NodeId, to: NodeId },
    /// The edge list does not have the expected shape.
    BadEdgeListFormat,
    /// A number in the edge list could not be read as an integer.
    ParseIntError,
    /// A number in the edge list could not be read as a decimal.
    ParseFloatError,
    /// The nearest neighbour heuristic found no tour.
    NNAbort,
    /// Not every node was visited.
    NoCycle,
    /// Reading or writing failed.
    Io,
    /// The minimum cost flow problem has no solution.
    McfNotSolvable,
}

impl GraphError {
    /// A sentence that says what went wrong.
    pub fn message(&self) -> (r: String)
        ensures
            r@ == match self {
                GraphError::EdgeAlreadyExists { .. } => "The edge already exists."@,
                GraphError::TwoSidedEdgeForbidden { .. } => "Two sided edge forbidden in directed graph."@,
                GraphError::BadEdgeListFormat => "The given edge list has a bad format"@,
                GraphError::ParseIntError => "ParseIntError"@,
                GraphError::ParseFloatError => "ParseFloatError"@,
                GraphError::NNAbort => "Could not find tsp solution with nearest neighbor"@,
                GraphError::NoCycle => "Not all nodes have been visited"@,
                GraphError::Io => "IoError"@,
                GraphError::McfNotSolvable => "Minimal cost flow not solvable"@,
            },
    {
        match self {
            GraphError::EdgeAlreadyExists { .. } => String::from_str("The edge already exists."),
            GraphError::TwoSidedEdgeForbidden { .. } => String::from_str(
                "Two sided edge forbidden in directed graph.",
            ),
            GraphError::BadEdgeListFormat => String::from_str("The given edge list has a bad format"),
            GraphError::ParseIntError => String::from_str("ParseIntError"),
            GraphError::ParseFloatError => String::from_str("ParseFloatError"),
            GraphError::NNAbort => String::from_str("Could not find tsp solution with nearest neighbor"),
            GraphError::NoCycle => String::from_str("Not all nodes have been visited"),
            GraphError::Io => String::from_str("IoError"),
            GraphError::McfNotSolvable => String::from_str("Minimal cost flow not solvable"),
        }
    }
}

} // verus!
