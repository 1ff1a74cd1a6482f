use crate::error::GraphError;
use crate::parse::{parse_edge_list, parse_edges};
use crate::utils::SparseMatrix;
use vstd::prelude::*;
use vstd::string::StringSliceAdditionalSpecFns;

verus! {

/// A graph given as its nodes and the list of its edges `(from, to, weight)`.
pub struct EdgeList<N, W, const DI: bool> {
    pub nodes: Vec<N>,
    pub edges: SparseMatrix<W>,
    pub node_count: usize,
}

impl<W, const DI: bool> EdgeList<usize, W, DI> {
    /// The nodes `0..node_count` and the given edges, in order.
    pub fn with(list: Vec<(usize, usize, W)>, node_count: usize) -> (r: Self)
        requires
            8 * node_count <= usize::MAX,
            forall|i: int| 0 <= i < list@.len() ==> (#[trigger] list@[i]).0 <= node_count && list@[i].1 <= node_count,
        ensures
            r.node_count == node_count,
            r.nodes@ == Seq::new(node_count as nat, |i: int| i as usize),
            r.edges.wf(),
            r.edges.spec_row_count() == node_count,
            r.edges.spec_col_count() == node_count,
            r.edges.entries() == list@,
    {
        let mut nodes: Vec<usize> = Vec::new();
        let mut i: usize = 0;
        while i < node_count
            invariant
                i <= node_count,
                nodes@ == Seq::new(i as nat, |k: int| k as usize),
            decreases node_count - i,
        {
            nodes.push(i);
            i = i + 1;
            proof {
                assert(nodes@ =~= Seq::new(i as nat, |k: int| k as usize));
            }
        }
        let mut edges: SparseMatrix<W> = SparseMatrix::with_capacity(node_count, node_count);
        let mut list = list;
        let ghost l0 = list@;
        let mut rest: Vec<(usize, usize, W)> = Vec::new();
        // Take the entries off the back, then insert them from the front.
        while list.len() > 0
            invariant
                l0 == list@ + rest@.reverse(),
            decreases list@.len(),
        {
            let e = list.pop().unwrap();
            let ghost r0 = rest@;
            rest.push(e);
            proof {
                assert(rest@.reverse() =~= seq![e] + r0.reverse());
            }
        }
        proof {
            assert(list@ + rest@.reverse() =~= rest@.reverse());
        }
        let ghost all = rest@.reverse();
        while rest.len() > 0
            invariant
                all == l0,
                edges.wf(),
                edges.spec_row_count() == node_count,
                edges.spec_col_count() == node_count,
                forall|j: int| 0 <= j < l0.len() ==> (#[trigger] l0[j]).0 <= node_count && l0[j].1 <= node_count,
                edges.entries() + rest@.reverse() == l0,
            decreases rest@.len(),
        {
            let ghost r0 = rest@;
            let e = rest.pop().unwrap();
            proof {
                assert(r0.reverse() =~= seq![e] + rest@.reverse());
                assert(l0[edges.entries().len() as int] == e);
            }
            edges.insert(e.0, e.1, e.2);
            proof {
                assert(edges.entries() + rest@.reverse() =~= l0);
            }
        }
        proof {
            assert(edges.entries() =~= l0);
        }
        EdgeList { nodes, edges, node_count }
    }
}

} // verus!

verus! {

/// What reading an edge list without weights from the bytes `b` gives: see
/// `edge_list_from_bytes`.
pub open spec fn read_edge_list<const DI: bool>(b: Seq<u8>, r: Result<EdgeList<usize, (), DI>, GraphError>) -> bool {
    match parse_edge_list(b) {
        Ok((n, edges)) => if 8 * n <= usize::MAX && forall|i: int|
            0 <= i < edges.len() ==> (#[trigger] edges[i]).0 <= n && edges[i].1 <= n {
            r matches Ok(l) && l.node_count == n && l.nodes@ == Seq::new(n as nat, |i: int| i as usize)
                && l.edges.wf() && l.edges.spec_row_count() == n && l.edges.spec_col_count() == n
                && l.edges.entries() == edges.map_values(|e: (usize, usize)| (e.0, e.1, ()))
        } else {
            r == Err::<EdgeList<usize, (), DI>, GraphError>(GraphError::BadEdgeListFormat)
        },
        Err(e) => r == Err::<EdgeList<usize, (), DI>, GraphError>(e),
    }
}

/// Reads an edge list without weights from text (see `parse_edge_list`). A list whose node
/// count is too large to set up, or with an edge that names a node past the count, is refused
/// as badly formed.
pub fn edge_list_from_bytes<const DI: bool>(b: &[u8]) -> (r: Result<EdgeList<usize, (), DI>, GraphError>)
    ensures
        read_edge_list(b@, r),
{
    match parse_edges(b) {
        Err(e) => Err(e),
        Ok((n, edges)) => {
            if n > usize::MAX / 8 {
                return Err(GraphError::BadEdgeListFormat);
            }
            let mut list: Vec<(usize, usize, ())> = Vec::new();
            let mut i: usize = 0;
            while i < edges.len()
                invariant
                    i <= edges@.len(),
                    8 * n <= usize::MAX,
                    parse_edge_list(b@) matches Ok((n2, e2)) && n2 == n && e2 == edges@,
                    list@ == edges@.take(i as int).map_values(|e: (usize, usize)| (e.0, e.1, ())),
                    forall|k: int| 0 <= k < i ==> (#[trigger] edges@[k]).0 <= n && edges@[k].1 <= n,
                decreases edges@.len() - i,
            {
                let (a, c) = edges[i];
                if a > n || c > n {
                    proof {
                        assert(edges@[i as int].0 > n || edges@[i as int].1 > n);
                    }
                    return Err(GraphError::BadEdgeListFormat);
                }
                list.push((a, c, ()));
                i = i + 1;
                proof {
                    assert(list@ =~= edges@.take(i as int).map_values(|e: (usize, usize)| (e.0, e.1, ())));
                }
            }
            proof {
                assert(edges@.take(edges@.len() as int) =~= edges@);
            }
            Ok(EdgeList::with(list, n))
        },
    }
}

impl<const DI: bool> std::str::FromStr for EdgeList<usize, (), DI> {
    type Err = GraphError;

    fn from_str(s: &str) -> (r: Result<Self, GraphError>)
        ensures
            read_edge_list(s.spec_bytes(), r),
    {
        edge_list_from_bytes(s.as_bytes())
    }
}

} // verus!
