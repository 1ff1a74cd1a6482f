use crate::algorithms::bfs::zeros;
use crate::graph::index::{EdgeId, NodeId};
use crate::graph::reach::{count_free, lemma_count_free_bound, lemma_count_free_update};
use crate::graph::traits::{adj_wf, Base, Count, IndexAdjacent};
use vstd::prelude::*;

verus! {

/// The position of the first edge in `row` whose target is none of `seen`.
pub open spec fn first_new<W>(row: Seq<(usize, W)>, seen: Seq<NodeId>) -> Option<int>
    decreases row.len(),
{
    if row.len() == 0 {
        None
    } else {
        match first_new(row.drop_last(), seen) {
            Some(i) => Some(i),
            None => if !seen.contains(NodeId(row.last().0)) {
                Some(row.len() - 1)
            } else {
                None
            },
        }
    }
}

/// The nodes of the edges `r`: where the first starts, then where each ends.
pub open spec fn path_nodes(from: NodeId, r: Seq<EdgeId>) -> Seq<NodeId> {
    seq![from] + Seq::new(r.len(), |i: int| r[i].to)
}

/// Edge `e` leaves the `i`-th node of `nodes` by its first edge to a node not among the nodes
/// up to it.
#[verifier::opaque]
pub open spec fn greedy_step<W>(adj: Seq<Seq<(usize, W)>>, nodes: Seq<NodeId>, i: int, e: EdgeId) -> bool {
    &&& e.from == nodes[i]
    &&& match first_new(adj[nodes[i].0 as int], nodes.take(i + 1)) {
        Some(k) => adj[nodes[i].0 as int][k].0 == e.to.0,
        None => false,
    }
}

/// `r` is the walk from `from` that always takes the first edge to a node it has not been to,
/// and ends at a node with no such edge.
#[verifier::opaque]
pub open spec fn greedy_walk<W>(adj: Seq<Seq<(usize, W)>>, from: NodeId, r: Seq<EdgeId>) -> bool {
    let nodes = path_nodes(from, r);
    &&& forall|i: int| 0 <= i < r.len() ==> greedy_step(adj, nodes, i, #[trigger] r[i])
    &&& first_new(adj[nodes.last().0 as int], nodes) is None
}

pub proof fn lemma_first_new<W>(row: Seq<(usize, W)>, seen: Seq<NodeId>)
    ensures
        match first_new(row, seen) {
            Some(i) => 0 <= i < row.len() && !seen.contains(NodeId(row[i].0)) && forall|j: int|
                0 <= j < i ==> seen.contains(NodeId(#[trigger] row[j].0)),
            None => forall|j: int| 0 <= j < row.len() ==> seen.contains(NodeId(#[trigger] row[j].0)),
        },
    decreases row.len(),
{
    if row.len() > 0 {
        let p = row.drop_last();
        lemma_first_new(p, seen);
        assert(forall|j: int| 0 <= j < p.len() ==> p[j] == row[j]);
    }
}

/// The edges of the greedy walk from `from`, taking the next node from the back of the
/// frontier, or with `fifo` from its front: the frontier never holds more than one node.
fn greedy_edges<G: IndexAdjacent + Count>(graph: &G, from: NodeId, fifo: bool) -> (r: Vec<EdgeId>)
    requires
        graph.spec_wf(),
        adj_wf(graph.spec_adj()),
        from.0 < graph.spec_nodes().len(),
    ensures
        greedy_walk(graph.spec_adj(), from, r@),
{
    proof {
        graph.lemma_wf();
    }
    let ghost adj = graph.spec_adj();
    let n = graph.node_count();
    let mut visited = zeros(n);
    let mut frontier: Vec<NodeId> = Vec::new();
    let mut head: usize = 0;
    frontier.push(from);
    visited.set(from.0, 1);
    let mut r: Vec<EdgeId> = Vec::new();
    proof {
        lemma_count_free_bound(visited@);
        let p = path_nodes(from, r@);
        assert(p =~= seq![from]);
        assert forall|v: int| 0 <= v < n implies ((#[trigger] visited@[v]) != 0) == p.contains(NodeId(v as usize)) by {
            if v == from.0 {
                assert(p[0] == NodeId(v as usize));
            }
        }
    }
    loop
        invariant
            graph.spec_wf(),
            adj == graph.spec_adj(),
            adj_wf(adj),
            n == adj.len(),
            n == graph.spec_nodes().len(),
            from.0 < n,
            visited@.len() == n,
            head <= frontier@.len(),
            frontier@.len() == head + 1,
            frontier@[head as int] == path_nodes(from, r@).last(),
            forall|v: int| 0 <= v < n ==> ((#[trigger] visited@[v]) != 0) == path_nodes(from, r@).contains(NodeId(v as usize)),
            forall|i: int| 0 <= i < path_nodes(from, r@).len() ==> (#[trigger] path_nodes(from, r@)[i]).0 < n,
            forall|i: int| 0 <= i < r@.len() ==> greedy_step(adj, path_nodes(from, r@), i, #[trigger] r@[i]),
        decreases count_free(visited@),
    {
        let node = if fifo {
            let f = frontier[head];
            let len = frontier.len();
            head = head + 1;
            f
        } else {
            frontier.pop().unwrap()
        };
        let ghost nodes = path_nodes(from, r@);
        let targets = graph.adjacent_node_ids(node);
        let ghost u = node.0 as int;
        proof {
            lemma_first_new(adj[u], nodes);
        }
        let mut i: usize = 0;
        let mut next: Option<NodeId> = None;
        while i < targets.len() && next.is_none()
            invariant
                adj == graph.spec_adj(),
                adj_wf(adj),
                n == adj.len(),
                0 <= u < n,
                visited@.len() == n,
                targets@.len() == adj[u].len(),
                forall|j: int| 0 <= j < targets@.len() ==> (#[trigger] targets@[j]).0 == adj[u][j].0,
                forall|v: int| 0 <= v < n ==> ((#[trigger] visited@[v]) != 0) == nodes.contains(NodeId(v as usize)),
                i <= targets@.len(),
                forall|j: int| 0 <= j < i ==> nodes.contains(NodeId(#[trigger] adj[u][j].0)),
                match next {
                    Some(t) => i < targets@.len() && t.0 == adj[u][i as int].0 && !nodes.contains(t),
                    None => true,
                },
            decreases targets@.len() - i + if next is None { 1int } else { 0int },
        {
            let to = targets[i];
            proof {
                assert(targets@[i as int].0 == adj[u][i as int].0);
                assert(to.0 < n);
            }
            if visited[to.0] == 0 {
                next = Some(to);
            } else {
                proof {
                    assert(nodes.contains(NodeId(to.0)));
                }
                i = i + 1;
            }
        }
        match next {
            Some(to) => {
                proof {
                    assert(first_new(adj[u], nodes) == Some(i as int)) by {
                        match first_new(adj[u], nodes) {
                            Some(k) => {
                                if k < i {
                                    assert(nodes.contains(NodeId(adj[u][k].0)));
                                } else if k > i {
                                    assert(nodes.contains(NodeId(adj[u][i as int].0)));
                                }
                            },
                            None => {
                                assert(nodes.contains(NodeId(adj[u][i as int].0)));
                            },
                        }
                    }
                }
                let ghost vb = visited@;
                let ghost old_r = r@;
                frontier.push(to);
                visited.set(to.0, 1);
                r.push(EdgeId { from: node, to });
                proof {
                    lemma_count_free_update(vb, to.0 as int, 1);
                    let nodes2 = path_nodes(from, r@);
                    assert(nodes2 =~= nodes.push(to));
                    assert forall|v: int| 0 <= v < n implies ((#[trigger] visited@[v]) != 0) == nodes2.contains(NodeId(v as usize)) by {
                        if v == to.0 {
                            assert(nodes2[nodes2.len() - 1] == to);
                        } else {
                            if nodes2.contains(NodeId(v as usize)) {
                                let j = choose|j: int| 0 <= j < nodes2.len() && nodes2[j] == NodeId(v as usize);
                                assert(nodes[j] == nodes2[j]);
                            }
                            if nodes.contains(NodeId(v as usize)) {
                                let j = choose|j: int| 0 <= j < nodes.len() && nodes[j] == NodeId(v as usize);
                                assert(nodes2[j] == nodes[j]);
                            }
                        }
                    }
                    assert forall|j: int| 0 <= j < nodes2.len() implies (#[trigger] nodes2[j]).0 < n by {
                        if j < nodes.len() {
                            assert(nodes2[j] == nodes[j]);
                        }
                    }
                    assert forall|j: int| 0 <= j < r@.len() implies greedy_step(adj, nodes2, j, #[trigger] r@[j]) by {
                        reveal(greedy_step);
                        assert(nodes2[j] == nodes[j]);
                        if j < r@.len() - 1 {
                            assert(nodes2.take(j + 1) =~= nodes.take(j + 1));
                            assert(r@[j] == old_r[j]);
                            assert(greedy_step(adj, nodes, j, old_r[j]));
                        } else {
                            assert(nodes2.take(j + 1) =~= nodes);
                        }
                    }
                }
            },
            None => {
                proof {
                    assert(forall|j: int| 0 <= j < adj[u].len() ==> nodes.contains(NodeId(#[trigger] adj[u][j].0)));
                    reveal(greedy_walk);
                }
                return r;
            },
        }
    }
}

/// The nodes of two lists of edges agree as far as the edges do.
pub proof fn lemma_nodes_agree(from: NodeId, r1: Seq<EdgeId>, r2: Seq<EdgeId>, k: int)
    requires
        0 <= k <= r1.len(),
        k <= r2.len(),
        forall|j: int| 0 <= j < k ==> r1[j] == r2[j],
    ensures
        path_nodes(from, r1).take(k + 1) == path_nodes(from, r2).take(k + 1),
{
    let n1 = path_nodes(from, r1);
    let n2 = path_nodes(from, r2);
    assert forall|j: int| 0 <= j < k + 1 implies n1[j] == n2[j] by {
        if j > 0 {
            assert(r1[j - 1] == r2[j - 1]);
        }
    }
    assert(n1.take(k + 1) =~= n2.take(k + 1));
}

pub proof fn lemma_greedy_at<W>(adj: Seq<Seq<(usize, W)>>, from: NodeId, r: Seq<EdgeId>, k: int)
    requires
        greedy_walk(adj, from, r),
        0 <= k < r.len(),
    ensures
        greedy_step(adj, path_nodes(from, r), k, r[k]),
{
    reveal(greedy_walk);
}

pub proof fn lemma_greedy_end<W>(adj: Seq<Seq<(usize, W)>>, from: NodeId, r: Seq<EdgeId>)
    requires
        greedy_walk(adj, from, r),
    ensures
        first_new(adj[path_nodes(from, r).last().0 as int], path_nodes(from, r)) is None,
{
    reveal(greedy_walk);
}

/// Two greedy walks agree on their first `i` edges.
pub proof fn lemma_prefix_agree<W>(adj: Seq<Seq<(usize, W)>>, from: NodeId, r1: Seq<EdgeId>, r2: Seq<EdgeId>, i: int)
    requires
        greedy_walk(adj, from, r1),
        greedy_walk(adj, from, r2),
        0 <= i <= r1.len(),
        i <= r2.len(),
    ensures
        forall|j: int| 0 <= j < i ==> r1[j] == r2[j],
    decreases i,
{
    if i > 0 {
        let k = i - 1;
        lemma_prefix_agree(adj, from, r1, r2, k);
        lemma_greedy_at(adj, from, r1, k);
        lemma_greedy_at(adj, from, r2, k);
        lemma_nodes_agree(from, r1, r2, k);
        let n1 = path_nodes(from, r1);
        let n2 = path_nodes(from, r2);
        assert(n1[k] == n1.take(k + 1)[k]);
        assert(n2[k] == n2.take(k + 1)[k]);
        reveal(greedy_step);
        assert(r1[k].to.0 == r2[k].to.0);
    }
}

/// Depth first or breadth first, the edges handed out one at a time are the same: both follow
/// the one walk that always takes the first edge to a new node.
pub proof fn lemma_iter_edges_agree<W>(adj: Seq<Seq<(usize, W)>>, from: NodeId, r1: Seq<EdgeId>, r2: Seq<EdgeId>)
    requires
        greedy_walk(adj, from, r1),
        greedy_walk(adj, from, r2),
    ensures
        r1 == r2,
{
    let n1 = path_nodes(from, r1);
    let n2 = path_nodes(from, r2);
    let m = if r1.len() < r2.len() { r1.len() as int } else { r2.len() as int };
    lemma_prefix_agree(adj, from, r1, r2, m);
    if r1.len() < r2.len() {
        let k = r1.len() as int;
        lemma_nodes_agree(from, r1, r2, k);
        lemma_greedy_at(adj, from, r2, k);
        lemma_greedy_end(adj, from, r1);
        assert(n1.take(k + 1) =~= n1);
        assert(n2[k] == n2.take(k + 1)[k]);
        assert(n2[k] == n1.last());
        reveal(greedy_step);
        assert(n2.take(k + 1) =~= n1);
    } else if r2.len() < r1.len() {
        let k = r2.len() as int;
        lemma_nodes_agree(from, r1, r2, k);
        lemma_greedy_at(adj, from, r1, k);
        lemma_greedy_end(adj, from, r2);
        assert(n2.take(k + 1) =~= n2);
        assert(n1[k] == n1.take(k + 1)[k]);
        assert(n1[k] == n2.last());
        reveal(greedy_step);
        assert(n1.take(k + 1) =~= n2);
    }
    assert(r1 =~= r2);
}

/// The edges of the walk from `from` that always takes the first edge to a node it has not been
/// to, as a depth-first search hands them out one at a time.
pub fn dfs_iter_edges<G: IndexAdjacent + Count>(graph: &G, from: NodeId) -> (r: Vec<EdgeId>)
    requires
        graph.spec_wf(),
        adj_wf(graph.spec_adj()),
        from.0 < graph.spec_nodes().len(),
    ensures
        greedy_walk(graph.spec_adj(), from, r@),
{
    greedy_edges(graph, from, false)
}

/// The same walk, as a breadth-first search hands its edges out one at a time.
pub fn bfs_iter_edges<G: IndexAdjacent + Count>(graph: &G, from: NodeId) -> (r: Vec<EdgeId>)
    requires
        graph.spec_wf(),
        adj_wf(graph.spec_adj()),
        from.0 < graph.spec_nodes().len(),
    ensures
        greedy_walk(graph.spec_adj(), from, r@),
{
    greedy_edges(graph, from, true)
}

} // verus!
