use crate::algorithms::bfs::zeros;
use crate::algorithms::ford_fulkerson::{_ford_fulkerson, augmenting, hops_back, lemma_hops_update, flow_added, flow_ready, fw, out_res, parent_chain, same_shape, Residual};
use crate::algorithms::edmonds_karp::lemma_push_fw;
use crate::algorithms::ford_fulkerson::lemma_replace_first;
use crate::algorithms::mcf::{copy_graph, lemma_adj_wf_push};
use crate::graph::index::{EdgeId, NodeId};
use crate::graph::reach::{count_free, lemma_count_free_update};
use crate::graph::walk::{lemma_walk_exit, walk_end, walk_node, walk_ok};
use crate::graph::traits::{adj_wf, first_edge, lemma_first_edge, lemma_first_edge_push, lemma_total_edges_prefix, lemma_total_edges_update, total_edges, Base, Count, Create, Get, IndexAdjacent, Insert, IterAdjacent};
use crate::graph_impl::adjacency_list::AdjacencyList;
use crate::structures::parents::Parents;
use vstd::prelude::*;

verus! {

/// A walk along the edges of `adj` from `from` whose every step joins two nodes between which
/// `cap` has an edge that can still take more.
pub open spec fn open_walk(adj: Seq<Seq<(usize, i64)>>, cap: Seq<Seq<(usize, i64)>>, from: int, steps: Seq<(int, int)>) -> bool {
    &&& walk_ok(adj, from, steps)
    &&& forall|i: int|
        0 <= i < steps.len() ==> #[trigger] can_take(cap, walk_node(adj, from, steps, i), walk_node(adj, from, steps, i + 1))
}

/// `cap` has an edge `u -> v` that can still take more.
pub open spec fn can_take(cap: Seq<Seq<(usize, i64)>>, u: int, v: int) -> bool {
    fw(cap, u, v) matches Some(c) && c > 0
}

/// Every edge of `v` that `cap` lets through leads to a marked node.
spec fn open_closed(adj: Seq<Seq<(usize, i64)>>, cap: Seq<Seq<(usize, i64)>>, marks: Seq<usize>, v: int) -> bool {
    forall|j: int|
        0 <= j < adj[v].len() && can_take(cap, v, adj[v][j].0 as int) ==> marks[#[trigger] adj[v][j].0 as int]
            != 0
}

/// `v` waits in the queue at or after `head`.
spec fn queued(queue: Seq<NodeId>, head: int, v: int) -> bool {
    exists|j: int| head <= j < queue.len() && (#[trigger] queue[j]).0 == v
}

/// No open walk leaves a closed set of marked nodes that holds `from`.
proof fn lemma_open_unreachable(adj: Seq<Seq<(usize, i64)>>, cap: Seq<Seq<(usize, i64)>>, marks: Seq<usize>, from: int, t: int)
    requires
        adj_wf(adj),
        marks.len() == adj.len(),
        0 <= from < adj.len(),
        marks[from] != 0,
        0 <= t < adj.len(),
        marks[t] == 0,
        forall|v: int| 0 <= v < adj.len() && marks[v] != 0 ==> #[trigger] open_closed(adj, cap, marks, v),
    ensures
        forall|steps: Seq<(int, int)>| open_walk(adj, cap, from, steps) ==> #[trigger] walk_end(adj, from, steps) != t,
{
    assert forall|steps: Seq<(int, int)>| open_walk(adj, cap, from, steps) implies #[trigger] walk_end(adj, from, steps) != t by {
        if walk_end(adj, from, steps) == t {
            let inside = |v: int| 0 <= v < adj.len() && marks[v] != 0;
            lemma_walk_exit(adj, from, steps, inside);
            let i = choose|i: int|
                0 <= i < steps.len() && inside(#[trigger] walk_node(adj, from, steps, i)) && !inside(
                    walk_node(adj, from, steps, i + 1),
                );
            let u = walk_node(adj, from, steps, i);
            let k = steps[i].1;
            assert(steps[i].0 == u);
            assert(walk_node(adj, from, steps, i + 1) == adj[u][k].0 as int);
            assert(can_take(cap, u, adj[u][k].0 as int));
            assert(open_closed(adj, cap, marks, u));
            assert(marks[adj[u][k].0 as int] != 0);
        }
    }
}

/// Every edge of `v` that `cap` lets through leads to a node at most one level deeper.
spec fn open_level(adj: Seq<Seq<(usize, i64)>>, cap: Seq<Seq<(usize, i64)>>, dep: Seq<nat>, v: int) -> bool {
    forall|j: int| 0 <= j < adj[v].len() && can_take(cap, v, adj[v][j].0 as int) ==> dep[#[trigger] adj[v][j].0 as int] <= dep[v] + 1
}

/// The parent links `p` lead back from `t` to `s` in as few hops as any open walk from `s` to
/// `t` takes.
pub open spec fn fewest_open_hops(
    adj: Seq<Seq<(usize, i64)>>,
    cap: Seq<Seq<(usize, i64)>>,
    p: Seq<Option<NodeId>>,
    s: int,
    t: int,
) -> bool {
    exists|m: nat|
        #[trigger] hops_back(p, s, t, m) && forall|steps: Seq<(int, int)>|
            open_walk(adj, cap, s, steps) && #[trigger] walk_end(adj, s, steps) == t ==> steps.len() >= m
}

/// An open walk from `s` has, after `i` steps, taken at least `lvl` steps or stands on a marked
/// node no deeper than `i`.
proof fn lemma_open_level_prefix(
    adj: Seq<Seq<(usize, i64)>>,
    cap: Seq<Seq<(usize, i64)>>,
    visited: Seq<usize>,
    queue: Seq<NodeId>,
    head: int,
    dep: Seq<nat>,
    lvl: nat,
    s: int,
    t: int,
    steps: Seq<(int, int)>,
    i: int,
)
    requires
        adj_wf(adj),
        visited.len() == adj.len(),
        dep.len() == adj.len(),
        0 <= s < adj.len(),
        visited[s] != 0,
        dep[s] == 0,
        0 <= t < adj.len(),
        dep[t] == lvl,
        forall|a: int| head <= a < queue.len() ==> lvl <= #[trigger] dep[queue[a].0 as int],
        forall|v: int|
            0 <= v < adj.len() && #[trigger] visited[v] != 0 && v != t && !queued(queue, head, v) ==> dep[v] <= lvl
                && open_closed(adj, cap, visited, v) && open_level(adj, cap, dep, v),
        open_walk(adj, cap, s, steps),
        0 <= i <= steps.len(),
    ensures
        i >= lvl || (0 <= walk_node(adj, s, steps, i) < adj.len() && visited[walk_node(adj, s, steps, i)] != 0 && dep[walk_node(
            adj,
            s,
            steps,
            i,
        )] <= i),
    decreases i,
{
    if i > 0 {
        lemma_open_level_prefix(adj, cap, visited, queue, head, dep, lvl, s, t, steps, i - 1);
        if i - 1 < lvl {
            let v = walk_node(adj, s, steps, i - 1);
            if dep[v] < lvl {
                if queued(queue, head, v) {
                    let a = choose|a: int| head <= a < queue.len() && (#[trigger] queue[a]).0 == v;
                    assert(lvl <= dep[queue[a].0 as int]);
                }
                let k = steps[i - 1].1;
                assert(steps[i - 1].0 == v);
                assert(walk_node(adj, s, steps, i) == adj[v][k].0 as int);
                let j = i - 1;
                assert(can_take(cap, walk_node(adj, s, steps, j), walk_node(adj, s, steps, j + 1)));
                assert(j + 1 == i);
                assert(open_closed(adj, cap, visited, v));
                assert(open_level(adj, cap, dep, v));
                assert(visited[adj[v][k].0 as int] != 0);
                assert(dep[adj[v][k].0 as int] <= dep[v] + 1);
            }
        }
    }
}

/// Marking more nodes keeps a node closed.
proof fn lemma_open_closed_grow(adj: Seq<Seq<(usize, i64)>>, cap: Seq<Seq<(usize, i64)>>, m0: Seq<usize>, m1: Seq<usize>, v: int)
    requires
        adj_wf(adj),
        m0.len() == adj.len(),
        m1.len() == adj.len(),
        0 <= v < adj.len(),
        open_closed(adj, cap, m0, v),
        forall|u: int| 0 <= u < adj.len() && m0[u] != 0 ==> #[trigger] m1[u] != 0,
    ensures
        open_closed(adj, cap, m1, v),
{
    assert forall|j: int| 0 <= j < adj[v].len() && can_take(cap, v, adj[v][j].0 as int) implies m1[#[trigger] adj[v][j].0 as int] != 0 by {
        assert(m0[adj[v][j].0 as int] != 0);
    }
}

/// A breadth-first search over the edges of `graph` for a path from `source` to `sink` whose
/// edges all have capacity left in `cap`; the parent links of the search when it takes `sink`.
#[verifier::rlimit(80)]
#[verifier::spinoff_prover]
fn residual_bfs<N>(
    graph: &AdjacencyList<N, i64, true>,
    cap: &AdjacencyList<(), i64, true>,
    source: NodeId,
    sink: NodeId,
) -> (r: Option<Parents>)
    requires
        graph.spec_wf(),
        cap.spec_wf(),
        adj_wf(graph.spec_adj()),
        graph.spec_nodes().len() == cap.spec_nodes().len(),
        source.0 < graph.spec_nodes().len(),
        sink.0 < graph.spec_nodes().len(),
    ensures
        r matches Some(p) ==> augmenting(cap.spec_adj(), p@, source.0 as int, sink.0 as int),
        r matches Some(p) ==> fewest_open_hops(graph.spec_adj(), cap.spec_adj(), p@, source.0 as int, sink.0 as int),
        r is None ==> forall|steps: Seq<(int, int)>|
            open_walk(graph.spec_adj(), cap.spec_adj(), source.0 as int, steps) ==> #[trigger] walk_end(
                graph.spec_adj(),
                source.0 as int,
                steps,
            ) != sink.0,
{
    proof {
        graph.lemma_wf();
        cap.lemma_wf();
    }
    let ghost adj = graph.spec_adj();
    let ghost cadj = cap.spec_adj();
    let ghost s = source.0 as int;
    let count = graph.node_count();
    let mut queue: Vec<NodeId> = Vec::new();
    let mut head: usize = 0;
    let mut visited = zeros(count);
    let mut parents = Parents::with_count(count);
    queue.push(source);
    visited.set(source.0, 1);
    let ghost mut ord: Seq<nat> = Seq::new(count as nat, |i: int| 0nat);
    let ghost mut k: nat = 1;
    let ghost mut dep: Seq<nat> = Seq::new(count as nat, |i: int| 0nat);
    let ghost mut lvl: nat = 0;
    proof {
        assert forall|v: int| 0 <= v < count && #[trigger] visited@[v] != 0 implies queued(queue@, head as int, v) by {
            assert(v == s);
            assert(queue@[0].0 == v);
        }
    }
    while head < queue.len()
        invariant
            graph.spec_wf(),
            cap.spec_wf(),
            adj == graph.spec_adj(),
            cadj == cap.spec_adj(),
            adj_wf(adj),
            count == adj.len(),
            count == cadj.len(),
            count == graph.spec_nodes().len(),
            count == cap.spec_nodes().len(),
            s == source.0,
            source.0 < count,
            sink.0 < count,
            visited@.len() == count,
            parents@.len() == count,
            head <= queue@.len(),
            forall|i: int| head <= i < queue@.len() ==> (#[trigger] queue@[i]).0 < count && visited@[queue@[i].0 as int] != 0,
            forall|v: int| 0 <= v < count ==> ((#[trigger] visited@[v]) != 0) == (v == s || parents@[v] is Some),
            parents@[s] is None,
            ord.len() == count,
            parent_chain(cadj, parents@, s, ord),
            forall|v: int| 0 <= v < count && visited@[v] != 0 ==> #[trigger] ord[v] < k,
            forall|a: int, b: int| head <= a < b < queue@.len() ==> queue@[a] != queue@[b],
            forall|v: int|
                0 <= v < count && #[trigger] visited@[v] != 0 ==> queued(queue@, head as int, v) || (v != sink.0
                    && open_closed(adj, cadj, visited@, v)),
            dep.len() == count,
            dep[s] == 0,
            forall|v: int| 0 <= v < count && #[trigger] visited@[v] != 0 ==> hops_back(parents@, s, v, dep[v]) && dep[v] <= lvl + 1,
            forall|a: int| head <= a < queue@.len() ==> lvl <= #[trigger] dep[queue@[a].0 as int],
            forall|a: int, b: int|
                #![trigger queue@[a], queue@[b]]
                head <= a <= b < queue@.len() ==> dep[queue@[a].0 as int] <= dep[queue@[b].0 as int],
            forall|v: int|
                0 <= v < count && #[trigger] visited@[v] != 0 && !queued(queue@, head as int, v) ==> dep[v] <= lvl && open_level(
                    adj,
                    cadj,
                    dep,
                    v,
                ),
        decreases 2 * count_free(visited@) + queue@.len() - head,
    {
        let ghost h0 = head as int;
        let from = queue[head];
        head = head + 1;
        proof {
            assert(!queued(queue@, head as int, from.0 as int)) by {
                if queued(queue@, head as int, from.0 as int) {
                    let j = choose|j: int| head <= j < queue@.len() && (#[trigger] queue@[j]).0 == from.0;
                    assert(queue@[h0] != queue@[j]);
                }
            }
            assert forall|v: int|
                0 <= v < count && v != from.0 && #[trigger] visited@[v] != 0 implies queued(queue@, head as int, v)
                    || (v != sink.0 && open_closed(adj, cadj, visited@, v)) by {
                if queued(queue@, h0, v) {
                    let j = choose|j: int| h0 <= j < queue@.len() && (#[trigger] queue@[j]).0 == v;
                    assert(j != h0);
                }
            }
        }
        proof {
            assert(lvl <= dep[queue@[h0].0 as int]);
            lvl = dep[from.0 as int];
            assert forall|a: int| head <= a < queue@.len() implies lvl <= #[trigger] dep[queue@[a].0 as int] by {
                assert(dep[queue@[h0].0 as int] <= dep[queue@[a].0 as int]);
            }
            assert forall|v: int| 0 <= v < count && #[trigger] visited@[v] != 0 implies hops_back(parents@, s, v, dep[v]) && dep[v] <= lvl + 1 by {}
            assert forall|v: int|
                0 <= v < count && #[trigger] visited@[v] != 0 && v != from.0 && !queued(queue@, head as int, v) implies dep[v] <= lvl
                    && open_level(adj, cadj, dep, v) by {
                if queued(queue@, h0, v) {
                    let j = choose|j: int| h0 <= j < queue@.len() && (#[trigger] queue@[j]).0 == v;
                    assert(j != h0);
                }
            }
        }
        if from == sink {
            proof {
                assert(parent_chain(cadj, parents@, s, ord));
                let t = sink.0 as int;
                assert forall|v: int|
                    0 <= v < adj.len() && #[trigger] visited@[v] != 0 && v != t && !queued(queue@, head as int, v) implies dep[v] <= lvl
                        && open_closed(adj, cadj, visited@, v) && open_level(adj, cadj, dep, v) by {}
                assert forall|steps: Seq<(int, int)>|
                    open_walk(adj, cadj, s, steps) && #[trigger] walk_end(adj, s, steps) == t implies steps.len() >= dep[t] by {
                    lemma_open_level_prefix(adj, cadj, visited@, queue@, head as int, dep, lvl, s, t, steps, steps.len() as int);
                }
                assert(hops_back(parents@, s, t, dep[t]));
                assert(fewest_open_hops(adj, cadj, parents@, s, t));
            }
            return Some(parents);
        }
        let targets = graph.adjacent_node_ids(from);
        let ghost m0 = 2 * count_free(visited@) + queue@.len() - head;
        let mut i: usize = 0;
        while i < targets.len()
            invariant
                graph.spec_wf(),
                cap.spec_wf(),
                adj == graph.spec_adj(),
                cadj == cap.spec_adj(),
                adj_wf(adj),
                count == adj.len(),
                count == cadj.len(),
                count == graph.spec_nodes().len(),
                count == cap.spec_nodes().len(),
                s == source.0,
                source.0 < count,
                from.0 < count,
                visited@[from.0 as int] != 0,
                targets@.len() == adj[from.0 as int].len(),
                forall|j: int| 0 <= j < targets@.len() ==> (#[trigger] targets@[j]).0 == adj[from.0 as int][j].0,
                i <= targets@.len(),
                visited@.len() == count,
                parents@.len() == count,
                head <= queue@.len(),
                forall|j: int| head <= j < queue@.len() ==> (#[trigger] queue@[j]).0 < count && visited@[queue@[j].0 as int] != 0,
                forall|v: int| 0 <= v < count ==> ((#[trigger] visited@[v]) != 0) == (v == s || parents@[v] is Some),
                parents@[s] is None,
                ord.len() == count,
                parent_chain(cadj, parents@, s, ord),
                forall|v: int| 0 <= v < count && visited@[v] != 0 ==> #[trigger] ord[v] < k,
                2 * count_free(visited@) + queue@.len() - head <= m0,
                from.0 != sink.0,
                !queued(queue@, head as int, from.0 as int),
                forall|a: int, b: int| head <= a < b < queue@.len() ==> queue@[a] != queue@[b],
                forall|v: int|
                    0 <= v < count && v != from.0 && #[trigger] visited@[v] != 0 ==> queued(queue@, head as int, v) || (v
                        != sink.0 && open_closed(adj, cadj, visited@, v)),
                forall|j: int|
                    0 <= j < i && can_take(cadj, from.0 as int, adj[from.0 as int][j].0 as int)
                        ==> visited@[#[trigger] adj[from.0 as int][j].0 as int] != 0,
                dep.len() == count,
                dep[s] == 0,
                dep[from.0 as int] == lvl,
                forall|v: int| 0 <= v < count && #[trigger] visited@[v] != 0 ==> hops_back(parents@, s, v, dep[v]) && dep[v] <= lvl + 1,
                forall|a: int| head <= a < queue@.len() ==> lvl <= #[trigger] dep[queue@[a].0 as int],
                forall|a: int, b: int|
                    #![trigger queue@[a], queue@[b]]
                    head <= a <= b < queue@.len() ==> dep[queue@[a].0 as int] <= dep[queue@[b].0 as int],
                forall|v: int|
                    0 <= v < count && #[trigger] visited@[v] != 0 && v != from.0 && !queued(queue@, head as int, v) ==> dep[v] <= lvl
                        && open_level(adj, cadj, dep, v),
                forall|j: int|
                    0 <= j < i && can_take(cadj, from.0 as int, adj[from.0 as int][j].0 as int)
                        ==> dep[#[trigger] adj[from.0 as int][j].0 as int] <= lvl + 1,
            decreases targets@.len() - i,
        {
            let to = targets[i];
            proof {
                assert(targets@[i as int].0 == adj[from.0 as int][i as int].0);
            }
            let open = match cap.weight(EdgeId { from, to }) {
                Some(c) => *c > 0,
                None => false,
            };
            if visited[to.0] == 0 && open {
                let ghost vb = visited@;
                let ghost pb = parents@;
                let ghost qb = queue@;
                parents.insert(from, to);
                queue.push(to);
                visited.set(to.0, 1);
                proof {
                    assert forall|v: int|
                        0 <= v < count && v != from.0 && #[trigger] visited@[v] != 0 implies queued(queue@, head as int, v)
                            || (v != sink.0 && open_closed(adj, cadj, visited@, v)) by {
                        if v == to.0 {
                            assert(queue@[queue@.len() - 1].0 == v);
                        } else if queued(qb, head as int, v) {
                            let j = choose|j: int| head <= j < qb.len() && (#[trigger] qb[j]).0 == v;
                            assert(queue@[j] == qb[j]);
                        } else {
                            lemma_open_closed_grow(adj, cadj, vb, visited@, v);
                        }
                    }
                    assert forall|a: int, b: int| head <= a < b < queue@.len() implies queue@[a] != queue@[b] by {
                        if b == queue@.len() - 1 {
                            assert(vb[qb[a].0 as int] != 0);
                        }
                    }
                    lemma_count_free_update(vb, to.0 as int, 1);
                    let db = dep;
                    dep = dep.update(to.0 as int, lvl + 1);
                    let ti = to.0 as int;
                    assert(pb[ti] is None && ti != s);
                    assert(parents@ == pb.update(ti, Some(from)));
                    assert forall|v: int| 0 <= v < count && #[trigger] visited@[v] != 0 implies hops_back(parents@, s, v, dep[v]) && dep[v] <= lvl + 1 by {
                        if v == ti {
                            lemma_hops_update(pb, s, from.0 as int, lvl, ti, from);
                            assert(parents@[ti] == Some(from));
                        } else {
                            assert(vb[v] != 0);
                            lemma_hops_update(pb, s, v, db[v], ti, from);
                        }
                    }
                    assert forall|a: int| head <= a < queue@.len() implies lvl <= #[trigger] dep[queue@[a].0 as int] by {
                        if a < qb.len() {
                            assert(queue@[a] == qb[a]);
                            assert(vb[qb[a].0 as int] != 0);
                        }
                    }
                    assert forall|a: int, b: int|
                        #![trigger queue@[a], queue@[b]]
                        head <= a <= b < queue@.len() implies dep[queue@[a].0 as int] <= dep[queue@[b].0 as int] by {
                        if a < qb.len() {
                            assert(queue@[a] == qb[a]);
                            assert(vb[qb[a].0 as int] != 0);
                            if b < qb.len() {
                                assert(queue@[b] == qb[b]);
                                assert(vb[qb[b].0 as int] != 0);
                            }
                        }
                    }
                    assert forall|v: int|
                        0 <= v < count && #[trigger] visited@[v] != 0 && v != from.0 && !queued(queue@, head as int, v) implies dep[v] <= lvl
                            && open_level(adj, cadj, dep, v) by {
                        assert(v != ti) by {
                            if v == ti {
                                assert(queue@[queue@.len() - 1].0 == v);
                            }
                        }
                        assert(vb[v] != 0);
                        if queued(qb, head as int, v) {
                            let j = choose|j: int| head <= j < qb.len() && (#[trigger] qb[j]).0 == v;
                            assert(queue@[j] == qb[j]);
                        }
                        assert(open_closed(adj, cadj, vb, v));
                        assert forall|j: int|
                            0 <= j < adj[v].len() && can_take(cadj, v, adj[v][j].0 as int) implies dep[#[trigger] adj[v][j].0 as int] <= dep[v]
                            + 1 by {
                            assert(vb[adj[v][j].0 as int] != 0);
                            assert(open_level(adj, cadj, db, v));
                        }
                    }
                    assert forall|j: int|
                        0 <= j < i + 1 && can_take(cadj, from.0 as int, adj[from.0 as int][j].0 as int)
                            implies dep[#[trigger] adj[from.0 as int][j].0 as int] <= lvl + 1 by {
                        let w = adj[from.0 as int][j].0 as int;
                        if w != ti && j < i {
                            assert(vb[w] != 0);
                            assert(db[w] <= lvl + 1);
                        }
                    }
                    ord = ord.update(to.0 as int, k);
                    k = k + 1;
                    assert(fw(cadj, from.0 as int, to.0 as int) is Some);
                    assert forall|v: int| 0 <= v < count && v != s && (#[trigger] parents@[v]) is Some implies ({
                        let u = parents@[v].unwrap().0 as int;
                        &&& 0 <= u < parents@.len()
                        &&& (u == s || parents@[u] is Some)
                        &&& ord[u] < ord[v]
                        &&& fw(cadj, u, v) is Some
                        &&& fw(cadj, u, v).unwrap().spec_res() > 0
                    }) by {
                        if v != to.0 {
                            assert(parents@[v] == pb[v]);
                            let u = pb[v].unwrap().0 as int;
                            assert(u != to.0);
                        }
                    }
                }
            }
            i = i + 1;
        }
    }
    proof {
        assert forall|v: int| 0 <= v < adj.len() && visited@[v] != 0 implies #[trigger] open_closed(adj, cadj, visited@, v) by {
            assert(!queued(queue@, head as int, v));
        }
        if visited@[sink.0 as int] != 0 {
            assert(!queued(queue@, head as int, sink.0 as int));
        }
        lemma_open_unreachable(adj, cadj, visited@, s, sink.0 as int);
    }
    None
}

/// Sets what the edge `u -> v` can take to `c`: the first stored edge `u -> v` gets it, or a new
/// edge where there is none.
fn cap_set(cap: &mut AdjacencyList<(), i64, true>, u: NodeId, v: NodeId, c: i64)
    requires
        old(cap).spec_wf(),
        adj_wf(old(cap).spec_adj()),
        u.0 < old(cap).spec_nodes().len(),
        v.0 < old(cap).spec_nodes().len(),
        total_edges(old(cap).spec_adj()) < usize::MAX,
    ensures
        final(cap).spec_wf(),
        final(cap).spec_nodes() == old(cap).spec_nodes(),
        adj_wf(final(cap).spec_adj()),
        total_edges(final(cap).spec_adj()) <= total_edges(old(cap).spec_adj()) + 1,
        forall|a: int, b: int|
            0 <= a < old(cap).spec_nodes().len() && 0 <= b < old(cap).spec_nodes().len() ==> #[trigger] fw(
                final(cap).spec_adj(),
                a,
                b,
            ) == if a == u.0 && b == v.0 {
                Some(c)
            } else {
                fw(old(cap).spec_adj(), a, b)
            },
{
    proof {
        cap.lemma_wf();
        lemma_first_edge(cap.spec_adj()[u.0 as int], v.0);
    }
    let _ = cap.node_count();
    let ghost c0 = cap.spec_adj();
    match cap.replace_weight(u, v, c) {
        Some(_) => {
            proof {
                lemma_replace_first(c0, u.0 as int, v.0, c);
                let f = first_edge(c0[u.0 as int], v.0).unwrap();
                let c1 = cap.spec_adj();
                assert forall|a: int, j: int| 0 <= a < c1.len() && 0 <= j < c1[a].len() implies #[trigger] c1[a][j].0 < c1.len() by {
                    assert(c1[a][j].0 == c0[a][j].0);
                }
                lemma_total_edges_update(c0, u.0 as int, c0[u.0 as int].update(f, (v.0, c)));
            }
        },
        None => {
            cap.insert_edge(u, v, c);
            proof {
                lemma_push_fw(c0, u.0 as int, v.0, c);
                lemma_adj_wf_push(c0, u.0 as int, v.0, c);
                lemma_total_edges_update(c0, u.0 as int, c0[u.0 as int].push((v.0, c)));
            }
        },
    }
}

/// A graph for computing flows: the graph, with an edge added against every edge that has no
/// edge back, and what each edge can still take, by its two ends.
pub struct ResidualGraph<N> {
    pub graph: AdjacencyList<N, i64, true>,
    pub capacity: AdjacencyList<(), i64, true>,
}

impl<N> ResidualGraph<N> {
    /// The residual graph is ready to carry flow from `source` to `sink`: see `_ford_fulkerson`.
    pub open spec fn ready(&self, source: NodeId, sink: NodeId) -> bool {
        &&& self.graph.spec_wf()
        &&& self.capacity.spec_wf()
        &&& adj_wf(self.graph.spec_adj())
        &&& adj_wf(self.capacity.spec_adj())
        &&& self.graph.spec_nodes().len() == self.capacity.spec_nodes().len()
        &&& source.0 < self.graph.spec_nodes().len()
        &&& sink.0 < self.graph.spec_nodes().len()
        &&& source != sink
        &&& flow_ready(self.capacity.spec_adj())
        &&& out_res(self.capacity.spec_adj(), source.0 as int, self.capacity.spec_nodes().len() as int) <= i64::MAX
    }

    /// Edmonds and Karp's method on the capacities: augments along shortest paths of the graph
    /// whose edges can still take more, and returns the total sent, which is what the edges
    /// leaving `source` lost of their capacity.
    pub fn edmonds_karp(&mut self, source: NodeId, sink: NodeId) -> (r: i64)
        requires
            old(self).ready(source, sink),
        ensures
            final(self).graph == old(self).graph,
            final(self).capacity.spec_wf(),
            final(self).capacity.spec_nodes() == old(self).capacity.spec_nodes(),
            same_shape(old(self).capacity.spec_adj(), final(self).capacity.spec_adj()),
            flow_ready(final(self).capacity.spec_adj()),
            r == out_res(old(self).capacity.spec_adj(), source.0 as int, old(self).capacity.spec_nodes().len() as int)
                - out_res(final(self).capacity.spec_adj(), source.0 as int, old(self).capacity.spec_nodes().len() as int),
            flow_added(old(self).capacity.spec_adj(), final(self).capacity.spec_adj(), source.0 as int, sink.0 as int),
            forall|steps: Seq<(int, int)>|
                open_walk(final(self).graph.spec_adj(), final(self).capacity.spec_adj(), source.0 as int, steps)
                    ==> #[trigger] walk_end(final(self).graph.spec_adj(), source.0 as int, steps) != sink.0,
    {
        let graph = &self.graph;
        let sp = |g: &AdjacencyList<(), i64, true>, s: NodeId, t: NodeId| -> (o: Option<Parents>)
            requires
                g.spec_wf(),
                adj_wf(g.spec_adj()),
                s.0 < g.spec_nodes().len(),
                t.0 < g.spec_nodes().len(),
                graph.spec_wf(),
                adj_wf(graph.spec_adj()),
            ensures
                o matches Some(p) ==> augmenting(g.spec_adj(), p@, s.0 as int, t.0 as int),
                o matches Some(p) ==> fewest_open_hops(graph.spec_adj(), g.spec_adj(), p@, s.0 as int, t.0 as int),
                o is None && g.spec_nodes().len() == graph.spec_nodes().len() ==> forall|steps: Seq<(int, int)>|
                    open_walk(graph.spec_adj(), g.spec_adj(), s.0 as int, steps) ==> #[trigger] walk_end(
                        graph.spec_adj(),
                        s.0 as int,
                        steps,
                    ) != t.0,
            {
                if graph.node_count() == g.node_count() {
                    residual_bfs(graph, g, s, t)
                } else {
                    None
                }
            };
        proof {
            self.capacity.lemma_wf();
        }
        let r = _ford_fulkerson(&mut self.capacity, source, sink, sp);
        proof {
            self.capacity.lemma_wf();
            assert(sp.requires((&self.capacity, source, sink)));
            assert(sp.ensures((&self.capacity, source, sink), None::<Parents>));
        }
        r
    }
}

/// The weight of the last stored edge of `out` that leads to `to`, if any.
pub open spec fn last_weight(out: Seq<(usize, i64)>, to: usize) -> Option<i64>
    decreases out.len(),
{
    if out.len() == 0 {
        None
    } else if out.last().0 == to {
        Some(out.last().1)
    } else {
        last_weight(out.drop_last(), to)
    }
}

/// What the edge `a -> b` of the residual graph of `adj` can take at the start: the weight of
/// the last edge `a -> b`, or nothing where only edges `b -> a` join the two nodes.
pub open spec fn residual_capacity(adj: Seq<Seq<(usize, i64)>>, a: int, b: int) -> Option<i64> {
    if last_weight(adj[a], b as usize) is Some {
        last_weight(adj[a], b as usize)
    } else if last_weight(adj[b], a as usize) is Some {
        Some(0)
    } else {
        None
    }
}

/// The last weight of an edge `a -> b` among the edges met so far, when all lists before `u`
/// and the first `k` edges of list `u` have been met.
spec fn seen(adj: Seq<Seq<(usize, i64)>>, u: int, k: int, a: int, b: int) -> Option<i64> {
    if a < u {
        last_weight(adj[a], b as usize)
    } else if a == u {
        last_weight(adj[u].take(k), b as usize)
    } else {
        None
    }
}

/// What the capacities hold for `a -> b` at that point.
spec fn cap_mid(adj: Seq<Seq<(usize, i64)>>, u: int, k: int, a: int, b: int) -> Option<i64> {
    if seen(adj, u, k, a, b) is Some {
        seen(adj, u, k, a, b)
    } else if seen(adj, u, k, b, a) is Some && last_weight(adj[a], b as usize) is None {
        Some(0)
    } else {
        None
    }
}

/// A list has no edge to `to` exactly when it has no last one.
proof fn lemma_last_weight(out: Seq<(usize, i64)>, to: usize)
    ensures
        (last_weight(out, to) is None) == (forall|j: int| 0 <= j < out.len() ==> #[trigger] out[j].0 != to),
    decreases out.len(),
{
    if out.len() > 0 {
        lemma_last_weight(out.drop_last(), to);
        if last_weight(out, to) is None {
            assert forall|j: int| 0 <= j < out.len() implies #[trigger] out[j].0 != to by {
                if j < out.len() - 1 {
                    assert(out[j] == out.drop_last()[j]);
                }
            }
        } else if out.last().0 != to {
            let j = choose|j: int| 0 <= j < out.drop_last().len() && #[trigger] out.drop_last()[j].0 == to;
            assert(out[j] == out.drop_last()[j]);
        }
    }
}

/// Where no edge to `to` comes before position `k` and the edge there leads to `to`, it is
/// the first one.
proof fn lemma_first_at(out: Seq<(usize, i64)>, k: int, to: usize)
    requires
        0 <= k < out.len(),
        out[k].0 == to,
        last_weight(out.take(k), to) is None,
    ensures
        first_edge(out, to) == Some(k),
{
    lemma_last_weight(out.take(k), to);
    lemma_first_edge(out, to);
    if first_edge(out, to) != Some(k) {
        let i = first_edge(out, to).unwrap();
        assert(out.take(k)[i].0 == to);
    }
}

impl<N: Copy> ResidualGraph<N> {
    /// The residual graph of `graph`: every edge gets, where the graph has no edge back, an
    /// edge back of the same weight that can take nothing yet; every edge can take its weight
    /// (the last one stored, where several join the same two nodes).
    pub fn from(g: &AdjacencyList<N, i64, true>) -> (r: Self)
        requires
            g.spec_wf(),
            adj_wf(g.spec_adj()),
            2 * total_edges(g.spec_adj()) < usize::MAX,
        ensures
            r.graph.spec_wf(),
            r.capacity.spec_wf(),
            adj_wf(r.graph.spec_adj()),
            adj_wf(r.capacity.spec_adj()),
            r.graph.spec_nodes() == g.spec_nodes(),
            r.capacity.spec_nodes().len() == g.spec_nodes().len(),
            forall|a: int, b: int|
                0 <= a < g.spec_nodes().len() && 0 <= b < g.spec_nodes().len() ==> {
                    &&& #[trigger] fw(r.capacity.spec_adj(), a, b) == residual_capacity(g.spec_adj(), a, b)
                    &&& (fw(r.graph.spec_adj(), a, b) is Some) == (last_weight(g.spec_adj()[a], b as usize) is Some
                        || last_weight(g.spec_adj()[b], a as usize) is Some)
                    &&& last_weight(g.spec_adj()[a], b as usize) is Some ==> fw(r.graph.spec_adj(), a, b) == fw(
                        g.spec_adj(),
                        a,
                        b,
                    )
                    &&& last_weight(g.spec_adj()[a], b as usize) is None && last_weight(g.spec_adj()[b], a as usize) is Some
                        ==> fw(r.graph.spec_adj(), a, b) == fw(g.spec_adj(), b, a)
                },
    {
        proof {
            g.lemma_wf();
        }
        let ghost adj = g.spec_adj();
        let n = g.node_count();
        let mut graph = copy_graph(g);
        let mut units: Vec<()> = Vec::new();
        let mut i: usize = 0;
        while i < n
            invariant
                i <= n,
                units@.len() == i,
            decreases n - i,
        {
            units.push(());
            i = i + 1;
        }
        let mut capacity: AdjacencyList<(), i64, true> = AdjacencyList::with_nodes(units);
        proof {
            crate::graph_impl::adjacency_list::lemma_total_zero(capacity.spec_adj());
            assert forall|a: int, b: int| 0 <= a < n && 0 <= b < n implies {
                &&& #[trigger] fw(capacity.spec_adj(), a, b) == cap_mid(adj, 0, 0, a, b)
                &&& (fw(graph.spec_adj(), a, b) is Some) == (last_weight(adj[a], b as usize) is Some || seen(adj, 0, 0, b, a) is Some)
                &&& last_weight(adj[a], b as usize) is Some ==> fw(graph.spec_adj(), a, b) == fw(adj, a, b)
                &&& last_weight(adj[a], b as usize) is None && seen(adj, 0, 0, b, a) is Some ==> fw(graph.spec_adj(), a, b) == fw(adj, b, a)
            } by {
                assert(adj[0].take(0).len() == 0);
                lemma_last_weight(adj[a], b as usize);
                lemma_first_edge(adj[a], b as usize);
                lemma_first_edge(capacity.spec_adj()[a], b as usize);
            }
        }
        let mut u: usize = 0;
        while u < n
            invariant
                g.spec_wf(),
                adj == g.spec_adj(),
                adj_wf(adj),
                n == adj.len(),
                n == g.spec_nodes().len(),
                2 * total_edges(adj) < usize::MAX,
                u <= n,
                graph.spec_wf(),
                graph.spec_nodes() == g.spec_nodes(),
                adj_wf(graph.spec_adj()),
                total_edges(graph.spec_adj()) <= total_edges(adj) + total_edges(adj.take(u as int)),
                capacity.spec_wf(),
                capacity.spec_nodes().len() == n,
                adj_wf(capacity.spec_adj()),
                total_edges(capacity.spec_adj()) <= 2 * total_edges(adj.take(u as int)),
                forall|a: int, b: int|
                    0 <= a < n && 0 <= b < n ==> {
                        &&& #[trigger] fw(capacity.spec_adj(), a, b) == cap_mid(adj, u as int, 0, a, b)
                        &&& (fw(graph.spec_adj(), a, b) is Some) == (last_weight(adj[a], b as usize) is Some || seen(adj, u as int, 0, b, a) is Some)
                        &&& last_weight(adj[a], b as usize) is Some ==> fw(graph.spec_adj(), a, b) == fw(adj, a, b)
                        &&& last_weight(adj[a], b as usize) is None && seen(adj, u as int, 0, b, a) is Some ==> fw(graph.spec_adj(), a, b) == fw(adj, b, a)
                    },
            decreases n - u,
        {
            let edges = g.iter_adjacent_edges(NodeId(u));
            proof {
                lemma_total_edges_prefix(adj, u as int + 1);
                assert(adj.take(u + 1).drop_last() =~= adj.take(u as int));
            }
            let mut k: usize = 0;
            while k < edges.len()
                invariant
                    g.spec_wf(),
                    adj == g.spec_adj(),
                    adj_wf(adj),
                    n == adj.len(),
                    n == g.spec_nodes().len(),
                    2 * total_edges(adj) < usize::MAX,
                    u < n,
                    edges@.len() == adj[u as int].len(),
                    forall|j: int|
                        0 <= j < edges@.len() ==> (#[trigger] edges@[j]).edge_id.to.0 == adj[u as int][j].0
                            && edges@[j].weight == adj[u as int][j].1,
                    total_edges(adj.take(u as int)) + adj[u as int].len() <= total_edges(adj),
                    k <= edges@.len(),
                    graph.spec_wf(),
                    graph.spec_nodes() == g.spec_nodes(),
                    adj_wf(graph.spec_adj()),
                    total_edges(graph.spec_adj()) <= total_edges(adj) + total_edges(adj.take(u as int)) + k,
                    capacity.spec_wf(),
                    capacity.spec_nodes().len() == n,
                    adj_wf(capacity.spec_adj()),
                    total_edges(capacity.spec_adj()) <= 2 * (total_edges(adj.take(u as int)) + k),
                    forall|a: int, b: int|
                        0 <= a < n && 0 <= b < n ==> {
                            &&& #[trigger] fw(capacity.spec_adj(), a, b) == cap_mid(adj, u as int, k as int, a, b)
                            &&& (fw(graph.spec_adj(), a, b) is Some) == (last_weight(adj[a], b as usize) is Some || seen(adj, u as int, k as int, b, a) is Some)
                            &&& last_weight(adj[a], b as usize) is Some ==> fw(graph.spec_adj(), a, b) == fw(adj, a, b)
                            &&& last_weight(adj[a], b as usize) is None && seen(adj, u as int, k as int, b, a) is Some ==> fw(graph.spec_adj(), a, b) == fw(adj, b, a)
                        },
                decreases edges@.len() - k,
            {
                let e = edges[k];
                let v = e.edge_id.to;
                let ghost w = e.weight;
                let ghost row = adj[u as int];
                proof {
                    assert(edges@[k as int].edge_id.to.0 == adj[u as int][k as int].0);
                    assert(v.0 < n);
                    assert(row.take(k + 1).drop_last() =~= row.take(k as int));
                    assert(row.take(k + 1).last() == row[k as int]);
                    assert(row[k as int] == (v.0, w));
                    lemma_last_weight(row, v.0);
                    lemma_last_weight(adj[v.0 as int], u);
                }
                let ghost g0 = graph.spec_adj();
                let ghost c0 = capacity.spec_adj();
                proof {
                    assert(fw(c0, v.0 as int, u as int) == cap_mid(adj, u as int, k as int, v.0 as int, u as int));
                    assert(fw(c0, u as int, v.0 as int) == cap_mid(adj, u as int, k as int, u as int, v.0 as int));
                }
                if !graph.contains_edge_id(EdgeId { from: v, to: NodeId(u) }) {
                    proof {
                        graph.lemma_wf();
                        assert(fw(g0, v.0 as int, u as int) is None);
                        assert(last_weight(adj[v.0 as int], u) is None);
                        assert(u != v.0);
                        lemma_first_at(row, k as int, v.0);
                    }
                    graph.insert_edge(v, NodeId(u), e.weight);
                    proof {
                        lemma_adj_wf_push(g0, v.0 as int, u, e.weight);
                        lemma_total_edges_update(g0, v.0 as int, g0[v.0 as int].push((u, e.weight)));
                    }
                    cap_set(&mut capacity, v, NodeId(u), 0);
                    let ghost c1 = capacity.spec_adj();
                    cap_set(&mut capacity, NodeId(u), v, e.weight);
                    proof {
                        let g1 = graph.spec_adj();
                        assert forall|a: int, b: int| 0 <= a < n && 0 <= b < n implies {
                            &&& #[trigger] fw(capacity.spec_adj(), a, b) == cap_mid(adj, u as int, k + 1, a, b)
                            &&& (fw(g1, a, b) is Some) == (last_weight(adj[a], b as usize) is Some || seen(adj, u as int, k + 1, b, a) is Some)
                            &&& last_weight(adj[a], b as usize) is Some ==> fw(g1, a, b) == fw(adj, a, b)
                            &&& last_weight(adj[a], b as usize) is None && seen(adj, u as int, k + 1, b, a) is Some ==> fw(g1, a, b) == fw(adj, b, a)
                        } by {
                            assert(fw(c0, a, b) == cap_mid(adj, u as int, k as int, a, b));
                            assert(fw(c0, b, a) == cap_mid(adj, u as int, k as int, b, a));
                            assert(fw(g0, a, b) is Some == (last_weight(adj[a], b as usize) is Some || seen(adj, u as int, k as int, b, a) is Some));
                            assert(fw(g0, v.0 as int, u as int) is None);
                            if a == v.0 {
                                lemma_first_edge_push(g0[a], (u, w), b as usize);
                                assert(g1[a] == g0[a].push((u, w)));
                            } else {
                                assert(g1[a] == g0[a]);
                            }
                            if a == u && b == v.0 {
                                assert(fw(capacity.spec_adj(), a, b) == cap_mid(adj, u as int, k + 1, a, b));
                                assert((fw(g1, a, b) is Some) == (last_weight(adj[a], b as usize) is Some || seen(adj, u as int, k + 1, b, a) is Some));
                                assert(last_weight(adj[a], b as usize) is Some ==> fw(g1, a, b) == fw(adj, a, b));
                                assert(last_weight(adj[a], b as usize) is None && seen(adj, u as int, k + 1, b, a) is Some ==> fw(g1, a, b) == fw(adj, b, a));
                            } else if a == v.0 && b == u {
                                assert(seen(adj, u as int, k as int, a, b) is None);
                                assert(fw(capacity.spec_adj(), a, b) == cap_mid(adj, u as int, k + 1, a, b));
                                assert((fw(g1, a, b) is Some) == (last_weight(adj[a], b as usize) is Some || seen(adj, u as int, k + 1, b, a) is Some));
                                assert(last_weight(adj[a], b as usize) is Some ==> fw(g1, a, b) == fw(adj, a, b));
                                assert(last_weight(adj[a], b as usize) is None && seen(adj, u as int, k + 1, b, a) is Some ==> fw(g1, a, b) == fw(adj, b, a));
                            } else {
                                assert(seen(adj, u as int, k + 1, a, b) == seen(adj, u as int, k as int, a, b));
                                assert(seen(adj, u as int, k + 1, b, a) == seen(adj, u as int, k as int, b, a));
                                if a == v.0 && first_edge(g0[a], b as usize) is Some {
                                    let i = first_edge(g0[a], b as usize).unwrap();
                                    lemma_first_edge(g0[a], b as usize);
                                    assert(g1[a][i] == g0[a][i]);
                                }
                                assert(fw(g1, a, b) == fw(g0, a, b));
                                assert(fw(capacity.spec_adj(), a, b) == cap_mid(adj, u as int, k + 1, a, b));
                                assert((fw(g1, a, b) is Some) == (last_weight(adj[a], b as usize) is Some || seen(adj, u as int, k + 1, b, a) is Some));
                                assert(last_weight(adj[a], b as usize) is Some ==> fw(g1, a, b) == fw(adj, a, b));
                                assert(last_weight(adj[a], b as usize) is None && seen(adj, u as int, k + 1, b, a) is Some ==> fw(g1, a, b) == fw(adj, b, a));
                            }
                        }
                    }
                } else {
                    cap_set(&mut capacity, NodeId(u), v, e.weight);
                    proof {
                        assert forall|a: int, b: int| 0 <= a < n && 0 <= b < n implies {
                            &&& #[trigger] fw(capacity.spec_adj(), a, b) == cap_mid(adj, u as int, k + 1, a, b)
                            &&& (fw(g0, a, b) is Some) == (last_weight(adj[a], b as usize) is Some || seen(adj, u as int, k + 1, b, a) is Some)
                            &&& last_weight(adj[a], b as usize) is Some ==> fw(g0, a, b) == fw(adj, a, b)
                            &&& last_weight(adj[a], b as usize) is None && seen(adj, u as int, k + 1, b, a) is Some ==> fw(g0, a, b) == fw(adj, b, a)
                        } by {
                            assert(fw(c0, a, b) == cap_mid(adj, u as int, k as int, a, b));
                            assert(fw(g0, a, b) is Some == (last_weight(adj[a], b as usize) is Some || seen(adj, u as int, k as int, b, a) is Some));
                            assert(fw(g0, v.0 as int, u as int) is Some == (last_weight(adj[v.0 as int], u) is Some || seen(adj, u as int, k as int, u as int, v.0 as int) is Some));
                            if a == u && b == v.0 {
                            } else if a == v.0 && b == u {
                            } else {
                                assert(seen(adj, u as int, k + 1, a, b) == seen(adj, u as int, k as int, a, b));
                                assert(seen(adj, u as int, k + 1, b, a) == seen(adj, u as int, k as int, b, a));
                            }
                        }
                    }
                }
                k = k + 1;
            }
            proof {
                assert(adj[u as int].take(adj[u as int].len() as int) =~= adj[u as int]);
                assert forall|a: int, b: int| 0 <= a < n && 0 <= b < n implies #[trigger] seen(adj, u as int, k as int, a, b) == seen(adj, u + 1, 0, a, b) by {
                    if a == u + 1 {
                        assert(adj[a].take(0).len() == 0);
                    }
                }
            }
            u = u + 1;
        }
        ResidualGraph { graph, capacity }
    }
}

} // verus!
