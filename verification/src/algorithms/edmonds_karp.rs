use crate::algorithms::ford_fulkerson::{_edmonds_karp, flow_added, flow_ready, same_fixed, fw, out_res, pair_ok, room, same_shape, walk_by, Residual};
use crate::graph::walk::walk_end;
use crate::graph::index::{EdgeId, NodeId};
use crate::graph::traits::{
    adj_wf, edge_weight, first_edge, lemma_first_edge, lemma_first_edge_push, lemma_total_edges_prefix, lemma_total_edges_update,
    total_edges, Base, Contains, Count, Create, Get, Index, Insert, IterAdjacent,
};
use crate::graph::weight::{EdgeCost, FlowWeight};
use crate::graph_impl::adjacency_list::{lemma_total_zero, AdjacencyList};
use vstd::prelude::*;

verus! {

/// The edge of the flow network that stands for an edge of cost `c`: it can carry `c`.
pub open spec fn forward_edge(c: i64) -> FlowWeight<i64> {
    FlowWeight { flow: 0, capacity: c, cost: c, rev: false }
}

/// The edge added against an edge of cost `c` that has no reverse: full, so that it can only
/// give back what went the other way.
pub open spec fn backward_edge(c: i64) -> FlowWeight<i64> {
    FlowWeight { flow: c, capacity: c, cost: (-c) as i64, rev: false }
}

/// Whether the edge at position `i` of node `a` comes before position `k` of node `u`.
pub open spec fn before(u: int, k: int, a: int, i: int) -> bool {
    a < u || (a == u && i < k)
}

/// The first edge `a -> b` of the flow network once the edges of `adj` before position `k` of
/// node `u` were taken in.
pub open spec fn built<W: EdgeCost>(adj: Seq<Seq<(usize, W)>>, u: int, k: int, a: int, b: int) -> Option<FlowWeight<i64>> {
    match first_edge(adj[a], b as usize) {
        Some(i) => if before(u, k, a, i) {
            Some(forward_edge(adj[a][i].1.spec_cost()))
        } else {
            None
        },
        None => match first_edge(adj[b], a as usize) {
            Some(j) => if before(u, k, b, j) {
                Some(backward_edge(adj[b][j].1.spec_cost()))
            } else {
                None
            },
            None => None,
        },
    }
}

/// Every edge costs at least zero, and where edges run both ways between two nodes, the costs
/// of their first edges add up to no more than the largest cost.
pub open spec fn capacities_ok<W: EdgeCost>(adj: Seq<Seq<(usize, W)>>) -> bool {
    &&& forall|u: int, k: int| 0 <= u < adj.len() && 0 <= k < adj[u].len() ==> 0 <= (#[trigger] adj[u][k]).1.spec_cost()
    &&& forall|a: int, b: int|
        0 <= a < adj.len() && 0 <= b < adj.len() && (#[trigger] edge_weight(adj, a as usize, b as usize)) is Some
            && edge_weight(adj, b as usize, a as usize) is Some ==> edge_weight(adj, a as usize, b as usize).unwrap().spec_cost()
            + edge_weight(adj, b as usize, a as usize).unwrap().spec_cost() <= i64::MAX
}

/// What the first edges `s -> v`, for `v` below `m`, cost together.
pub open spec fn out_cost<W: EdgeCost>(adj: Seq<Seq<(usize, W)>>, s: int, m: int) -> int
    decreases m,
{
    if m <= 0 {
        0
    } else {
        out_cost(adj, s, m - 1) + match edge_weight(adj, s as usize, (m - 1) as usize) {
            Some(w) => w.spec_cost(),
            None => 0,
        }
    }
}

/// Appending an edge `x -> y` changes the first edge `x -> y` when there was none, and
/// nothing else.
pub proof fn lemma_push_fw<W>(adj: Seq<Seq<(usize, W)>>, x: int, y: usize, w: W)
    requires
        0 <= x < adj.len() <= usize::MAX,
    ensures
        forall|a: int, b: int|
            0 <= a < adj.len() && 0 <= b <= usize::MAX ==> #[trigger] fw(adj.update(x, adj[x].push((y, w))), a, b) == if a
                == x && b == y && fw(adj, a, b) is None {
                Some(w)
            } else {
                fw(adj, a, b)
            },
{
    let adj2 = adj.update(x, adj[x].push((y, w)));
    assert forall|a: int, b: int| 0 <= a < adj.len() && 0 <= b <= usize::MAX implies #[trigger] fw(adj2, a, b) == if a == x && b == y
        && fw(adj, a, b) is None {
        Some(w)
    } else {
        fw(adj, a, b)
    } by {
        if a == x {
            lemma_first_edge_push(adj[x], (y, w), b as usize);
            lemma_first_edge(adj[x], b as usize);
            match first_edge(adj[x], b as usize) {
                Some(i) => {
                    assert(adj2[x][i] == adj[x][i]);
                },
                None => {},
            }
        } else {
            assert(adj2[a] == adj[a]);
        }
    }
}

/// Taking in the edge at position `k` of node `u` (and its reverse, where the graph has no
/// edge back) moves the network on by one position.
pub proof fn lemma_build_step<W: EdgeCost>(
    adj: Seq<Seq<(usize, W)>>,
    u: int,
    k: int,
    net: Seq<Seq<(usize, FlowWeight<i64>)>>,
    net2: Seq<Seq<(usize, FlowWeight<i64>)>>,
)
    requires
        adj_wf(adj),
        adj.len() == net.len() <= usize::MAX,
        0 <= u < adj.len(),
        0 <= k < adj[u].len(),
        forall|a: int, b: int| 0 <= a < adj.len() && 0 <= b < adj.len() ==> #[trigger] fw(net, a, b) == built(adj, u, k, a, b),
        ({
            let v = adj[u][k].0;
            let c = adj[u][k].1.spec_cost();
            let net1 = net.update(u, net[u].push((v, forward_edge(c))));
            net2 == if edge_weight(adj, v, u as usize) is None {
                net1.update(v as int, net1[v as int].push((u as usize, backward_edge(c))))
            } else {
                net1
            }
        }),
    ensures
        forall|a: int, b: int| 0 <= a < adj.len() && 0 <= b < adj.len() ==> #[trigger] fw(net2, a, b) == built(adj, u, k + 1, a, b),
{
    let v = adj[u][k].0;
    let c = adj[u][k].1.spec_cost();
    let net1 = net.update(u, net[u].push((v, forward_edge(c))));
    lemma_push_fw(net, u, v, forward_edge(c));
    assert(v < adj.len());
    lemma_first_edge(adj[u], v);
    let fi = first_edge(adj[u], v).unwrap();
    if edge_weight(adj, v, u as usize) is None {
        lemma_push_fw(net1, v as int, u as usize, backward_edge(c));
    }
    assert forall|a: int, b: int| 0 <= a < adj.len() && 0 <= b < adj.len() implies #[trigger] fw(net2, a, b) == built(adj, u, k + 1, a, b) by {
        lemma_first_edge(adj[a], b as usize);
        lemma_first_edge(adj[b], a as usize);
        assert(fw(net, a, b) == built(adj, u, k, a, b));
        if a == u && b == v {
            if fi == k {
            } else {
                assert(fi < k);
            }
        }
        if a == v && b == u {
            assert(fw(net, v as int, u) == built(adj, u, k, v as int, u));
        }
    }
}

/// The network built from all of `adj` is ready to carry flow.
pub proof fn lemma_built_ready<W: EdgeCost>(adj: Seq<Seq<(usize, W)>>, net: Seq<Seq<(usize, FlowWeight<i64>)>>)
    requires
        adj_wf(adj),
        capacities_ok(adj),
        net.len() == adj.len() <= usize::MAX,
        forall|a: int, b: int|
            0 <= a < adj.len() && 0 <= b < adj.len() ==> #[trigger] fw(net, a, b) == built(adj, adj.len() as int, 0, a, b),
    ensures
        flow_ready(net),
{
    let n = adj.len() as int;
    assert forall|u: int, v: int| 0 <= u < n && 0 <= v < n && (#[trigger] fw(net, u, v)) is Some implies pair_ok(net, u, v) by {
        lemma_first_edge(adj[u], v as usize);
        lemma_first_edge(adj[v], u as usize);
        assert(fw(net, v, u) == built(adj, n, 0, v, u));
        match first_edge(adj[u], v as usize) {
            Some(i) => {
                assert(0 <= adj[u][i].1.spec_cost());
                match first_edge(adj[v], u as usize) {
                    Some(j) => {
                        assert(0 <= adj[v][j].1.spec_cost());
                        assert(edge_weight(adj, u as usize, v as usize) is Some);
                    },
                    None => {},
                }
            },
            None => {
                let j = first_edge(adj[v], u as usize).unwrap();
                assert(0 <= adj[v][j].1.spec_cost());
            },
        }
    }
}

/// What the edges built from the edges leaving `s` can take is what those edges cost.
pub proof fn lemma_built_out<W: EdgeCost>(adj: Seq<Seq<(usize, W)>>, net: Seq<Seq<(usize, FlowWeight<i64>)>>, s: int, m: int)
    requires
        adj_wf(adj),
        capacities_ok(adj),
        net.len() == adj.len() <= usize::MAX,
        0 <= s < adj.len(),
        m <= adj.len(),
        forall|a: int, b: int|
            0 <= a < adj.len() && 0 <= b < adj.len() ==> #[trigger] fw(net, a, b) == built(adj, adj.len() as int, 0, a, b),
    ensures
        out_res(net, s, m) == out_cost(adj, s, m),
    decreases m,
{
    if m > 0 {
        lemma_built_out(adj, net, s, m - 1);
        let v = m - 1;
        lemma_first_edge(adj[s], v as usize);
        lemma_first_edge(adj[v], s as usize);
        assert(fw(net, s, v) == built(adj, adj.len() as int, 0, s, v));
    }
}

/// Edmonds and Karp's maximum flow from `source` to `sink`, where each edge can carry as much
/// as it costs: builds the flow network (each edge as is, with an empty reverse where the graph
/// has no edge back) and runs `_edmonds_karp` on it.
pub fn edmonds_karp<G: Index + IterAdjacent + Count + Get>(graph: &G, source: NodeId, sink: NodeId) -> (r: i64)
    where
        G::Weight: EdgeCost + Copy,
    requires
        graph.spec_wf(),
        adj_wf(graph.spec_adj()),
        source.0 < graph.spec_nodes().len(),
        sink.0 < graph.spec_nodes().len(),
        source != sink,
        capacities_ok(graph.spec_adj()),
        out_cost(graph.spec_adj(), source.0 as int, graph.spec_nodes().len() as int) <= i64::MAX,
        2 * total_edges(graph.spec_adj()) < usize::MAX,
    ensures
        exists|net0: Seq<Seq<(usize, FlowWeight<i64>)>>, net: Seq<Seq<(usize, FlowWeight<i64>)>>|
            {
                &&& net0.len() == graph.spec_nodes().len()
                &&& forall|a: int, b: int|
                    0 <= a < net0.len() && 0 <= b < net0.len() ==> #[trigger] fw(net0, a, b) == built(
                        graph.spec_adj(),
                        net0.len() as int,
                        0,
                        a,
                        b,
                    )
                &&& same_shape(net0, net)
                &&& flow_ready(net)
                &&& flow_added(net0, net, source.0 as int, sink.0 as int)
                &&& same_fixed(net0, net)
                &&& r == out_res(net0, source.0 as int, net0.len() as int) - out_res(net, source.0 as int, net0.len() as int)
                &&& forall|steps: Seq<(int, int)>|
                    walk_by(net, source.0 as int, steps, room::<FlowWeight<i64>>()) ==> #[trigger] walk_end(
                        net,
                        source.0 as int,
                        steps,
                    ) != sink.0
            },
{
    proof {
        graph.lemma_wf();
    }
    let ghost adj = graph.spec_adj();
    let n = graph.node_count();
    let mut units: Vec<()> = Vec::new();
    let mut i: usize = 0;
    while i < n
        invariant
            i <= n,
            units@.len() == i,
        decreases n - i,
    {
        units.push(());
        i = i + 1;
    }
    let mut net: AdjacencyList<(), FlowWeight<i64>, true> = AdjacencyList::with_nodes(units);
    proof {
        net.lemma_wf();
        lemma_total_zero(net.spec_adj());
        assert forall|a: int, b: int| 0 <= a < n && 0 <= b < n implies #[trigger] fw(net.spec_adj(), a, b) == built(adj, 0, 0, a, b) by {
            lemma_first_edge(adj[a], b as usize);
            lemma_first_edge(adj[b], a as usize);
        }
    }
    let mut u: usize = 0;
    while u < n
        invariant
            graph.spec_wf(),
            adj == graph.spec_adj(),
            adj_wf(adj),
            capacities_ok(adj),
            n == adj.len(),
            n == graph.spec_nodes().len(),
            2 * total_edges(adj) < usize::MAX,
            u <= n,
            net.spec_wf(),
            net.spec_nodes().len() == n,
            net.spec_adj().len() == n,
            adj_wf(net.spec_adj()),
            total_edges(net.spec_adj()) <= 2 * total_edges(adj.take(u as int)),
            forall|a: int, b: int| 0 <= a < n && 0 <= b < n ==> #[trigger] fw(net.spec_adj(), a, b) == built(adj, u as int, 0, a, b),
        decreases n - u,
    {
        let edges = graph.iter_adjacent_edges(NodeId(u));
        proof {
            lemma_total_edges_prefix(adj, u as int + 1);
            assert(adj.take(u + 1).drop_last() =~= adj.take(u as int));
        }
        let mut k: usize = 0;
        while k < edges.len()
            invariant
                graph.spec_wf(),
                adj == graph.spec_adj(),
                adj_wf(adj),
                capacities_ok(adj),
                n == adj.len(),
                n == graph.spec_nodes().len(),
                2 * total_edges(adj) < usize::MAX,
                u < n,
                edges@.len() == adj[u as int].len(),
                forall|j: int|
                    0 <= j < edges@.len() ==> (#[trigger] edges@[j]).edge_id.to.0 == adj[u as int][j].0 && edges@[j].weight
                        == adj[u as int][j].1,
                total_edges(adj.take(u as int)) + adj[u as int].len() <= total_edges(adj),
                k <= edges@.len(),
                net.spec_wf(),
                net.spec_nodes().len() == n,
                net.spec_adj().len() == n,
                adj_wf(net.spec_adj()),
                total_edges(net.spec_adj()) <= 2 * (total_edges(adj.take(u as int)) + k),
                forall|a: int, b: int| 0 <= a < n && 0 <= b < n ==> #[trigger] fw(net.spec_adj(), a, b) == built(adj, u as int, k as int, a, b),
            decreases edges@.len() - k,
        {
            let e = edges[k];
            let v = e.edge_id.to;
            let c = e.weight.cost();
            proof {
                assert(edges@[k as int].edge_id.to.0 == adj[u as int][k as int].0);
                assert(v.0 < n);
                assert(c == adj[u as int][k as int].1.spec_cost());
                assert(0 <= c);
            }
            let ghost net0 = net.spec_adj();
            net.insert_edge(NodeId(u), v, FlowWeight::new(c, c, 0));
            proof {
                assert(net.spec_adj() == net0.update(u as int, net0[u as int].push((v.0, forward_edge(c)))));
                lemma_total_edges_update(net0, u as int, net0[u as int].push((v.0, forward_edge(c))));
            }
            if !graph.contains_edge_id(EdgeId { from: v, to: NodeId(u) }) {
                let ghost net1 = net.spec_adj();
                net.insert_edge(v, NodeId(u), FlowWeight::new(c, -c, c));
                proof {
                    assert(net.spec_adj() == net1.update(v.0 as int, net1[v.0 as int].push((u, backward_edge(c)))));
                    lemma_total_edges_update(net1, v.0 as int, net1[v.0 as int].push((u, backward_edge(c))));
                }
            }
            proof {
                let net1s = net0.update(u as int, net0[u as int].push((v.0, forward_edge(c))));
                let net2s = if edge_weight(adj, v.0, u) is None {
                    net1s.update(v.0 as int, net1s[v.0 as int].push((u, backward_edge(c))))
                } else {
                    net1s
                };
                assert(net.spec_adj() == net2s);
                lemma_build_step(adj, u as int, k as int, net0, net2s);
                assert forall|a: int, j: int| 0 <= a < net.spec_adj().len() && 0 <= j < net.spec_adj()[a].len() implies #[trigger] net.spec_adj()[a][j].0 < net.spec_adj().len() by {
                    if j < net0[a].len() {
                    }
                }
            }
            k = k + 1;
        }
        proof {
            assert forall|a: int, b: int| 0 <= a < n && 0 <= b < n implies #[trigger] fw(net.spec_adj(), a, b) == built(adj, u + 1, 0, a, b) by {
                lemma_first_edge(adj[a], b as usize);
                lemma_first_edge(adj[b], a as usize);
                assert(fw(net.spec_adj(), a, b) == built(adj, u as int, edges@.len() as int, a, b));
            }
        }
        u = u + 1;
    }
    proof {
        assert(adj.take(n as int) =~= adj);
    }
    let ghost net0 = net.spec_adj();
    proof {
        lemma_built_ready(adj, net0);
        lemma_built_out(adj, net0, source.0 as int, n as int);
    }
    let r = _edmonds_karp(&mut net, source, sink);
    proof {
        assert(forall|a: int, b: int| 0 <= a < net0.len() && 0 <= b < net0.len() ==> #[trigger] fw(net0, a, b) == built(adj, net0.len() as int, 0, a, b));
        assert(same_shape(net0, net.spec_adj()));
    }
    r
}

} // verus!
