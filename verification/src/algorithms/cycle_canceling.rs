use crate::algorithms::bellman_ford::{bellman_ford_cycle, room_link, Either};
use crate::algorithms::ford_fulkerson::{
    flow_added, flow_ready, fw, lemma_out_res_change, lemma_out_res_same, lemma_pairs_kept_trans, lemma_replace_first, lemma_replace_fixed, lemma_same_fixed_trans, lemma_same_shape_trans,
    out_res, pair_ok, pairs_kept, room, same_fixed, same_shape, walk_by, Residual,
};
use crate::graph::walk::walk_end;
use crate::algorithms::mcf::{balances, flow_cost, mcf_edge, mcf_input, network_cost, supply_sum, Mcf};
use crate::error::GraphError;
use crate::graph::index::{EdgeId, NodeId};
use crate::graph::node::BalancedNode;
use crate::graph::traits::{adj_wf, first_edge, lemma_first_edge, Base, Count, Get};
use crate::graph::weight::FlowWeight;
use crate::graph_impl::adjacency_list::AdjacencyList;
use crate::structures::route::{route_back_edge, route_edges};
use vstd::prelude::*;

verus! {

/// The weight after `b` more units went along the edge.
pub open spec fn sent(w: FlowWeight<i64>, b: int) -> FlowWeight<i64> {
    FlowWeight { flow: (w.flow + b) as i64, ..w }
}

/// Whether `cancel_pair` sends: the two nodes differ and the first stored edge `u -> v` can
/// take `b`.
pub open spec fn can_send(adj: Seq<Seq<(usize, FlowWeight<i64>)>>, u: int, v: int, b: int) -> bool {
    &&& u != v
    &&& fw(adj, u, v) is Some
    &&& fw(adj, u, v).unwrap().spec_res() >= b
}

/// Sends `b` more along the edge `u -> v` and takes `b` back along `v -> u`, when the two nodes
/// differ and the first stored edge `u -> v` can take `b`; otherwise changes nothing. Tells
/// whether it sent.
fn cancel_pair<N>(net: &mut AdjacencyList<N, FlowWeight<i64>, true>, u: NodeId, v: NodeId, b: i64) -> (r: bool)
    requires
        old(net).spec_wf(),
        adj_wf(old(net).spec_adj()),
        flow_ready(old(net).spec_adj()),
        u.0 < old(net).spec_nodes().len(),
        v.0 < old(net).spec_nodes().len(),
        0 < b,
    ensures
        final(net).spec_wf(),
        final(net).spec_nodes() == old(net).spec_nodes(),
        adj_wf(final(net).spec_adj()),
        same_shape(old(net).spec_adj(), final(net).spec_adj()),
        flow_ready(final(net).spec_adj()),
        r == can_send(old(net).spec_adj(), u.0 as int, v.0 as int, b as int),
        pairs_kept(old(net).spec_adj(), final(net).spec_adj()),
        same_fixed(old(net).spec_adj(), final(net).spec_adj()),
        !r ==> final(net).spec_adj() == old(net).spec_adj(),
        r ==> forall|a: int, c: int|
            0 <= a < old(net).spec_nodes().len() && 0 <= c < old(net).spec_nodes().len() ==> #[trigger] fw(
                final(net).spec_adj(),
                a,
                c,
            ) == if a == u.0 && c == v.0 {
                Some(sent(fw(old(net).spec_adj(), a, c).unwrap(), b as int))
            } else if a == v.0 && c == u.0 {
                Some(sent(fw(old(net).spec_adj(), a, c).unwrap(), -b))
            } else {
                fw(old(net).spec_adj(), a, c)
            },
{
    proof {
        net.lemma_wf();
    }
    let _ = net.node_count();
    let ghost adj1 = net.spec_adj();
    let ghost n = adj1.len();
    proof {
        assert forall|a: int, c: int| 0 <= a < n && 0 <= c < n && (#[trigger] fw(adj1, a, c)) is Some implies fw(adj1, c, a) is Some by {
            assert(pair_ok(adj1, a, c));
        }
        assert(pairs_kept(adj1, adj1));
        assert(same_fixed(adj1, adj1));
    }
    if u == v {
        return false;
    }
    let w = match net.weight(EdgeId { from: u, to: v }) {
        Some(w) => *w,
        None => {
            return false;
        },
    };
    proof {
        assert(fw(adj1, u.0 as int, v.0 as int) == Some(w));
        assert(pair_ok(adj1, u.0 as int, v.0 as int));
    }
    if w.residual() < b {
        return false;
    }
    let ghost wr0 = fw(adj1, v.0 as int, u.0 as int).unwrap();
    let nw = w.push(b);
    proof {
        lemma_first_edge(adj1[u.0 as int], v.0);
        lemma_replace_first(adj1, u.0 as int, v.0, nw);
        lemma_replace_fixed(adj1, adj1, u.0 as int, v.0, nw);
    }
    let _ = net.replace_weight(u, v, nw);
    let ghost adj2 = net.spec_adj();
    proof {
        assert(fw(adj2, v.0 as int, u.0 as int) == Some(wr0));
        lemma_first_edge(adj2[v.0 as int], u.0);
    }
    let wr = *net.weight(EdgeId { from: v, to: u }).unwrap();
    let nr = wr.pull(b);
    proof {
        lemma_replace_first(adj2, v.0 as int, u.0, nr);
        lemma_replace_fixed(adj1, adj2, v.0 as int, u.0, nr);
    }
    let _ = net.replace_weight(v, u, nr);
    proof {
        let adj3 = net.spec_adj();
        lemma_same_shape_trans(adj1, adj2, adj3);
        assert forall|a: int, c: int| 0 <= a < n && 0 <= c < n implies #[trigger] fw(adj3, a, c) == if a == u.0 && c == v.0 {
            Some(nw)
        } else if a == v.0 && c == u.0 {
            Some(nr)
        } else {
            fw(adj1, a, c)
        } by {}
        assert forall|a: int, c: int| 0 <= a < n && 0 <= c < n && (#[trigger] fw(adj3, a, c)) is Some implies pair_ok(adj3, a, c) by {
            assert(fw(adj3, c, a) == if c == u.0 && a == v.0 {
                Some(nw)
            } else if c == v.0 && a == u.0 {
                Some(nr)
            } else {
                fw(adj1, c, a)
            });
            assert(fw(adj1, a, c) is Some);
            assert(pair_ok(adj1, a, c));
        }
        assert forall|a: int, k: int| 0 <= a < adj3.len() && 0 <= k < adj3[a].len() implies #[trigger] adj3[a][k].0 < adj3.len() by {
            assert(adj3[a][k].0 == adj1[a][k].0);
        }
        assert forall|a: int, c: int| 0 <= a < n && 0 <= c < n && (#[trigger] fw(adj1, a, c)) is Some implies {
            &&& fw(adj3, a, c) is Some
            &&& fw(adj3, c, a) is Some
            &&& fw(adj1, c, a) is Some
            &&& fw(adj3, a, c).unwrap().spec_res() + fw(adj3, c, a).unwrap().spec_res() == fw(adj1, a, c).unwrap().spec_res() + fw(
                adj1,
                c,
                a,
            ).unwrap().spec_res()
        } by {
            assert(pair_ok(adj1, a, c));
            assert(fw(adj3, c, a) == if c == u.0 && a == v.0 {
                Some(nw)
            } else if c == v.0 && a == u.0 {
                Some(nr)
            } else {
                fw(adj1, c, a)
            });
        }
    }
    true
}

/// How often `w` starts an edge of `es`, less how often it ends one.
pub open spec fn net_starts(es: Seq<EdgeId>, w: int) -> int
    decreases es.len(),
{
    if es.len() == 0 {
        0
    } else {
        net_starts(es.drop_last(), w) + (if es.last().from.0 == w { 1int } else { 0int }) - (if es.last().to.0 == w {
            1int
        } else {
            0int
        })
    }
}

/// Along a chain of edges, each starting where the one before ends, every node but the first
/// start and the last end is entered as often as it is left.
proof fn lemma_net_starts_chain(es: Seq<EdgeId>, k: int, w: int)
    requires
        1 <= k <= es.len(),
        forall|j: int| 0 <= j < es.len() - 1 ==> (#[trigger] es[j]).to == es[j + 1].from,
    ensures
        net_starts(es.take(k), w) == (if es[0].from.0 == w { 1int } else { 0int }) - (if es[k - 1].to.0 == w {
            1int
        } else {
            0int
        }),
    decreases k,
{
    let t = es.take(k);
    assert(t.drop_last() =~= es.take(k - 1));
    assert(t.last() == es[k - 1]);
    if k > 1 {
        lemma_net_starts_chain(es, k - 1, w);
        assert(es[k - 2].to == es[k - 1].from);
    } else {
        assert(es.take(0) =~= Seq::<EdgeId>::empty());
        assert(net_starts(es.take(0), w) == 0);
    }
}

/// The edges of a cycle through distinct nodes form a closed chain: each starts where the one
/// before ends, the last ends where the first starts, no two start at the same node, and none
/// starts where it ends.
proof fn lemma_cycle_chain(route: Seq<NodeId>, es: Seq<EdgeId>)
    requires
        forall|i: int, j: int| 0 <= i < j < route.len() ==> route[i] != route[j],
        es == match route_back_edge(route) {
            Some(e) => route_edges(route).push(e),
            None => route_edges(route),
        },
    ensures
        es.len() >= 2 || es.len() == 0,
        es.len() >= 2 ==> forall|j: int| 0 <= j < es.len() - 1 ==> (#[trigger] es[j]).to == es[j + 1].from,
        es.len() >= 2 ==> es[es.len() - 1].to == es[0].from,
        forall|j: int| 0 <= j < es.len() ==> (#[trigger] es[j]).from != es[j].to,
        forall|i: int, j: int| 0 <= i < j < es.len() ==> (#[trigger] es[i]).from != (#[trigger] es[j]).from,
{
    if route.len() >= 2 {
        assert(route.last() != route[0]);
        assert(es.len() == route.len());
        assert forall|j: int| 0 <= j < es.len() implies (#[trigger] es[j]).from == route[j] by {
            if j < route.len() - 1 {
                assert(es[j] == route_edges(route)[j]);
            } else {
                assert(es[j] == route_back_edge(route).unwrap());
            }
        }
        assert forall|j: int| 0 <= j < es.len() - 1 implies (#[trigger] es[j]).to == es[j + 1].from by {
            assert(es[j] == route_edges(route)[j]);
            assert(es[j + 1].from == route[j + 1]);
        }
        assert(es[es.len() - 1] == route_back_edge(route).unwrap());
        assert forall|j: int| 0 <= j < es.len() implies (#[trigger] es[j]).from != es[j].to by {
            if j < route.len() - 1 {
                assert(es[j] == route_edges(route)[j]);
            } else {
                assert(es[j] == route_back_edge(route).unwrap());
            }
        }
        assert forall|i: int, j: int| 0 <= i < j < es.len() implies (#[trigger] es[i]).from != (#[trigger] es[j]).from by {
            assert(es[i].from == route[i]);
            assert(es[j].from == route[j]);
        }
    } else {
        assert(es.len() == 0);
    }
}

/// After sending `b` around a whole closed chain, every node sends as much as before.
proof fn lemma_cycle_balanced(es: Seq<EdgeId>, adj: Seq<Seq<(usize, FlowWeight<i64>)>>, cur: Seq<Seq<(usize, FlowWeight<i64>)>>, m: int, b: int)
    requires
        es.len() >= 2 ==> forall|j: int| 0 <= j < es.len() - 1 ==> (#[trigger] es[j]).to == es[j + 1].from,
        es.len() >= 2 ==> es[es.len() - 1].to == es[0].from,
        es.len() >= 2 || es.len() == 0,
        forall|w: int| 0 <= w < m ==> #[trigger] out_res(cur, w, m) == out_res(adj, w, m) - b * net_starts(es.take(es.len() as int), w),
    ensures
        forall|w: int| 0 <= w < m ==> #[trigger] out_res(cur, w, m) == out_res(adj, w, m),
{
    assert(es.take(es.len() as int) =~= es);
    assert forall|w: int| 0 <= w < m implies #[trigger] out_res(cur, w, m) == out_res(adj, w, m) by {
        if es.len() >= 2 {
            lemma_net_starts_chain(es, es.len() as int, w);
        } else {
            assert(es =~= Seq::<EdgeId>::empty());
            assert(net_starts(es, w) == 0);
        }
        assert(net_starts(es, w) == 0);
        assert(b * 0 == 0) by (nonlinear_arith);
    }
}

/// What `cycle_canceling` answers for a graph of `gnodes` and `gadj`: `nodes` are the nodes of
/// the network (the graph's, then a source and a sink that neither supply nor demand), `net0`
/// its edges as `Mcf::init` builds them and `net1` the edges after the largest flow from the
/// source (`Mcf::solvable`): `net0` with a flow from the source to the sink added, after which no
/// walk with room leads from the source to the sink. The answer is an error exactly when that
/// flow falls short of the supply; otherwise it is what the forward edges cost under a flow that
/// cancelling cycles reached from `net1`: the same edges with the same capacities, costs and
/// directions, each edge and its reverse taking together what they took in `net1`, and every
/// node sending as much as in `net1`, so that only flow around cycles was added.
pub open spec fn canceled<N>(
    gnodes: Seq<BalancedNode<N, i64>>,
    gadj: Seq<Seq<(usize, FlowWeight<i64>)>>,
    r: Result<i64, GraphError>,
    nodes: Seq<BalancedNode<N, i64>>,
    net0: Seq<Seq<(usize, FlowWeight<i64>)>>,
    net1: Seq<Seq<(usize, FlowWeight<i64>)>>,
) -> bool {
    &&& nodes.len() == gnodes.len() + 2
    &&& nodes.take(gnodes.len() as int) == gnodes
    &&& nodes[gnodes.len() as int].balance == 0
    &&& nodes[gnodes.len() + 1int].balance == 0
    &&& net0.len() == nodes.len()
    &&& forall|a: int, b: int|
        0 <= a < net0.len() && 0 <= b < net0.len() ==> #[trigger] fw(net0, a, b) == mcf_edge(gadj, balances(gnodes), a, b)
    &&& same_shape(net0, net1)
    &&& flow_ready(net1)
    &&& flow_added(net0, net1, gnodes.len() as int, gnodes.len() + 1int)
    &&& same_fixed(net0, net1)
    &&& forall|steps: Seq<(int, int)>|
        walk_by(net1, gnodes.len() as int, steps, room::<FlowWeight<i64>>()) ==> #[trigger] walk_end(net1, gnodes.len() as int, steps)
            != gnodes.len() + 1
    &&& (r is Err) == (out_res(net0, gnodes.len() as int, nodes.len() as int) - out_res(
        net1,
        gnodes.len() as int,
        nodes.len() as int,
    ) != supply_sum(balances(nodes)))
    &&& r is Err ==> r == Err::<i64, GraphError>(GraphError::McfNotSolvable)
    &&& r matches Ok(c) ==> exists|last: Seq<Seq<(usize, FlowWeight<i64>)>>|
        #[trigger] same_shape(net1, last) && flow_ready(last) && pairs_kept(net1, last) && same_fixed(net1, last) && (forall|w: int|
            0 <= w < nodes.len() ==> #[trigger] out_res(last, w, nodes.len() as int) == out_res(net1, w, nodes.len() as int))
            && c == flow_cost(last)
}

/// Minimum cost flow by cycle cancelling: builds the network (`Mcf::init`), checks that all
/// supply can reach the demands (`Mcf::solvable`, an error otherwise), then, from each node of
/// the graph in turn, sends the least room of a cycle that `bellman_ford_cycle` reports around
/// that cycle, until Bellman-Ford reports distances, the cycle has no room left, or sending
/// does not lower the cost of the flow. Returns what the flow costs on the forward edges.
///
/// Where the supply cannot all reach the demands there is no flow of the right balances to
/// cost. That outcome is answered with `GraphError::McfNotSolvable`, exactly on those inputs,
/// so that a caller can tell it apart and go on; no input makes this function stop the program.
pub fn cycle_canceling<N: Copy + Default>(graph: &AdjacencyList<BalancedNode<N, i64>, FlowWeight<i64>, true>) -> (r: Result<i64, GraphError>)
    requires
        graph.spec_wf(),
        mcf_input(graph.spec_nodes(), graph.spec_adj()),
    ensures
        exists|nodes: Seq<BalancedNode<N, i64>>, net0: Seq<Seq<(usize, FlowWeight<i64>)>>, net1: Seq<Seq<(usize, FlowWeight<i64>)>>|
            #[trigger] canceled(graph.spec_nodes(), graph.spec_adj(), r, nodes, net0, net1),
{
    let mut mcf = Mcf::init(graph);
    let ghost nodes = mcf.residual_graph.spec_nodes();
    let ghost net0 = mcf.residual_graph.spec_adj();
    proof {
        mcf.residual_graph.lemma_wf();
    }
    let solvable = mcf.solvable();
    let ghost net1 = mcf.residual_graph.spec_adj();
    proof {
        let n0 = graph.spec_nodes().len();
        assert(nodes.take(n0 as int) == graph.spec_nodes());
        assert(nodes[n0 as int].balance == 0);
        assert(nodes[n0 + 1int].balance == 0);
        assert(same_shape(net0, net1));
        assert(flow_ready(net1));
    }
    if !solvable {
        let r = Err(GraphError::McfNotSolvable);
        proof {
            let n0 = graph.spec_nodes().len();
            assert((r is Err) == (out_res(net0, n0 as int, nodes.len() as int) - out_res(net1, n0 as int, nodes.len() as int)
                != supply_sum(balances(nodes))));
            assert(canceled(graph.spec_nodes(), graph.spec_adj(), r, nodes, net0, net1));
        }
        return r;
    }
    let Mcf { mut residual_graph, source: _, sink: _ } = mcf;
    proof {
        residual_graph.lemma_wf();
        assert forall|a: int, k: int| 0 <= a < net1.len() && 0 <= k < net1[a].len() implies #[trigger] net1[a][k].0 < net1.len() by {
            assert(net1[a][k].0 == net0[a][k].0);
        }
        assert forall|a: int, c: int| 0 <= a < net1.len() && 0 <= c < net1.len() && (#[trigger] fw(net1, a, c)) is Some implies fw(
            net1,
            c,
            a,
        ) is Some by {
            assert(pair_ok(net1, a, c));
        }
        assert(pairs_kept(net1, net1));
        assert(same_fixed(net1, net1));
    }
    let n = graph.node_count();
    let mut start: usize = 0;
    while start < n
        invariant
            residual_graph.spec_wf(),
            residual_graph.spec_nodes() == nodes,
            n + 2 == nodes.len(),
            adj_wf(residual_graph.spec_adj()),
            flow_ready(residual_graph.spec_adj()),
            same_shape(net1, residual_graph.spec_adj()),
            pairs_kept(net1, residual_graph.spec_adj()),
            same_fixed(net1, residual_graph.spec_adj()),
            forall|w: int|
                0 <= w < nodes.len() ==> #[trigger] out_res(residual_graph.spec_adj(), w, nodes.len() as int) == out_res(
                    net1,
                    w,
                    nodes.len() as int,
                ),
            start <= n,
        decreases n - start,
    {
        let mut cost = network_cost(&residual_graph);
        loop
            invariant_except_break
                cost == flow_cost(residual_graph.spec_adj()),
            invariant
                residual_graph.spec_wf(),
                residual_graph.spec_nodes() == nodes,
                n + 2 == nodes.len(),
                start < n,
                adj_wf(residual_graph.spec_adj()),
                flow_ready(residual_graph.spec_adj()),
                same_shape(net1, residual_graph.spec_adj()),
                pairs_kept(net1, residual_graph.spec_adj()),
                same_fixed(net1, residual_graph.spec_adj()),
                forall|w: int|
                    0 <= w < nodes.len() ==> #[trigger] out_res(residual_graph.spec_adj(), w, nodes.len() as int) == out_res(
                        net1,
                        w,
                        nodes.len() as int,
                    ),
            decreases cost - i64::MIN,
        {
            let cycle = match bellman_ford_cycle(&residual_graph, NodeId(start)) {
                Either::Left(_) => {
                    break;
                },
                Either::Right(cycle) => cycle,
            };
            let edges = cycle.edge_id_cycle();
            let ghost adj = residual_graph.spec_adj();
            let ghost m = nodes.len();
            let ghost es = edges@;
            proof {
                residual_graph.lemma_wf();
                let route = cycle@;
                assert forall|j: int| 0 <= j < edges@.len() implies room_link(adj, (#[trigger] edges@[j]).from.0 as int, edges@[j].to.0 as int) by {
                    if j < route_edges(route).len() {
                        assert(edges@[j] == route_edges(route)[j]);
                    } else {
                        assert(edges@[j] == route_back_edge(route).unwrap());
                    }
                }
                lemma_cycle_chain(route, es);
            }
            let mut bottleneck: i64 = i64::MAX;
            let mut k: usize = 0;
            while k < edges.len()
                invariant
                    residual_graph.spec_wf(),
                    adj == residual_graph.spec_adj(),
                    adj.len() == m,
                    m == residual_graph.spec_nodes().len(),
                    adj_wf(adj),
                    flow_ready(adj),
                    forall|j: int| 0 <= j < edges@.len() ==> room_link(adj, (#[trigger] edges@[j]).from.0 as int, edges@[j].to.0 as int),
                    k <= edges@.len(),
                    0 <= bottleneck,
                    forall|j: int|
                        0 <= j < k ==> #[trigger] fw(adj, es[j].from.0 as int, es[j].to.0 as int) is Some && bottleneck <= fw(
                            adj,
                            es[j].from.0 as int,
                            es[j].to.0 as int,
                        ).unwrap().spec_res(),
                    es == edges@,
                    m == adj.len(),
                decreases edges@.len() - k,
            {
                let e = edges[k];
                proof {
                    assert(room_link(adj, e.from.0 as int, e.to.0 as int));
                    let i = choose|i: int| 0 <= i < adj[e.from.0 as int].len() && (#[trigger] adj[e.from.0 as int][i]).0 == e.to.0 as int
                        && crate::graph::walk::residual(adj[e.from.0 as int][i].1);
                    lemma_first_edge(adj[e.from.0 as int], e.to.0);
                    assert(e.to.0 < m);
                    assert(fw(adj, e.from.0 as int, e.to.0 as int) is Some);
                    assert(pair_ok(adj, e.from.0 as int, e.to.0 as int));
                }
                let w = residual_graph.weight(e).unwrap();
                let rc = w.residual();
                if rc < bottleneck {
                    bottleneck = rc;
                }
                proof {
                    assert(fw(adj, es[k as int].from.0 as int, es[k as int].to.0 as int) == Some(*w));
                }
                k = k + 1;
            }
            if bottleneck == 0 {
                break;
            }
            let mut k: usize = 0;
            while k < edges.len()
                invariant
                    residual_graph.spec_wf(),
                    residual_graph.spec_nodes() == nodes,
                    m == nodes.len(),
                    adj.len() == m,
                    adj_wf(residual_graph.spec_adj()),
                    flow_ready(residual_graph.spec_adj()),
                    same_shape(net1, residual_graph.spec_adj()),
                    pairs_kept(net1, residual_graph.spec_adj()),
                    same_fixed(net1, residual_graph.spec_adj()),
                    forall|j: int| 0 <= j < edges@.len() ==> room_link(adj, (#[trigger] edges@[j]).from.0 as int, edges@[j].to.0 as int),
                    adj_wf(adj),
                    k <= edges@.len(),
                    0 < bottleneck,
                    es == edges@,
                    es.len() >= 2 ==> forall|j: int| 0 <= j < es.len() - 1 ==> (#[trigger] es[j]).to == es[j + 1].from,
                    es.len() >= 2 ==> es[es.len() - 1].to == es[0].from,
                    forall|j: int| 0 <= j < es.len() ==> (#[trigger] es[j]).from != es[j].to,
                    forall|i: int, j: int| 0 <= i < j < es.len() ==> (#[trigger] es[i]).from != (#[trigger] es[j]).from,
                    forall|j: int|
                        k <= j < es.len() ==> #[trigger] fw(residual_graph.spec_adj(), es[j].from.0 as int, es[j].to.0 as int) is Some
                            && bottleneck <= fw(residual_graph.spec_adj(), es[j].from.0 as int, es[j].to.0 as int).unwrap().spec_res(),
                    forall|w: int|
                        0 <= w < m ==> #[trigger] out_res(residual_graph.spec_adj(), w, m as int) == out_res(adj, w, m as int)
                            - bottleneck * net_starts(es.take(k as int), w),
                decreases edges@.len() - k,
            {
                let e = edges[k];
                proof {
                    assert(room_link(adj, e.from.0 as int, e.to.0 as int));
                    let i = choose|i: int| 0 <= i < adj[e.from.0 as int].len() && (#[trigger] adj[e.from.0 as int][i]).0 == e.to.0 as int
                        && crate::graph::walk::residual(adj[e.from.0 as int][i].1);
                    assert(e.to.0 < m);
                }
                let ghost before = residual_graph.spec_adj();
                proof {
                    assert(es[k as int] == e);
                    assert(fw(before, e.from.0 as int, e.to.0 as int) is Some);
                    assert(can_send(before, e.from.0 as int, e.to.0 as int, bottleneck as int));
                }
                let sent = cancel_pair(&mut residual_graph, e.from, e.to, bottleneck);
                proof {
                    // the cycle passes no node twice, so every edge still has the room the
                    // bottleneck was measured on
                    assert(sent);
                    let after = residual_graph.spec_adj();
                    let u = e.from.0 as int;
                    let v = e.to.0 as int;
                    let b = bottleneck as int;
                    lemma_same_shape_trans(net1, before, after);
                    lemma_pairs_kept_trans(net1, before, after);
                    lemma_same_fixed_trans(net1, before, after);
                    assert forall|j: int|
                        k + 1 <= j < es.len() implies #[trigger] fw(after, es[j].from.0 as int, es[j].to.0 as int) is Some && bottleneck
                        <= fw(after, es[j].from.0 as int, es[j].to.0 as int).unwrap().spec_res() by {
                        assert(es[k as int].from != es[j].from);
                        assert(fw(before, es[j].from.0 as int, es[j].to.0 as int) is Some);
                    }
                    assert(es.take(k + 1).drop_last() =~= es.take(k as int));
                    assert(es.take(k + 1).last() == e);
                    assert forall|w: int| 0 <= w < m implies #[trigger] out_res(after, w, m as int) == out_res(adj, w, m as int)
                        - bottleneck * net_starts(es.take(k + 1), w) by {
                        let nk = net_starts(es.take(k as int), w);
                        if w == u {
                            assert forall|x: int| 0 <= x < m && x != v implies #[trigger] fw(after, u, x) == fw(before, u, x) by {}
                            lemma_out_res_change(before, after, u, m as int, v, b);
                            assert(b * (nk + 1) == b * nk + b) by (nonlinear_arith);
                        } else if w == v {
                            assert forall|x: int| 0 <= x < m && x != u implies #[trigger] fw(after, v, x) == fw(before, v, x) by {}
                            assert(pair_ok(before, u, v));
                            lemma_out_res_change(before, after, v, m as int, u, -b);
                            assert(b * (nk - 1) == b * nk - b) by (nonlinear_arith);
                        } else {
                            assert forall|x: int| 0 <= x < m implies #[trigger] fw(after, w, x) == fw(before, w, x) by {}
                            lemma_out_res_same(before, after, w, m as int);
                        }
                    }
                }
                k = k + 1;
            }
            proof {
                lemma_cycle_balanced(es, adj, residual_graph.spec_adj(), m as int, bottleneck as int);
            }
            let next = network_cost(&residual_graph);
            if next >= cost {
                break;
            }
            cost = next;
        }
        start = start + 1;
    }
    let c = network_cost(&residual_graph);
    let r = Ok(c);
    proof {
        assert(same_shape(net1, residual_graph.spec_adj()));
        assert(canceled(graph.spec_nodes(), graph.spec_adj(), r, nodes, net0, net1));
    }
    r
}

} // verus!
