use crate::algorithms::edmonds_karp::{before, lemma_push_fw};
use crate::algorithms::ford_fulkerson::{_edmonds_karp, flow_added, flow_ready, same_fixed, fw, out_res, pair_ok, room, same_shape, walk_by};
use crate::graph::walk::walk_end;
use crate::graph::index::{EdgeId, NodeId};
use crate::graph::node::BalancedNode;
use crate::graph::traits::{adj_wf, first_edge, lemma_first_edge, lemma_total_edges_prefix, lemma_total_edges_update, total_edges, Base, Count, Create, Get, Insert, IterAdjacent};
use crate::graph::weight::{add_cost, cost_add, FlowWeight};
use crate::graph_impl::adjacency_list::{lemma_total_zero, AdjacencyList};
use crate::error::GraphError;
use vstd::prelude::*;

verus! {

/// The edge from the source to a node that supplies `b` (or from a node that demands `b` to
/// the sink): it can carry `b` at no cost.
pub open spec fn supply_edge(b: i64) -> FlowWeight<i64> {
    FlowWeight { flow: 0, capacity: b, cost: 0, rev: false }
}

/// The full reverse of a supply edge.
pub open spec fn supply_back(b: i64) -> FlowWeight<i64> {
    FlowWeight { flow: b, capacity: b, cost: 0, rev: true }
}

/// The full reverse of an edge of the graph, at the opposite cost.
pub open spec fn counter_edge(w: FlowWeight<i64>) -> FlowWeight<i64> {
    FlowWeight { flow: w.capacity, capacity: w.capacity, cost: (-w.cost) as i64, rev: true }
}

/// The balances of the nodes.
pub open spec fn balances<N>(nodes: Seq<BalancedNode<N, i64>>) -> Seq<i64> {
    Seq::new(nodes.len(), |i: int| nodes[i].balance)
}

/// The first edge `a -> b` of the network for a graph of `adj` whose nodes have the balances
/// `bal`, once the nodes below `i` were joined to the source or the sink, and the edges before
/// position `k` of node `u` got their reverses: the graph's own edges, a full reverse for every
/// edge that has no edge back, and a source (node `n`) and a sink (node `n + 1`) joined to the
/// nodes that supply and to those that demand.
pub open spec fn mcf_built(adj: Seq<Seq<(usize, FlowWeight<i64>)>>, bal: Seq<i64>, i: int, u: int, k: int, a: int, b: int) -> Option<FlowWeight<i64>> {
    let n = adj.len() as int;
    if 0 <= a < n && 0 <= b < n {
        match first_edge(adj[a], b as usize) {
            Some(f) => Some(adj[a][f].1),
            None => match first_edge(adj[b], a as usize) {
                Some(j) => if before(u, k, b, j) {
                    Some(counter_edge(adj[b][j].1))
                } else {
                    None
                },
                None => None,
            },
        }
    } else if a == n && 0 <= b < i {
        if bal[b] > 0 { Some(supply_edge(bal[b])) } else { None }
    } else if 0 <= a < i && b == n {
        if bal[a] > 0 { Some(supply_back(bal[a])) } else { None }
    } else if 0 <= a < i && b == n + 1 {
        if bal[a] < 0 { Some(supply_edge((-bal[a]) as i64)) } else { None }
    } else if a == n + 1 && 0 <= b < i {
        if bal[b] < 0 { Some(supply_back((-bal[b]) as i64)) } else { None }
    } else {
        None
    }
}

/// The first edge `a -> b` of the whole network.
pub open spec fn mcf_edge(adj: Seq<Seq<(usize, FlowWeight<i64>)>>, bal: Seq<i64>, a: int, b: int) -> Option<FlowWeight<i64>> {
    mcf_built(adj, bal, adj.len() as int, adj.len() as int, 0, a, b)
}

/// In the network, the source (node `n`) has an edge to exactly the nodes that supply, each
/// able to carry that node's supply at no cost, and the sink (node `n + 1`) an edge from
/// exactly the nodes that demand, each able to carry that node's demand.
pub proof fn lemma_mcf_terminals(adj: Seq<Seq<(usize, FlowWeight<i64>)>>, bal: Seq<i64>, v: int)
    requires
        0 <= v < adj.len(),
        bal.len() == adj.len(),
        forall|i: int| 0 <= i < bal.len() ==> #[trigger] bal[i] > i64::MIN,
    ensures
        (mcf_edge(adj, bal, adj.len() as int, v) is Some) == (bal[v] > 0),
        bal[v] > 0 ==> mcf_edge(adj, bal, adj.len() as int, v) == Some(supply_edge(bal[v])),
        (mcf_edge(adj, bal, v, adj.len() + 1int) is Some) == (bal[v] < 0),
        bal[v] < 0 ==> mcf_edge(adj, bal, v, adj.len() + 1int) == Some(supply_edge((-bal[v]) as i64)),
        mcf_edge(adj, bal, adj.len() as int, adj.len() + 1int) is None,
        mcf_edge(adj, bal, adj.len() + 1int, adj.len() as int) is None,
{
    assert(bal[v] > i64::MIN);
}

/// What the nodes supply together.
pub open spec fn supply_sum(bal: Seq<i64>) -> int
    decreases bal.len(),
{
    if bal.len() == 0 {
        0
    } else {
        supply_sum(bal.drop_last()) + if bal.last() > 0 {
            bal.last() as int
        } else {
            0
        }
    }
}

/// A graph that a flow network can be built for: every edge carries no more than it can and
/// no less than nothing; costs and balances can be negated; edges that run both ways leave
/// room for both within the range; what the nodes supply fits in the range; and the sizes fit
/// in memory.
pub open spec fn mcf_input<N>(nodes: Seq<BalancedNode<N, i64>>, adj: Seq<Seq<(usize, FlowWeight<i64>)>>) -> bool {
    &&& nodes.len() == adj.len()
    &&& adj.len() + 2 <= usize::MAX
    &&& 2 * total_edges(adj) + 2 * adj.len() < usize::MAX
    &&& adj_wf(adj)
    &&& forall|u: int, k: int|
        0 <= u < adj.len() && 0 <= k < adj[u].len() ==> {
            let w = (#[trigger] adj[u][k]).1;
            &&& 0 <= w.flow <= w.capacity
            &&& w.cost > i64::MIN
        }
    &&& forall|a: int, b: int|
        0 <= a < adj.len() && 0 <= b < adj.len() && (#[trigger] fw(adj, a, b)) is Some && fw(adj, b, a) is Some
            ==> fw(adj, a, b).unwrap().capacity - fw(adj, a, b).unwrap().flow + fw(adj, b, a).unwrap().capacity - fw(
            adj,
            b,
            a,
        ).unwrap().flow <= i64::MAX
    &&& forall|i: int| 0 <= i < nodes.len() ==> (#[trigger] nodes[i]).balance > i64::MIN
    &&& supply_sum(balances(nodes)) <= i64::MAX
}

pub proof fn lemma_mcf_supply_step(
    adj: Seq<Seq<(usize, FlowWeight<i64>)>>,
    bal: Seq<i64>,
    i: int,
    net: Seq<Seq<(usize, FlowWeight<i64>)>>,
    net1: Seq<Seq<(usize, FlowWeight<i64>)>>,
    net2: Seq<Seq<(usize, FlowWeight<i64>)>>,
)
    requires
        adj_wf(adj),
        bal.len() == adj.len(),
        net.len() == adj.len() + 2 <= usize::MAX,
        0 <= i < adj.len(),
        forall|a: int, b: int|
            0 <= a < net.len() && 0 <= b < net.len() ==> #[trigger] fw(net, a, b) == mcf_built(adj, bal, i, 0, 0, a, b),
        net1 == if bal[i] > 0 {
            net.update(adj.len() as int, net[adj.len() as int].push((i as usize, supply_edge(bal[i]))))
        } else if bal[i] < 0 {
            net.update(i, net[i].push(((adj.len() + 1int) as usize, supply_edge((-bal[i]) as i64))))
        } else {
            net
        },
        net2 == if bal[i] > 0 {
            net1.update(i, net1[i].push((adj.len() as usize, supply_back(bal[i]))))
        } else if bal[i] < 0 {
            net1.update(adj.len() + 1 as int, net1[adj.len() + 1 as int].push((i as usize, supply_back((-bal[i]) as i64))))
        } else {
            net1
        },
    ensures
        forall|a: int, b: int|
            0 <= a < net.len() && 0 <= b < net.len() ==> #[trigger] fw(net2, a, b) == mcf_built(adj, bal, i + 1, 0, 0, a, b),
{
    let n = adj.len() as int;
    if bal[i] > 0 {
        lemma_push_fw(net, n, i as usize, supply_edge(bal[i]));
        lemma_push_fw(net1, i, n as usize, supply_back(bal[i]));
    } else if bal[i] < 0 {
        lemma_push_fw(net, i, (n + 1) as usize, supply_edge((-bal[i]) as i64));
        lemma_push_fw(net1, n + 1, i as usize, supply_back((-bal[i]) as i64));
    }
    assert forall|a: int, b: int| 0 <= a < net.len() && 0 <= b < net.len() implies #[trigger] fw(net2, a, b) == mcf_built(adj, bal, i + 1, 0, 0, a, b) by {
        assert(fw(net, a, b) == mcf_built(adj, bal, i, 0, 0, a, b));
        if bal[i] > 0 {
            assert(fw(net, n, i) == mcf_built(adj, bal, i, 0, 0, n, i));
            assert(fw(net, i, n) == mcf_built(adj, bal, i, 0, 0, i, n));
        } else if bal[i] < 0 {
            assert(fw(net, i, n + 1) == mcf_built(adj, bal, i, 0, 0, i, n + 1));
            assert(fw(net, n + 1, i) == mcf_built(adj, bal, i, 0, 0, n + 1, i));
        }
    }
}

pub proof fn lemma_mcf_edge_step(
    adj: Seq<Seq<(usize, FlowWeight<i64>)>>,
    bal: Seq<i64>,
    u: int,
    k: int,
    net: Seq<Seq<(usize, FlowWeight<i64>)>>,
    net2: Seq<Seq<(usize, FlowWeight<i64>)>>,
)
    requires
        adj_wf(adj),
        bal.len() == adj.len(),
        net.len() == adj.len() + 2 <= usize::MAX,
        0 <= u < adj.len(),
        0 <= k < adj[u].len(),
        forall|a: int, b: int|
            0 <= a < net.len() && 0 <= b < net.len() ==> #[trigger] fw(net, a, b) == mcf_built(
                adj,
                bal,
                adj.len() as int,
                u,
                k,
                a,
                b,
            ),
        net2 == if fw(net, adj[u][k].0 as int, u) is None {
            net.update(adj[u][k].0 as int, net[adj[u][k].0 as int].push((u as usize, counter_edge(adj[u][k].1))))
        } else {
            net
        },
    ensures
        forall|a: int, b: int|
            0 <= a < net.len() && 0 <= b < net.len() ==> #[trigger] fw(net2, a, b) == mcf_built(
                adj,
                bal,
                adj.len() as int,
                u,
                k + 1,
                a,
                b,
            ),
{
    let n = adj.len() as int;
    let v = adj[u][k].0 as int;
    assert(v < n);
    lemma_first_edge(adj[u], v as usize);
    lemma_first_edge(adj[v], u as usize);
    if fw(net, v, u) is None {
        lemma_push_fw(net, v, u as usize, counter_edge(adj[u][k].1));
    }
    assert(fw(net, v, u) == mcf_built(adj, bal, n, u, k, v, u));
    assert forall|a: int, b: int| 0 <= a < net.len() && 0 <= b < net.len() implies #[trigger] fw(net2, a, b) == mcf_built(adj, bal, n, u, k + 1, a, b) by {
        assert(fw(net, a, b) == mcf_built(adj, bal, n, u, k, a, b));
        if 0 <= a < n && 0 <= b < n {
            lemma_first_edge(adj[a], b as usize);
            lemma_first_edge(adj[b], a as usize);
        }
    }
}

pub proof fn lemma_mcf_ready<N>(nodes: Seq<BalancedNode<N, i64>>, adj: Seq<Seq<(usize, FlowWeight<i64>)>>, net: Seq<Seq<(usize, FlowWeight<i64>)>>)
    requires
        mcf_input(nodes, adj),
        net.len() == adj.len() + 2,
        forall|a: int, b: int|
            0 <= a < net.len() && 0 <= b < net.len() ==> #[trigger] fw(net, a, b) == mcf_edge(adj, balances(nodes), a, b),
    ensures
        flow_ready(net),
{
    let n = adj.len() as int;
    let bal = balances(nodes);
    assert forall|a: int, b: int| 0 <= a < net.len() && 0 <= b < net.len() && (#[trigger] fw(net, a, b)) is Some implies pair_ok(net, a, b) by {
        assert(fw(net, b, a) == mcf_edge(adj, bal, b, a));
        if 0 <= a < n && 0 <= b < n {
            lemma_first_edge(adj[a], b as usize);
            lemma_first_edge(adj[b], a as usize);
            match first_edge(adj[a], b as usize) {
                Some(f) => {
                    let w = adj[a][f].1;
                    assert(0 <= w.flow <= w.capacity);
                    match first_edge(adj[b], a as usize) {
                        Some(g) => {
                            let w2 = adj[b][g].1;
                            assert(0 <= w2.flow <= w2.capacity);
                            assert(fw(adj, a, b) is Some && fw(adj, b, a) is Some);
                        },
                        None => {},
                    }
                },
                None => {
                    let g = first_edge(adj[b], a as usize).unwrap();
                    let w2 = adj[b][g].1;
                    assert(0 <= w2.flow <= w2.capacity);
                },
            }
        } else {
            if 0 <= a < n {
                assert(nodes[a].balance > i64::MIN);
            }
            if 0 <= b < n {
                assert(nodes[b].balance > i64::MIN);
            }
        }
    }
}

pub proof fn lemma_mcf_out_prefix<N>(nodes: Seq<BalancedNode<N, i64>>, adj: Seq<Seq<(usize, FlowWeight<i64>)>>, net: Seq<Seq<(usize, FlowWeight<i64>)>>, m: int)
    requires
        mcf_input(nodes, adj),
        net.len() == adj.len() + 2,
        0 <= m <= adj.len(),
        forall|a: int, b: int|
            0 <= a < net.len() && 0 <= b < net.len() ==> #[trigger] fw(net, a, b) == mcf_edge(adj, balances(nodes), a, b),
    ensures
        out_res(net, adj.len() as int, m) == supply_sum(balances(nodes).take(m)),
    decreases m,
{
    if m > 0 {
        lemma_mcf_out_prefix(nodes, adj, net, m - 1);
        let bal = balances(nodes);
        assert(bal.take(m).drop_last() =~= bal.take(m - 1));
        assert(fw(net, adj.len() as int, m - 1) == mcf_edge(adj, bal, adj.len() as int, m - 1));
    }
}

/// What the source can send out is what the nodes supply.
pub proof fn lemma_mcf_out<N>(nodes: Seq<BalancedNode<N, i64>>, adj: Seq<Seq<(usize, FlowWeight<i64>)>>, net: Seq<Seq<(usize, FlowWeight<i64>)>>)
    requires
        mcf_input(nodes, adj),
        net.len() == adj.len() + 2,
        forall|a: int, b: int|
            0 <= a < net.len() && 0 <= b < net.len() ==> #[trigger] fw(net, a, b) == mcf_edge(adj, balances(nodes), a, b),
    ensures
        out_res(net, adj.len() as int, net.len() as int) == supply_sum(balances(nodes)),
{
    let n = adj.len() as int;
    lemma_mcf_out_prefix(nodes, adj, net, n);
    assert(balances(nodes).take(n) =~= balances(nodes));
    assert(fw(net, n, n) == mcf_edge(adj, balances(nodes), n, n));
    assert(fw(net, n, n + 1) == mcf_edge(adj, balances(nodes), n, n + 1));
    assert(out_res(net, n, n + 1) == out_res(net, n, n));
    assert(out_res(net, n, n + 2) == out_res(net, n, n + 1));
}

pub proof fn lemma_adj_wf_push<W>(g: Seq<Seq<(usize, W)>>, x: int, t: usize, w: W)
    requires
        adj_wf(g),
        0 <= x < g.len(),
        t < g.len(),
    ensures
        adj_wf(g.update(x, g[x].push((t, w)))),
{
    let h = g.update(x, g[x].push((t, w)));
    assert forall|a: int, j: int| 0 <= a < h.len() && 0 <= j < h[a].len() implies #[trigger] h[a][j].0 < h.len() by {
        if a == x && j == g[x].len() {
        } else if a == x {
            assert(h[a][j] == g[a][j]);
        } else {
            assert(h[a] == g[a]);
        }
    }
}

/// A copy of the graph.
pub(crate) fn copy_graph<N: Copy, W: Copy, const DI: bool>(graph: &AdjacencyList<N, W, DI>) -> (r: AdjacencyList<N, W, DI>)
    requires
        graph.spec_wf(),
    ensures
        r.spec_wf(),
        r.spec_nodes() == graph.spec_nodes(),
        r.spec_adj() == graph.spec_adj(),
{
    proof {
        graph.lemma_wf();
    }
    let ghost adj = graph.spec_adj();
    let n = graph.node_count();
    let mut nodes: Vec<N> = Vec::new();
    let mut i: usize = 0;
    while i < n
        invariant
            graph.spec_wf(),
            n == graph.spec_nodes().len(),
            i <= n,
            nodes@ == graph.spec_nodes().take(i as int),
        decreases n - i,
    {
        let node = *graph.node(NodeId(i)).unwrap();
        nodes.push(node);
        i = i + 1;
        proof {
            assert(nodes@ =~= graph.spec_nodes().take(i as int));
        }
    }
    proof {
        assert(nodes@ =~= graph.spec_nodes());
    }
    let mut r: AdjacencyList<N, W, DI> = AdjacencyList::with_nodes(nodes);
    proof {
        lemma_total_zero(r.spec_adj());
        lemma_total_zero(adj.take(0));
    }
    let mut u: usize = 0;
    while u < n
        invariant
            graph.spec_wf(),
            adj == graph.spec_adj(),
            n == adj.len(),
            n == graph.spec_nodes().len(),
            total_edges(adj) <= usize::MAX,
            u <= n,
            r.spec_wf(),
            r.spec_nodes() == graph.spec_nodes(),
            r.spec_adj().len() == n,
            forall|a: int| 0 <= a < u ==> #[trigger] r.spec_adj()[a] == adj[a],
            forall|a: int| u <= a < n ==> (#[trigger] r.spec_adj()[a]).len() == 0,
            total_edges(r.spec_adj()) == total_edges(adj.take(u as int)),
        decreases n - u,
    {
        let edges = graph.iter_adjacent_edges(NodeId(u));
        proof {
            lemma_total_edges_prefix(adj, u as int + 1);
            assert(adj.take(u + 1).drop_last() =~= adj.take(u as int));
        }
        let mut k: usize = 0;
        while k < edges.len()
            invariant
                graph.spec_wf(),
                adj == graph.spec_adj(),
                n == adj.len(),
                n == graph.spec_nodes().len(),
                total_edges(adj) <= usize::MAX,
                u < n,
                edges@.len() == adj[u as int].len(),
                forall|j: int|
                    0 <= j < edges@.len() ==> (#[trigger] edges@[j]).edge_id.to.0 == adj[u as int][j].0 && edges@[j].weight
                        == adj[u as int][j].1,
                total_edges(adj.take(u as int)) + adj[u as int].len() <= total_edges(adj),
                k <= edges@.len(),
                r.spec_wf(),
                r.spec_nodes() == graph.spec_nodes(),
                r.spec_adj().len() == n,
                forall|a: int| 0 <= a < u ==> #[trigger] r.spec_adj()[a] == adj[a],
                forall|a: int| u < a < n ==> (#[trigger] r.spec_adj()[a]).len() == 0,
                r.spec_adj()[u as int] == adj[u as int].take(k as int),
                total_edges(r.spec_adj()) == total_edges(adj.take(u as int)) + k,
            decreases edges@.len() - k,
        {
            let e = edges[k];
            let ghost r0 = r.spec_adj();
            proof {
                assert(edges@[k as int].edge_id.to.0 == adj[u as int][k as int].0);
            }
            r.insert_edge(NodeId(u), e.edge_id.to, e.weight);
            proof {
                lemma_total_edges_update(r0, u as int, r0[u as int].push((e.edge_id.to.0, e.weight)));
                assert(r.spec_adj()[u as int] =~= adj[u as int].take(k + 1));
                assert forall|a: int| 0 <= a < u implies #[trigger] r.spec_adj()[a] == adj[a] by {
                    assert(r.spec_adj()[a] == r0[a]);
                }
                assert forall|a: int| u < a < n implies (#[trigger] r.spec_adj()[a]).len() == 0 by {
                    assert(r.spec_adj()[a] == r0[a]);
                }
            }
            k = k + 1;
        }
        proof {
            assert(adj[u as int].take(edges@.len() as int) =~= adj[u as int]);
        }
        u = u + 1;
    }
    proof {
        assert(r.spec_adj() =~= adj);
    }
    r
}

/// A flow network built for a minimum-cost flow problem, with its source and sink.
pub struct Mcf<N> {
    pub residual_graph: AdjacencyList<BalancedNode<N, i64>, FlowWeight<i64>, true>,
    pub source: NodeId,
    pub sink: NodeId,
}

impl<N> Mcf<N> {
    /// The network can carry flow from the source to the sink: see `_edmonds_karp`.
    pub open spec fn ready(&self) -> bool {
        let g = self.residual_graph;
        &&& g.spec_wf()
        &&& adj_wf(g.spec_adj())
        &&& self.source.0 < g.spec_nodes().len()
        &&& self.sink.0 < g.spec_nodes().len()
        &&& self.source != self.sink
        &&& flow_ready(g.spec_adj())
        &&& out_res(g.spec_adj(), self.source.0 as int, g.spec_nodes().len() as int) <= i64::MAX
        &&& supply_sum(balances(g.spec_nodes())) <= i64::MAX
    }
}

impl<N: Copy + Default> Mcf<N> {
    /// The network for `graph`: a copy of it, a new source joined to every node that supplies
    /// (edges of its supply, with full reverses), a new sink joined from every node that
    /// demands, and a full reverse, at the opposite cost, for every edge that has no edge back.
    pub fn init(graph: &AdjacencyList<BalancedNode<N, i64>, FlowWeight<i64>, true>) -> (r: Self)
        requires
            graph.spec_wf(),
            mcf_input(graph.spec_nodes(), graph.spec_adj()),
        ensures
            r.ready(),
            r.source.0 == graph.spec_nodes().len(),
            r.sink.0 == graph.spec_nodes().len() + 1,
            r.residual_graph.spec_nodes().len() == graph.spec_nodes().len() + 2,
            r.residual_graph.spec_nodes().take(graph.spec_nodes().len() as int) == graph.spec_nodes(),
            r.residual_graph.spec_nodes()[r.source.0 as int].balance == 0,
            r.residual_graph.spec_nodes()[r.sink.0 as int].balance == 0,
            forall|a: int, b: int|
                0 <= a < r.residual_graph.spec_nodes().len() && 0 <= b < r.residual_graph.spec_nodes().len()
                    ==> #[trigger] fw(r.residual_graph.spec_adj(), a, b) == mcf_edge(
                    graph.spec_adj(),
                    balances(graph.spec_nodes()),
                    a,
                    b,
                ),
    {
        proof {
            graph.lemma_wf();
        }
        let ghost adj = graph.spec_adj();
        let ghost nodes = graph.spec_nodes();
        let ghost bal = balances(nodes);
        let n = graph.node_count();
        let mut net = copy_graph(graph);
        let source = net.insert_node(BalancedNode::new(N::default(), 0));
        let sink = net.insert_node(BalancedNode::new(N::default(), 0));
        proof {
            assert forall|a: int, b: int| 0 <= a < n + 2 && 0 <= b < n + 2 implies #[trigger] fw(net.spec_adj(), a, b) == mcf_built(adj, bal, 0, 0, 0, a, b) by {
                if a < n {
                    assert(net.spec_adj()[a] == adj[a]);
                    lemma_first_edge(adj[a], b as usize);
                    if b < n {
                        lemma_first_edge(adj[b], a as usize);
                    } else {
                        assert forall|j: int| 0 <= j < adj[a].len() implies adj[a][j].0 != b by {
                            assert(adj[a][j].0 < n);
                        }
                    }
                } else {
                    assert(net.spec_adj()[a].len() == 0);
                }
            }
            assert(adj_wf(net.spec_adj())) by {
                let g = net.spec_adj();
                assert forall|a: int, j: int| 0 <= a < g.len() && 0 <= j < g[a].len() implies #[trigger] g[a][j].0 < g.len() by {
                    if a < n {
                        assert(g[a] == adj[a]);
                    }
                }
            }
            assert(total_edges(net.spec_adj()) == total_edges(adj)) by {
                let g = net.spec_adj();
                assert(g.drop_last().drop_last() =~= adj);
                assert(g.last().len() == 0);
                assert(g.drop_last().last().len() == 0);
                assert(total_edges(g.drop_last()) == total_edges(adj));
            }
        }
        let mut i: usize = 0;
        while i < n
            invariant
                adj_wf(adj),
                mcf_input(nodes, adj),
                bal == balances(nodes),
                n == adj.len(),
                n == nodes.len(),
                i <= n,
                source.0 == n,
                sink.0 == n + 1,
                net.spec_wf(),
                net.spec_nodes().len() == n + 2,
                net.spec_nodes().take(n as int) == nodes,
                net.spec_nodes()[n as int].balance == 0,
                net.spec_nodes()[n + 1].balance == 0,
                net.spec_adj().len() == n + 2,
                adj_wf(net.spec_adj()),
                total_edges(net.spec_adj()) <= total_edges(adj) + 2 * i,
                forall|a: int, b: int|
                    0 <= a < n + 2 && 0 <= b < n + 2 ==> #[trigger] fw(net.spec_adj(), a, b) == mcf_built(
                        adj,
                        bal,
                        i as int,
                        0,
                        0,
                        a,
                        b,
                    ),
            decreases n - i,
        {
            let balance = net.node(NodeId(i)).unwrap().balance;
            proof {
                assert(net.spec_nodes()[i as int] == net.spec_nodes().take(n as int)[i as int]);
                assert(balance == bal[i as int]);
                assert(nodes[i as int].balance > i64::MIN);
            }
            let ghost net0 = net.spec_adj();
            if balance > 0 {
                net.insert_edge(source, NodeId(i), FlowWeight::new(balance, 0, 0));
                let ghost net1 = net.spec_adj();
                proof {
                    lemma_total_edges_update(net0, n as int, net0[n as int].push((i, supply_edge(balance))));
                    lemma_adj_wf_push(net0, n as int, i, supply_edge(balance));
                }
                net.insert_edge(NodeId(i), source, FlowWeight::rev(balance, 0, balance));
                proof {
                    lemma_total_edges_update(net1, i as int, net1[i as int].push((n, supply_back(balance))));
                    lemma_adj_wf_push(net1, i as int, n, supply_back(balance));
                    lemma_mcf_supply_step(adj, bal, i as int, net0, net1, net.spec_adj());
                }
            } else if balance < 0 {
                net.insert_edge(NodeId(i), sink, FlowWeight::new(-balance, 0, 0));
                let ghost net1 = net.spec_adj();
                proof {
                    lemma_total_edges_update(net0, i as int, net0[i as int].push(((n + 1) as usize, supply_edge((-balance) as i64))));
                    lemma_adj_wf_push(net0, i as int, (n + 1) as usize, supply_edge((-balance) as i64));
                }
                net.insert_edge(sink, NodeId(i), FlowWeight::rev(-balance, 0, -balance));
                proof {
                    lemma_total_edges_update(net1, n + 1, net1[n + 1].push((i, supply_back((-balance) as i64))));
                    lemma_adj_wf_push(net1, n + 1, i, supply_back((-balance) as i64));
                    lemma_mcf_supply_step(adj, bal, i as int, net0, net1, net.spec_adj());
                }
            } else {
                proof {
                    lemma_mcf_supply_step(adj, bal, i as int, net0, net0, net0);
                }
            }
            i = i + 1;
        }
        let mut u: usize = 0;
        while u < n
            invariant
                graph.spec_wf(),
                adj == graph.spec_adj(),
                adj_wf(adj),
                mcf_input(nodes, adj),
                bal == balances(nodes),
                n == adj.len(),
                n == nodes.len(),
                n == graph.spec_nodes().len(),
                u <= n,
                source.0 == n,
                sink.0 == n + 1,
                net.spec_wf(),
                net.spec_nodes().len() == n + 2,
                net.spec_nodes().take(n as int) == nodes,
                net.spec_nodes()[n as int].balance == 0,
                net.spec_nodes()[n + 1].balance == 0,
                net.spec_adj().len() == n + 2,
                adj_wf(net.spec_adj()),
                total_edges(net.spec_adj()) <= total_edges(adj) + 2 * n + total_edges(adj.take(u as int)),
                forall|a: int, b: int|
                    0 <= a < n + 2 && 0 <= b < n + 2 ==> #[trigger] fw(net.spec_adj(), a, b) == mcf_built(
                        adj,
                        bal,
                        n as int,
                        u as int,
                        0,
                        a,
                        b,
                    ),
            decreases n - u,
        {
            let edges = graph.iter_adjacent_edges(NodeId(u));
            proof {
                lemma_total_edges_prefix(adj, u as int + 1);
                assert(adj.take(u + 1).drop_last() =~= adj.take(u as int));
            }
            let mut k: usize = 0;
            while k < edges.len()
                invariant
                    graph.spec_wf(),
                    adj == graph.spec_adj(),
                    adj_wf(adj),
                    mcf_input(nodes, adj),
                    bal == balances(nodes),
                    n == adj.len(),
                    u < n,
                    edges@.len() == adj[u as int].len(),
                    forall|j: int|
                        0 <= j < edges@.len() ==> (#[trigger] edges@[j]).edge_id.to.0 == adj[u as int][j].0
                            && edges@[j].weight == adj[u as int][j].1,
                    total_edges(adj.take(u as int)) + adj[u as int].len() <= total_edges(adj),
                    k <= edges@.len(),
                    source.0 == n,
                    sink.0 == n + 1,
                    net.spec_wf(),
                    net.spec_nodes().len() == n + 2,
                    net.spec_nodes().take(n as int) == nodes,
                    net.spec_nodes()[n as int].balance == 0,
                    net.spec_nodes()[n + 1].balance == 0,
                    net.spec_adj().len() == n + 2,
                    adj_wf(net.spec_adj()),
                    total_edges(net.spec_adj()) <= total_edges(adj) + 2 * n + total_edges(adj.take(u as int)) + k,
                    forall|a: int, b: int|
                        0 <= a < n + 2 && 0 <= b < n + 2 ==> #[trigger] fw(net.spec_adj(), a, b) == mcf_built(
                            adj,
                            bal,
                            n as int,
                            u as int,
                            k as int,
                            a,
                            b,
                        ),
                decreases edges@.len() - k,
            {
                let e = edges[k];
                let v = e.edge_id.to;
                let w = e.weight;
                proof {
                    assert(edges@[k as int].edge_id.to.0 == adj[u as int][k as int].0);
                    assert(v.0 < n);
                    assert(w.cost > i64::MIN);
                }
                let ghost net0 = net.spec_adj();
                if !net.contains_edge_id(EdgeId { from: v, to: NodeId(u) }) {
                    net.insert_edge(v, NodeId(u), FlowWeight::rev(w.capacity, -w.cost, w.capacity));
                    proof {
                        lemma_total_edges_update(net0, v.0 as int, net0[v.0 as int].push((u, counter_edge(w))));
                        lemma_adj_wf_push(net0, v.0 as int, u, counter_edge(w));
                    }
                }
                proof {
                    lemma_mcf_edge_step(adj, bal, u as int, k as int, net0, net.spec_adj());
                }
                k = k + 1;
            }
            proof {
                assert forall|a: int, b: int| 0 <= a < n + 2 && 0 <= b < n + 2 implies #[trigger] fw(net.spec_adj(), a, b) == mcf_built(adj, bal, n as int, u + 1, 0, a, b) by {
                    assert(fw(net.spec_adj(), a, b) == mcf_built(adj, bal, n as int, u as int, edges@.len() as int, a, b));
                    if 0 <= a < n && 0 <= b < n {
                        lemma_first_edge(adj[a], b as usize);
                        lemma_first_edge(adj[b], a as usize);
                    }
                }
            }
            u = u + 1;
        }
        proof {
            let g = net.spec_adj();
            lemma_mcf_ready(nodes, adj, g);
            lemma_mcf_out(nodes, adj, g);
            let nn = net.spec_nodes();
            assert forall|x: int| 0 <= x < n implies #[trigger] nn[x] == nodes[x] by {
                assert(nn.take(n as int)[x] == nn[x]);
            }
            assert(balances(nn) =~= bal.push(0).push(0));
            assert(bal.push(0).push(0).drop_last() =~= bal.push(0));
            assert(bal.push(0).drop_last() =~= bal);
            assert(supply_sum(bal.push(0)) == supply_sum(bal));
            assert(supply_sum(bal.push(0).push(0)) == supply_sum(bal.push(0)));
            assert(supply_sum(balances(nn)) == supply_sum(bal));
        }
        Mcf { residual_graph: net, source, sink }
    }
}

pub proof fn lemma_supply_sum_prefix(bal: Seq<i64>, m: int)
    requires
        0 <= m <= bal.len(),
    ensures
        0 <= supply_sum(bal.take(m)) <= supply_sum(bal),
    decreases bal.len(),
{
    if m < bal.len() {
        lemma_supply_sum_prefix(bal.drop_last(), m);
        assert(bal.drop_last().take(m) =~= bal.take(m));
        lemma_supply_sum_prefix(bal.drop_last(), bal.len() - 1);
        assert(bal.drop_last().take(bal.len() - 1) =~= bal.drop_last());
    } else {
        assert(bal.take(m) =~= bal);
        if bal.len() > 0 {
            lemma_supply_sum_prefix(bal.drop_last(), bal.len() - 1);
            assert(bal.drop_last().take(bal.len() - 1) =~= bal.drop_last());
        }
    }
}

impl<N> Mcf<N> {
    /// Sends as much as it can from the source to the sink (`_edmonds_karp`), and tells whether
    /// that is all the nodes supply: whether every supply can be met.
    pub fn solvable(&mut self) -> (r: bool)
        requires
            old(self).ready(),
        ensures
            final(self).residual_graph.spec_wf(),
            final(self).residual_graph.spec_nodes() == old(self).residual_graph.spec_nodes(),
            final(self).source == old(self).source,
            final(self).sink == old(self).sink,
            same_shape(old(self).residual_graph.spec_adj(), final(self).residual_graph.spec_adj()),
            flow_ready(final(self).residual_graph.spec_adj()),
            flow_added(
                old(self).residual_graph.spec_adj(),
                final(self).residual_graph.spec_adj(),
                old(self).source.0 as int,
                old(self).sink.0 as int,
            ),
            same_fixed(old(self).residual_graph.spec_adj(), final(self).residual_graph.spec_adj()),
            r == (out_res(
                old(self).residual_graph.spec_adj(),
                old(self).source.0 as int,
                old(self).residual_graph.spec_nodes().len() as int,
            ) - out_res(
                final(self).residual_graph.spec_adj(),
                old(self).source.0 as int,
                old(self).residual_graph.spec_nodes().len() as int,
            ) == supply_sum(balances(old(self).residual_graph.spec_nodes()))),
            forall|steps: Seq<(int, int)>|
                walk_by(final(self).residual_graph.spec_adj(), old(self).source.0 as int, steps, room::<FlowWeight<i64>>())
                    ==> #[trigger] walk_end(final(self).residual_graph.spec_adj(), old(self).source.0 as int, steps)
                    != old(self).sink.0,
    {
        let total_flow = _edmonds_karp(&mut self.residual_graph, self.source, self.sink);
        let ghost bal = balances(self.residual_graph.spec_nodes());
        proof {
            self.residual_graph.lemma_wf();
        }
        let n = self.residual_graph.node_count();
        let mut expected: i64 = 0;
        let mut i: usize = 0;
        while i < n
            invariant
                self.residual_graph.spec_wf(),
                n == self.residual_graph.spec_nodes().len(),
                bal == balances(self.residual_graph.spec_nodes()),
                supply_sum(bal) <= i64::MAX,
                i <= n,
                expected == supply_sum(bal.take(i as int)),
            decreases n - i,
        {
            let b = self.residual_graph.node(NodeId(i)).unwrap().balance;
            proof {
                assert(bal.take(i + 1).drop_last() =~= bal.take(i as int));
                lemma_supply_sum_prefix(bal, i + 1);
            }
            if b > 0 {
                expected = expected + b;
            }
            i = i + 1;
        }
        proof {
            assert(bal.take(n as int) =~= bal);
        }
        total_flow == expected
    }
}

/// The sum held at the ends of the range.
pub open spec fn clamp(x: int) -> i64 {
    if x > i64::MAX {
        i64::MAX
    } else if x < i64::MIN {
        i64::MIN
    } else {
        x as i64
    }
}

/// Multiplies two costs, held at the ends of the range.
pub fn cost_mul(a: i64, b: i64) -> (r: i64)
    ensures
        r == clamp(a * b),
{
    match a.checked_mul(b) {
        Some(c) => c,
        None => {
            if (a > 0) == (b > 0) {
                proof {
                    assert(a * b > i64::MAX) by (nonlinear_arith)
                        requires
                            (a > 0) == (b > 0),
                            a * b > i64::MAX || a * b < i64::MIN,
                    ;
                }
                i64::MAX
            } else {
                proof {
                    assert(a * b < i64::MIN) by (nonlinear_arith)
                        requires
                            (a > 0) != (b > 0),
                            a * b > i64::MAX || a * b < i64::MIN,
                    ;
                }
                i64::MIN
            }
        },
    }
}

/// What the forward edges of a list cost: flow times cost, added up from the left and held at
/// the ends of the range.
pub open spec fn row_cost(row: Seq<(usize, FlowWeight<i64>)>) -> i64
    decreases row.len(),
{
    if row.len() == 0 {
        0
    } else {
        let w = row.last().1;
        add_cost(row_cost(row.drop_last()), if w.rev { 0 } else { clamp(w.flow * w.cost) })
    }
}

/// What the forward edges of the network cost, node by node.
pub open spec fn flow_cost(adj: Seq<Seq<(usize, FlowWeight<i64>)>>) -> i64
    decreases adj.len(),
{
    if adj.len() == 0 {
        0
    } else {
        add_cost(flow_cost(adj.drop_last()), row_cost(adj.last()))
    }
}

/// What `ssp` leaves: `nodes` and `net` are the network `Mcf::init` builds for the graph,
/// `last` is that network after sending as much as it can from the source to the sink (the
/// same edges, capacities, costs and directions; only flow added from the source to the sink,
/// and no walk with room left between them), the result is an error exactly when what was
/// sent falls short of the supply, and otherwise what the flow of `last` costs.
pub open spec fn ssp_outcome<N>(
    gnodes: Seq<BalancedNode<N, i64>>,
    gadj: Seq<Seq<(usize, FlowWeight<i64>)>>,
    r: Result<i64, GraphError>,
    nodes: Seq<BalancedNode<N, i64>>,
    net: Seq<Seq<(usize, FlowWeight<i64>)>>,
    last: Seq<Seq<(usize, FlowWeight<i64>)>>,
) -> bool {
    &&& nodes.len() == gnodes.len() + 2
    &&& nodes.take(gnodes.len() as int) == gnodes
    &&& nodes[gnodes.len() as int].balance == 0
    &&& nodes[gnodes.len() + 1int].balance == 0
    &&& net.len() == nodes.len()
    &&& forall|a: int, b: int|
        0 <= a < net.len() && 0 <= b < net.len() ==> #[trigger] fw(net, a, b) == mcf_edge(
            gadj,
            balances(gnodes),
            a,
            b,
        )
    &&& same_shape(net, last)
    &&& flow_ready(last)
    &&& flow_added(net, last, gnodes.len() as int, gnodes.len() + 1int)
    &&& same_fixed(net, last)
    &&& forall|steps: Seq<(int, int)>|
        walk_by(last, gnodes.len() as int, steps, room::<FlowWeight<i64>>()) ==> #[trigger] walk_end(
            last,
            gnodes.len() as int,
            steps,
        ) != gnodes.len() + 1
    &&& (r is Err) == (out_res(net, gnodes.len() as int, nodes.len() as int) - out_res(
        last,
        gnodes.len() as int,
        nodes.len() as int,
    ) != supply_sum(balances(nodes)))
    &&& r is Err ==> r == Err::<i64, GraphError>(GraphError::McfNotSolvable)
    &&& r matches Ok(c) ==> c == flow_cost(last)
}

/// Successive shortest paths: builds the network (`Mcf::init`), sends as much as it can from
/// the source to the sink (`Mcf::solvable`), and returns what the flow costs on the forward
/// edges.
///
/// Where the supply cannot all reach the demands there is no flow of the right balances to
/// cost. That outcome is answered with `GraphError::McfNotSolvable`, exactly on those inputs,
/// so that a caller can tell it apart and go on; no input makes this function stop the program.
pub fn ssp<N: Copy + Default>(graph: &AdjacencyList<BalancedNode<N, i64>, FlowWeight<i64>, true>) -> (r: Result<i64, GraphError>)
    requires
        graph.spec_wf(),
        mcf_input(graph.spec_nodes(), graph.spec_adj()),
    ensures
        exists|nodes: Seq<BalancedNode<N, i64>>, net: Seq<Seq<(usize, FlowWeight<i64>)>>, last: Seq<Seq<(usize, FlowWeight<i64>)>>|
            #[trigger] ssp_outcome(graph.spec_nodes(), graph.spec_adj(), r, nodes, net, last),
{
    let mut mcf = Mcf::init(graph);
    let ghost nodes = mcf.residual_graph.spec_nodes();
    let ghost net = mcf.residual_graph.spec_adj();
    let solvable = mcf.solvable();
    let ghost last = mcf.residual_graph.spec_adj();
    proof {
        mcf.residual_graph.lemma_wf();
        let n0 = graph.spec_nodes().len();
        assert(nodes.take(n0 as int) == graph.spec_nodes());
        assert(nodes[n0 as int].balance == 0);
        assert(nodes[n0 + 1int].balance == 0);
    }
    let r = if solvable {
        Ok(network_cost(&mcf.residual_graph))
    } else {
        Err(GraphError::McfNotSolvable)
    };
    proof {
        assert(ssp_outcome(graph.spec_nodes(), graph.spec_adj(), r, nodes, net, last));
    }
    r
}

/// What the forward edges of a network cost: see `flow_cost`.
pub fn network_cost<N>(net: &AdjacencyList<N, FlowWeight<i64>, true>) -> (r: i64)
    requires
        net.spec_wf(),
    ensures
        r == flow_cost(net.spec_adj()),
{
    proof {
        net.lemma_wf();
    }
    let ghost last = net.spec_adj();
    let n = net.node_count();
    let mut cost: i64 = 0;
    let mut u: usize = 0;
    while u < n
        invariant
            net.spec_wf(),
            last == net.spec_adj(),
            n == last.len(),
            n == net.spec_nodes().len(),
            u <= n,
            cost == flow_cost(last.take(u as int)),
        decreases n - u,
    {
        let edges = net.iter_adjacent_edges(NodeId(u));
        let mut row: i64 = 0;
        let mut k: usize = 0;
        while k < edges.len()
            invariant
                u < n,
                n == last.len(),
                edges@.len() == last[u as int].len(),
                forall|j: int| 0 <= j < edges@.len() ==> (#[trigger] edges@[j]).weight == last[u as int][j].1,
                k <= edges@.len(),
                row == row_cost(last[u as int].take(k as int)),
            decreases edges@.len() - k,
        {
            let w = edges[k].weight;
            proof {
                assert(last[u as int].take(k + 1).drop_last() =~= last[u as int].take(k as int));
            }
            if !w.rev {
                let c = cost_mul(w.flow, w.cost);
                row = cost_add(row, c);
            } else {
                row = cost_add(row, 0);
            }
            k = k + 1;
        }
        proof {
            assert(last[u as int].take(edges@.len() as int) =~= last[u as int]);
            assert(last.take(u + 1).drop_last() =~= last.take(u as int));
        }
        cost = cost_add(cost, row);
        u = u + 1;
    }
    proof {
        assert(last.take(n as int) =~= last);
    }
    cost
}

} // verus!
