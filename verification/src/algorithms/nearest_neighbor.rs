use crate::algorithms::dijkstra::dijkstra_between;
use crate::graph::edge::Edge;
use crate::graph::index::NodeId;
use crate::graph::traits::{adj_wf, total_edges, Base, Count, IndexAdjacent, IterAdjacent};
use crate::graph::walk::{costs_nonneg, least_cost, lemma_walk_empty};
use crate::algorithms::prim::lemma_walk_exists_step;
use crate::graph::weight::{add_cost, cost_add, EdgeCost};
use crate::pq::PQ_LIMIT;
use crate::structures::tour::Tour;
use vstd::prelude::*;
use vstd::relations::injective_on;
use vstd::set_lib::{lemma_int_range, lemma_len_subset, lemma_map_size, set_int_range};

verus! {

/// How far the greedy search has come with a node.
#[derive(PartialEq, Eq, Structural, Clone, Copy, Debug)]
pub enum Visit {
    Visited,
    Unvisited,
    /// On the route, and the search has already turned back here once.
    Diverged,
}

/// `c` is the cost of an edge `u -> v`, and no edge `u -> v` costs less.
pub open spec fn cheapest_edge<W: EdgeCost>(adj: Seq<Seq<(usize, W)>>, u: int, v: int, c: i64) -> bool {
    &&& exists|k: int| 0 <= k < adj[u].len() && (#[trigger] adj[u][k]).0 == v && adj[u][k].1.spec_cost() == c
    &&& forall|k: int| 0 <= k < adj[u].len() && (#[trigger] adj[u][k]).0 == v ==> c <= adj[u][k].1.spec_cost()
}

/// The costs added up from the left, held at the ends of the range.
pub open spec fn sum_costs(ws: Seq<i64>) -> i64
    decreases ws.len(),
{
    if ws.len() == 0 {
        0
    } else {
        add_cost(sum_costs(ws.drop_last()), ws.last())
    }
}

/// `route` starts at `start`, visits every node of the graph once, each step along the
/// cheapest edge between its ends, and goes back to `start` by a cheapest walk; `costs`
/// holds the cost of each step.
pub open spec fn is_tour<W: EdgeCost>(adj: Seq<Seq<(usize, W)>>, start: int, route: Seq<NodeId>, costs: Seq<i64>) -> bool {
    let n = adj.len() as int;
    &&& n >= 1
    &&& route.len() == n + 1
    &&& costs.len() == n
    &&& route[0].0 == start
    &&& route[n].0 == start
    &&& forall|i: int| 0 <= i < n ==> (#[trigger] route[i]).0 < n
    &&& forall|i: int, j: int| 0 <= i < j < n ==> #[trigger] route[i] != #[trigger] route[j]
    &&& forall|i: int|
        0 <= i < n - 1 ==> cheapest_edge(adj, route[i].0 as int, route[i + 1].0 as int, #[trigger] costs[i])
    &&& least_cost(adj, route[n - 1].0 as int, start, costs[n - 1])
}

/// `v` is one of the first `i + 1` nodes of `route`.
pub open spec fn visited_by(route: Seq<NodeId>, i: int, v: usize) -> bool {
    exists|m: int| 0 <= m <= i && (#[trigger] route[m]).0 == v
}

/// Every step of the route costs no more than any edge from where it starts to a node the
/// route has not visited yet: each step goes to a nearest unvisited node.
pub open spec fn greedy<W: EdgeCost>(adj: Seq<Seq<(usize, W)>>, route: Seq<NodeId>, costs: Seq<i64>) -> bool {
    forall|i: int, j: int|
        0 <= i < adj.len() - 1 && 0 <= j < adj[route[i].0 as int].len() && !visited_by(route, i, (#[trigger] adj[route[i].0 as int][j]).0)
            ==> costs[i] <= adj[route[i].0 as int][j].1.spec_cost()
}

/// Step `i` of the route does not go to `x`, and costs no more than any edge from where it
/// starts to a node the route has not visited yet, other than `x`.
pub open spec fn nearest_but<W: EdgeCost>(adj: Seq<Seq<(usize, W)>>, route: Seq<NodeId>, costs: Seq<i64>, i: int, x: int) -> bool {
    &&& x != route[i + 1].0
    &&& forall|j: int|
        0 <= j < adj[route[i].0 as int].len() && !visited_by(route, i, (#[trigger] adj[route[i].0 as int][j]).0)
            && adj[route[i].0 as int][j].0 != x ==> costs[i] <= adj[route[i].0 as int][j].1.spec_cost()
}

/// Every step goes to a nearest unvisited node, leaving aside at most one node for each step
/// (`aside[i]` for step `i`): the one the search last turned away from there, after it had to
/// turn back.
pub open spec fn greedy_but_one<W: EdgeCost>(adj: Seq<Seq<(usize, W)>>, route: Seq<NodeId>, costs: Seq<i64>) -> bool {
    exists|aside: Seq<int>| #[trigger] nearest_but_each(adj, route, costs, aside)
}

/// Every step `i` is a nearest step leaving `aside[i]` aside.
pub open spec fn nearest_but_each<W: EdgeCost>(adj: Seq<Seq<(usize, W)>>, route: Seq<NodeId>, costs: Seq<i64>, aside: Seq<int>) -> bool {
    forall|i: int| 0 <= i && i + 1 < adj.len() ==> #[trigger] nearest_but(adj, route, costs, i, aside[i])
}

/// Some edge `u -> v` costs less than the largest cost.
pub open spec fn usable_edge<W: EdgeCost>(adj: Seq<Seq<(usize, W)>>, u: int, v: int) -> bool {
    exists|k: int| 0 <= k < adj[u].len() && (#[trigger] adj[u][k]).0 == v && adj[u][k].1.spec_cost() < i64::MAX
}

/// Every node has a usable edge to every other node.
pub open spec fn complete<W: EdgeCost>(adj: Seq<Seq<(usize, W)>>) -> bool {
    forall|u: int, v: int| 0 <= u < adj.len() && 0 <= v < adj.len() && u != v ==> #[trigger] usable_edge(adj, u, v)
}

/// Fewer distinct positions than nodes leave some node unplaced.
proof fn lemma_some_unplaced(at: Seq<int>, len: int, n: int)
    requires
        0 <= len < n,
        at.len() == n,
        forall|v: int| 0 <= v < n && (#[trigger] at[v]) != -1 ==> 0 <= at[v] < len,
        forall|v: int, w: int| 0 <= v < n && 0 <= w < n && v != w && #[trigger] at[v] != -1 && #[trigger] at[w] != -1 ==> at[v] != at[w],
    ensures
        exists|v: int| 0 <= v < n && #[trigger] at[v] == -1,
{
    if forall|v: int| 0 <= v < n ==> #[trigger] at[v] != -1 {
        let f = |v: int| at[v];
        let x = set_int_range(0, n);
        lemma_int_range(0, n);
        lemma_int_range(0, len);
        assert(injective_on(f, x));
        lemma_map_size(x, x.map(f), f);
        assert(x.map(f).subset_of(set_int_range(0, len)));
        lemma_len_subset(x.map(f), set_int_range(0, len));
    }
}

/// Three to the power `k`.
pub open spec fn pow3(k: nat) -> nat
    decreases k,
{
    if k == 0 {
        1
    } else {
        3 * pow3((k - 1) as nat)
    }
}

/// The search's progress: the route read as a number in base three, one digit for each
/// position (one for a node visited, two for a node turned back at), padded to `m` digits.
pub open spec fn rank(ds: Seq<nat>, m: nat) -> nat
    decreases ds.len(),
{
    if ds.len() == 0 {
        0
    } else {
        rank(ds.drop_last(), m) + ds.last() * pow3((m - ds.len()) as nat)
    }
}

pub open spec fn digit(s: Visit) -> nat {
    if s == Visit::Diverged {
        2
    } else {
        1
    }
}

pub open spec fn digits(states: Seq<Visit>, path: Seq<(NodeId, i64)>) -> Seq<nat> {
    Seq::new(path.len(), |k: int| digit(states[path[k].0.0 as int]))
}

pub proof fn lemma_pow3_pos(k: nat)
    ensures
        pow3(k) >= 1,
    decreases k,
{
    if k > 0 {
        lemma_pow3_pos((k - 1) as nat);
    }
}

/// What follows position `i` adds less than one unit of that position.
pub proof fn lemma_rank_tail(ds: Seq<nat>, m: nat, i: int)
    requires
        0 <= i <= ds.len() <= m,
        forall|k: int| 0 <= k < ds.len() ==> #[trigger] ds[k] <= 2,
    ensures
        rank(ds, m) + pow3((m - ds.len()) as nat) <= rank(ds.take(i), m) + pow3((m - i) as nat),
    decreases ds.len(),
{
    if ds.len() == i {
        assert(ds.take(i) =~= ds);
    } else {
        let dl = ds.drop_last();
        assert(forall|k: int| 0 <= k < dl.len() ==> #[trigger] dl[k] == ds[k]);
        lemma_rank_tail(dl, m, i);
        assert(dl.take(i) =~= ds.take(i));
        let e = (m - ds.len()) as nat;
        assert(pow3(e + 1) == 3 * pow3(e));
        assert(((m - dl.len()) as nat) == e + 1);
        assert(ds.last() * pow3(e) <= 2 * pow3(e)) by (nonlinear_arith)
            requires
                ds.last() <= 2,
        ;
    }
}

pub proof fn lemma_rank_bound(ds: Seq<nat>, m: nat)
    requires
        ds.len() <= m,
        forall|k: int| 0 <= k < ds.len() ==> #[trigger] ds[k] <= 2,
    ensures
        rank(ds, m) < pow3(m),
{
    lemma_rank_tail(ds, m, 0);
    assert(ds.take(0) =~= Seq::<nat>::empty());
    lemma_pow3_pos((m - ds.len()) as nat);
}

/// A new position with a visited node raises the rank.
pub proof fn lemma_rank_push(ds: Seq<nat>, m: nat)
    requires
        ds.len() < m,
    ensures
        rank(ds.push(1), m) > rank(ds, m),
{
    let x = ds.push(1);
    let e = (m - x.len()) as nat;
    assert(x.drop_last() =~= ds);
    assert(x.last() == 1);
    assert(rank(x, m) == rank(ds, m) + x.last() * pow3(e));
    assert(x.last() * pow3(e) == pow3(e)) by (nonlinear_arith)
        requires
            x.last() == 1,
    ;
    lemma_pow3_pos(e);
}

/// Turning back at a visited position `j` raises the rank, whatever followed it.
pub proof fn lemma_rank_turn(ds: Seq<nat>, m: nat, j: int)
    requires
        0 <= j < ds.len() <= m,
        ds[j] == 1,
        forall|k: int| 0 <= k < ds.len() ==> #[trigger] ds[k] <= 2,
    ensures
        rank(ds.take(j).push(2), m) > rank(ds, m),
{
    lemma_rank_tail(ds, m, j + 1);
    let t = ds.take(j + 1);
    assert(t.drop_last() =~= ds.take(j));
    let nw = ds.take(j).push(2);
    assert(nw.drop_last() =~= ds.take(j));
    let e = (m - (j + 1)) as nat;
    assert(t.len() == j + 1 && t.last() == 1);
    assert(rank(t, m) == rank(ds.take(j), m) + t.last() * pow3(e));
    assert(t.last() * pow3(e) == pow3(e)) by (nonlinear_arith)
        requires
            t.last() == 1,
    ;
    assert(nw.len() == j + 1 && nw.last() == 2);
    assert(rank(nw, m) == rank(ds.take(j), m) + nw.last() * pow3(e));
    assert(nw.last() * pow3(e) == 2 * pow3(e)) by (nonlinear_arith)
        requires
            nw.last() == 2,
    ;
    lemma_pow3_pos((m - ds.len()) as nat);
    assert(rank(ds, m) + pow3((m - ds.len()) as nat) <= rank(t, m) + pow3(e));
    assert(rank(t, m) + pow3(e) == rank(nw, m));
}

/// All nodes start unvisited.
fn unvisited(n: usize) -> (r: Vec<Visit>)
    ensures
        r@ == Seq::new(n as nat, |i: int| Visit::Unvisited),
{
    let mut r: Vec<Visit> = Vec::new();
    let mut i: usize = 0;
    while i < n
        invariant
            i <= n,
            r@ == Seq::new(i as nat, |k: int| Visit::Unvisited),
        decreases n - i,
    {
        r.push(Visit::Unvisited);
        i = i + 1;
        proof {
            assert(r@ =~= Seq::new(i as nat, |k: int| Visit::Unvisited));
        }
    }
    r
}

/// The cheapest edge from `node` to a node that is still unvisited and is not `prev`: its
/// target and its cost. Edges of the largest cost are never taken.
fn cheapest_step<G: IterAdjacent>(graph: &G, node: NodeId, prev: NodeId, states: &Vec<Visit>) -> (r: Option<(NodeId, i64)>)
    where
        G::Weight: EdgeCost + Copy,
    requires
        graph.spec_wf(),
        adj_wf(graph.spec_adj()),
        graph.spec_adj().len() == graph.spec_nodes().len(),
        node.0 < graph.spec_nodes().len(),
        states@.len() == graph.spec_nodes().len(),
    ensures
        match r {
            Some((v, c)) => {
                let adj = graph.spec_adj();
                &&& v.0 < adj.len()
                &&& states@[v.0 as int] == Visit::Unvisited
                &&& v != prev
                &&& c < i64::MAX
                &&& cheapest_edge(adj, node.0 as int, v.0 as int, c)
                &&& forall|k: int|
                    0 <= k < adj[node.0 as int].len() && states@[(#[trigger] adj[node.0 as int][k]).0 as int]
                        == Visit::Unvisited && adj[node.0 as int][k].0 != prev.0 ==> c
                        <= adj[node.0 as int][k].1.spec_cost()
            },
            None => forall|k: int|
                0 <= k < graph.spec_adj()[node.0 as int].len() && states@[(#[trigger] graph.spec_adj()[node.0 as int][k]).0 as int]
                    == Visit::Unvisited && graph.spec_adj()[node.0 as int][k].0 != prev.0
                    ==> graph.spec_adj()[node.0 as int][k].1.spec_cost() == i64::MAX,
        },
{
    let ghost adj = graph.spec_adj();
    let ghost u = node.0 as int;
    let edges: Vec<Edge<G::Weight>> = graph.iter_adjacent_edges(node);
    let mut best: Option<NodeId> = None;
    let mut best_w: i64 = i64::MAX;
    let mut i: usize = 0;
    while i < edges.len()
        invariant
            graph.spec_wf(),
            adj == graph.spec_adj(),
            adj_wf(adj),
            0 <= u < adj.len(),
            states@.len() == adj.len(),
            edges@.len() == adj[u].len(),
            forall|k: int|
                0 <= k < edges@.len() ==> (#[trigger] edges@[k]).edge_id.to.0 == adj[u][k].0
                    && edges@[k].weight == adj[u][k].1,
            i <= edges@.len(),
            match best {
                Some(v) => {
                    &&& v.0 < adj.len()
                    &&& states@[v.0 as int] == Visit::Unvisited
                    &&& v != prev
                    &&& best_w < i64::MAX
                    &&& exists|k: int| 0 <= k < adj[u].len() && (#[trigger] adj[u][k]).0 == v.0 && adj[u][k].1.spec_cost() == best_w
                },
                None => best_w == i64::MAX,
            },
            forall|k: int|
                0 <= k < i && states@[(#[trigger] adj[u][k]).0 as int] == Visit::Unvisited && adj[u][k].0
                    != prev.0 ==> best_w <= adj[u][k].1.spec_cost(),
        decreases edges@.len() - i,
    {
        let e = edges[i];
        let to = e.edge_id.to;
        let w = e.weight.cost();
        proof {
            assert(edges@[i as int].edge_id.to.0 == adj[u][i as int].0);
        }
        if states[to.0] == Visit::Unvisited && to != prev {
            if best_w > w {
                best = Some(to);
                best_w = w;
                proof {
                    assert(adj[u][i as int].0 == to.0);
                }
            }
        }
        i = i + 1;
    }
    match best {
        Some(v) => {
            proof {
                assert forall|k: int| 0 <= k < adj[u].len() && (#[trigger] adj[u][k]).0 == v.0 implies best_w
                    <= adj[u][k].1.spec_cost() by {
                    assert(states@[adj[u][k].0 as int] == Visit::Unvisited);
                }
            }
            Some((v, best_w))
        },
        None => None,
    }
}

/// Whether an edge leaves `node` towards a node that is still unvisited.
fn open_end<G: IndexAdjacent>(graph: &G, node: NodeId, states: &Vec<Visit>) -> (r: bool)
    requires
        graph.spec_wf(),
        adj_wf(graph.spec_adj()),
        graph.spec_adj().len() == graph.spec_nodes().len(),
        node.0 < graph.spec_nodes().len(),
        states@.len() == graph.spec_nodes().len(),
    ensures
        r == exists|k: int|
            0 <= k < graph.spec_adj()[node.0 as int].len() && states@[(#[trigger] graph.spec_adj()[node.0 as int][k]).0 as int]
                == Visit::Unvisited,
{
    let ghost adj = graph.spec_adj();
    let ghost u = node.0 as int;
    let targets: Vec<NodeId> = graph.adjacent_node_ids(node);
    let mut i: usize = 0;
    while i < targets.len()
        invariant
            adj == graph.spec_adj(),
            adj_wf(adj),
            0 <= u < adj.len(),
            u == node.0,
            states@.len() == adj.len(),
            targets@.len() == adj[u].len(),
            forall|k: int| 0 <= k < targets@.len() ==> (#[trigger] targets@[k]).0 == adj[u][k].0,
            i <= targets@.len(),
            forall|k: int| 0 <= k < i ==> states@[(#[trigger] adj[u][k]).0 as int] != Visit::Unvisited,
        decreases targets@.len() - i,
    {
        let t = targets[i];
        proof {
            assert(targets@[i as int].0 == adj[u][i as int].0);
        }
        if states[t.0] == Visit::Unvisited {
            proof {
                assert(states@[adj[u][i as int].0 as int] == Visit::Unvisited);
            }
            return true;
        }
        i = i + 1;
    }
    false
}

/// Whether an edge leaves `u` towards a node that is still unvisited.
pub open spec fn has_open<W>(adj: Seq<Seq<(usize, W)>>, states: Seq<Visit>, u: int) -> bool {
    exists|k: int| 0 <= k < adj[u].len() && states[(#[trigger] adj[u][k]).0 as int] == Visit::Unvisited
}

/// The last position of the route whose node still has an edge towards an unvisited node.
fn last_open<G: IndexAdjacent>(graph: &G, path: &Vec<(NodeId, i64)>, states: &Vec<Visit>) -> (r: Option<usize>)
    requires
        graph.spec_wf(),
        adj_wf(graph.spec_adj()),
        graph.spec_adj().len() == graph.spec_nodes().len(),
        states@.len() == graph.spec_nodes().len(),
        forall|k: int| 0 <= k < path@.len() ==> (#[trigger] path@[k]).0.0 < graph.spec_nodes().len(),
    ensures
        match r {
            Some(i) => i < path@.len() && has_open(graph.spec_adj(), states@, path@[i as int].0.0 as int)
                && forall|k: int|
                i < k < path@.len() ==> !has_open(graph.spec_adj(), states@, (#[trigger] path@[k]).0.0 as int),
            None => forall|k: int|
                0 <= k < path@.len() ==> !has_open(graph.spec_adj(), states@, (#[trigger] path@[k]).0.0 as int),
        },
{
    let mut i: usize = path.len();
    while i > 0
        invariant
            graph.spec_wf(),
            adj_wf(graph.spec_adj()),
            graph.spec_adj().len() == graph.spec_nodes().len(),
            states@.len() == graph.spec_nodes().len(),
            forall|k: int| 0 <= k < path@.len() ==> (#[trigger] path@[k]).0.0 < graph.spec_nodes().len(),
            i <= path@.len(),
            forall|k: int|
                i <= k < path@.len() ==> !has_open(graph.spec_adj(), states@, (#[trigger] path@[k]).0.0 as int),
        decreases i,
    {
        let node = path[i - 1].0;
        if open_end(graph, node, states) {
            return Some(i - 1);
        }
        i = i - 1;
    }
    None
}

/// Every step of `path` so far costs no more than any edge from where it starts to a node not
/// placed before it, other than the node `rej` names for it, to which it does not go.
#[verifier::opaque]
pub open spec fn greedy_steps<W: EdgeCost>(adj: Seq<Seq<(usize, W)>>, path: Seq<(NodeId, i64)>, at: Seq<int>, rej: Seq<int>) -> bool {
    &&& rej.len() == path.len()
    &&& forall|k: int| 1 <= k < path.len() ==> #[trigger] rej[k] != path[k].0.0
    &&& forall|k: int, j: int|
        1 <= k < path.len() && 0 <= j < adj[path[k - 1].0.0 as int].len() && !(at[(#[trigger] adj[path[k - 1].0.0 as int][j]).0 as int]
            != -1 && at[adj[path[k - 1].0.0 as int][j].0 as int] < k) && adj[path[k - 1].0.0 as int][j].0 != rej[k] ==> path[k].1
            <= adj[path[k - 1].0.0 as int][j].1.spec_cost()
}

proof fn lemma_greedy_push<W: EdgeCost>(
    adj: Seq<Seq<(usize, W)>>,
    p0: Seq<(NodeId, i64)>,
    at0: Seq<int>,
    r0: Seq<int>,
    node: NodeId,
    pv: int,
    next: NodeId,
    w: i64,
    s0: Seq<Visit>,
)
    requires
        greedy_steps(adj, p0, at0, r0),
        p0.len() >= 1,
        forall|k: int| 0 <= k < p0.len() ==> (#[trigger] p0[k]).0.0 < adj.len(),
        p0.last().0 == node,
        0 <= node.0 < adj.len(),
        at0.len() == adj.len(),
        s0.len() == adj.len(),
        adj_wf(adj),
        at0[node.0 as int] == p0.len() - 1,
        at0[next.0 as int] == -1,
        next.0 < adj.len(),
        next.0 != pv,
        forall|v: int| 0 <= v < adj.len() ==> ((#[trigger] s0[v]) == Visit::Unvisited) == (at0[v] == -1),
        forall|v: int| 0 <= v < adj.len() && (#[trigger] at0[v]) != -1 ==> 0 <= at0[v] < p0.len(),
        forall|k: int|
            0 <= k < adj[node.0 as int].len() && s0[(#[trigger] adj[node.0 as int][k]).0 as int] == Visit::Unvisited
                && adj[node.0 as int][k].0 != pv ==> w <= adj[node.0 as int][k].1.spec_cost(),
    ensures
        greedy_steps(adj, p0.push((next, w)), at0.update(next.0 as int, p0.len() as int), r0.push(pv)),
{
    reveal(greedy_steps);
    let len = p0.len() as int;
    let path = p0.push((next, w));
    let at = at0.update(next.0 as int, len);
    let rej = r0.push(pv);
    assert forall|k: int| 1 <= k < path.len() implies #[trigger] rej[k] != path[k].0.0 by {
        if k < len {
            assert(rej[k] == r0[k] && path[k] == p0[k]);
        }
    }
    assert forall|k: int, j: int|
        1 <= k < path.len() && 0 <= j < adj[path[k - 1].0.0 as int].len() && !(at[(#[trigger] adj[path[k - 1].0.0 as int][j]).0 as int]
            != -1 && at[adj[path[k - 1].0.0 as int][j].0 as int] < k) && adj[path[k - 1].0.0 as int][j].0 != rej[k] implies path[k].1
        <= adj[path[k - 1].0.0 as int][j].1.spec_cost() by {
        let t = adj[path[k - 1].0.0 as int][j].0 as int;
        assert(p0[k - 1].0.0 < adj.len());
        if k < len {
            assert(path[k] == p0[k]);
            assert(path[k - 1] == p0[k - 1]);
            assert(rej[k] == r0[k]);
            assert(t < adj.len());
            if t != next.0 {
                assert(at[t] == at0[t]);
            }
        } else {
            assert(path[k - 1] == p0[len - 1]);
            assert(t < adj.len());
            if t != next.0 {
                assert(at[t] == at0[t]);
                assert(s0[t] == Visit::Unvisited);
            }
        }
    }
}

proof fn lemma_greedy_trunc<W: EdgeCost>(adj: Seq<Seq<(usize, W)>>, p0: Seq<(NodeId, i64)>, at0: Seq<int>, r0: Seq<int>, at: Seq<int>, t: int)
    requires
        greedy_steps(adj, p0, at0, r0),
        0 <= t < p0.len(),
        at.len() == at0.len(),
        forall|v: int| 0 <= v < at0.len() ==> #[trigger] at[v] == (if at0[v] > t { -1 } else { at0[v] }),
        adj_wf(adj),
        at0.len() == adj.len(),
        forall|k: int| 0 <= k < p0.len() ==> (#[trigger] p0[k]).0.0 < adj.len(),
    ensures
        greedy_steps(adj, p0.take(t + 1), at, r0.take(t + 1)),
{
    reveal(greedy_steps);
    let path = p0.take(t + 1);
    let rej = r0.take(t + 1);
    assert forall|k: int| 1 <= k < path.len() implies #[trigger] rej[k] != path[k].0.0 by {
        assert(rej[k] == r0[k] && path[k] == p0[k]);
    }
    assert forall|k: int, j: int|
        1 <= k < path.len() && 0 <= j < adj[path[k - 1].0.0 as int].len() && !(at[(#[trigger] adj[path[k - 1].0.0 as int][j]).0 as int]
            != -1 && at[adj[path[k - 1].0.0 as int][j].0 as int] < k) && adj[path[k - 1].0.0 as int][j].0 != rej[k] implies path[k].1
        <= adj[path[k - 1].0.0 as int][j].1.spec_cost() by {
        assert(path[k] == p0[k]);
        assert(path[k - 1] == p0[k - 1]);
        assert(rej[k] == r0[k]);
        let x = adj[path[k - 1].0.0 as int][j].0 as int;
        assert(p0[k - 1].0.0 < adj.len());
        assert(x < adj.len());
        assert(at[x] == (if at0[x] > t { -1 } else { at0[x] }));
    }
}

proof fn lemma_greedy_route<W: EdgeCost>(
    adj: Seq<Seq<(usize, W)>>,
    path: Seq<(NodeId, i64)>,
    at: Seq<int>,
    rej: Seq<int>,
    rt: Seq<NodeId>,
    costs: Seq<i64>,
)
    requires
        greedy_steps(adj, path, at, rej),
        path.len() == adj.len(),
        adj_wf(adj),
        at.len() == adj.len(),
        rt.len() == adj.len() + 1,
        costs.len() == adj.len(),
        forall|m: int| 0 <= m < adj.len() ==> #[trigger] rt[m] == path[m].0,
        forall|m: int| 0 <= m < adj.len() - 1 ==> #[trigger] costs[m] == path[m + 1].1,
        forall|k: int| 0 <= k < path.len() ==> (#[trigger] path[k]).0.0 < adj.len() && at[path[k].0.0 as int] == k,
        forall|v: int| 0 <= v < adj.len() && (#[trigger] at[v]) != -1 ==> 0 <= at[v] < path.len() && path[at[v]].0.0 == v,
        forall|k: int| 0 <= k < path.len() ==> 0 <= (#[trigger] path[k]).0.0 < adj.len(),
    ensures
        greedy_but_one(adj, rt, costs),
{
    reveal(greedy_steps);
    let aside = rej.drop_first();
    assert forall|i: int| 0 <= i && i + 1 < adj.len() implies #[trigger] nearest_but(adj, rt, costs, i, aside[i]) by {
        lemma_greedy_one(adj, path, at, rej, rt, costs, i);
        assert(aside[i] == rej[i + 1]);
    }
    assert(nearest_but_each(adj, rt, costs, aside));
    assert(greedy_but_one(adj, rt, costs));
}

proof fn lemma_greedy_one<W: EdgeCost>(
    adj: Seq<Seq<(usize, W)>>,
    path: Seq<(NodeId, i64)>,
    at: Seq<int>,
    rej: Seq<int>,
    rt: Seq<NodeId>,
    costs: Seq<i64>,
    i: int,
)
    requires
        greedy_steps(adj, path, at, rej),
        path.len() == adj.len(),
        adj_wf(adj),
        at.len() == adj.len(),
        rt.len() == adj.len() + 1,
        costs.len() == adj.len(),
        forall|m: int| 0 <= m < adj.len() ==> #[trigger] rt[m] == path[m].0,
        forall|m: int| 0 <= m < adj.len() - 1 ==> #[trigger] costs[m] == path[m + 1].1,
        forall|k: int| 0 <= k < path.len() ==> (#[trigger] path[k]).0.0 < adj.len() && at[path[k].0.0 as int] == k,
        forall|v: int| 0 <= v < adj.len() && (#[trigger] at[v]) != -1 ==> 0 <= at[v] < path.len() && path[at[v]].0.0 == v,
        0 <= i && i + 1 < adj.len(),
    ensures
        nearest_but(adj, rt, costs, i, rej[i + 1]),
{
    reveal(greedy_steps);
    let k = i + 1;
    assert(rt[i] == path[k - 1].0);
    assert(rt[k] == path[k].0);
    assert(costs[i] == path[k].1);
    assert forall|j: int|
        0 <= j < adj[rt[i].0 as int].len() && !visited_by(rt, i, (#[trigger] adj[rt[i].0 as int][j]).0) && adj[rt[i].0 as int][j].0
            != rej[k] implies costs[i] <= adj[rt[i].0 as int][j].1.spec_cost() by {
        let t = adj[rt[i].0 as int][j].0 as int;
        assert(path[k - 1].0.0 < adj.len());
        assert(t < adj.len());
        if at[t] != -1 && at[t] < k {
            assert(rt[at[t]] == path[at[t]].0);
            assert(rt[at[t]].0 == t);
            assert(visited_by(rt, i, t as usize));
        }
    }
}

/// Builds a round trip greedily: from `start`, it always follows the cheapest edge to a node
/// not yet visited. Where it is stuck, it turns back to the last node of the route that still
/// has an unvisited neighbour, and tries another way from there; where it would turn back at
/// the same node twice, or nowhere, it gives up. When every node is on the route, it goes back
/// to `start` along a cheapest walk.
pub fn nearest_neighbor<G: IterAdjacent + IndexAdjacent + Count>(graph: &G, start: NodeId) -> (r: Option<Tour<i64>>)
    where
        G::Weight: EdgeCost + Copy,
    requires
        graph.spec_wf(),
        adj_wf(graph.spec_adj()),
        costs_nonneg(graph.spec_adj()),
        start.0 < graph.spec_nodes().len(),
        total_edges(graph.spec_adj()) + 1 < PQ_LIMIT,
    ensures
        r matches Some(t) ==> exists|costs: Seq<i64>|
            is_tour(graph.spec_adj(), start.0 as int, t.route@, costs) && t.weight == sum_costs(costs) && greedy_but_one(
                graph.spec_adj(),
                t.route@,
                costs,
            ) && (complete(graph.spec_adj()) ==> greedy(graph.spec_adj(), t.route@, costs)),
        complete(graph.spec_adj()) ==> r is Some,
{
    proof {
        graph.lemma_wf();
    }
    let ghost adj = graph.spec_adj();
    let n = graph.node_count();
    let mut states = unvisited(n);
    states.set(start.0, Visit::Visited);
    let mut path: Vec<(NodeId, i64)> = Vec::new();
    path.push((start, 0i64));
    let mut prev = start;
    let ghost mut at: Seq<int> = Seq::new(n as nat, |v: int| if v == start.0 { 0 } else { -1 });
    let ghost mut rej: Seq<int> = seq![start.0 as int];
    proof {
        reveal(greedy_steps);
    }
    while path.len() < n
        invariant
            graph.spec_wf(),
            adj == graph.spec_adj(),
            adj_wf(adj),
            costs_nonneg(adj),
            n == adj.len(),
            n == graph.spec_nodes().len(),
            start.0 < n,
            total_edges(adj) + 1 < PQ_LIMIT,
            states@.len() == n,
            at.len() == n,
            1 <= path@.len() <= n,
            path@[0] == (start, 0i64),
            forall|v: int| 0 <= v < n ==> ((#[trigger] states@[v]) == Visit::Unvisited) == (at[v] == -1),
            forall|v: int|
                0 <= v < n && (#[trigger] at[v]) != -1 ==> 0 <= at[v] < path@.len() && path@[at[v]].0.0 == v,
            forall|k: int| 0 <= k < path@.len() ==> (#[trigger] path@[k]).0.0 < n && at[path@[k].0.0 as int] == k,
            forall|k: int|
                1 <= k < path@.len() ==> cheapest_edge(adj, path@[k - 1].0.0 as int, path@[k].0.0 as int, (#[trigger] path@[k]).1),
            prev.0 < n,
            path@.len() < n || prev == path@.last().0,
            complete(adj) ==> prev == path@.last().0,
            complete(adj) ==> forall|k: int, j: int|
                1 <= k < path@.len() && 0 <= j < adj[path@[k - 1].0.0 as int].len() && !(at[(#[trigger] adj[path@[k
                    - 1].0.0 as int][j]).0 as int] != -1 && at[adj[path@[k - 1].0.0 as int][j].0 as int] < k) ==> path@[k].1
                    <= adj[path@[k - 1].0.0 as int][j].1.spec_cost(),
            greedy_steps(adj, path@, at, rej),
        decreases pow3(n as nat) - rank(digits(states@, path@), n as nat),
    {
        let ghost s0 = states@;
        let ghost p0 = path@;
        let ghost at0 = at;
        proof {
            assert forall|k: int| 0 <= k < digits(s0, p0).len() implies #[trigger] digits(s0, p0)[k] <= 2 by {}
            lemma_rank_bound(digits(s0, p0), n as nat);
        }
        let node = path[path.len() - 1].0;
        match cheapest_step(graph, node, prev, &states) {
            Some((next, w)) => {
                let ghost len = path@.len();
                let ghost pv = prev.0 as int;
                let ghost r0 = rej;
                path.push((next, w));
                states.set(next.0, Visit::Visited);
                prev = next;
                proof {
                    at = at.update(next.0 as int, len as int);
                    assert(p0[len - 1].0 == node);
                    assert(at0[node.0 as int] == len - 1);
                    lemma_greedy_push(adj, p0, at0, r0, node, pv, next, w, s0);
                    rej = rej.push(pv);
                    assert(digits(states@, path@) =~= digits(s0, p0).push(1));
                    lemma_rank_push(digits(s0, p0), n as nat);
                    assert forall|k: int| 0 <= k < digits(states@, path@).len() implies #[trigger] digits(states@, path@)[k] <= 2 by {}
                    lemma_rank_bound(digits(states@, path@), n as nat);
                    assert forall|k: int| 1 <= k < path@.len() implies cheapest_edge(adj, path@[k - 1].0.0 as int, path@[k].0.0 as int, (#[trigger] path@[k]).1) by {
                        if k < len {
                            assert(path@[k] == p0[k]);
                        }
                    }
                    if complete(adj) {
                        assert forall|k: int, j: int|
                            1 <= k < path@.len() && 0 <= j < adj[path@[k - 1].0.0 as int].len() && !(at[(#[trigger] adj[path@[k
                                - 1].0.0 as int][j]).0 as int] != -1 && at[adj[path@[k - 1].0.0 as int][j].0 as int] < k) implies path@[k].1
                            <= adj[path@[k - 1].0.0 as int][j].1.spec_cost() by {
                            let t = adj[path@[k - 1].0.0 as int][j].0 as int;
                            if k < len {
                                assert(path@[k] == p0[k]);
                                assert(path@[k - 1] == p0[k - 1]);
                                if t == next.0 {
                                } else {
                                    assert(at[t] == at0[t]);
                                }
                            } else {
                                assert(path@[k - 1] == p0[len - 1]);
                                assert(path@[k - 1].0 == node);
                                assert(at0[node.0 as int] == len - 1);
                                if t != next.0 {
                                    assert(at[t] == at0[t]);
                                }
                                assert(s0[t] == Visit::Unvisited);
                                assert(t != prev.0 || t == next.0);
                            }
                        }
                    }
                }
            },
            None => {
                proof {
                    if complete(adj) {
                        assert forall|v: int, w: int|
                            0 <= v < n && 0 <= w < n && v != w && #[trigger] at0[v] != -1 && #[trigger] at0[w] != -1 implies at0[v]
                                != at0[w] by {
                            assert(p0[at0[v]].0.0 == v);
                            assert(p0[at0[w]].0.0 == w);
                        }
                        lemma_some_unplaced(at0, p0.len() as int, n as int);
                        let v = choose|v: int| 0 <= v < n && #[trigger] at0[v] == -1;
                        let u = node.0 as int;
                        assert(at0[u] == p0.len() - 1);
                        assert(usable_edge(adj, u, v));
                        let k = choose|k: int| 0 <= k < adj[u].len() && (#[trigger] adj[u][k]).0 == v && adj[u][k].1.spec_cost() < i64::MAX;
                        assert(states@[adj[u][k].0 as int] == Visit::Unvisited);
                        assert(false);
                    }
                }
                let index = match last_open(graph, &path, &states) {
                    Some(i) => i,
                    None => {
                        return None;
                    },
                };
                let branch = path[index].0;
                if states[branch.0] == Visit::Diverged {
                    return None;
                }
                states.set(branch.0, Visit::Diverged);
                let ghost s1 = states@;
                let split = path.split_off(index + 1);
                let mut j: usize = split.len();
                while j > 0
                    invariant
                        n == adj.len(),
                        states@.len() == n,
                        at.len() == n,
                        s1.len() == n,
                        at0.len() == n,
                        index < p0.len() <= n,
                        split@ == p0.subrange(index + 1, p0.len() as int),
                        j <= split@.len(),
                        forall|k: int| 0 <= k < p0.len() ==> (#[trigger] p0[k]).0.0 < n && at0[p0[k].0.0 as int] == k,
                        forall|v: int|
                            0 <= v < n && (#[trigger] at0[v]) != -1 ==> 0 <= at0[v] < p0.len() && p0[at0[v]].0.0 == v,
                        forall|v: int|
                            #![trigger states@[v]]
                            #![trigger at[v]]
                            0 <= v < n ==> if at0[v] > index + j {
                                states@[v] == Visit::Unvisited && at[v] == -1
                            } else {
                                states@[v] == s1[v] && at[v] == at0[v]
                            },
                        prev.0 < n,
                    decreases j,
                {
                    j = j - 1;
                    let v = split[j].0;
                    states.set(v.0, Visit::Unvisited);
                    prev = v;
                    proof {
                        let pos = index + 1 + j;
                        assert(v == p0[pos].0);
                        assert(at0[v.0 as int] == pos);
                        at = at.update(v.0 as int, -1);
                    }
                }
                proof {
                    let t = index as int;
                    let r0 = rej;
                    assert forall|v: int| 0 <= v < at0.len() implies #[trigger] at[v] == (if at0[v] > t { -1 } else { at0[v] }) by {}
                    lemma_greedy_trunc(adj, p0, at0, r0, at, t);
                    rej = rej.take(t + 1);
                    assert(path@ == p0.take(t + 1));
                    assert(at0[branch.0 as int] == t);
                    assert(s0[branch.0 as int] == Visit::Visited);
                    assert forall|k: int| 0 <= k <= t implies #[trigger] states@[p0[k].0.0 as int] == (if k == t {
                        Visit::Diverged
                    } else {
                        s0[p0[k].0.0 as int]
                    }) by {
                        assert(at0[p0[k].0.0 as int] == k);
                    }
                    assert(digits(states@, path@) =~= digits(s0, p0).take(t).push(2));
                    assert forall|k: int| 0 <= k < digits(s0, p0).len() implies #[trigger] digits(s0, p0)[k] <= 2 by {}
                    lemma_rank_turn(digits(s0, p0), n as nat, t);
                    assert forall|k: int| 0 <= k < digits(states@, path@).len() implies #[trigger] digits(states@, path@)[k] <= 2 by {}
                    lemma_rank_bound(digits(states@, path@), n as nat);
                    assert forall|v: int| 0 <= v < n implies ((#[trigger] states@[v]) == Visit::Unvisited) == (at[v] == -1) by {
                        if at0[v] > t {
                        } else if v == branch.0 {
                        } else {
                            assert(states@[v] == s0[v]);
                        }
                    }
                    assert forall|v: int| 0 <= v < n && (#[trigger] at[v]) != -1 implies 0 <= at[v] < path@.len() && path@[at[v]].0.0 == v by {
                        if at0[v] > t {
                            assert(at[v] == -1);
                        } else {
                            assert(at[v] == at0[v]);
                            assert(p0[at0[v]] == path@[at0[v]]);
                        }
                    }
                    assert forall|k: int| 0 <= k < path@.len() implies (#[trigger] path@[k]).0.0 < n && at[path@[k].0.0 as int] == k by {
                        assert(path@[k] == p0[k]);
                        assert(at0[p0[k].0.0 as int] == k);
                    }
                    assert forall|k: int| 1 <= k < path@.len() implies cheapest_edge(adj, path@[k - 1].0.0 as int, path@[k].0.0 as int, (#[trigger] path@[k]).1) by {
                        assert(path@[k] == p0[k]);
                        assert(path@[k - 1] == p0[k - 1]);
                    }
                }
            },
        }
    }
    proof {
        assert(path@.len() == n);
    }
    let d = match dijkstra_between(graph, prev, start) {
        Some(d) => d,
        None => {
            proof {
                if complete(adj) {
                    lemma_walk_empty(adj, prev.0 as int);
                    if prev != start {
                        assert(usable_edge(adj, prev.0 as int, start.0 as int));
                        let k = choose|k: int|
                            0 <= k < adj[prev.0 as int].len() && (#[trigger] adj[prev.0 as int][k]).0 == start.0 as int
                                && adj[prev.0 as int][k].1.spec_cost() < i64::MAX;
                        lemma_walk_exists_step(adj, prev.0 as int, prev.0 as int, k);
                    }
                }
            }
            return None;
        },
    };
    let ghost costs: Seq<i64> = Seq::new(n as nat, |k: int| if k < n - 1 { path@[k + 1].1 } else { d });
    let mut route: Vec<NodeId> = Vec::new();
    let mut weight: i64 = 0;
    let mut k: usize = 0;
    while k < n
        invariant
            path@.len() == n,
            k <= n,
            route@.len() == k,
            forall|m: int| 0 <= m < k ==> #[trigger] route@[m] == path@[m].0,
        decreases n - k,
    {
        route.push(path[k].0);
        k = k + 1;
    }
    route.push(start);
    let mut m: usize = 0;
    while m + 1 < n
        invariant
            path@.len() == n,
            n >= 1,
            m + 1 <= n,
            costs == Seq::new(n as nat, |k: int| if k < n - 1 { path@[k + 1].1 } else { d }),
            weight == sum_costs(costs.take(m as int)),
        decreases n - m,
    {
        proof {
            assert(costs.take(m + 1).drop_last() =~= costs.take(m as int));
        }
        weight = cost_add(weight, path[m + 1].1);
        m = m + 1;
    }
    proof {
        assert(costs.take(n as int).drop_last() =~= costs.take(n - 1));
        assert(costs.take(n as int) =~= costs);
    }
    weight = cost_add(weight, d);
    proof {
        assert(costs.take(n as int).last() == d);
        assert(weight == sum_costs(costs));
        let rt = route@;
        assert forall|i: int, j: int| 0 <= i < j < n implies #[trigger] rt[i] != #[trigger] rt[j] by {
            assert(rt[i] == path@[i].0);
            assert(rt[j] == path@[j].0);
            assert(at[path@[i].0.0 as int] == i);
            assert(at[path@[j].0.0 as int] == j);
        }
        assert forall|i: int| 0 <= i < n - 1 implies cheapest_edge(adj, rt[i].0 as int, rt[i + 1].0 as int, #[trigger] costs[i]) by {
            let k = i + 1;
            assert(cheapest_edge(adj, path@[k - 1].0.0 as int, path@[k].0.0 as int, path@[k].1));
        }
        assert forall|i: int| 0 <= i < n implies (#[trigger] rt[i]).0 < n by {
            assert(rt[i] == path@[i].0);
        }
        assert(rt[n - 1] == prev);
        assert(is_tour(adj, start.0 as int, rt, costs));
        if complete(adj) {
            assert forall|i: int, j: int|
                0 <= i < adj.len() - 1 && 0 <= j < adj[rt[i].0 as int].len() && !visited_by(rt, i, (#[trigger] adj[rt[i].0 as int][j]).0)
                    implies costs[i] <= adj[rt[i].0 as int][j].1.spec_cost() by {
                let k = i + 1;
                assert(rt[i] == path@[k - 1].0);
                let t = adj[rt[i].0 as int][j].0 as int;
                if at[t] != -1 && at[t] < k {
                    assert(rt[at[t]] == path@[at[t]].0);
                    assert(rt[at[t]].0 == t);
                    assert(visited_by(rt, i, t as usize));
                }
            }
        }
    }
    proof {
        assert forall|m: int| 0 <= m < adj.len() implies #[trigger] route@[m] == path@[m].0 by {}
        assert forall|m: int| 0 <= m < adj.len() - 1 implies #[trigger] costs[m] == path@[m + 1].1 by {}
        lemma_greedy_route(adj, path@, at, rej, route@, costs);
    }
    let t = Tour::new(route, weight);
    proof {
        assert(is_tour(graph.spec_adj(), start.0 as int, t.route@, costs) && t.weight == sum_costs(costs));
        assert(complete(adj) ==> greedy(adj, t.route@, costs));
        assert(greedy_but_one(adj, t.route@, costs));
    }
    Some(t)
}

/// `nearest_neighbor` from the first node; nothing for a graph without nodes.
pub fn nearest_neighbor_from_first<G: IterAdjacent + IndexAdjacent + Count>(graph: &G) -> (r: Option<Tour<i64>>)
    where
        G::Weight: EdgeCost + Copy,
    requires
        graph.spec_wf(),
        adj_wf(graph.spec_adj()),
        costs_nonneg(graph.spec_adj()),
        total_edges(graph.spec_adj()) + 1 < PQ_LIMIT,
    ensures
        graph.spec_nodes().len() == 0 ==> r is None,
        r matches Some(t) ==> exists|costs: Seq<i64>|
            is_tour(graph.spec_adj(), 0, t.route@, costs) && t.weight == sum_costs(costs) && greedy_but_one(
                graph.spec_adj(),
                t.route@,
                costs,
            ) && (complete(graph.spec_adj()) ==> greedy(graph.spec_adj(), t.route@, costs)),
        graph.spec_nodes().len() > 0 && complete(graph.spec_adj()) ==> r is Some,
{
    if graph.node_count() == 0 {
        None
    } else {
        nearest_neighbor(graph, NodeId(0))
    }
}

} // verus!
