use crate::algorithms::dijkstra::{dijkstra_between, lemma_walks_nonneg};
use crate::algorithms::nearest_neighbor::{is_tour, nearest_neighbor, sum_costs};
use crate::graph::index::NodeId;
use crate::graph::traits::{adj_wf, total_edges, Base, Count, Index, IndexAdjacent, IterAdjacent};
use crate::graph::walk::{costs_nonneg, lemma_walk_cost_prefix, lemma_walk_push, least_cost, walk_cost, walk_end, walk_exists, walk_node, walk_ok};
use crate::graph::weight::{add_cost, cost_add, EdgeCost};
use crate::pq::PQ_LIMIT;
use crate::structures::tour::Tour;
use vstd::prelude::*;
use vstd::set_lib::{lemma_int_range, lemma_len_subset, set_int_range};

verus! {

/// A walk from `start` through every node of the graph exactly once.
pub open spec fn ham_walk<W>(adj: Seq<Seq<(usize, W)>>, start: int, h: Seq<(int, int)>) -> bool {
    &&& walk_ok(adj, start, h)
    &&& h.len() + 1 == adj.len()
    &&& forall|i: int, j: int|
        #![trigger walk_node(adj, start, h, i), walk_node(adj, start, h, j)]
        0 <= i < j <= h.len() ==> walk_node(adj, start, h, i) != walk_node(adj, start, h, j)
}

/// The cost of the round trip along `h` and back to its start by a cheapest walk of cost `d`.
pub open spec fn trip_cost<W: EdgeCost>(adj: Seq<Seq<(usize, W)>>, h: Seq<(int, int)>, d: i64) -> i64 {
    add_cost(walk_cost(adj, h), d)
}

/// Whether `v` is on the path.
pub open spec fn on_path(path: Seq<NodeId>, v: int) -> bool {
    exists|i: int| 0 <= i < path.len() && (#[trigger] path[i]).0 == v
}

/// A partial route of the search: the walk `steps` from `start`, the nodes it passes in
/// `path`, which nodes those are in `vis`, and its cost.
#[verifier::opaque]
pub open spec fn bb_state<W: EdgeCost>(
    adj: Seq<Seq<(usize, W)>>,
    start: int,
    cost: i64,
    path: Seq<NodeId>,
    vis: Seq<bool>,
    steps: Seq<(int, int)>,
) -> bool {
    &&& walk_ok(adj, start, steps)
    &&& path.len() == steps.len() + 1
    &&& forall|i: int| 0 <= i < path.len() ==> (#[trigger] path[i]).0 == walk_node(adj, start, steps, i)
    &&& forall|i: int| 0 <= i < path.len() ==> (#[trigger] path[i]).0 < adj.len()
    &&& forall|i: int, j: int| 0 <= i < j < path.len() ==> #[trigger] path[i] != #[trigger] path[j]
    &&& vis.len() == adj.len()
    &&& forall|v: int| 0 <= v < adj.len() ==> #[trigger] vis[v] == on_path(path, v)
    &&& cost == walk_cost(adj, steps)
}

pub proof fn lemma_bb_state_facts<W: EdgeCost>(
    adj: Seq<Seq<(usize, W)>>,
    s: int,
    cost: i64,
    path: Seq<NodeId>,
    vis: Seq<bool>,
    steps: Seq<(int, int)>,
)
    requires
        bb_state(adj, s, cost, path, vis, steps),
    ensures
        walk_ok(adj, s, steps),
        path.len() == steps.len() + 1,
        path.last().0 == walk_end(adj, s, steps),
        path.last().0 < adj.len(),
        vis.len() == adj.len(),
        cost == walk_cost(adj, steps),
{
    reveal(bb_state);
    assert(path[path.len() - 1].0 == walk_node(adj, s, steps, path.len() - 1));
}

/// The best route found so far, when there is one: a walk through all nodes, and `total` the
/// cost of its round trip.
#[verifier::opaque]
pub open spec fn best_ok<W: EdgeCost>(
    adj: Seq<Seq<(usize, W)>>,
    s: int,
    route: Seq<NodeId>,
    best: Seq<(int, int)>,
    best_d: i64,
    total: i64,
) -> bool {
    route.len() > 0 ==> {
        &&& ham_walk(adj, s, best)
        &&& least_cost(adj, walk_end(adj, s, best), s, best_d)
        &&& total == trip_cost(adj, best, best_d)
        &&& route.len() == best.len() + 1
        &&& forall|i: int| 0 <= i < route.len() ==> (#[trigger] route[i]).0 == walk_node(adj, s, best, i)
    }
}

pub proof fn lemma_bb_best<W: EdgeCost>(
    adj: Seq<Seq<(usize, W)>>,
    s: int,
    cost: i64,
    path: Seq<NodeId>,
    vis: Seq<bool>,
    sp: Seq<(int, int)>,
    d: i64,
)
    requires
        bb_state(adj, s, cost, path, vis, sp),
        ham_walk(adj, s, sp),
        closing(adj, walk_end(adj, s, sp), s, Some(d)),
    ensures
        best_ok(adj, s, path, sp, d, add_cost(cost, d)),
{
    reveal(closing);
    reveal(bb_state);
    reveal(best_ok);
}

/// What the search for the way back from `to` to `s` found: its least cost, or that there is
/// no way back.
#[verifier::opaque]
pub open spec fn closing<W: EdgeCost>(adj: Seq<Seq<(usize, W)>>, to: int, s: int, found: Option<i64>) -> bool {
    match found {
        Some(d) => least_cost(adj, to, s, d),
        None => !walk_exists(adj, to, s),
    }
}

/// The cost of a cheapest way back from `to` to `start`.
fn way_back<G: IterAdjacent + Count>(graph: &G, to: NodeId, start: NodeId) -> (r: Option<i64>)
    where
        G::Weight: EdgeCost + Copy,
    requires
        graph.spec_wf(),
        adj_wf(graph.spec_adj()),
        costs_nonneg(graph.spec_adj()),
        to.0 < graph.spec_nodes().len(),
        start.0 < graph.spec_nodes().len(),
        total_edges(graph.spec_adj()) + 1 < PQ_LIMIT,
    ensures
        closing(graph.spec_adj(), to.0 as int, start.0 as int, r),
{
    let r = dijkstra_between(graph, to, start);
    proof {
        reveal(closing);
    }
    r
}

/// Some state on the stack holds a beginning of `h`.
pub open spec fn covered(gs: Seq<Seq<(int, int)>>, h: Seq<(int, int)>) -> bool {
    exists|j: int| 0 <= j < gs.len() && #[trigger] gs[j] == h.take(gs[j].len() as int)
}

/// The search budget of a state with `l` nodes: itself, and what its descendants may cost, at
/// most `d` children each.
pub open spec fn budget(l: nat, n: nat, d: nat) -> nat
    decreases n - l,
{
    if l >= n {
        1
    } else {
        1 + d * budget(l + 1, n, d)
    }
}

/// The budget of a stack of states with these node counts.
pub open spec fn stack_budget(lens: Seq<nat>, n: nat, d: nat) -> nat
    decreases lens.len(),
{
    if lens.len() == 0 {
        0
    } else {
        stack_budget(lens.drop_last(), n, d) + budget(lens.last(), n, d)
    }
}

/// `n` distinct nodes below `n` are all the nodes.
pub proof fn lemma_cover(nodes: Seq<NodeId>, n: int)
    requires
        nodes.len() == n,
        forall|i: int| 0 <= i < nodes.len() ==> (#[trigger] nodes[i]).0 < n,
        forall|i: int, j: int| 0 <= i < j < nodes.len() ==> #[trigger] nodes[i] != #[trigger] nodes[j],
    ensures
        forall|v: int| 0 <= v < n ==> #[trigger] on_path(nodes, v),
{
    let ids = Seq::new(nodes.len(), |i: int| nodes[i].0 as int);
    assert(ids.no_duplicates()) by {
        assert forall|i: int, j: int| 0 <= i < ids.len() && 0 <= j < ids.len() && i != j implies ids[i] != ids[j] by {
            if i < j {
                assert(nodes[i] != nodes[j]);
            } else {
                assert(nodes[j] != nodes[i]);
            }
        }
    }
    ids.unique_seq_to_set();
    let s = ids.to_set();
    lemma_int_range(0, n);
    assert forall|v: int| 0 <= v < n implies #[trigger] on_path(nodes, v) by {
        if !s.contains(v) {
            let r = set_int_range(0, n).remove(v);
            assert(s.subset_of(r)) by {
                assert forall|x: int| s.contains(x) implies r.contains(x) by {
                    let i = choose|i: int| 0 <= i < ids.len() && ids[i] == x;
                    assert(nodes[i].0 < n);
                }
            }
            lemma_len_subset(s, r);
            assert(false);
        } else {
            let i = choose|i: int| 0 <= i < ids.len() && ids[i] == v;
            assert(nodes[i].0 == v);
        }
    }
}

pub proof fn lemma_least_unique<W: EdgeCost>(adj: Seq<Seq<(usize, W)>>, u: int, v: int, c1: i64, c2: i64)
    requires
        least_cost(adj, u, v, c1),
        least_cost(adj, u, v, c2),
    ensures
        c1 == c2,
{
    let s1 = choose|steps: Seq<(int, int)>| #[trigger] walk_ok(adj, u, steps) && walk_end(adj, u, steps) == v && walk_cost(adj, steps) == c1;
    let s2 = choose|steps: Seq<(int, int)>| #[trigger] walk_ok(adj, u, steps) && walk_end(adj, u, steps) == v && walk_cost(adj, steps) == c2;
    assert(walk_ok(adj, u, s1));
    assert(walk_ok(adj, u, s2));
}

/// A node's edges are at most all edges.
pub proof fn lemma_row_le_total<W>(adj: Seq<Seq<(usize, W)>>, u: int)
    requires
        0 <= u < adj.len(),
    ensures
        adj[u].len() <= total_edges(adj),
    decreases adj.len(),
{
    if u < adj.len() - 1 {
        lemma_row_le_total(adj.drop_last(), u);
    }
}

/// The budget of a state pays for itself and for `k` children.
pub proof fn lemma_budget_children(l: nat, n: nat, d: nat, k: nat)
    requires
        l < n,
        k <= d,
    ensures
        budget(l, n, d) >= 1 + k * budget(l + 1, n, d),
{
    assert(k * budget(l + 1, n, d) <= d * budget(l + 1, n, d)) by (nonlinear_arith)
        requires
            k <= d,
    ;
}

pub proof fn lemma_mul_step(a: int, f: int)
    ensures
        (a + 1) * f == a * f + f,
{
    assert((a + 1) * f == a * f + f) by (nonlinear_arith);
}

/// Flags copied.
fn copy_flags(v: &Vec<bool>) -> (r: Vec<bool>)
    ensures
        r@ == v@,
{
    let mut r: Vec<bool> = Vec::new();
    let mut i: usize = 0;
    while i < v.len()
        invariant
            i <= v@.len(),
            r@ == v@.take(i as int),
        decreases v@.len() - i,
    {
        r.push(v[i]);
        i = i + 1;
        proof {
            assert(r@ =~= v@.take(i as int));
        }
    }
    proof {
        assert(v@.take(v@.len() as int) =~= v@);
    }
    r
}

/// Nodes copied.
fn copy_nodes(v: &Vec<NodeId>) -> (r: Vec<NodeId>)
    ensures
        r@ == v@,
{
    let mut r: Vec<NodeId> = Vec::new();
    let mut i: usize = 0;
    while i < v.len()
        invariant
            i <= v@.len(),
            r@ == v@.take(i as int),
        decreases v@.len() - i,
    {
        r.push(v[i]);
        i = i + 1;
        proof {
            assert(r@ =~= v@.take(i as int));
        }
    }
    proof {
        assert(v@.take(v@.len() as int) =~= v@);
    }
    r
}

/// The path and flags of a state extended by the node `to`.
fn extend(path: &Vec<NodeId>, visited: &Vec<bool>, to: NodeId) -> (r: (Vec<NodeId>, Vec<bool>))
    requires
        to.0 < visited@.len(),
    ensures
        r.0@ == path@.push(to),
        r.1@ == visited@.update(to.0 as int, true),
{
    let mut vis2 = copy_flags(visited);
    vis2.set(to.0, true);
    let mut p2 = copy_nodes(path);
    p2.push(to);
    (p2, vis2)
}

/// Whether every flag is set.
fn all_set(v: &Vec<bool>) -> (r: bool)
    ensures
        r == forall|i: int| 0 <= i < v@.len() ==> #[trigger] v@[i],
{
    let mut i: usize = 0;
    while i < v.len()
        invariant
            i <= v@.len(),
            forall|j: int| 0 <= j < i ==> #[trigger] v@[j],
        decreases v@.len() - i,
    {
        if !v[i] {
            return false;
        }
        i = i + 1;
    }
    true
}

/// Nodes that each node below `n` is on are at least `n` many.
pub proof fn lemma_cover_len(nodes: Seq<NodeId>, n: int)
    requires
        0 <= n,
        forall|v: int| 0 <= v < n ==> #[trigger] on_path(nodes, v),
    ensures
        nodes.len() >= n,
{
    let ids = Seq::new(nodes.len(), |i: int| nodes[i].0 as int);
    let s = ids.to_set();
    lemma_int_range(0, n);
    ids.lemma_cardinality_of_set();
    assert(set_int_range(0, n).subset_of(s)) by {
        assert forall|v: int| set_int_range(0, n).contains(v) implies s.contains(v) by {
            assert(on_path(nodes, v));
            let i = choose|i: int| 0 <= i < nodes.len() && (#[trigger] nodes[i]).0 == v;
            assert(ids[i] == v);
        }
    }
    vstd::seq_lib::seq_to_set_is_finite(ids);
    lemma_len_subset(set_int_range(0, n), s);
}

/// Every round trip along a walk through all nodes costs at least `total`, unless a state on
/// the stack still holds a beginning of it.
#[verifier::opaque]
pub open spec fn bound_holds<W: EdgeCost>(adj: Seq<Seq<(usize, W)>>, s: int, total: i64, gs: Seq<Seq<(int, int)>>) -> bool {
    forall|h: Seq<(int, int)>, d: i64|
        #![trigger ham_walk(adj, s, h), trip_cost(adj, h, d)]
        ham_walk(adj, s, h) && h.len() >= 1 && least_cost(adj, walk_end(adj, s, h), s, d) ==> total <= trip_cost(adj, h, d)
            || covered(gs, h)
}

/// As `bound_holds`, while the edges from position `i` on of the end of `sp` are still to be
/// tried.
#[verifier::opaque]
pub open spec fn bound_holds_at<W: EdgeCost>(
    adj: Seq<Seq<(usize, W)>>,
    s: int,
    total: i64,
    gs: Seq<Seq<(int, int)>>,
    sp: Seq<(int, int)>,
    i: int,
) -> bool {
    forall|h: Seq<(int, int)>, d: i64|
        #![trigger ham_walk(adj, s, h), trip_cost(adj, h, d)]
        ham_walk(adj, s, h) && h.len() >= 1 && least_cost(adj, walk_end(adj, s, h), s, d) ==> total <= trip_cost(adj, h, d)
            || covered(gs, h) || (h.take(sp.len() as int) == sp && h[sp.len() as int].1 >= i)
}

/// A walk that begins with `sp` passes the same nodes as `sp` up to its end.
pub proof fn lemma_prefix_nodes<W>(adj: Seq<Seq<(usize, W)>>, s: int, h: Seq<(int, int)>, sp: Seq<(int, int)>)
    requires
        sp.len() <= h.len(),
        h.take(sp.len() as int) == sp,
    ensures
        forall|ii: int| 0 <= ii <= sp.len() ==> #[trigger] walk_node(adj, s, h, ii) == walk_node(adj, s, sp, ii),
{
    assert forall|ii: int| 0 <= ii <= sp.len() implies #[trigger] walk_node(adj, s, h, ii) == walk_node(adj, s, sp, ii) by {
        if ii > 0 {
            assert(h[ii - 1] == h.take(sp.len() as int)[ii - 1]);
        }
    }
}

/// A walk `h` that begins with `sp` and takes edge `i` next begins with `sp` and that edge.
pub proof fn lemma_next_step<W: EdgeCost>(adj: Seq<Seq<(usize, W)>>, s: int, h: Seq<(int, int)>, sp: Seq<(int, int)>, i: int)
    requires
        walk_ok(adj, s, h),
        sp.len() < h.len(),
        h.take(sp.len() as int) == sp,
        h[sp.len() as int].1 == i,
    ensures
        h.take(sp.len() + 1 as int) == sp.push((walk_end(adj, s, sp), i)),
        walk_node(adj, s, h, sp.len() + 1 as int) == adj[walk_end(adj, s, sp)][i].0,
{
    let m = sp.len() as int;
    lemma_prefix_nodes(adj, s, h, sp);
    assert(h[m].0 == walk_node(adj, s, h, m));
    assert(h.take(m + 1) =~= sp.push((walk_end(adj, s, sp), i)));
}

pub proof fn lemma_bb_pop<W: EdgeCost>(adj: Seq<Seq<(usize, W)>>, s: int, total: i64, gs: Seq<Seq<(int, int)>>)
    requires
        bound_holds(adj, s, total, gs),
        gs.len() >= 1,
        gs.last().len() + 1 < adj.len(),
    ensures
        bound_holds_at(adj, s, total, gs.drop_last(), gs.last(), 0),
{
    reveal(bound_holds);
    reveal(bound_holds_at);
    let sp = gs.last();
    assert forall|h: Seq<(int, int)>, d: i64|
        #![trigger ham_walk(adj, s, h), trip_cost(adj, h, d)]
        ham_walk(adj, s, h) && h.len() >= 1 && least_cost(adj, walk_end(adj, s, h), s, d) implies total <= trip_cost(adj, h, d)
            || covered(gs.drop_last(), h) || (h.take(sp.len() as int) == sp && h[sp.len() as int].1 >= 0) by {
        if !(total <= trip_cost(adj, h, d)) {
            let j = choose|j: int| 0 <= j < gs.len() && #[trigger] gs[j] == h.take(gs[j].len() as int);
            if j < gs.len() - 1 {
                assert(gs.drop_last()[j] == gs[j]);
            } else {
                let m = sp.len() as int;
                assert(gs[j] == sp);
                assert(m < h.len());
                assert(0 <= h[m].0 < adj.len());
                assert(0 <= h[m].1);
            }
        }
    }
}

pub proof fn lemma_bb_end<W: EdgeCost>(adj: Seq<Seq<(usize, W)>>, s: int, total: i64, gs: Seq<Seq<(int, int)>>, sp: Seq<(int, int)>)
    requires
        0 <= walk_end(adj, s, sp) < adj.len(),
        sp.len() + 1 < adj.len(),
        bound_holds_at(adj, s, total, gs, sp, adj[walk_end(adj, s, sp)].len() as int),
    ensures
        bound_holds(adj, s, total, gs),
{
    reveal(bound_holds);
    reveal(bound_holds_at);
    assert forall|h: Seq<(int, int)>, d: i64|
        #![trigger ham_walk(adj, s, h), trip_cost(adj, h, d)]
        ham_walk(adj, s, h) && h.len() >= 1 && least_cost(adj, walk_end(adj, s, h), s, d) implies total <= trip_cost(adj, h, d)
            || covered(gs, h) by {
        if !(total <= trip_cost(adj, h, d)) && !covered(gs, h) {
            let m = sp.len() as int;
            assert(m < h.len());
            lemma_prefix_nodes(adj, s, h, sp);
            assert(h[m].0 == walk_node(adj, s, h, m));
        }
    }
}

pub proof fn lemma_bb_push<W: EdgeCost>(adj: Seq<Seq<(usize, W)>>, s: int, total: i64, gs: Seq<Seq<(int, int)>>, sp: Seq<(int, int)>, i: int)
    requires
        sp.len() + 1 < adj.len(),
        bound_holds_at(adj, s, total, gs, sp, i),
    ensures
        bound_holds_at(adj, s, total, gs.push(sp.push((walk_end(adj, s, sp), i))), sp, i + 1),
{
    reveal(bound_holds_at);
    let sp2 = sp.push((walk_end(adj, s, sp), i));
    let g2 = gs.push(sp2);
    assert forall|h: Seq<(int, int)>, d: i64|
        #![trigger ham_walk(adj, s, h), trip_cost(adj, h, d)]
        ham_walk(adj, s, h) && h.len() >= 1 && least_cost(adj, walk_end(adj, s, h), s, d) implies total <= trip_cost(adj, h, d)
            || covered(g2, h) || (h.take(sp.len() as int) == sp && h[sp.len() as int].1 >= i + 1) by {
        if covered(gs, h) {
            let j = choose|j: int| 0 <= j < gs.len() && #[trigger] gs[j] == h.take(gs[j].len() as int);
            assert(g2[j] == gs[j]);
        } else if !(total <= trip_cost(adj, h, d)) && h.take(sp.len() as int) == sp && h[sp.len() as int].1 == i {
            if sp.len() < h.len() {
                lemma_next_step(adj, s, h, sp, i);
                assert(g2[gs.len() as int] == sp2);
            }
        }
    }
}

pub proof fn lemma_bb_skip<W: EdgeCost>(
    adj: Seq<Seq<(usize, W)>>,
    s: int,
    total: i64,
    gs: Seq<Seq<(int, int)>>,
    sp: Seq<(int, int)>,
    i: int,
    cost: i64,
    path: Seq<NodeId>,
    vis: Seq<bool>,
)
    requires
        adj_wf(adj),
        costs_nonneg(adj),
        sp.len() + 1 < adj.len(),
        bound_holds_at(adj, s, total, gs, sp, i),
        bb_state(adj, s, cost, path, vis, sp),
        0 <= walk_end(adj, s, sp) < adj.len(),
        0 <= i < adj[walk_end(adj, s, sp)].len(),
        vis[adj[walk_end(adj, s, sp)][i].0 as int] || add_cost(cost, adj[walk_end(adj, s, sp)][i].1.spec_cost()) >= total,
    ensures
        bound_holds_at(adj, s, total, gs, sp, i + 1),
{
    reveal(bb_state);
    reveal(bound_holds_at);
    let u = walk_end(adj, s, sp);
    let to = adj[u][i].0 as int;
    let m = sp.len() as int;
    let sp2 = sp.push((u, i));
    lemma_walk_push(adj, s, sp, i);
    assert forall|h: Seq<(int, int)>, d: i64|
        #![trigger ham_walk(adj, s, h), trip_cost(adj, h, d)]
        ham_walk(adj, s, h) && h.len() >= 1 && least_cost(adj, walk_end(adj, s, h), s, d) implies total <= trip_cost(adj, h, d)
            || covered(gs, h) || (h.take(m) == sp && h[m].1 >= i + 1) by {
        if !(total <= trip_cost(adj, h, d)) && !covered(gs, h) && h.take(m) == sp && h[m].1 == i && m < h.len() {
            lemma_next_step(adj, s, h, sp, i);
            lemma_prefix_nodes(adj, s, h, sp);
            if vis[to] {
                assert(on_path(path, to));
                let ii = choose|ii: int| 0 <= ii < path.len() && (#[trigger] path[ii]).0 == to;
                assert(walk_node(adj, s, h, ii) == walk_node(adj, s, h, m + 1));
            } else {
                lemma_walk_cost_prefix(adj, s, h, m + 1);
                lemma_walks_nonneg(adj, walk_end(adj, s, h), s);
                let w = choose|steps: Seq<(int, int)>| #[trigger] walk_ok(adj, walk_end(adj, s, h), steps) && walk_end(adj, walk_end(adj, s, h), steps) == s && walk_cost(adj, steps) == d;
                assert(walk_ok(adj, walk_end(adj, s, h), w));
                assert(d >= 0);
            }
        }
    }
}

pub proof fn lemma_bb_complete<W: EdgeCost>(
    adj: Seq<Seq<(usize, W)>>,
    s: int,
    total: i64,
    total2: i64,
    gs: Seq<Seq<(int, int)>>,
    sp: Seq<(int, int)>,
    i: int,
    c2: i64,
    path2: Seq<NodeId>,
    found: Option<i64>,
)
    requires
        adj_wf(adj),
        sp.len() + 1 < adj.len(),
        total2 <= total,
        bound_holds_at(adj, s, total, gs, sp, i),
        walk_ok(adj, s, sp),
        0 <= walk_end(adj, s, sp) < adj.len(),
        0 <= i < adj[walk_end(adj, s, sp)].len(),
        c2 == walk_cost(adj, sp.push((walk_end(adj, s, sp), i))),
        path2.len() == sp.len() + 2,
        forall|ii: int| 0 <= ii < path2.len() ==> (#[trigger] path2[ii]).0 == walk_node(adj, s, sp.push((walk_end(adj, s, sp), i)), ii),
        forall|v: int| 0 <= v < adj.len() ==> #[trigger] on_path(path2, v),
        closing(adj, adj[walk_end(adj, s, sp)][i].0 as int, s, found),
        match found {
            Some(d) => total2 == (if add_cost(c2, d) < total {
                add_cost(c2, d)
            } else {
                total
            }),
            None => total2 == total,
        },
    ensures
        bound_holds_at(adj, s, total2, gs, sp, i + 1),
{
    reveal(closing);
    reveal(bound_holds_at);
    let u = walk_end(adj, s, sp);
    let m = sp.len() as int;
    let sp2 = sp.push((u, i));
    lemma_walk_push(adj, s, sp, i);
    assert forall|h: Seq<(int, int)>, d: i64|
        #![trigger ham_walk(adj, s, h), trip_cost(adj, h, d)]
        ham_walk(adj, s, h) && h.len() >= 1 && least_cost(adj, walk_end(adj, s, h), s, d) implies total2 <= trip_cost(adj, h, d)
            || covered(gs, h) || (h.take(m) == sp && h[m].1 >= i + 1) by {
        if !(total <= trip_cost(adj, h, d)) && !covered(gs, h) && h.take(m) == sp && h[m].1 == i && m < h.len() {
            lemma_next_step(adj, s, h, sp, i);
            if h.len() > m + 1 {
                let v = walk_node(adj, s, h, m + 2);
                assert(0 <= v < adj.len()) by {
                    assert(0 <= h[m + 1].0 < adj.len());
                    assert(0 <= h[m + 1].1 < adj[h[m + 1].0].len());
                }
                assert(on_path(path2, v));
                let ii = choose|ii: int| 0 <= ii < path2.len() && (#[trigger] path2[ii]).0 == v;
                lemma_prefix_nodes(adj, s, h, sp2);
                assert(walk_node(adj, s, h, ii) == walk_node(adj, s, h, m + 2));
            }
            assert(h.take(m + 1) =~= h);
            assert(walk_end(adj, s, h) == adj[u][i].0);
            match found {
                Some(dd) => {
                    lemma_least_unique(adj, adj[u][i].0 as int, s, d, dd);
                },
                None => {
                    let w = choose|steps: Seq<(int, int)>| #[trigger] walk_ok(adj, walk_end(adj, s, h), steps) && walk_end(adj, walk_end(adj, s, h), steps) == s && walk_cost(adj, steps) == d;
                    assert(walk_ok(adj, walk_end(adj, s, h), w));
                },
            }
        }
    }
}

/// A state extended by an edge to a node not on its path.
pub proof fn lemma_bb_extend<W: EdgeCost>(
    adj: Seq<Seq<(usize, W)>>,
    s: int,
    cost: i64,
    path: Seq<NodeId>,
    vis: Seq<bool>,
    sp: Seq<(int, int)>,
    i: int,
)
    requires
        adj_wf(adj),
        bb_state(adj, s, cost, path, vis, sp),
        0 <= walk_end(adj, s, sp) < adj.len(),
        0 <= i < adj[walk_end(adj, s, sp)].len(),
        !vis[adj[walk_end(adj, s, sp)][i].0 as int],
    ensures
        ({
            let u = walk_end(adj, s, sp);
            let to = adj[u][i].0;
            bb_state(
                adj,
                s,
                add_cost(cost, adj[u][i].1.spec_cost()),
                path.push(NodeId(to)),
                vis.update(to as int, true),
                sp.push((u, i)),
            )
        }),
{
    reveal(bb_state);
    let u = walk_end(adj, s, sp);
    let to = adj[u][i].0;
    let p2 = path.push(NodeId(to));
    let vis2 = vis.update(to as int, true);
    let sp2 = sp.push((u, i));
    let l = path.len() as int;
    lemma_walk_push(adj, s, sp, i);
    assert(!on_path(path, to as int));
    assert forall|v: int| 0 <= v < adj.len() implies #[trigger] vis2[v] == on_path(p2, v) by {
        if on_path(path, v) {
            let ii = choose|ii: int| 0 <= ii < path.len() && (#[trigger] path[ii]).0 == v;
            assert(p2[ii] == path[ii]);
        }
        if on_path(p2, v) {
            let ii = choose|ii: int| 0 <= ii < p2.len() && (#[trigger] p2[ii]).0 == v;
            if ii < path.len() {
                assert(p2[ii] == path[ii]);
            }
        }
        if v == to {
            assert(p2[l].0 == v);
        }
    }
    assert forall|ii: int| 0 <= ii < p2.len() implies (#[trigger] p2[ii]).0 == walk_node(adj, s, sp2, ii) by {
        if ii < l {
            assert(p2[ii] == path[ii]);
            if ii > 0 {
                assert(sp2[ii - 1] == sp[ii - 1]);
            }
        }
    }
    assert forall|ii: int| 0 <= ii < p2.len() implies (#[trigger] p2[ii]).0 < adj.len() by {
        if ii < l {
            assert(p2[ii] == path[ii]);
        }
    }
    assert forall|ii: int, jj: int| 0 <= ii < jj < p2.len() implies #[trigger] p2[ii] != #[trigger] p2[jj] by {
        assert(p2[ii] == path[ii]);
        if jj == l {
            if p2[ii] == p2[jj] {
                assert(path[ii].0 == to);
                assert(on_path(path, to as int));
            }
        } else {
            assert(p2[jj] == path[jj]);
        }
    }
}

/// A state whose path holds every node is a walk through all nodes.
pub proof fn lemma_bb_full<W: EdgeCost>(adj: Seq<Seq<(usize, W)>>, s: int, cost: i64, path: Seq<NodeId>, vis: Seq<bool>, sp: Seq<(int, int)>)
    requires
        bb_state(adj, s, cost, path, vis, sp),
        path.len() <= adj.len(),
        forall|v: int| 0 <= v < vis.len() ==> #[trigger] vis[v],
    ensures
        path.len() == adj.len(),
        ham_walk(adj, s, sp),
        forall|v: int| 0 <= v < adj.len() ==> #[trigger] on_path(path, v),
        forall|ii: int| 0 <= ii < path.len() ==> (#[trigger] path[ii]).0 == walk_node(adj, s, sp, ii),
{
    reveal(bb_state);
    assert forall|v: int| 0 <= v < adj.len() implies #[trigger] on_path(path, v) by {
        assert(vis[v]);
    }
    lemma_cover_len(path, adj.len() as int);
    assert forall|ii: int, jj: int|
        #![trigger walk_node(adj, s, sp, ii), walk_node(adj, s, sp, jj)]
        0 <= ii < jj <= sp.len() implies walk_node(adj, s, sp, ii) != walk_node(adj, s, sp, jj) by {
        assert(path[ii] != path[jj]);
        assert(path[ii].0 == walk_node(adj, s, sp, ii));
        assert(path[jj].0 == walk_node(adj, s, sp, jj));
    }
}

/// A state whose path leaves some node out is shorter than a walk through all nodes.
pub proof fn lemma_bb_short<W: EdgeCost>(adj: Seq<Seq<(usize, W)>>, s: int, cost: i64, path: Seq<NodeId>, vis: Seq<bool>, sp: Seq<(int, int)>)
    requires
        bb_state(adj, s, cost, path, vis, sp),
        path.len() <= adj.len(),
        !(forall|v: int| 0 <= v < vis.len() ==> #[trigger] vis[v]),
    ensures
        path.len() < adj.len(),
{
    reveal(bb_state);
    if path.len() == adj.len() {
        lemma_cover(path, adj.len() as int);
        let v = choose|v: int| 0 <= v < vis.len() && !#[trigger] vis[v];
        assert(on_path(path, v));
    }
}

/// A walk from `start` of as many steps as there are nodes, entering every node once (`start`
/// is left before it is first entered).
pub open spec fn rec_walk<W>(adj: Seq<Seq<(usize, W)>>, start: int, h: Seq<(int, int)>) -> bool {
    &&& walk_ok(adj, start, h)
    &&& h.len() == adj.len()
    &&& forall|i: int, j: int|
        #![trigger walk_node(adj, start, h, i), walk_node(adj, start, h, j)]
        1 <= i < j <= h.len() ==> walk_node(adj, start, h, i) != walk_node(adj, start, h, j)
}

/// A partial route of the recursive search: the walk `steps` from `start`, the nodes it passes
/// in `path`, the nodes it entered marked in `vis`, and its cost.
#[verifier::opaque]
pub open spec fn rec_state<W: EdgeCost>(
    adj: Seq<Seq<(usize, W)>>,
    start: int,
    cost: i64,
    path: Seq<NodeId>,
    vis: Seq<bool>,
    steps: Seq<(int, int)>,
) -> bool {
    &&& walk_ok(adj, start, steps)
    &&& path.len() == steps.len() + 1
    &&& path.len() <= adj.len() + 1
    &&& forall|i: int| 0 <= i < path.len() ==> (#[trigger] path[i]).0 == walk_node(adj, start, steps, i)
    &&& forall|i: int| 0 <= i < path.len() ==> (#[trigger] path[i]).0 < adj.len()
    &&& forall|i: int, j: int| 1 <= i < j < path.len() ==> #[trigger] path[i] != #[trigger] path[j]
    &&& vis.len() == adj.len()
    &&& forall|v: int| 0 <= v < adj.len() ==> #[trigger] vis[v] == on_path(path.drop_first(), v)
    &&& cost == walk_cost(adj, steps)
}

/// Every round trip along a walk that begins with `sp` and then takes an edge before position
/// `i` (all edges for `i` past the last) costs at least `bound`.
#[verifier::opaque]
pub open spec fn rec_bound<W: EdgeCost>(adj: Seq<Seq<(usize, W)>>, s: int, bound: i64, sp: Seq<(int, int)>, i: int) -> bool {
    forall|h: Seq<(int, int)>, d: i64|
        #![trigger rec_walk(adj, s, h), trip_cost(adj, h, d)]
        rec_walk(adj, s, h) && h.take(sp.len() as int) == sp && (h.len() == sp.len() || h[sp.len() as int].1 < i)
            && least_cost(adj, walk_end(adj, s, h), s, d) ==> bound <= trip_cost(adj, h, d)
}

/// `bound` is the cost of the round trip along `h` and back by a cheapest walk of cost `d`.
#[verifier::opaque]
pub open spec fn rec_trip<W: EdgeCost>(adj: Seq<Seq<(usize, W)>>, s: int, h: Seq<(int, int)>, d: i64, bound: i64) -> bool {
    rec_walk(adj, s, h) && least_cost(adj, walk_end(adj, s, h), s, d) && bound == trip_cost(adj, h, d)
}

/// `bound` is the round trip of a walk that begins with `sp`.
pub open spec fn rec_found<W: EdgeCost>(adj: Seq<Seq<(usize, W)>>, s: int, bound: i64, sp: Seq<(int, int)>) -> bool {
    exists|h: Seq<(int, int)>, d: i64| #[trigger] rec_trip(adj, s, h, d, bound) && h.take(sp.len() as int) == sp
}

/// `m` distinct nodes below `n` are at most `n` many.
pub proof fn lemma_distinct_le(nodes: Seq<NodeId>, n: int)
    requires
        0 <= n,
        forall|i: int| 0 <= i < nodes.len() ==> (#[trigger] nodes[i]).0 < n,
        forall|i: int, j: int| 0 <= i < j < nodes.len() ==> #[trigger] nodes[i] != #[trigger] nodes[j],
    ensures
        nodes.len() <= n,
{
    let ids = Seq::new(nodes.len(), |i: int| nodes[i].0 as int);
    assert(ids.no_duplicates()) by {
        assert forall|i: int, j: int| 0 <= i < ids.len() && 0 <= j < ids.len() && i != j implies ids[i] != ids[j] by {
            if i < j {
                assert(nodes[i] != nodes[j]);
            } else {
                assert(nodes[j] != nodes[i]);
            }
        }
    }
    ids.unique_seq_to_set();
    lemma_int_range(0, n);
    assert(ids.to_set().subset_of(set_int_range(0, n)));
    lemma_len_subset(ids.to_set(), set_int_range(0, n));
}


pub proof fn lemma_rec_facts<W: EdgeCost>(adj: Seq<Seq<(usize, W)>>, s: int, cost: i64, path: Seq<NodeId>, vis: Seq<bool>, sp: Seq<(int, int)>)
    requires
        rec_state(adj, s, cost, path, vis, sp),
    ensures
        walk_ok(adj, s, sp),
        path.len() == sp.len() + 1,
        path.len() <= adj.len() + 1,
        path.last().0 == walk_end(adj, s, sp),
        path.last().0 < adj.len(),
        vis.len() == adj.len(),
        cost == walk_cost(adj, sp),
{
    reveal(rec_state);
    assert(path[path.len() - 1].0 == walk_node(adj, s, sp, path.len() - 1));
}

pub proof fn lemma_rec_entry<W: EdgeCost>(
    adj: Seq<Seq<(usize, W)>>,
    s: int,
    b0: i64,
    b1: i64,
    cost: i64,
    path: Seq<NodeId>,
    vis: Seq<bool>,
    sp: Seq<(int, int)>,
    all: bool,
    found: Option<i64>,
)
    requires
        rec_state(adj, s, cost, path, vis, sp),
        all == forall|v: int| 0 <= v < vis.len() ==> #[trigger] vis[v],
        all ==> closing(adj, walk_end(adj, s, sp), s, found),
        b1 == if all && found is Some && add_cost(cost, found.unwrap()) < b0 {
            add_cost(cost, found.unwrap())
        } else {
            b0
        },
    ensures
        rec_bound(adj, s, b1, sp, 0),
        b1 <= b0,
        b1 == b0 || rec_found(adj, s, b1, sp),
{
    reveal(rec_state);
    reveal(rec_bound);
    reveal(rec_trip);
    reveal(closing);
    let m = sp.len() as int;
    if m == adj.len() {
        lemma_full_route_visits_all(adj, s, cost, path, vis, sp);
    }
    assert forall|h: Seq<(int, int)>, d: i64|
        #![trigger rec_walk(adj, s, h), trip_cost(adj, h, d)]
        rec_walk(adj, s, h) && h.take(m) == sp && (h.len() == m || h[m].1 < 0) && least_cost(adj, walk_end(adj, s, h), s, d)
            implies b1 <= trip_cost(adj, h, d) by {
        if h.len() == m {
            assert(h.take(m) =~= h);
            match found {
                Some(dd) => {
                    lemma_least_unique(adj, walk_end(adj, s, h), s, d, dd);
                },
                None => {
                    let w = choose|steps: Seq<(int, int)>| #[trigger] walk_ok(adj, walk_end(adj, s, h), steps) && walk_end(adj, walk_end(adj, s, h), steps) == s && walk_cost(adj, steps) == d;
                    assert(walk_ok(adj, walk_end(adj, s, h), w));
                },
            }
        } else {
            assert(0 <= h[m].0 < adj.len());
        }
    }
    if b1 != b0 {
        lemma_rec_entry_found(adj, s, b0, b1, cost, path, vis, sp, found);
        assert(sp.take(m) =~= sp);
        assert(rec_trip(adj, s, sp, found.unwrap(), b1) && sp.take(sp.len() as int) == sp);
    }
}

/// A route as long as there are nodes has entered every node.
proof fn lemma_full_route_visits_all<W: EdgeCost>(
    adj: Seq<Seq<(usize, W)>>,
    s: int,
    cost: i64,
    path: Seq<NodeId>,
    vis: Seq<bool>,
    sp: Seq<(int, int)>,
)
    requires
        rec_state(adj, s, cost, path, vis, sp),
        sp.len() == adj.len(),
    ensures
        forall|v: int| 0 <= v < vis.len() ==> #[trigger] vis[v],
{
    reveal(rec_state);
    let rest = path.drop_first();
    assert forall|i: int| 0 <= i < rest.len() implies (#[trigger] rest[i]).0 < adj.len() by {
        assert(rest[i] == path[i + 1]);
    }
    assert forall|i: int, j: int| 0 <= i < j < rest.len() implies #[trigger] rest[i] != #[trigger] rest[j] by {
        assert(rest[i] == path[i + 1]);
        assert(rest[j] == path[j + 1]);
    }
    lemma_cover(rest, adj.len() as int);
    assert forall|v: int| 0 <= v < vis.len() implies #[trigger] vis[v] by {
        assert(on_path(rest, v));
    }
}

/// Where the route covers every node and a way back improves the bound, the route with that way
/// back is a round trip of the new bound.
proof fn lemma_rec_entry_found<W: EdgeCost>(
    adj: Seq<Seq<(usize, W)>>,
    s: int,
    b0: i64,
    b1: i64,
    cost: i64,
    path: Seq<NodeId>,
    vis: Seq<bool>,
    sp: Seq<(int, int)>,
    found: Option<i64>,
)
    requires
        rec_state(adj, s, cost, path, vis, sp),
        forall|v: int| 0 <= v < vis.len() ==> #[trigger] vis[v],
        closing(adj, walk_end(adj, s, sp), s, found),
        found is Some,
        b1 == add_cost(cost, found.unwrap()),
    ensures
        rec_trip(adj, s, sp, found.unwrap(), b1),
{
    reveal(rec_state);
    reveal(rec_trip);
    reveal(closing);
    let m = sp.len() as int;
        let d0 = found.unwrap();
        let rest = path.drop_first();
        assert(sp.len() == adj.len()) by {
            assert forall|i: int| 0 <= i < rest.len() implies (#[trigger] rest[i]).0 < adj.len() by {
                assert(rest[i] == path[i + 1]);
            }
            assert forall|i: int, j: int| 0 <= i < j < rest.len() implies #[trigger] rest[i] != #[trigger] rest[j] by {
                assert(rest[i] == path[i + 1]);
                assert(rest[j] == path[j + 1]);
            }
            lemma_distinct_le(rest, adj.len() as int);
            assert forall|v: int| 0 <= v < adj.len() implies #[trigger] on_path(rest, v) by {
                assert(vis[v]);
            }
            lemma_cover_len(rest, adj.len() as int);
        }
        assert forall|i: int, j: int|
            #![trigger walk_node(adj, s, sp, i), walk_node(adj, s, sp, j)]
            1 <= i < j <= sp.len() implies walk_node(adj, s, sp, i) != walk_node(adj, s, sp, j) by {
            assert(path[i] != path[j]);
        }
        assert(rec_walk(adj, s, sp));
        assert(sp.take(m) =~= sp);
        assert(b1 == trip_cost(adj, sp, d0));
        assert(rec_trip(adj, s, sp, d0, b1));
}

pub proof fn lemma_rec_skip<W: EdgeCost>(
    adj: Seq<Seq<(usize, W)>>,
    s: int,
    b: i64,
    cost: i64,
    path: Seq<NodeId>,
    vis: Seq<bool>,
    sp: Seq<(int, int)>,
    i: int,
)
    requires
        adj_wf(adj),
        costs_nonneg(adj),
        rec_bound(adj, s, b, sp, i),
        rec_state(adj, s, cost, path, vis, sp),
        0 <= walk_end(adj, s, sp) < adj.len(),
        0 <= i < adj[walk_end(adj, s, sp)].len(),
        vis[adj[walk_end(adj, s, sp)][i].0 as int] || add_cost(cost, adj[walk_end(adj, s, sp)][i].1.spec_cost()) >= b,
    ensures
        rec_bound(adj, s, b, sp, i + 1),
{
    reveal(rec_state);
    reveal(rec_bound);
    let u = walk_end(adj, s, sp);
    let to = adj[u][i].0 as int;
    let m = sp.len() as int;
    lemma_walk_push(adj, s, sp, i);
    assert forall|h: Seq<(int, int)>, d: i64|
        #![trigger rec_walk(adj, s, h), trip_cost(adj, h, d)]
        rec_walk(adj, s, h) && h.take(m) == sp && (h.len() == m || h[m].1 < i + 1) && least_cost(adj, walk_end(adj, s, h), s, d)
            implies b <= trip_cost(adj, h, d) by {
        if h.len() != m && h[m].1 == i {
            lemma_next_step(adj, s, h, sp, i);
            lemma_prefix_nodes(adj, s, h, sp);
            if vis[to] {
                let rest = path.drop_first();
                assert(on_path(rest, to));
                let ii = choose|ii: int| 0 <= ii < rest.len() && (#[trigger] rest[ii]).0 == to;
                assert(rest[ii] == path[ii + 1]);
                assert(walk_node(adj, s, h, ii + 1) == walk_node(adj, s, h, m + 1));
            } else {
                lemma_walk_cost_prefix(adj, s, h, m + 1);
                let w = choose|steps: Seq<(int, int)>| #[trigger] walk_ok(adj, walk_end(adj, s, h), steps) && walk_end(adj, walk_end(adj, s, h), steps) == s && walk_cost(adj, steps) == d;
                lemma_walks_nonneg(adj, walk_end(adj, s, h), s);
                assert(walk_ok(adj, walk_end(adj, s, h), w));
            }
        }
    }
}

pub proof fn lemma_rec_child<W: EdgeCost>(
    adj: Seq<Seq<(usize, W)>>,
    s: int,
    b0: i64,
    b1: i64,
    sp: Seq<(int, int)>,
    i: int,
)
    requires
        walk_ok(adj, s, sp),
        sp.len() < adj.len(),
        0 <= walk_end(adj, s, sp) < adj.len(),
        0 <= i < adj[walk_end(adj, s, sp)].len(),
        adj_wf(adj),
        rec_bound(adj, s, b0, sp, i),
        b1 <= b0,
        rec_bound(
            adj,
            s,
            b1,
            sp.push((walk_end(adj, s, sp), i)),
            adj[adj[walk_end(adj, s, sp)][i].0 as int].len() as int,
        ),
        b1 == b0 || rec_found(adj, s, b1, sp.push((walk_end(adj, s, sp), i))),
    ensures
        rec_bound(adj, s, b1, sp, i + 1),
        b1 == b0 || rec_found(adj, s, b1, sp),
{
    lemma_rec_child_bound(adj, s, b0, b1, sp, i);
    if b1 != b0 {
        assert(sp.push((walk_end(adj, s, sp), i)).take(sp.len() as int) =~= sp);
        lemma_rec_found_prefix(adj, s, b1, sp, sp.push((walk_end(adj, s, sp), i)));
    }
}

#[verifier::spinoff_prover]
pub proof fn lemma_rec_child_bound<W: EdgeCost>(
    adj: Seq<Seq<(usize, W)>>,
    s: int,
    b0: i64,
    b1: i64,
    sp: Seq<(int, int)>,
    i: int,
)
    requires
        walk_ok(adj, s, sp),
        sp.len() <= adj.len(),
        0 <= walk_end(adj, s, sp) < adj.len(),
        0 <= i < adj[walk_end(adj, s, sp)].len(),
        adj_wf(adj),
        rec_bound(adj, s, b0, sp, i),
        b1 <= b0,
        rec_bound(
            adj,
            s,
            b1,
            sp.push((walk_end(adj, s, sp), i)),
            adj[adj[walk_end(adj, s, sp)][i].0 as int].len() as int,
        ),
    ensures
        rec_bound(adj, s, b1, sp, i + 1),
{
    reveal(rec_bound);
    let u = walk_end(adj, s, sp);
    let m = sp.len() as int;
    let sp2 = sp.push((u, i));
    lemma_walk_push(adj, s, sp, i);
    assert forall|h: Seq<(int, int)>, d: i64|
        #![trigger rec_walk(adj, s, h), trip_cost(adj, h, d)]
        rec_walk(adj, s, h) && h.take(m) == sp && (h.len() == m || h[m].1 < i + 1) && least_cost(adj, walk_end(adj, s, h), s, d)
            implies b1 <= trip_cost(adj, h, d) by {
        if h.len() != m && h[m].1 == i {
            lemma_next_step(adj, s, h, sp, i);
            if h.len() != m + 1 {
                lemma_prefix_nodes(adj, s, h, sp2);
                assert(h[m + 1].0 == walk_node(adj, s, h, m + 1));
                assert(0 <= h[m + 1].0 < adj.len());
            }
        }
    }
}

/// A round trip of a walk that begins with `sp2` is one of a walk that begins with any
/// beginning `sp` of `sp2`.
pub proof fn lemma_rec_found_prefix<W: EdgeCost>(adj: Seq<Seq<(usize, W)>>, s: int, b: i64, sp: Seq<(int, int)>, sp2: Seq<(int, int)>)
    requires
        rec_found(adj, s, b, sp2),
        sp.len() <= sp2.len() <= adj.len(),
        sp2.take(sp.len() as int) == sp,
    ensures
        rec_found(adj, s, b, sp),
{
    reveal(rec_trip);
    let (h, d) = choose|h: Seq<(int, int)>, d: i64| #[trigger] rec_trip(adj, s, h, d, b) && h.take(sp2.len() as int) == sp2;
    assert(h.len() == adj.len());
    assert forall|j: int| 0 <= j < sp.len() implies h.take(sp.len() as int)[j] == sp2.take(sp.len() as int)[j] by {
        assert(h.take(sp2.len() as int)[j] == h[j]);
    }
    assert(h.take(sp.len() as int) =~= sp2.take(sp.len() as int));
    assert(rec_trip(adj, s, h, d, b) && h.take(sp.len() as int) == sp);
}

pub proof fn lemma_rec_extend<W: EdgeCost>(
    adj: Seq<Seq<(usize, W)>>,
    s: int,
    cost: i64,
    path: Seq<NodeId>,
    vis: Seq<bool>,
    sp: Seq<(int, int)>,
    i: int,
)
    requires
        adj_wf(adj),
        rec_state(adj, s, cost, path, vis, sp),
        0 <= walk_end(adj, s, sp) < adj.len(),
        0 <= i < adj[walk_end(adj, s, sp)].len(),
        !vis[adj[walk_end(adj, s, sp)][i].0 as int],
    ensures
        ({
            let u = walk_end(adj, s, sp);
            let to = adj[u][i].0;
            rec_state(
                adj,
                s,
                add_cost(cost, adj[u][i].1.spec_cost()),
                path.push(NodeId(to)),
                vis.update(to as int, true),
                sp.push((u, i)),
            )
        }),
{
    reveal(rec_state);
    let u = walk_end(adj, s, sp);
    let to = adj[u][i].0;
    let p2 = path.push(NodeId(to));
    let vis2 = vis.update(to as int, true);
    let sp2 = sp.push((u, i));
    let l = path.len() as int;
    lemma_walk_push(adj, s, sp, i);
    let rest = path.drop_first();
    let rest2 = p2.drop_first();
    assert(rest2 =~= rest.push(NodeId(to)));
    assert(!on_path(rest, to as int));
    assert forall|v: int| 0 <= v < adj.len() implies #[trigger] vis2[v] == on_path(rest2, v) by {
        if on_path(rest, v) {
            let ii = choose|ii: int| 0 <= ii < rest.len() && (#[trigger] rest[ii]).0 == v;
            assert(rest2[ii] == rest[ii]);
        }
        if on_path(rest2, v) {
            let ii = choose|ii: int| 0 <= ii < rest2.len() && (#[trigger] rest2[ii]).0 == v;
            if ii < rest.len() {
                assert(rest2[ii] == rest[ii]);
            }
        }
        if v == to {
            assert(rest2[rest.len() as int].0 == v);
        }
    }
    assert forall|ii: int| 0 <= ii < p2.len() implies (#[trigger] p2[ii]).0 == walk_node(adj, s, sp2, ii) by {
        if ii < l {
            assert(p2[ii] == path[ii]);
            if ii > 0 {
                assert(sp2[ii - 1] == sp[ii - 1]);
            }
        }
    }
    assert forall|ii: int| 0 <= ii < p2.len() implies (#[trigger] p2[ii]).0 < adj.len() by {
        if ii < l {
            assert(p2[ii] == path[ii]);
        }
    }
    assert forall|ii: int, jj: int| 1 <= ii < jj < p2.len() implies #[trigger] p2[ii] != #[trigger] p2[jj] by {
        assert(p2[ii] == path[ii]);
        if jj == l {
            if p2[ii] == p2[jj] {
                assert(rest[ii - 1] == path[ii]);
                assert(on_path(rest, to as int));
            }
        } else {
            assert(p2[jj] == path[jj]);
        }
    }
    assert forall|ii: int| 0 <= ii < rest2.len() implies (#[trigger] rest2[ii]).0 < adj.len() by {
        assert(rest2[ii] == p2[ii + 1]);
    }
    assert forall|ii: int, jj: int| 0 <= ii < jj < rest2.len() implies #[trigger] rest2[ii] != #[trigger] rest2[jj] by {
        assert(rest2[ii] == p2[ii + 1]);
        assert(rest2[jj] == p2[jj + 1]);
    }
    lemma_distinct_le(rest2, adj.len() as int);
}

/// The node count of each state on the stack.
pub open spec fn lens(gs: Seq<Seq<(int, int)>>) -> Seq<nat> {
    Seq::new(gs.len(), |j: int| (gs[j].len() + 1) as nat)
}

/// Branch and bound: searches the routes from `start` depth first, dropping a partial route as
/// soon as it costs no less than the best round trip known, which is at first the one
/// `nearest_neighbor` finds. Returns the nodes of the best route found, without the way back,
/// and the cost of its round trip; no nodes, and the first bound, when nothing beat it.
#[verifier::spinoff_prover]
#[verifier::rlimit(100)]
pub fn _branch_bound<G: IterAdjacent + IndexAdjacent + Count>(graph: &G, start: NodeId) -> (r: Tour<i64>)
    where
        G::Weight: EdgeCost + Copy,
    requires
        graph.spec_wf(),
        adj_wf(graph.spec_adj()),
        costs_nonneg(graph.spec_adj()),
        start.0 < graph.spec_nodes().len(),
        total_edges(graph.spec_adj()) + 1 < PQ_LIMIT,
    ensures
        r.route@.len() == 0 ==> (r.weight == i64::MAX || exists|costs: Seq<i64>, tour: Seq<NodeId>|
            is_tour(graph.spec_adj(), start.0 as int, tour, costs) && r.weight == sum_costs(costs)),
        r.route@.len() > 0 ==> exists|h: Seq<(int, int)>, d: i64|
            {
                &&& ham_walk(graph.spec_adj(), start.0 as int, h)
                &&& least_cost(graph.spec_adj(), walk_end(graph.spec_adj(), start.0 as int, h), start.0 as int, d)
                &&& r.weight == trip_cost(graph.spec_adj(), h, d)
                &&& r.route@.len() == h.len() + 1
                &&& forall|i: int| 0 <= i < r.route@.len() ==> (#[trigger] r.route@[i]).0 == walk_node(graph.spec_adj(), start.0 as int, h, i)
            },
        forall|h: Seq<(int, int)>, d: i64|
            #![trigger ham_walk(graph.spec_adj(), start.0 as int, h), trip_cost(graph.spec_adj(), h, d)]
            ham_walk(graph.spec_adj(), start.0 as int, h) && h.len() >= 1 && least_cost(
                graph.spec_adj(),
                walk_end(graph.spec_adj(), start.0 as int, h),
                start.0 as int,
                d,
            ) ==> r.weight <= trip_cost(graph.spec_adj(), h, d),
{
    proof {
        graph.lemma_wf();
    }
    let ghost adj = graph.spec_adj();
    let ghost s = start.0 as int;
    let n = graph.node_count();
    let mut total_cost: i64 = match nearest_neighbor(graph, start) {
        Some(t) => t.weight,
        None => i64::MAX,
    };
    let ghost base = total_cost;
    let mut route: Vec<NodeId> = Vec::new();
    if n < 2 {
        return Tour::new(route, total_cost);
    }
    let ghost dmax: nat = total_edges(adj);
    let mut visited: Vec<bool> = Vec::new();
    let mut k: usize = 0;
    while k < n
        invariant
            k <= n,
            visited@ == Seq::new(k as nat, |i: int| false),
        decreases n - k,
    {
        visited.push(false);
        k = k + 1;
        proof {
            assert(visited@ =~= Seq::new(k as nat, |i: int| false));
        }
    }
    visited.set(start.0, true);
    let mut p0: Vec<NodeId> = Vec::new();
    p0.push(start);
    let mut stack: Vec<(i64, Vec<NodeId>, Vec<bool>)> = Vec::new();
    let ghost mut gs: Seq<Seq<(int, int)>> = seq![Seq::<(int, int)>::empty()];
    let ghost mut best: Seq<(int, int)> = Seq::empty();
    let ghost mut best_d: i64 = 0;
    proof {
        assert(walk_ok(adj, s, Seq::<(int, int)>::empty()));
        assert forall|v: int| 0 <= v < n implies #[trigger] visited@[v] == on_path(p0@, v) by {
            if v == s {
                assert(p0@[0].0 == v);
            }
        }
        reveal(bb_state);
        reveal(best_ok);
        assert(bb_state(adj, s, 0, p0@, visited@, Seq::<(int, int)>::empty()));
    }
    stack.push((0i64, p0, visited));
    proof {
        assert(stack@[0].1@ == p0@);
        reveal(bound_holds);
        assert forall|h: Seq<(int, int)>, d: i64|
            #![trigger ham_walk(adj, s, h), trip_cost(adj, h, d)]
            ham_walk(adj, s, h) && h.len() >= 1 && least_cost(adj, walk_end(adj, s, h), s, d) implies total_cost
            <= trip_cost(adj, h, d) || covered(gs, h) by {
            assert(gs[0] == h.take(0));
        }
        assert(bound_holds(adj, s, total_cost, gs));
    }
    loop
        invariant
            graph.spec_wf(),
            adj == graph.spec_adj(),
            adj_wf(adj),
            costs_nonneg(adj),
            n == adj.len(),
            n == graph.spec_nodes().len(),
            n >= 2,
            s == start.0,
            start.0 < n,
            total_edges(adj) + 1 < PQ_LIMIT,
            dmax == total_edges(adj),
            stack@.len() == gs.len(),
            forall|j: int|
                0 <= j < stack@.len() ==> bb_state(adj, s, stack@[j].0, stack@[j].1@, stack@[j].2@, #[trigger] gs[j]),
            forall|j: int| 0 <= j < gs.len() ==> (#[trigger] gs[j]).len() + 1 < n,
            total_cost <= base,
            route@.len() == 0 ==> total_cost == base,
            best_ok(adj, s, route@, best, best_d, total_cost),
            bound_holds(adj, s, total_cost, gs),
        ensures
            gs.len() == 0,
        decreases stack_budget(lens(gs), n as nat, dmax),
    {
        let top = stack.pop();
        let (cost, path, visited) = match top {
            Some(t) => t,
            None => {
                break;
            },
        };
        let ghost b0 = stack_budget(lens(gs), n as nat, dmax);
        let ghost sp = gs.last();
        let ghost m = sp.len() as int;
        let ghost gs0 = gs.drop_last();
        let ghost l = path@.len();
        proof {
            let j = gs.len() - 1;
            assert(bb_state(adj, s, cost, path@, visited@, gs[j]));
            assert(gs[j].len() + 1 < n);
            lemma_bb_state_facts(adj, s, cost, path@, visited@, gs[j]);
            assert(lens(gs).drop_last() =~= lens(gs0));
            lemma_bb_pop(adj, s, total_cost, gs);
            gs = gs0;
        }
        let node = path[path.len() - 1];
        let ghost u = node.0 as int;
        proof {
            assert(u == walk_node(adj, s, sp, m));
            lemma_row_le_total(adj, u);
            lemma_budget_children(l, n as nat, dmax, adj[u].len());
        }
        let edges = graph.iter_adjacent_edges(node);
        let ghost deg = edges@.len() as int;
        let ghost f = budget(l + 1, n as nat, dmax);
        let mut i: usize = 0;
        while i < edges.len()
            invariant
                graph.spec_wf(),
                adj == graph.spec_adj(),
                adj_wf(adj),
                costs_nonneg(adj),
                n == adj.len(),
                n == graph.spec_nodes().len(),
                n >= 2,
                s == start.0,
                start.0 < n,
                total_edges(adj) + 1 < PQ_LIMIT,
                dmax == total_edges(adj),
                bb_state(adj, s, cost, path@, visited@, sp),
                walk_ok(adj, s, sp),
                visited@.len() == n,
                cost == walk_cost(adj, sp),
                m == sp.len(),
                l == path@.len(),
                l == m + 1,
                l < n,
                0 <= u < n,
                u == walk_node(adj, s, sp, m),
                deg == adj[u].len(),
                edges@.len() == deg,
                forall|j: int|
                    0 <= j < edges@.len() ==> (#[trigger] edges@[j]).edge_id.to.0 == adj[u][j].0 && edges@[j].weight
                        == adj[u][j].1,
                i <= deg,
                f == budget(l + 1, n as nat, dmax),
                stack_budget(lens(gs), n as nat, dmax) + (deg - i) * f < b0,
                stack@.len() == gs.len(),
                forall|j: int|
                    0 <= j < stack@.len() ==> bb_state(adj, s, stack@[j].0, stack@[j].1@, stack@[j].2@, #[trigger] gs[j]),
                forall|j: int| 0 <= j < gs.len() ==> (#[trigger] gs[j]).len() + 1 < n,
                total_cost <= base,
                route@.len() == 0 ==> total_cost == base,
                best_ok(adj, s, route@, best, best_d, total_cost),
                bound_holds_at(adj, s, total_cost, gs, sp, i as int),
            decreases deg - i,
        {
            let e = edges[i];
            let to = e.edge_id.to;
            let w = e.weight.cost();
            let c2 = cost_add(cost, w);
            let ghost sp2 = sp.push((u, i as int));
            proof {
                assert(edges@[i as int].edge_id.to.0 == adj[u][i as int].0);
                lemma_walk_push(adj, s, sp, i as int);
                assert(to.0 < n);
                lemma_mul_step(deg - i - 1, f as int);
            }
            let ghost t0 = total_cost;
            let ghost g0 = gs;
            if !visited[to.0] && c2 < total_cost {
                let (p2, vis2) = extend(&path, &visited, to);
                proof {
                    lemma_bb_extend(adj, s, cost, path@, visited@, sp, i as int);
                    assert(p2@ == path@.push(NodeId(adj[u][i as int].0)));
                }
                if all_set(&vis2) {
                    proof {
                        lemma_bb_full(adj, s, c2, p2@, vis2@, sp2);
                    }
                    let found = way_back(graph, to, start);
                    match found {
                        Some(d) => {
                            let c3 = cost_add(c2, d);
                            if c3 < total_cost {
                                total_cost = c3;
                                route = p2;
                                proof {
                                    best = sp2;
                                    best_d = d;
                                    lemma_walk_push(adj, s, sp, i as int);
                                    lemma_bb_best(adj, s, c2, p2@, vis2@, sp2, d);
                                }
                            }
                        },
                        None => {},
                    }
                    proof {
                        lemma_bb_complete(adj, s, t0, total_cost, gs, sp, i as int, c2, p2@, found);
                    }
                } else {
                    proof {
                        lemma_bb_short(adj, s, c2, p2@, vis2@, sp2);
                        lemma_bb_push(adj, s, total_cost, gs, sp, i as int);
                    }
                    stack.push((c2, p2, vis2));
                    proof {
                        gs = gs.push(sp2);
                        assert(lens(gs).drop_last() =~= lens(g0));
                        assert(stack@.last().1@ == p2@);
                    }
                }
            } else {
                proof {
                    lemma_bb_skip(adj, s, total_cost, gs, sp, i as int, cost, path@, visited@);
                }
            }
            i = i + 1;
        }
        proof {
            lemma_bb_end(adj, s, total_cost, gs, sp);
        }
    }
    proof {
        reveal(bound_holds);
        reveal(best_ok);
    }
    Tour::new(route, total_cost)
}

/// `_branch_bound` from the first node; nothing for a graph without nodes.
pub fn branch_bound<G: IterAdjacent + IndexAdjacent + Count>(graph: &G) -> (r: Option<Tour<i64>>)
    where
        G::Weight: EdgeCost + Copy,
    requires
        graph.spec_wf(),
        adj_wf(graph.spec_adj()),
        costs_nonneg(graph.spec_adj()),
        total_edges(graph.spec_adj()) + 1 < PQ_LIMIT,
    ensures
        r is None <==> graph.spec_nodes().len() == 0,
        r matches Some(t) ==> forall|h: Seq<(int, int)>, d: i64|
            #![trigger ham_walk(graph.spec_adj(), 0, h), trip_cost(graph.spec_adj(), h, d)]
            ham_walk(graph.spec_adj(), 0, h) && h.len() >= 1 && least_cost(graph.spec_adj(), walk_end(graph.spec_adj(), 0, h), 0, d)
                ==> t.weight <= trip_cost(graph.spec_adj(), h, d),
        r matches Some(t) ==> (t.route@.len() > 0 ==> exists|h: Seq<(int, int)>, d: i64|
            {
                &&& ham_walk(graph.spec_adj(), 0, h)
                &&& least_cost(graph.spec_adj(), walk_end(graph.spec_adj(), 0, h), 0, d)
                &&& t.weight == trip_cost(graph.spec_adj(), h, d)
                &&& t.route@.len() == h.len() + 1
                &&& forall|i: int| 0 <= i < t.route@.len() ==> (#[trigger] t.route@[i]).0 == walk_node(graph.spec_adj(), 0, h, i)
            }),
{
    if graph.node_count() == 0 {
        None
    } else {
        Some(_branch_bound(graph, NodeId(0)))
    }
}

/// The recursive search: from the partial route `path` (the walk `sp`) of cost `cost`, first
/// closes the round trip where every node has been entered, keeping its cost in `baseline`
/// where it is lower, then tries every edge to a node not yet entered whose cost keeps the
/// route below `baseline`. `path` and `visited` are as they were when it returns.
pub(crate) fn _branch_bound_rec<G: IterAdjacent + Count>(
    start: NodeId,
    graph: &G,
    node: NodeId,
    path: &mut Vec<NodeId>,
    visited: &mut Vec<bool>,
    cost: i64,
    baseline: &mut i64,
    Ghost(sp): Ghost<Seq<(int, int)>>,
)
    where
        G::Weight: EdgeCost + Copy,
    requires
        graph.spec_wf(),
        adj_wf(graph.spec_adj()),
        costs_nonneg(graph.spec_adj()),
        start.0 < graph.spec_nodes().len(),
        total_edges(graph.spec_adj()) + 1 < PQ_LIMIT,
        rec_state(graph.spec_adj(), start.0 as int, cost, old(path)@, old(visited)@, sp),
        node.0 == walk_end(graph.spec_adj(), start.0 as int, sp),
    ensures
        final(path)@ == old(path)@,
        final(visited)@ == old(visited)@,
        *final(baseline) <= *old(baseline),
        *final(baseline) == *old(baseline) || rec_found(graph.spec_adj(), start.0 as int, *final(baseline), sp),
        rec_bound(
            graph.spec_adj(),
            start.0 as int,
            *final(baseline),
            sp,
            graph.spec_adj()[walk_end(graph.spec_adj(), start.0 as int, sp)].len() as int,
        ),
    decreases graph.spec_nodes().len() + 1 - old(path)@.len(),
{
    proof {
        graph.lemma_wf();
    }
    let ghost adj = graph.spec_adj();
    let ghost s = start.0 as int;
    let ghost n = adj.len();
    let ghost b0 = *baseline;
    let ghost p0 = path@;
    let ghost v0 = visited@;
    proof {
        lemma_rec_facts(adj, s, cost, path@, visited@, sp);
    }
    let all = all_set(visited);
    let mut found: Option<i64> = None;
    if all {
        found = way_back(graph, node, start);
        match found {
            Some(d) => {
                let t = cost_add(cost, d);
                if t < *baseline {
                    *baseline = t;
                }
            },
            None => {},
        }
    }
    proof {
        lemma_rec_entry(adj, s, b0, *baseline, cost, path@, visited@, sp, all, found);
    }
    let edges = graph.iter_adjacent_edges(node);
    let ghost u = node.0 as int;
    let mut i: usize = 0;
    while i < edges.len()
        invariant
            graph.spec_wf(),
            adj == graph.spec_adj(),
            adj_wf(adj),
            costs_nonneg(adj),
            n == adj.len(),
            n == graph.spec_nodes().len(),
            s == start.0,
            start.0 < n,
            total_edges(adj) + 1 < PQ_LIMIT,
            path@ == p0,
            p0 == old(path)@,
            visited@ == v0,
            rec_state(adj, s, cost, p0, v0, sp),
            walk_ok(adj, s, sp),
            p0.len() == sp.len() + 1,
            p0.len() <= n + 1,
            v0.len() == n,
            u == walk_end(adj, s, sp),
            0 <= u < n,
            edges@.len() == adj[u].len(),
            forall|j: int|
                0 <= j < edges@.len() ==> (#[trigger] edges@[j]).edge_id.to.0 == adj[u][j].0 && edges@[j].weight
                    == adj[u][j].1,
            i <= edges@.len(),
            *baseline <= b0,
            *baseline == b0 || rec_found(adj, s, *baseline, sp),
            rec_bound(adj, s, *baseline, sp, i as int),
        decreases edges@.len() - i,
    {
        let e = edges[i];
        let to = e.edge_id.to;
        let c2 = cost_add(cost, e.weight.cost());
        proof {
            assert(edges@[i as int].edge_id.to.0 == adj[u][i as int].0);
            lemma_walk_push(adj, s, sp, i as int);
        }
        if !visited[to.0] && c2 < *baseline {
            proof {
                lemma_rec_extend(adj, s, cost, path@, visited@, sp, i as int);
            }
            visited.set(to.0, true);
            path.push(to);
            let ghost bb = *baseline;
            let ghost sp2 = sp.push((u, i as int));
            proof {
                assert(path@ == p0.push(NodeId(adj[u][i as int].0)));
                lemma_rec_facts(adj, s, c2, path@, visited@, sp2);
                assert(path@.len() <= graph.spec_nodes().len() + 1);
                assert(graph.spec_nodes().len() + 1 - path@.len() < graph.spec_nodes().len() + 1 - p0.len());
            }
            _branch_bound_rec(start, graph, to, path, visited, c2, baseline, Ghost(sp2));
            proof {
                lemma_rec_child(adj, s, bb, *baseline, sp, i as int);
            }
            visited.set(to.0, false);
            path.pop();
            proof {
                assert(visited@ =~= v0);
                assert(path@ =~= p0);
            }
        } else {
            proof {
                lemma_rec_skip(adj, s, *baseline, cost, path@, visited@, sp, i as int);
            }
        }
        i = i + 1;
    }
}

/// The recursive branch and bound from the first node, bounded at first by the round trip
/// `nearest_neighbor` finds. Returns the first node alone and the best round-trip cost found;
/// nothing for a graph without nodes.
pub fn branch_bound_rec<G: IterAdjacent + IndexAdjacent + Count>(graph: &G) -> (r: Option<Tour<i64>>)
    where
        G::Weight: EdgeCost + Copy,
    requires
        graph.spec_wf(),
        adj_wf(graph.spec_adj()),
        costs_nonneg(graph.spec_adj()),
        total_edges(graph.spec_adj()) + 1 < PQ_LIMIT,
    ensures
        r is None <==> graph.spec_nodes().len() == 0,
        r matches Some(t) ==> {
            &&& t.route@ == seq![NodeId(0)]
            &&& (t.weight == i64::MAX || rec_found(graph.spec_adj(), 0, t.weight, Seq::empty()) || exists|
                costs: Seq<i64>,
                tour: Seq<NodeId>,
            | is_tour(graph.spec_adj(), 0, tour, costs) && t.weight == sum_costs(costs))
            &&& forall|h: Seq<(int, int)>, d: i64|
                #![trigger rec_walk(graph.spec_adj(), 0, h), trip_cost(graph.spec_adj(), h, d)]
                rec_walk(graph.spec_adj(), 0, h) && least_cost(graph.spec_adj(), walk_end(graph.spec_adj(), 0, h), 0, d)
                    ==> t.weight <= trip_cost(graph.spec_adj(), h, d)
        },
{
    proof {
        graph.lemma_wf();
    }
    let n = graph.node_count();
    if n == 0 {
        return None;
    }
    let ghost adj = graph.spec_adj();
    let start = NodeId(0);
    let mut baseline: i64 = match nearest_neighbor(graph, start) {
        Some(t) => t.weight,
        None => i64::MAX,
    };
    let ghost base = baseline;
    let mut path: Vec<NodeId> = Vec::new();
    path.push(start);
    let mut visited: Vec<bool> = Vec::new();
    let mut k: usize = 0;
    while k < n
        invariant
            k <= n,
            visited@ == Seq::new(k as nat, |i: int| false),
        decreases n - k,
    {
        visited.push(false);
        k = k + 1;
        proof {
            assert(visited@ =~= Seq::new(k as nat, |i: int| false));
        }
    }
    proof {
        reveal(rec_state);
        assert(walk_ok(adj, 0, Seq::<(int, int)>::empty()));
        assert(path@.drop_first() =~= Seq::<NodeId>::empty());
        assert(rec_state(adj, 0, 0, path@, visited@, Seq::<(int, int)>::empty()));
    }
    _branch_bound_rec(start, graph, start, &mut path, &mut visited, 0, &mut baseline, Ghost(Seq::empty()));
    proof {
        reveal(rec_bound);
        let e = Seq::<(int, int)>::empty();
        assert forall|h: Seq<(int, int)>, d: i64|
            #![trigger rec_walk(adj, 0, h), trip_cost(adj, h, d)]
            rec_walk(adj, 0, h) && least_cost(adj, walk_end(adj, 0, h), 0, d) implies baseline <= trip_cost(adj, h, d) by {
            assert(h.take(0) =~= e);
            if h.len() > 0 {
                assert(0 <= h[0].0 < adj.len());
                assert(h[0].0 == walk_node(adj, 0, h, 0));
            }
        }
    }
    Some(Tour::new(path, baseline))
}

} // verus!
