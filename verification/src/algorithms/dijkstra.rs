use crate::algorithms::Distances;
use crate::graph::index::NodeId;
use crate::graph::traits::{adj_wf, total_edges, Base, Count, IterAdjacent};
use crate::graph::walk::{
    costs_nonneg, lemma_add_cost_monotone, lemma_walk_cost_prefix, lemma_walk_empty, lemma_walk_exit,
    lemma_walk_prefix, lemma_walk_to_step, least_cost, walk_cost, walk_end, walk_exists, walk_node, walk_ok,
    walk_to, walks_at_least,
};
use crate::graph::weight::{add_cost, cost_add, EdgeCost};
use crate::pq::{pq_contents, pq_new, pq_pop, pq_put, PQ_LIMIT};
use priq::PriorityQueue;
use vstd::multiset::Multiset;
use vstd::prelude::*;

verus! {

/// The number of stored edges that leave the nodes marked in `s`.
pub open spec fn settled_edges<W>(adj: Seq<Seq<(usize, W)>>, s: Seq<bool>) -> nat
    decreases adj.len(),
{
    if adj.len() == 0 {
        0
    } else {
        settled_edges(adj.drop_last(), s) + if s[adj.len() - 1] {
            adj.last().len()
        } else {
            0
        }
    }
}

pub proof fn lemma_settled_edges_mark<W>(adj: Seq<Seq<(usize, W)>>, s: Seq<bool>, x: int)
    requires
        0 <= x < adj.len(),
        adj.len() <= s.len(),
        !s[x],
    ensures
        settled_edges(adj, s.update(x, true)) == settled_edges(adj, s) + adj[x].len(),
    decreases adj.len(),
{
    if x < adj.len() - 1 {
        lemma_settled_edges_mark(adj.drop_last(), s, x);
    } else {
        lemma_settled_edges_same(adj.drop_last(), s, s.update(x, true));
    }
}

pub proof fn lemma_settled_edges_same<W>(adj: Seq<Seq<(usize, W)>>, s: Seq<bool>, t: Seq<bool>)
    requires
        forall|i: int| 0 <= i < adj.len() ==> s[i] == t[i],
    ensures
        settled_edges(adj, s) == settled_edges(adj, t),
    decreases adj.len(),
{
    if adj.len() > 0 {
        lemma_settled_edges_same(adj.drop_last(), s, t);
    }
}

pub proof fn lemma_settled_edges_bound<W>(adj: Seq<Seq<(usize, W)>>, s: Seq<bool>)
    ensures
        settled_edges(adj, s) <= total_edges(adj),
    decreases adj.len(),
{
    if adj.len() > 0 {
        lemma_settled_edges_bound(adj.drop_last(), s);
    }
}

/// What a distance entry still may fall by: an unknown distance counts above every cost.
pub open spec fn potential(d: Option<i64>) -> int {
    match d {
        Some(c) => c as int,
        None => i64::MAX + 1,
    }
}

pub open spec fn sum_potential(ds: Seq<Option<i64>>) -> int
    decreases ds.len(),
{
    if ds.len() == 0 {
        0
    } else {
        sum_potential(ds.drop_last()) + potential(ds.last())
    }
}

proof fn lemma_sum_potential_update(ds: Seq<Option<i64>>, i: int, x: Option<i64>)
    requires
        0 <= i < ds.len(),
    ensures
        sum_potential(ds.update(i, x)) == sum_potential(ds) - potential(ds[i]) + potential(x),
    decreases ds.len(),
{
    if i == ds.len() - 1 {
        assert(ds.update(i, x).drop_last() =~= ds.drop_last());
    } else {
        lemma_sum_potential_update(ds.drop_last(), i, x);
        assert(ds.update(i, x).drop_last() =~= ds.drop_last().update(i, x));
    }
}

proof fn lemma_sum_potential_nonneg(ds: Seq<Option<i64>>)
    requires
        forall|i: int| 0 <= i < ds.len() && (#[trigger] ds[i]) is Some ==> ds[i].unwrap() >= 0,
    ensures
        sum_potential(ds) >= 0,
    decreases ds.len(),
{
    if ds.len() > 0 {
        let d = ds.drop_last();
        assert forall|i: int| 0 <= i < d.len() && (#[trigger] d[i]) is Some implies d[i].unwrap() >= 0 by {
            assert(d[i] == ds[i]);
        }
        lemma_sum_potential_nonneg(d);
    }
}

/// The distances of the nodes taken so far are least costs, and every edge that leaves them
/// has been tried.
pub open spec fn settled_ok<W: EdgeCost>(
    adj: Seq<Seq<(usize, W)>>,
    from: int,
    s: Seq<bool>,
    dist: Seq<Option<i64>>,
) -> bool {
    &&& forall|u: int|
        0 <= u < s.len() && #[trigger] s[u] ==> dist[u] is Some && walks_at_least(adj, from, u, dist[u].unwrap())
    &&& forall|u: int, k: int|
        0 <= u < s.len() && s[u] && 0 <= k < adj[u].len() ==> dist[#[trigger] adj[u][k].0 as int] is Some
            && dist[adj[u][k].0 as int].unwrap() <= add_cost(dist[u].unwrap(), adj[u][k].1.spec_cost())
}

/// The cut argument: when every node outside the taken ones that has a distance has one of at
/// least `d`, every walk to a node outside costs at least `d`.
proof fn lemma_cut<W: EdgeCost>(
    adj: Seq<Seq<(usize, W)>>,
    from: int,
    s: Seq<bool>,
    dist: Seq<Option<i64>>,
    d: i64,
    x: int,
)
    requires
        costs_nonneg(adj),
        adj_wf(adj),
        s.len() == adj.len(),
        dist.len() == adj.len(),
        0 <= from < adj.len(),
        s[from],
        settled_ok(adj, from, s, dist),
        forall|v: int| 0 <= v < s.len() && !s[v] && (#[trigger] dist[v]) is Some ==> dist[v].unwrap() >= d,
        0 <= x < adj.len(),
        !s[x],
    ensures
        walks_at_least(adj, from, x, d),
{
    assert forall|steps: Seq<(int, int)>|
        #[trigger] walk_ok(adj, from, steps) && walk_end(adj, from, steps) == x implies walk_cost(adj, steps) >= d by {
        let inside = |v: int| 0 <= v < s.len() && s[v];
        lemma_walk_exit(adj, from, steps, inside);
        let i = choose|i: int|
            0 <= i < steps.len() && inside(#[trigger] walk_node(adj, from, steps, i)) && !inside(
                walk_node(adj, from, steps, i + 1),
            );
        let u = walk_node(adj, from, steps, i);
        let k = steps[i].1;
        assert(steps[i].0 == u);
        let y = adj[u][k].0 as int;
        assert(adj[u][k].0 < adj.len());
        assert(walk_node(adj, from, steps, i + 1) == y);
        lemma_walk_prefix(adj, from, steps, i);
        let p = steps.take(i);
        let p1 = steps.take(i + 1);
        lemma_walk_cost_prefix(adj, from, steps, i + 1);
        assert(p1.drop_last() =~= p);
        assert(p1.last() == steps[i]);
        assert(walk_cost(adj, p) >= dist[u].unwrap());
        lemma_add_cost_monotone(dist[u].unwrap(), walk_cost(adj, p), adj[u][k].1.spec_cost());
        assert(dist[y] is Some);
    }
}

/// `n` unknown distances.
fn no_distances(n: usize) -> (r: Vec<Option<i64>>)
    ensures
        r@ == Seq::new(n as nat, |i: int| None::<i64>),
{
    let mut r: Vec<Option<i64>> = Vec::new();
    let mut i: usize = 0;
    while i < n
        invariant
            i <= n,
            r@ == Seq::new(i as nat, |k: int| None::<i64>),
        decreases n - i,
    {
        r.push(None);
        i = i + 1;
        proof {
            assert(r@ =~= Seq::new(i as nat, |k: int| None::<i64>));
        }
    }
    r
}

/// What the queue and the distances say of each other during the search.
pub open spec fn queue_ok(pq: Multiset<(i64, usize)>, s: Seq<bool>, dist: Seq<Option<i64>>) -> bool {
    &&& forall|v: int|
        0 <= v < s.len() && !s[v] && (#[trigger] dist[v]) is Some ==> pq.contains((dist[v].unwrap(), v as usize))
    &&& forall|e: (i64, usize)|
        #[trigger] pq.contains(e) ==> e.1 < s.len() && dist[e.1 as int] is Some && dist[e.1 as int].unwrap() <= e.0
}

/// Dijkstra's algorithm from `from`, stopping as soon as `to` leaves the queue. Returns the
/// distances found: every one is the cost of a walk from `from`, and the one of `to` is the
/// least cost of a walk to it, or none when no walk leads there.
#[verifier::rlimit(60)]
#[verifier::spinoff_prover]
pub fn dijkstra<G: IterAdjacent + Count>(graph: &G, from: NodeId, to: NodeId) -> (r: Distances)
    where
        G::Weight: EdgeCost + Copy,
    requires
        graph.spec_wf(),
        adj_wf(graph.spec_adj()),
        costs_nonneg(graph.spec_adj()),
        from.0 < graph.spec_nodes().len(),
        to.0 < graph.spec_nodes().len(),
        total_edges(graph.spec_adj()) + 1 < PQ_LIMIT,
    ensures
        r.from == from,
        r.distances@.len() == graph.spec_nodes().len(),
        r.distances@[from.0 as int] == Some(0i64),
        forall|v: int|
            0 <= v < r.distances@.len() && (#[trigger] r.distances@[v]) is Some ==> walk_to(
                graph.spec_adj(),
                from.0 as int,
                v,
                r.distances@[v].unwrap(),
            ),
        match r.distances@[to.0 as int] {
            Some(d) => least_cost(graph.spec_adj(), from.0 as int, to.0 as int, d),
            None => !walk_exists(graph.spec_adj(), from.0 as int, to.0 as int),
        },
{
    proof {
        graph.lemma_wf();
    }
    let ghost adj = graph.spec_adj();
    let ghost s = from.0 as int;
    let n = graph.node_count();
    let mut pq = pq_new();
    let mut dist = no_distances(n);
    dist.set(from.0, Some(0));
    pq_put(&mut pq, 0, from.0);
    let ghost mut settled: Seq<bool> = Seq::new(n as nat, |i: int| false);
    let ghost mut pushed: int = 1;
    proof {
        lemma_dij_init(adj, s, to.0 as int, settled, dist@, pq_contents(pq));
    }
    loop
        invariant
            graph.spec_wf(),
            adj == graph.spec_adj(),
            adj.len() == n,
            graph.spec_nodes().len() == n,
            s == from.0,
            dij_state(adj, s, to.0 as int, settled, dist@, pq_contents(pq), pushed),
        decreases sum_potential(dist@), pq_contents(pq).len(),
    {
        proof {
            lemma_dij_facts(adj, s, to.0 as int, settled, dist@, pq_contents(pq), pushed);
            lemma_sum_potential_nonneg(dist@);
        }
        let ghost p0 = pq_contents(pq);
        let top = pq_pop(&mut pq);
        match top {
            None => {
                proof {
                    lemma_dij_done(adj, s, to.0 as int, settled, dist@, p0, pushed);
                }
                return Distances::new(from, dist);
            },
            Some((d, x)) => {
                proof {
                    assert(p0.contains((d, x)));
                    assert(pq_contents(pq).len() == p0.len() - 1);
                }
                if x == to.0 {
                    proof {
                        assert(p0.contains((d, x)));
                        lemma_dij_found(adj, s, to.0 as int, settled, dist@, p0, pushed, d);
                    }
                    return Distances::new(from, dist);
                }
                let dx = match dist[x] {
                    Some(c) => c,
                    None => {
                        proof {
                            assert(p0.contains((d, x)));
                        }
                        0
                    },
                };
                if d > dx {
                    proof {
                        assert(p0.contains((d, x)));
                        lemma_dij_stale(adj, s, to.0 as int, settled, dist@, p0, pushed, d, x as int);
                    }
                    continue;
                }
                let ghost was_settled = settled[x as int];
                let ghost s1 = if was_settled { settled } else { settled.update(x as int, true) };
                proof {
                    assert(p0.contains((d, x)));
                    lemma_dij_take(adj, s, to.0 as int, settled, dist@, p0, pushed, d, x as int, s1, pq_contents(pq));
                    settled = s1;
                }
                let Ghost(p2) = relax_edges(graph, from, to, x, d, &mut dist, &mut pq, Ghost(settled), Ghost(was_settled), Ghost(pushed));
                proof {
                    pushed = p2;
                    lemma_sum_potential_nonneg(dist@);
                    lemma_dij_rebuild(adj, s, to.0 as int, settled, dist@, pq_contents(pq), pushed);
                }
            },
        }
    }
}

/// The state of the search between two steps.
#[verifier::opaque]
pub open spec fn dij_state<W: EdgeCost>(
    adj: Seq<Seq<(usize, W)>>,
    s: int,
    to: int,
    settled: Seq<bool>,
    dist: Seq<Option<i64>>,
    pq: Multiset<(i64, usize)>,
    pushed: int,
) -> bool {
    let n = adj.len();
    &&& n <= usize::MAX
    &&& adj_wf(adj)
    &&& costs_nonneg(adj)
    &&& 0 <= s < n
    &&& 0 <= to < n
    &&& total_edges(adj) + 1 < PQ_LIMIT
    &&& dist.len() == n
    &&& settled.len() == n
    &&& dist[s] == Some(0i64)
    &&& forall|v: int| 0 <= v < n && (#[trigger] dist[v]) is Some ==> walk_to(adj, s, v, dist[v].unwrap()) && dist[v].unwrap() >= 0
    &&& settled_ok(adj, s, settled, dist)
    &&& queue_ok(pq, settled, dist)
    &&& (exists|u: int| 0 <= u < n && #[trigger] settled[u]) ==> settled[s]
    &&& !(exists|u: int| 0 <= u < n && #[trigger] settled[u]) ==> forall|v: int| 0 <= v < n && v != s ==> #[trigger] dist[v] is None
    &&& pq.len() <= pushed <= 1 + settled_edges(adj, settled)
    &&& !settled[to]
}

proof fn lemma_dij_init<W: EdgeCost>(
    adj: Seq<Seq<(usize, W)>>,
    s: int,
    to: int,
    settled: Seq<bool>,
    dist: Seq<Option<i64>>,
    pq: Multiset<(i64, usize)>,
)
    requires
        adj_wf(adj),
        costs_nonneg(adj),
        adj.len() <= usize::MAX,
        0 <= s < adj.len(),
        0 <= to < adj.len(),
        total_edges(adj) + 1 < PQ_LIMIT,
        settled == Seq::new(adj.len(), |i: int| false),
        dist == Seq::new(adj.len(), |i: int| None::<i64>).update(s, Some(0i64)),
        pq =~= Multiset::empty().insert((0i64, s as usize)),
    ensures
        dij_state(adj, s, to, settled, dist, pq, 1),
{
    reveal(dij_state);
    lemma_walk_empty(adj, s);
    lemma_settled_none(adj, settled);
    assert(pq.contains((0i64, s as usize)));
    assert forall|e: (i64, usize)| #[trigger] pq.contains(e) implies e.1 < settled.len() && dist[e.1 as int] is Some
        && dist[e.1 as int].unwrap() <= e.0 by {
        assert(e == (0i64, s as usize));
    }
}

proof fn lemma_dij_facts<W: EdgeCost>(
    adj: Seq<Seq<(usize, W)>>,
    s: int,
    to: int,
    settled: Seq<bool>,
    dist: Seq<Option<i64>>,
    pq: Multiset<(i64, usize)>,
    pushed: int,
)
    requires
        dij_state(adj, s, to, settled, dist, pq, pushed),
    ensures
        dist.len() == adj.len(),
        0 <= s < adj.len(),
        0 <= to < adj.len(),
        forall|i: int| 0 <= i < dist.len() && (#[trigger] dist[i]) is Some ==> dist[i].unwrap() >= 0,
        dist.len() <= usize::MAX,
        forall|e: (i64, usize)| #[trigger] pq.contains(e) ==> e.1 < dist.len() && dist[e.1 as int] is Some
            && dist[e.1 as int].unwrap() <= e.0,
{
    reveal(dij_state);
}

proof fn lemma_dij_done<W: EdgeCost>(
    adj: Seq<Seq<(usize, W)>>,
    s: int,
    to: int,
    settled: Seq<bool>,
    dist: Seq<Option<i64>>,
    pq: Multiset<(i64, usize)>,
    pushed: int,
)
    requires
        dij_state(adj, s, to, settled, dist, pq, pushed),
        pq.len() == 0,
    ensures
        dist.len() == adj.len(),
        dist[s] == Some(0i64),
        forall|v: int| 0 <= v < dist.len() && (#[trigger] dist[v]) is Some ==> walk_to(adj, s, v, dist[v].unwrap()),
        dist[to] is None,
        !walk_exists(adj, s, to),
{
    reveal(dij_state);
    assert(pq =~= Multiset::empty());
    lemma_dijkstra_exhausted(adj, s, settled, dist, to);
}

proof fn lemma_dij_found<W: EdgeCost>(
    adj: Seq<Seq<(usize, W)>>,
    s: int,
    to: int,
    settled: Seq<bool>,
    dist: Seq<Option<i64>>,
    pq: Multiset<(i64, usize)>,
    pushed: int,
    d: i64,
)
    requires
        dij_state(adj, s, to, settled, dist, pq, pushed),
        pq.contains((d, to as usize)),
        forall|e: (i64, usize)| #[trigger] pq.contains(e) ==> d <= e.0,
    ensures
        dist.len() == adj.len(),
        dist[s] == Some(0i64),
        forall|v: int| 0 <= v < dist.len() && (#[trigger] dist[v]) is Some ==> walk_to(adj, s, v, dist[v].unwrap()),
        dist[to] is Some,
        least_cost(adj, s, to, dist[to].unwrap()),
{
    reveal(dij_state);
    assert(dist[to] is Some);
    assert(!settled[to]);
    assert(pq.contains((dist[to].unwrap(), to as usize)));
    if exists|u: int| 0 <= u < adj.len() && #[trigger] settled[u] {
        assert forall|v: int| 0 <= v < settled.len() && !settled[v] && (#[trigger] dist[v]) is Some implies dist[v].unwrap() >= d by {
            assert(pq.contains((dist[v].unwrap(), v as usize)));
        }
        lemma_cut(adj, s, settled, dist, d, to);
    } else {
        assert(to == s);
        lemma_walks_nonneg(adj, s, to);
    }
}

proof fn lemma_dij_stale<W: EdgeCost>(
    adj: Seq<Seq<(usize, W)>>,
    s: int,
    to: int,
    settled: Seq<bool>,
    dist: Seq<Option<i64>>,
    pq: Multiset<(i64, usize)>,
    pushed: int,
    d: i64,
    x: int,
)
    requires
        dij_state(adj, s, to, settled, dist, pq, pushed),
        pq.contains((d, x as usize)),
        0 <= x < dist.len(),
        dist[x] is Some,
        d > dist[x].unwrap(),
    ensures
        dij_state(adj, s, to, settled, dist, pq.remove((d, x as usize)), pushed),
{
    reveal(dij_state);
    let p2 = pq.remove((d, x as usize));
    assert forall|v: int| 0 <= v < settled.len() && !settled[v] && (#[trigger] dist[v]) is Some implies p2.contains(
        (dist[v].unwrap(), v as usize),
    ) by {
        assert(pq.contains((dist[v].unwrap(), v as usize)));
        if v == x {
            assert((dist[v].unwrap(), v as usize) != (d, x as usize));
        }
    }
    assert forall|e2: (i64, usize)| #[trigger] p2.contains(e2) implies e2.1 < settled.len() && dist[e2.1 as int] is Some
        && dist[e2.1 as int].unwrap() <= e2.0 by {
        assert(pq.contains(e2));
    }
}

proof fn lemma_dij_take<W: EdgeCost>(
    adj: Seq<Seq<(usize, W)>>,
    s: int,
    to: int,
    settled: Seq<bool>,
    dist: Seq<Option<i64>>,
    pq: Multiset<(i64, usize)>,
    pushed: int,
    d: i64,
    x: int,
    s1: Seq<bool>,
    p1: Multiset<(i64, usize)>,
)
    requires
        dij_state(adj, s, to, settled, dist, pq, pushed),
        pq.contains((d, x as usize)),
        forall|e: (i64, usize)| #[trigger] pq.contains(e) ==> d <= e.0,
        0 <= x < dist.len(),
        x != to,
        dist[x] == Some(d),
        s1 == (if settled[x] { settled } else { settled.update(x, true) }),
        p1 == pq.remove((d, x as usize)),
    ensures
        ({
            let was = settled[x];
            let n = adj.len();
            &&& n <= usize::MAX
            &&& adj_wf(adj)
            &&& costs_nonneg(adj)
            &&& total_edges(adj) + 1 < PQ_LIMIT
            &&& 0 <= s < n
            &&& 0 <= to < n
            &&& dist.len() == n
            &&& s1.len() == n
            &&& s1[x]
            &&& s1[s]
            &&& !s1[to]
            &&& dist[s] == Some(0i64)
            &&& d >= 0
            &&& forall|v: int| 0 <= v < n && (#[trigger] dist[v]) is Some ==> walk_to(adj, s, v, dist[v].unwrap()) && dist[v].unwrap() >= 0
            &&& forall|u: int| 0 <= u < n && #[trigger] s1[u] ==> dist[u] is Some && walks_at_least(adj, s, u, dist[u].unwrap())
            &&& forall|u: int, j: int|
                0 <= u < n && s1[u] && 0 <= j < adj[u].len() && (u != x || was) ==> dist[#[trigger] adj[u][j].0 as int] is Some
                    && dist[adj[u][j].0 as int].unwrap() <= add_cost(dist[u].unwrap(), adj[u][j].1.spec_cost())
            &&& queue_ok(p1, s1, dist)
            &&& p1.len() <= pushed
            &&& was ==> pushed <= 1 + settled_edges(adj, s1)
            &&& !was ==> pushed <= 1 + settled_edges(adj, s1) - adj[x].len()
        }),
{
    reveal(dij_state);
    let was = settled[x];
    let n = adj.len();
    if !was {
        if exists|u: int| 0 <= u < n && #[trigger] settled[u] {
            assert forall|v: int| 0 <= v < settled.len() && !settled[v] && (#[trigger] dist[v]) is Some implies dist[v].unwrap() >= d by {
                assert(pq.contains((dist[v].unwrap(), v as usize)));
            }
            lemma_cut(adj, s, settled, dist, d, x);
        } else {
            assert(x == s);
            lemma_walks_nonneg(adj, s, x);
        }
        lemma_settled_edges_mark(adj, settled, x);
        assert forall|u: int| 0 <= u < n && #[trigger] s1[u] implies dist[u] is Some && walks_at_least(adj, s, u, dist[u].unwrap()) by {
            if u != x {
                assert(settled[u]);
            }
        }
        assert(s1[s]) by {
            if s != x {
                assert(settled[x] || !settled[x]);
                if !settled[s] {
                    assert(!(exists|u: int| 0 <= u < n && #[trigger] settled[u]));
                    assert(dist[x] is None);
                }
            }
        }
        assert forall|u: int, j: int|
            0 <= u < n && s1[u] && 0 <= j < adj[u].len() && (u != x || was) implies dist[#[trigger] adj[u][j].0 as int] is Some
                && dist[adj[u][j].0 as int].unwrap() <= add_cost(dist[u].unwrap(), adj[u][j].1.spec_cost()) by {
            assert(settled[u]);
        }
    } else {
        if !settled[s] {
            assert(exists|u: int| 0 <= u < n && #[trigger] settled[u]) by {
                assert(settled[x]);
            }
        }
    }
    assert forall|v: int| 0 <= v < s1.len() && !s1[v] && (#[trigger] dist[v]) is Some implies p1.contains(
        (dist[v].unwrap(), v as usize),
    ) by {
        assert(!settled[v]);
        assert(pq.contains((dist[v].unwrap(), v as usize)));
        assert(v != x);
    }
    assert forall|e2: (i64, usize)| #[trigger] p1.contains(e2) implies e2.1 < s1.len() && dist[e2.1 as int] is Some
        && dist[e2.1 as int].unwrap() <= e2.0 by {
        assert(pq.contains(e2));
    }
}

proof fn lemma_dij_rebuild<W: EdgeCost>(
    adj: Seq<Seq<(usize, W)>>,
    s: int,
    to: int,
    settled: Seq<bool>,
    dist: Seq<Option<i64>>,
    pq: Multiset<(i64, usize)>,
    pushed: int,
)
    requires
        adj_wf(adj),
        costs_nonneg(adj),
        adj.len() <= usize::MAX,
        total_edges(adj) + 1 < PQ_LIMIT,
        0 <= s < adj.len(),
        0 <= to < adj.len(),
        dist.len() == adj.len(),
        settled.len() == adj.len(),
        settled[s],
        !settled[to],
        dist[s] == Some(0i64),
        forall|v: int| 0 <= v < dist.len() && (#[trigger] dist[v]) is Some ==> walk_to(adj, s, v, dist[v].unwrap()) && dist[v].unwrap() >= 0,
        settled_ok(adj, s, settled, dist),
        queue_ok(pq, settled, dist),
        pq.len() <= pushed <= 1 + settled_edges(adj, settled),
    ensures
        dij_state(adj, s, to, settled, dist, pq, pushed),
{
    reveal(dij_state);
}

pub proof fn lemma_settled_none<W>(adj: Seq<Seq<(usize, W)>>, s: Seq<bool>)
    requires
        forall|i: int| 0 <= i < adj.len() ==> !s[i],
    ensures
        settled_edges(adj, s) == 0,
    decreases adj.len(),
{
    if adj.len() > 0 {
        lemma_settled_none(adj.drop_last(), s);
    }
}

#[verifier::rlimit(100)]
#[verifier::spinoff_prover]
/// Tries every edge that leaves `x`, taken at distance `d`: a target whose distance falls gets
/// the new one and enters the queue. Returns how many entries the queue has received in all.
fn relax_edges<G: IterAdjacent + Count>(
    graph: &G,
    from: NodeId,
    to: NodeId,
    x: usize,
    d: i64,
    dist: &mut Vec<Option<i64>>,
    pq: &mut PriorityQueue<i64, usize>,
    settled: Ghost<Seq<bool>>,
    was_settled: Ghost<bool>,
    pushed: Ghost<int>,
) -> (pushed_after: Ghost<int>)
    where
        G::Weight: EdgeCost + Copy,
    requires
        graph.spec_wf(),
        adj_wf(graph.spec_adj()),
        costs_nonneg(graph.spec_adj()),
        graph.spec_adj().len() == graph.spec_nodes().len(),
        total_edges(graph.spec_adj()) + 1 < PQ_LIMIT,
        from.0 < graph.spec_nodes().len(),
        to.0 < graph.spec_nodes().len(),
        x < graph.spec_nodes().len(),
        x != to.0,
        old(dist)@.len() == graph.spec_nodes().len(),
        settled@.len() == graph.spec_nodes().len(),
        settled@[x as int],
        settled@[from.0 as int],
        !settled@[to.0 as int],
        old(dist)@[from.0 as int] == Some(0i64),
        old(dist)@[x as int] == Some(d),
        d >= 0,
        forall|v: int|
            0 <= v < old(dist)@.len() && (#[trigger] old(dist)@[v]) is Some ==> walk_to(
                graph.spec_adj(),
                from.0 as int,
                v,
                old(dist)@[v].unwrap(),
            ) && old(dist)@[v].unwrap() >= 0,
        forall|u: int|
            0 <= u < settled@.len() && #[trigger] settled@[u] ==> old(dist)@[u] is Some && walks_at_least(
                graph.spec_adj(),
                from.0 as int,
                u,
                old(dist)@[u].unwrap(),
            ),
        forall|u: int, j: int|
            0 <= u < settled@.len() && settled@[u] && 0 <= j < graph.spec_adj()[u].len() && (u != x || was_settled@)
                ==> old(dist)@[#[trigger] graph.spec_adj()[u][j].0 as int] is Some && old(dist)@[graph.spec_adj()[u][j].0 as int].unwrap()
                <= add_cost(old(dist)@[u].unwrap(), graph.spec_adj()[u][j].1.spec_cost()),
        queue_ok(pq_contents(*old(pq)), settled@, old(dist)@),
        pq_contents(*old(pq)).len() <= pushed@,
        was_settled@ ==> pushed@ <= 1 + settled_edges(graph.spec_adj(), settled@),
        !was_settled@ ==> pushed@ <= 1 + settled_edges(graph.spec_adj(), settled@) - graph.spec_adj()[x as int].len(),
    ensures
        final(dist)@.len() == old(dist)@.len(),
        final(dist)@[from.0 as int] == Some(0i64),
        forall|v: int|
            0 <= v < final(dist)@.len() && (#[trigger] final(dist)@[v]) is Some ==> walk_to(
                graph.spec_adj(),
                from.0 as int,
                v,
                final(dist)@[v].unwrap(),
            ) && final(dist)@[v].unwrap() >= 0,
        settled_ok(graph.spec_adj(), from.0 as int, settled@, final(dist)@),
        queue_ok(pq_contents(*final(pq)), settled@, final(dist)@),
        pq_contents(*final(pq)).len() <= pushed_after@ <= 1 + settled_edges(graph.spec_adj(), settled@),
        sum_potential(final(dist)@) < sum_potential(old(dist)@) || (sum_potential(final(dist)@) == sum_potential(
            old(dist)@,
        ) && pq_contents(*final(pq)).len() == pq_contents(*old(pq)).len()),
{
    proof {
        graph.lemma_wf();
    }
    let ghost adj = graph.spec_adj();
    let ghost s = from.0 as int;
    let ghost n = graph.spec_nodes().len() as int;
    let ghost dist0 = dist@;
    let ghost p0 = pq_contents(*pq);
    let ghost settled = settled@;
    let ghost was_settled = was_settled@;
    let ghost budget0 = pushed@;
    let ghost mut pushed = pushed@;
    let out = graph.iter_adjacent_edges(NodeId(x));
    let mut k: usize = 0;
    proof {
        lemma_relax_start(adj, s, to.0 as int, x as int, d, settled, was_settled, dist@, pq_contents(*pq), pushed);
    }
    while k < out.len()
        invariant
            graph.spec_wf(),
            adj == graph.spec_adj(),
            s == from.0,
            out@.len() == adj[x as int].len(),
            forall|j: int|
                0 <= j < out@.len() ==> (#[trigger] out@[j]).edge_id.to.0 == adj[x as int][j].0
                    && out@[j].weight == adj[x as int][j].1,
            k <= out@.len(),
            relax_inv(adj, s, to.0 as int, x as int, d, k as int, settled, was_settled, dist@, pq_contents(*pq), pushed, budget0, dist0, p0),
        decreases out@.len() - k,
    {
        let e = out[k];
        let v = e.edge_id.to.0;
        let c = e.weight.cost();
        proof {
            lemma_relax_facts(adj, s, to.0 as int, x as int, d, k as int, settled, was_settled, dist@, pq_contents(*pq), pushed, budget0, dist0, p0);
        }
        let next = cost_add(d, c);
        let geq = match dist[v] {
            Some(dv) => next >= dv,
            None => false,
        };
        if !geq {
            let ghost dv0 = dist@;
            let ghost pq0 = pq_contents(*pq);
            proof {
                lemma_relax_room(adj, s, to.0 as int, x as int, d, k as int, settled, was_settled, dist@, pq_contents(*pq), pushed, budget0, dist0, p0);
            }
            dist.set(v, Some(next));
            pq_put(pq, next, v);
            proof {
                lemma_relax_update(adj, s, to.0 as int, x as int, d, k as int, settled, was_settled, dv0, pq0, pushed, budget0, dist0, p0);
                pushed = pushed + 1;
            }
        } else {
            proof {
                lemma_relax_skip(adj, s, to.0 as int, x as int, d, k as int, settled, was_settled, dist@, pq_contents(*pq), pushed, budget0, dist0, p0);
            }
        }
        k = k + 1;
    }
    proof {
        lemma_relax_end(adj, s, to.0 as int, x as int, d, k as int, settled, was_settled, dist@, pq_contents(*pq), pushed, budget0, dist0, p0);
    }
    Ghost(pushed)
}

/// The state while the edges of `x` are tried, the first `k` of them done.
#[verifier::opaque]
pub open spec fn relax_inv<W: EdgeCost>(
    adj: Seq<Seq<(usize, W)>>,
    s: int,
    to: int,
    x: int,
    d: i64,
    k: int,
    settled: Seq<bool>,
    was_settled: bool,
    dist: Seq<Option<i64>>,
    pq: Multiset<(i64, usize)>,
    pushed: int,
    budget0: int,
    dist0: Seq<Option<i64>>,
    p0: Multiset<(i64, usize)>,
) -> bool {
    let n = adj.len();
    &&& adj_wf(adj)
    &&& costs_nonneg(adj)
    &&& 0 <= s < n
    &&& 0 <= to < n
    &&& 0 <= x < n
    &&& x != to
    &&& 0 <= k <= adj[x].len()
    &&& total_edges(adj) + 1 < PQ_LIMIT
    &&& dist.len() == n
    &&& settled.len() == n
    &&& settled[x]
    &&& settled[s]
    &&& dist[s] == Some(0i64)
    &&& dist[x] == Some(d)
    &&& d >= 0
    &&& forall|v: int| 0 <= v < n && (#[trigger] dist[v]) is Some ==> walk_to(adj, s, v, dist[v].unwrap()) && dist[v].unwrap() >= 0
    &&& forall|u: int| 0 <= u < n && #[trigger] settled[u] ==> dist[u] is Some && walks_at_least(adj, s, u, dist[u].unwrap())
    &&& forall|u: int, j: int|
        0 <= u < n && settled[u] && 0 <= j < adj[u].len() && (u != x || j < k || was_settled) ==> dist[#[trigger] adj[u][j].0 as int] is Some
            && dist[adj[u][j].0 as int].unwrap() <= add_cost(dist[u].unwrap(), adj[u][j].1.spec_cost())
    &&& queue_ok(pq, settled, dist)
    &&& was_settled ==> pushed == budget0 && pushed <= 1 + settled_edges(adj, settled)
    &&& !was_settled ==> pushed <= budget0 + k && budget0 <= 1 + settled_edges(adj, settled) - adj[x].len()
    &&& pq.len() <= pushed
    &&& !settled[to]
    &&& sum_potential(dist) < sum_potential(dist0) || (sum_potential(dist) == sum_potential(dist0) && pq.len() == p0.len())
}

proof fn lemma_relax_start<W: EdgeCost>(
    adj: Seq<Seq<(usize, W)>>,
    s: int,
    to: int,
    x: int,
    d: i64,
    settled: Seq<bool>,
    was_settled: bool,
    dist: Seq<Option<i64>>,
    pq: Multiset<(i64, usize)>,
    pushed: int,
)
    requires
        adj_wf(adj),
        costs_nonneg(adj),
        0 <= s < adj.len(),
        0 <= to < adj.len(),
        0 <= x < adj.len(),
        x != to,
        total_edges(adj) + 1 < PQ_LIMIT,
        dist.len() == adj.len(),
        settled.len() == adj.len(),
        settled[x],
        settled[s],
        !settled[to],
        dist[s] == Some(0i64),
        dist[x] == Some(d),
        d >= 0,
        forall|v: int| 0 <= v < dist.len() && (#[trigger] dist[v]) is Some ==> walk_to(adj, s, v, dist[v].unwrap()) && dist[v].unwrap() >= 0,
        forall|u: int| 0 <= u < settled.len() && #[trigger] settled[u] ==> dist[u] is Some && walks_at_least(adj, s, u, dist[u].unwrap()),
        forall|u: int, j: int|
            0 <= u < settled.len() && settled[u] && 0 <= j < adj[u].len() && (u != x || was_settled) ==> dist[#[trigger] adj[u][j].0 as int] is Some
                && dist[adj[u][j].0 as int].unwrap() <= add_cost(dist[u].unwrap(), adj[u][j].1.spec_cost()),
        queue_ok(pq, settled, dist),
        pq.len() <= pushed,
        was_settled ==> pushed <= 1 + settled_edges(adj, settled),
        !was_settled ==> pushed <= 1 + settled_edges(adj, settled) - adj[x].len(),
    ensures
        relax_inv(adj, s, to, x, d, 0, settled, was_settled, dist, pq, pushed, pushed, dist, pq),
{
    reveal(relax_inv);
}

proof fn lemma_relax_facts<W: EdgeCost>(
    adj: Seq<Seq<(usize, W)>>,
    s: int,
    to: int,
    x: int,
    d: i64,
    k: int,
    settled: Seq<bool>,
    was_settled: bool,
    dist: Seq<Option<i64>>,
    pq: Multiset<(i64, usize)>,
    pushed: int,
    budget0: int,
    dist0: Seq<Option<i64>>,
    p0: Multiset<(i64, usize)>,
)
    requires
        relax_inv(adj, s, to, x, d, k, settled, was_settled, dist, pq, pushed, budget0, dist0, p0),
        k < adj[x].len(),
    ensures
        adj[x][k].0 < dist.len(),
        adj[x][k].1.spec_cost() >= 0,
        dist.len() == adj.len(),
{
    reveal(relax_inv);
}

proof fn lemma_relax_room<W: EdgeCost>(
    adj: Seq<Seq<(usize, W)>>,
    s: int,
    to: int,
    x: int,
    d: i64,
    k: int,
    settled: Seq<bool>,
    was_settled: bool,
    dist: Seq<Option<i64>>,
    pq: Multiset<(i64, usize)>,
    pushed: int,
    budget0: int,
    dist0: Seq<Option<i64>>,
    p0: Multiset<(i64, usize)>,
)
    requires
        relax_inv(adj, s, to, x, d, k, settled, was_settled, dist, pq, pushed, budget0, dist0, p0),
        0 <= k < adj[x].len(),
        !(dist[adj[x][k].0 as int] is Some && add_cost(d, adj[x][k].1.spec_cost()) >= dist[adj[x][k].0 as int].unwrap()),
    ensures
        pq.len() < PQ_LIMIT,
{
    reveal(relax_inv);
    if was_settled {
        assert(dist[adj[x][k].0 as int] is Some);
    }
    lemma_settled_edges_bound(adj, settled);
}

proof fn lemma_relax_update<W: EdgeCost>(
    adj: Seq<Seq<(usize, W)>>,
    s: int,
    to: int,
    x: int,
    d: i64,
    k: int,
    settled: Seq<bool>,
    was_settled: bool,
    dist: Seq<Option<i64>>,
    pq: Multiset<(i64, usize)>,
    pushed: int,
    budget0: int,
    dist0: Seq<Option<i64>>,
    p0: Multiset<(i64, usize)>,
)
    requires
        relax_inv(adj, s, to, x, d, k, settled, was_settled, dist, pq, pushed, budget0, dist0, p0),
        0 <= k < adj[x].len(),
        !(dist[adj[x][k].0 as int] is Some && add_cost(d, adj[x][k].1.spec_cost()) >= dist[adj[x][k].0 as int].unwrap()),
    ensures
        relax_inv(
            adj,
            s,
            to,
            x,
            d,
            k + 1,
            settled,
            was_settled,
            dist.update(adj[x][k].0 as int, Some(add_cost(d, adj[x][k].1.spec_cost()))),
            pq.insert((add_cost(d, adj[x][k].1.spec_cost()), adj[x][k].0)),
            pushed + 1,
            budget0,
            dist0,
            p0,
        ),
{
    reveal(relax_inv);
    let n = adj.len();
    let v = adj[x][k].0 as int;
    let next = add_cost(d, adj[x][k].1.spec_cost());
    let dist1 = dist.update(v, Some(next));
    let pq1 = pq.insert((next, v as usize));
    assert(v < n);
    lemma_walk_to_step(adj, s, x, d, k);
    if was_settled {
        assert(dist[v] is Some);
        assert(false);
    }
    if settled[v] {
        let st = choose|st: Seq<(int, int)>|
            #[trigger] walk_ok(adj, s, st) && walk_end(adj, s, st) == v && walk_cost(adj, st) == next;
        assert(walk_ok(adj, s, st));
        assert(false);
    }
    lemma_sum_potential_update(dist, v, Some(next));
    assert forall|w: int| 0 <= w < n && (#[trigger] dist1[w]) is Some implies walk_to(adj, s, w, dist1[w].unwrap()) && dist1[w].unwrap() >= 0 by {
        if w != v {
            assert(dist[w] == dist1[w]);
        }
    }
    assert forall|u: int| 0 <= u < n && #[trigger] settled[u] implies dist1[u] is Some && walks_at_least(adj, s, u, dist1[u].unwrap()) by {
        assert(u != v);
        assert(dist[u] == dist1[u]);
    }
    assert forall|u: int, j: int|
        0 <= u < n && settled[u] && 0 <= j < adj[u].len() && (u != x || j < k + 1 || was_settled) implies dist1[#[trigger] adj[u][j].0 as int] is Some
            && dist1[adj[u][j].0 as int].unwrap() <= add_cost(dist1[u].unwrap(), adj[u][j].1.spec_cost()) by {
        assert(u != v);
        if u == x && j == k {
        } else {
            assert(dist[adj[u][j].0 as int] is Some);
        }
    }
    assert forall|w: int| 0 <= w < settled.len() && !settled[w] && (#[trigger] dist1[w]) is Some implies pq1.contains(
        (dist1[w].unwrap(), w as usize),
    ) by {
        if w != v {
            assert(dist[w] == dist1[w]);
            assert(pq.contains((dist1[w].unwrap(), w as usize)));
        }
    }
    assert forall|e2: (i64, usize)| #[trigger] pq1.contains(e2) implies e2.1 < settled.len() && dist1[e2.1 as int] is Some
        && dist1[e2.1 as int].unwrap() <= e2.0 by {
        if e2 != (next, v as usize) {
            assert(pq.contains(e2));
        }
    }
}

#[verifier::spinoff_prover]
#[verifier::rlimit(40)]
proof fn lemma_relax_skip<W: EdgeCost>(
    adj: Seq<Seq<(usize, W)>>,
    s: int,
    to: int,
    x: int,
    d: i64,
    k: int,
    settled: Seq<bool>,
    was_settled: bool,
    dist: Seq<Option<i64>>,
    pq: Multiset<(i64, usize)>,
    pushed: int,
    budget0: int,
    dist0: Seq<Option<i64>>,
    p0: Multiset<(i64, usize)>,
)
    requires
        relax_inv(adj, s, to, x, d, k, settled, was_settled, dist, pq, pushed, budget0, dist0, p0),
        0 <= k < adj[x].len(),
        dist[adj[x][k].0 as int] is Some && add_cost(d, adj[x][k].1.spec_cost()) >= dist[adj[x][k].0 as int].unwrap(),
    ensures
        relax_inv(adj, s, to, x, d, k + 1, settled, was_settled, dist, pq, pushed, budget0, dist0, p0),
{
    reveal(relax_inv);
    let n = adj.len();
    assert forall|u: int, j: int|
        0 <= u < n && settled[u] && 0 <= j < adj[u].len() && (u != x || j < k + 1 || was_settled) implies dist[#[trigger] adj[u][j].0 as int] is Some
            && dist[adj[u][j].0 as int].unwrap() <= add_cost(dist[u].unwrap(), adj[u][j].1.spec_cost()) by {
        if u == x && j == k {
        } else {
            assert(u != x || j < k || was_settled);
        }
    }
}

proof fn lemma_relax_end<W: EdgeCost>(
    adj: Seq<Seq<(usize, W)>>,
    s: int,
    to: int,
    x: int,
    d: i64,
    k: int,
    settled: Seq<bool>,
    was_settled: bool,
    dist: Seq<Option<i64>>,
    pq: Multiset<(i64, usize)>,
    pushed: int,
    budget0: int,
    dist0: Seq<Option<i64>>,
    p0: Multiset<(i64, usize)>,
)
    requires
        relax_inv(adj, s, to, x, d, k, settled, was_settled, dist, pq, pushed, budget0, dist0, p0),
        k == adj[x].len(),
    ensures
        dist.len() == dist0.len() || dist0.len() != adj.len(),
        dist.len() == adj.len(),
        dist[s] == Some(0i64),
        forall|v: int| 0 <= v < dist.len() && (#[trigger] dist[v]) is Some ==> walk_to(adj, s, v, dist[v].unwrap()) && dist[v].unwrap() >= 0,
        settled_ok(adj, s, settled, dist),
        queue_ok(pq, settled, dist),
        pq.len() <= pushed <= 1 + settled_edges(adj, settled),
        sum_potential(dist) < sum_potential(dist0) || (sum_potential(dist) == sum_potential(dist0) && pq.len() == p0.len()),
{
    reveal(relax_inv);
    assert forall|u: int, j: int|
        0 <= u < settled.len() && settled[u] && 0 <= j < adj[u].len() implies dist[#[trigger] adj[u][j].0 as int] is Some
            && dist[adj[u][j].0 as int].unwrap() <= add_cost(dist[u].unwrap(), adj[u][j].1.spec_cost()) by {
        if u == x && !was_settled {
            assert(j < k);
        }
    }
}

/// With no negative costs, no walk costs less than zero.
pub proof fn lemma_walks_nonneg<W: EdgeCost>(adj: Seq<Seq<(usize, W)>>, from: int, x: int)
    requires
        costs_nonneg(adj),
    ensures
        walks_at_least(adj, from, x, 0),
{
    assert forall|steps: Seq<(int, int)>|
        #[trigger] walk_ok(adj, from, steps) && walk_end(adj, from, steps) == x implies walk_cost(adj, steps) >= 0 by {
        lemma_walk_cost_prefix(adj, from, steps, 0);
    }
}

/// When the queue runs dry, every node a walk reaches from `from` was taken; `to` was not, so
/// no walk reaches it.
proof fn lemma_dijkstra_exhausted<W: EdgeCost>(
    adj: Seq<Seq<(usize, W)>>,
    from: int,
    s: Seq<bool>,
    dist: Seq<Option<i64>>,
    to: int,
)
    requires
        adj_wf(adj),
        s.len() == adj.len(),
        dist.len() == adj.len(),
        0 <= from < adj.len(),
        0 <= to < adj.len(),
        dist[from] == Some(0i64),
        settled_ok(adj, from, s, dist),
        queue_ok(Multiset::empty(), s, dist),
        !s[to],
    ensures
        dist[to] is None,
        !walk_exists(adj, from, to),
{
    assert(s[from]) by {
        assert(!Multiset::<(i64, usize)>::empty().contains((0i64, from as usize)));
    }
    assert forall|steps: Seq<(int, int)>| #[trigger] walk_ok(adj, from, steps) implies walk_end(adj, from, steps) != to by {
        if walk_end(adj, from, steps) == to {
            let inside = |v: int| 0 <= v < s.len() && s[v];
            lemma_walk_exit(adj, from, steps, inside);
            let i = choose|i: int|
                0 <= i < steps.len() && inside(#[trigger] walk_node(adj, from, steps, i)) && !inside(
                    walk_node(adj, from, steps, i + 1),
                );
            let u = walk_node(adj, from, steps, i);
            let k = steps[i].1;
            assert(steps[i].0 == u);
            let y = adj[u][k].0 as int;
            assert(adj[u][k].0 < adj.len());
            assert(walk_node(adj, from, steps, i + 1) == y);
            assert(dist[y] is Some);
            assert(!Multiset::<(i64, usize)>::empty().contains((dist[y].unwrap(), y as usize)));
        }
    }
    if dist[to] is Some {
        assert(!Multiset::<(i64, usize)>::empty().contains((dist[to].unwrap(), to as usize)));
    }
}

/// The least cost of a walk from `from` to `to`, or none when no walk leads there.
pub fn dijkstra_between<G: IterAdjacent + Count>(graph: &G, from: NodeId, to: NodeId) -> (r: Option<i64>)
    where
        G::Weight: EdgeCost + Copy,
    requires
        graph.spec_wf(),
        adj_wf(graph.spec_adj()),
        costs_nonneg(graph.spec_adj()),
        from.0 < graph.spec_nodes().len(),
        to.0 < graph.spec_nodes().len(),
        total_edges(graph.spec_adj()) + 1 < PQ_LIMIT,
    ensures
        match r {
            Some(d) => least_cost(graph.spec_adj(), from.0 as int, to.0 as int, d),
            None => !walk_exists(graph.spec_adj(), from.0 as int, to.0 as int),
        },
{
    let distances = dijkstra(graph, from, to);
    distances.distances[to.0]
}

} // verus!
