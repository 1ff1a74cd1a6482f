use crate::algorithms::dijkstra::{lemma_settled_edges_bound, lemma_settled_edges_mark, lemma_settled_none, settled_edges};
use crate::graph::index::NodeId;
use crate::graph::traits::{adj_wf, total_edges, Base, Count, Index, IterAdjacent};
use crate::graph::walk::{lemma_walk_empty, lemma_walk_exit, lemma_walk_push, step_cost, walk_cost, walk_end, walk_exists, walk_node, walk_ok};
use crate::graph::weight::{add_cost, cost_add, EdgeCost};
use crate::pq::{pq_contents, pq_pop, pq_put, pq_with_capacity, PQ_LIMIT};
use vstd::multiset::Multiset;
use vstd::prelude::*;

verus! {

/// The node an edge step `(u, k)` leads to.
pub open spec fn step_target<W>(adj: Seq<Seq<(usize, W)>>, step: (int, int)) -> int {
    adj[step.0][step.1].0 as int
}

/// `tree` lists edges that grow a tree from `start`: each leaves `start` or a node an earlier
/// edge reached, and reaches a node not reached before; the nodes reached, with `start`, are
/// exactly the nodes some walk from `start` reaches.
pub open spec fn grows_tree<W>(adj: Seq<Seq<(usize, W)>>, start: int, tree: Seq<(int, int)>) -> bool {
    &&& forall|i: int|
        0 <= i < tree.len() ==> 0 <= (#[trigger] tree[i]).0 < adj.len() && 0 <= tree[i].1 < adj[tree[i].0].len()
    &&& forall|i: int|
        0 <= i < tree.len() ==> (#[trigger] tree[i]).0 == start || exists|j: int|
            0 <= j < i && step_target(adj, #[trigger] tree[j]) == tree[i].0
    &&& forall|i: int| 0 <= i < tree.len() ==> step_target(adj, #[trigger] tree[i]) != start
    &&& forall|i: int, j: int| 0 <= i < j < tree.len() ==> step_target(adj, tree[i]) != step_target(adj, tree[j])
    &&& forall|v: int|
        0 <= v < adj.len() ==> (walk_exists(adj, start, v) <==> (v == start || exists|i: int|
            0 <= i < tree.len() && #[trigger] step_target(adj, tree[i]) == v))
}

/// `x` is `start` or a node one of the first `i` edges of `tree` reaches.
pub open spec fn in_tree<W>(adj: Seq<Seq<(usize, W)>>, start: int, tree: Seq<(int, int)>, i: int, x: int) -> bool {
    x == start || exists|j: int| 0 <= j < i && #[trigger] step_target(adj, tree[j]) == x
}

/// Every edge of `tree` costs no more than any edge that leaves the part of the tree grown
/// before it: each edge is a cheapest one across the cut.
pub open spec fn cheapest_steps<W: EdgeCost>(adj: Seq<Seq<(usize, W)>>, start: int, tree: Seq<(int, int)>) -> bool {
    forall|i: int, u: int, k: int|
        #![trigger tree[i], adj[u][k]]
        0 <= i < tree.len() && 0 <= u < adj.len() && 0 <= k < adj[u].len() && in_tree(adj, start, tree, i, u) && !in_tree(
            adj,
            start,
            tree,
            i,
            adj[u][k].0 as int,
        ) ==> step_cost(adj, tree[i]) <= adj[u][k].1.spec_cost()
}

/// `c` is the cost of a tree grown from `start` over every node a walk from it reaches, each
/// edge a cheapest one leaving the part grown before it.
pub open spec fn spanning_cost<W: EdgeCost>(adj: Seq<Seq<(usize, W)>>, start: int, c: i64) -> bool {
    exists|tree: Seq<(int, int)>| #[trigger] grows_tree(adj, start, tree) && cheapest_steps(adj, start, tree) && walk_cost(adj, tree) == c
}

pub proof fn lemma_walk_exists_step<W: EdgeCost>(adj: Seq<Seq<(usize, W)>>, from: int, u: int, k: int)
    requires
        walk_exists(adj, from, u),
        0 <= u < adj.len(),
        0 <= k < adj[u].len(),
    ensures
        walk_exists(adj, from, adj[u][k].0 as int),
{
    let steps = choose|steps: Seq<(int, int)>| #[trigger] walk_ok(adj, from, steps) && walk_end(adj, from, steps) == u;
    lemma_walk_push(adj, from, steps, k);
    assert(walk_ok(adj, from, steps.push((u, k))));
}

/// The number of nodes not visited yet.
pub open spec fn unvisited(s: Seq<bool>) -> nat
    decreases s.len(),
{
    if s.len() == 0 {
        0
    } else {
        unvisited(s.drop_last()) + if s.last() {
            0nat
        } else {
            1nat
        }
    }
}

proof fn lemma_unvisited_mark(s: Seq<bool>, i: int)
    requires
        0 <= i < s.len(),
        !s[i],
    ensures
        unvisited(s.update(i, true)) + 1 == unvisited(s),
    decreases s.len(),
{
    if i == s.len() - 1 {
        assert(s.update(i, true).drop_last() =~= s.drop_last());
    } else {
        lemma_unvisited_mark(s.drop_last(), i);
        assert(s.update(i, true).drop_last() =~= s.drop_last().update(i, true));
    }
}

/// The state of Prim's algorithm between two steps.
#[verifier::opaque]
pub open spec fn prim_state<W: EdgeCost>(
    adj: Seq<Seq<(usize, W)>>,
    start: int,
    visited: Seq<bool>,
    costs: Seq<Option<i64>>,
    pq: Multiset<(i64, usize)>,
    tree: Seq<(int, int)>,
    total: i64,
    pushed: int,
) -> bool {
    let n = adj.len();
    &&& adj_wf(adj)
    &&& n <= usize::MAX
    &&& 0 <= start < n
    &&& total_edges(adj) + 1 < PQ_LIMIT
    &&& visited.len() == n
    &&& costs.len() == n
    &&& !visited[start] ==> tree.len() == 0 && total == 0 && pq =~= Multiset::empty().insert((0i64, start as usize))
        && forall|v: int| 0 <= v < n ==> !#[trigger] visited[v]
    &&& forall|i: int|
        0 <= i < tree.len() ==> 0 <= (#[trigger] tree[i]).0 < n && 0 <= tree[i].1 < adj[tree[i].0].len()
    &&& forall|i: int|
        0 <= i < tree.len() ==> (#[trigger] tree[i]).0 == start || exists|j: int|
            0 <= j < i && step_target(adj, #[trigger] tree[j]) == tree[i].0
    &&& forall|i: int| 0 <= i < tree.len() ==> step_target(adj, #[trigger] tree[i]) != start
    &&& forall|i: int, j: int| 0 <= i < j < tree.len() ==> step_target(adj, tree[i]) != step_target(adj, tree[j])
    &&& forall|v: int|
        0 <= v < n ==> (#[trigger] visited[v] <==> ((v == start && visited[start]) || exists|i: int|
            0 <= i < tree.len() && #[trigger] step_target(adj, tree[i]) == v))
    &&& forall|v: int| 0 <= v < n && #[trigger] visited[v] ==> walk_exists(adj, start, v)
    &&& total == walk_cost(adj, tree)
    &&& visited[start] ==> forall|e: (i64, usize)|
        #[trigger] pq.contains(e) ==> e.1 < n && exists|u: int, k: int|
            0 <= u < n && visited[u] && 0 <= k < adj[u].len() && #[trigger] adj[u][k] == (e.1, adj[u][k].1)
                && adj[u][k].1.spec_cost() == e.0
    &&& forall|u: int, k: int|
        0 <= u < n && visited[u] && 0 <= k < adj[u].len() ==> visited[#[trigger] adj[u][k].0 as int] || (costs[adj[u][k].0 as int] is Some
            && costs[adj[u][k].0 as int].unwrap() <= adj[u][k].1.spec_cost())
    &&& forall|w: int|
        0 <= w < n && !visited[w] && (#[trigger] costs[w]) is Some ==> pq.contains((costs[w].unwrap(), w as usize))
    &&& pq.len() <= pushed <= 1 + settled_edges(adj, visited)
}

/// Prim's algorithm from `start`: grows a tree by always taking the cheapest edge that leaves
/// it, and returns the sum of the costs of the edges taken.
pub fn _prim<G: IterAdjacent + Count>(graph: &G, start: NodeId) -> (r: i64)
    where
        G::Weight: EdgeCost + Copy,
    requires
        graph.spec_wf(),
        adj_wf(graph.spec_adj()),
        start.0 < graph.spec_nodes().len() < PQ_LIMIT,
        total_edges(graph.spec_adj()) + 1 < PQ_LIMIT,
    ensures
        spanning_cost(graph.spec_adj(), start.0 as int, r),
{
    proof {
        graph.lemma_wf();
    }
    let ghost adj = graph.spec_adj();
    let ghost s = start.0 as int;
    let n = graph.node_count();
    let mut visited: Vec<bool> = Vec::new();
    let mut costs: Vec<Option<i64>> = Vec::new();
    let mut i: usize = 0;
    while i < n
        invariant
            i <= n,
            visited@ == Seq::new(i as nat, |j: int| false),
            costs@ == Seq::new(i as nat, |j: int| None::<i64>),
        decreases n - i,
    {
        visited.push(false);
        costs.push(None);
        i = i + 1;
        proof {
            assert(visited@ =~= Seq::new(i as nat, |j: int| false));
            assert(costs@ =~= Seq::new(i as nat, |j: int| None::<i64>));
        }
    }
    let mut pq = pq_with_capacity(n);
    let mut total: i64 = 0;
    pq_put(&mut pq, 0, start.0);
    let ghost mut tree: Seq<(int, int)> = Seq::empty();
    let ghost mut pushed: int = 1;
    proof {
        reveal(prim_state);
        lemma_settled_none(adj, visited@);
        assert(pq_contents(pq) =~= Multiset::empty().insert((0i64, start.0)));
    }
    loop
        invariant
            graph.spec_wf(),
            adj == graph.spec_adj(),
            adj.len() == n,
            graph.spec_nodes().len() == n,
            s == start.0,
            prim_state(adj, s, visited@, costs@, pq_contents(pq), tree, total, pushed),
            cheapest_steps(adj, s, tree),
        decreases unvisited(visited@), pq_contents(pq).len(),
    {
        let ghost p0 = pq_contents(pq);
        let ghost v0 = visited@;
        let top = pq_pop(&mut pq);
        match top {
            None => {
                proof {
                    lemma_prim_done(adj, s, visited@, costs@, p0, tree, total, pushed);
                }
                return total;
            },
            Some((c, v)) => {
                proof {
                    reveal(prim_state);
                    assert(p0.contains((c, v)));
                    assert(pq_contents(pq).len() == p0.len() - 1);
                    if !v0[s] {
                        assert(p0.contains((c, v)));
                        assert((c, v) == (0i64, start.0));
                    }
                }
                if visited[v] {
                    proof {
                        lemma_prim_stale(adj, s, visited@, costs@, p0, tree, total, pushed, c, v as int);
                    }
                    continue;
                }
                let ghost t0 = tree;
                let ghost total0 = total;
                proof {
                    tree = lemma_prim_take(adj, s, visited@, costs@, p0, tree, total, pushed, c, v as int);
                    lemma_prim_cut(adj, s, visited@, costs@, p0, t0, total, pushed, tree, c, v as int);
                    lemma_unvisited_mark(visited@, v as int);
                }
                visited.set(v, true);
                total = cost_add(total, c);
                let out = graph.iter_adjacent_edges(NodeId(v));
                let ghost vis1 = visited@;
                let ghost budget0 = pushed;
                proof {
                    lemma_prim_taken(adj, s, v0, visited@, costs@, p0, pq_contents(pq), t0, tree, total0, total, pushed, c, v as int);
                }
                let mut k: usize = 0;
                while k < out.len()
                    invariant
                        graph.spec_wf(),
                        adj == graph.spec_adj(),
                        adj.len() == n,
                        s == start.0,
                        v < n,
                        visited@ == vis1,
                        out@.len() == adj[v as int].len(),
                        forall|j: int|
                            0 <= j < out@.len() ==> (#[trigger] out@[j]).edge_id.to.0 == adj[v as int][j].0
                                && out@[j].weight == adj[v as int][j].1,
                        k <= out@.len(),
                        prim_scan(adj, s, v as int, k as int, visited@, costs@, pq_contents(pq), tree, total, pushed, budget0),
                        cheapest_steps(adj, s, tree),
                    decreases out@.len() - k,
                {
                    let e = out[k];
                    let w = e.edge_id.to.0;
                    let cost = e.weight.cost();
                    proof {
                        lemma_prim_scan_facts(adj, s, v as int, k as int, visited@, costs@, pq_contents(pq), tree, total, pushed, budget0);
                    }
                    if !visited[w] {
                        let better = match costs[w] {
                            Some(cw) => cw > cost,
                            None => true,
                        };
                        if better {
                            let ghost c0 = costs@;
                            let ghost q0 = pq_contents(pq);
                            proof {
                                lemma_prim_scan_room(adj, s, v as int, k as int, visited@, costs@, pq_contents(pq), tree, total, pushed, budget0);
                            }
                            costs.set(w, Some(cost));
                            pq_put(&mut pq, cost, w);
                            proof {
                                lemma_prim_scan_push(adj, s, v as int, k as int, visited@, c0, q0, tree, total, pushed, budget0);
                                pushed = pushed + 1;
                            }
                        } else {
                            proof {
                                lemma_prim_scan_skip(adj, s, v as int, k as int, visited@, costs@, pq_contents(pq), tree, total, pushed, budget0);
                            }
                        }
                    } else {
                        proof {
                            lemma_prim_scan_skip(adj, s, v as int, k as int, visited@, costs@, pq_contents(pq), tree, total, pushed, budget0);
                        }
                    }
                    k = k + 1;
                }
                proof {
                    lemma_prim_scan_end(adj, s, v as int, k as int, visited@, costs@, pq_contents(pq), tree, total, pushed, budget0);
                }
            },
        }
    }
}

/// The state while the edges of the node `v` just taken are scanned, the first `k` done.
#[verifier::opaque]
pub open spec fn prim_scan<W: EdgeCost>(
    adj: Seq<Seq<(usize, W)>>,
    start: int,
    v: int,
    k: int,
    visited: Seq<bool>,
    costs: Seq<Option<i64>>,
    pq: Multiset<(i64, usize)>,
    tree: Seq<(int, int)>,
    total: i64,
    pushed: int,
    budget0: int,
) -> bool {
    let n = adj.len();
    &&& adj_wf(adj)
    &&& n <= usize::MAX
    &&& 0 <= start < n
    &&& 0 <= v < n
    &&& 0 <= k <= adj[v].len()
    &&& visited[v]
    &&& visited[start]
    &&& total_edges(adj) + 1 < PQ_LIMIT
    &&& visited.len() == n
    &&& costs.len() == n
    &&& forall|i: int|
        0 <= i < tree.len() ==> 0 <= (#[trigger] tree[i]).0 < n && 0 <= tree[i].1 < adj[tree[i].0].len()
    &&& forall|i: int|
        0 <= i < tree.len() ==> (#[trigger] tree[i]).0 == start || exists|j: int|
            0 <= j < i && step_target(adj, #[trigger] tree[j]) == tree[i].0
    &&& forall|i: int| 0 <= i < tree.len() ==> step_target(adj, #[trigger] tree[i]) != start
    &&& forall|i: int, j: int| 0 <= i < j < tree.len() ==> step_target(adj, tree[i]) != step_target(adj, tree[j])
    &&& forall|u: int|
        0 <= u < n ==> (#[trigger] visited[u] <==> ((u == start && visited[start]) || exists|i: int|
            0 <= i < tree.len() && #[trigger] step_target(adj, tree[i]) == u))
    &&& forall|u: int| 0 <= u < n && #[trigger] visited[u] ==> walk_exists(adj, start, u)
    &&& total == walk_cost(adj, tree)
    &&& forall|e: (i64, usize)|
        #[trigger] pq.contains(e) ==> e.1 < n && exists|u: int, j: int|
            0 <= u < n && visited[u] && 0 <= j < adj[u].len() && #[trigger] adj[u][j] == (e.1, adj[u][j].1)
                && adj[u][j].1.spec_cost() == e.0
    &&& forall|u: int, j: int|
        0 <= u < n && visited[u] && 0 <= j < adj[u].len() && (u != v || j < k) ==> visited[#[trigger] adj[u][j].0 as int] || (
        costs[adj[u][j].0 as int] is Some && costs[adj[u][j].0 as int].unwrap() <= adj[u][j].1.spec_cost())
    &&& forall|w: int|
        0 <= w < n && !visited[w] && (#[trigger] costs[w]) is Some ==> pq.contains((costs[w].unwrap(), w as usize))
    &&& pq.len() <= pushed <= budget0 + k
    &&& budget0 <= 1 + settled_edges(adj, visited) - adj[v].len()
}

proof fn lemma_prim_done<W: EdgeCost>(
    adj: Seq<Seq<(usize, W)>>,
    s: int,
    visited: Seq<bool>,
    costs: Seq<Option<i64>>,
    pq: Multiset<(i64, usize)>,
    tree: Seq<(int, int)>,
    total: i64,
    pushed: int,
)
    requires
        prim_state(adj, s, visited, costs, pq, tree, total, pushed),
        cheapest_steps(adj, s, tree),
        pq.len() == 0,
    ensures
        spanning_cost(adj, s, total),
{
    reveal(prim_state);
    assert(pq =~= Multiset::empty());
    if !visited[s] {
        assert(pq.contains((0i64, s as usize)));
    }
    assert forall|v: int| 0 <= v < adj.len() implies (walk_exists(adj, s, v) <==> (v == s || exists|i: int|
        0 <= i < tree.len() && #[trigger] step_target(adj, tree[i]) == v)) by {
        if walk_exists(adj, s, v) {
            let steps = choose|steps: Seq<(int, int)>| #[trigger] walk_ok(adj, s, steps) && walk_end(adj, s, steps) == v;
            if !visited[v] {
                let inside = |x: int| 0 <= x < visited.len() && visited[x];
                lemma_walk_exit(adj, s, steps, inside);
                let i = choose|i: int|
                    0 <= i < steps.len() && inside(#[trigger] walk_node(adj, s, steps, i)) && !inside(
                        walk_node(adj, s, steps, i + 1),
                    );
                let u = walk_node(adj, s, steps, i);
                let k = steps[i].1;
                assert(steps[i].0 == u);
                let y = adj[u][k].0 as int;
                assert(adj[u][k].0 < adj.len());
                assert(walk_node(adj, s, steps, i + 1) == y);
                assert(visited[y] || costs[y] is Some);
                assert(!pq.contains((costs[y].unwrap(), y as usize)));
            }
        } else {
            if v == s {
                lemma_walk_empty(adj, s);
            }
            if exists|i: int| 0 <= i < tree.len() && #[trigger] step_target(adj, tree[i]) == v {
                assert(visited[v]);
            }
        }
    }
    assert(grows_tree(adj, s, tree));
}

proof fn lemma_prim_stale<W: EdgeCost>(
    adj: Seq<Seq<(usize, W)>>,
    s: int,
    visited: Seq<bool>,
    costs: Seq<Option<i64>>,
    pq: Multiset<(i64, usize)>,
    tree: Seq<(int, int)>,
    total: i64,
    pushed: int,
    c: i64,
    v: int,
)
    requires
        prim_state(adj, s, visited, costs, pq, tree, total, pushed),
        pq.contains((c, v as usize)),
        0 <= v < visited.len(),
        visited[v],
    ensures
        prim_state(adj, s, visited, costs, pq.remove((c, v as usize)), tree, total, pushed),
{
    reveal(prim_state);
    let p2 = pq.remove((c, v as usize));
    if !visited[s] {
        assert((c, v as usize) == (0i64, s as usize));
        assert(false);
    }
    assert forall|e: (i64, usize)| #[trigger] p2.contains(e) implies e.1 < adj.len() && exists|u: int, k: int|
        0 <= u < adj.len() && visited[u] && 0 <= k < adj[u].len() && #[trigger] adj[u][k] == (e.1, adj[u][k].1)
            && adj[u][k].1.spec_cost() == e.0 by {
        assert(pq.contains(e));
    }
    assert forall|w: int| 0 <= w < adj.len() && !visited[w] && (#[trigger] costs[w]) is Some implies p2.contains(
        (costs[w].unwrap(), w as usize),
    ) by {
        assert(pq.contains((costs[w].unwrap(), w as usize)));
        assert(w != v);
    }
}

/// Taking the unvisited node `v` out of the queue: the edge it was reached by joins the tree.
proof fn lemma_prim_take<W: EdgeCost>(
    adj: Seq<Seq<(usize, W)>>,
    s: int,
    visited: Seq<bool>,
    costs: Seq<Option<i64>>,
    pq: Multiset<(i64, usize)>,
    tree: Seq<(int, int)>,
    total: i64,
    pushed: int,
    c: i64,
    v: int,
) -> (tree2: Seq<(int, int)>)
    requires
        prim_state(adj, s, visited, costs, pq, tree, total, pushed),
        pq.contains((c, v as usize)),
        0 <= v < visited.len(),
        !visited[v],
    ensures
        visited[s] ==> exists|u: int, k: int|
            0 <= u < adj.len() && visited[u] && 0 <= k < adj[u].len() && adj[u][k].0 == v && adj[u][k].1.spec_cost()
                == c && tree2 == tree.push((u, k)),
        !visited[s] ==> v == s && c == 0 && tree2 == tree,
{
    reveal(prim_state);
    if visited[s] {
        let (u, k) = choose|u: int, k: int|
            0 <= u < adj.len() && visited[u] && 0 <= k < adj[u].len() && #[trigger] adj[u][k] == (v as usize, adj[u][k].1)
                && adj[u][k].1.spec_cost() == c;
        tree.push((u, k))
    } else {
        assert((c, v as usize) == (0i64, s as usize));
        tree
    }
}

/// After the node `v` is marked visited and its cost added.
#[verifier::rlimit(100)]
#[verifier::spinoff_prover]
proof fn lemma_prim_taken<W: EdgeCost>(
    adj: Seq<Seq<(usize, W)>>,
    s: int,
    v0: Seq<bool>,
    visited: Seq<bool>,
    costs: Seq<Option<i64>>,
    p0: Multiset<(i64, usize)>,
    pq: Multiset<(i64, usize)>,
    t0: Seq<(int, int)>,
    tree: Seq<(int, int)>,
    total0: i64,
    total: i64,
    pushed: int,
    c: i64,
    v: int,
)
    requires
        prim_state(adj, s, v0, costs, p0, t0, total0, pushed),
        p0.contains((c, v as usize)),
        pq == p0.remove((c, v as usize)),
        0 <= v < v0.len(),
        !v0[v],
        visited == v0.update(v, true),
        v0[s] ==> exists|u: int, k: int|
            0 <= u < adj.len() && v0[u] && 0 <= k < adj[u].len() && adj[u][k].0 == v && adj[u][k].1.spec_cost() == c
                && tree == t0.push((u, k)),
        !v0[s] ==> v == s && c == 0 && tree == t0,
        total == add_cost(total0, c),
    ensures
        prim_scan(adj, s, v, 0, visited, costs, pq, tree, total, pushed, pushed),
{
    reveal(prim_state);
    reveal(prim_scan);
    let n = adj.len();
    lemma_settled_edges_mark(adj, v0, v);
    if v0[s] {
        let (u, k) = choose|u: int, k: int|
            0 <= u < adj.len() && v0[u] && 0 <= k < adj[u].len() && adj[u][k].0 == v && adj[u][k].1.spec_cost() == c
                && tree == t0.push((u, k));
        assert(tree.drop_last() =~= t0);
        assert(tree.last() == (u, k));
        assert(walk_cost(adj, tree) == add_cost(walk_cost(adj, t0), c));
        assert(step_target(adj, tree[t0.len() as int]) == v);
        lemma_walk_exists_step(adj, s, u, k);
        assert forall|i: int|
            0 <= i < tree.len() implies (#[trigger] tree[i]).0 == s || exists|j: int|
            0 <= j < i && step_target(adj, #[trigger] tree[j]) == tree[i].0 by {
            if i < t0.len() {
                assert(tree[i] == t0[i]);
                if t0[i].0 != s {
                    let j = choose|j: int| 0 <= j < i && step_target(adj, #[trigger] t0[j]) == t0[i].0;
                    assert(tree[j] == t0[j]);
                }
            } else {
                if u != s {
                    assert(v0[u]);
                    let j = choose|j: int| 0 <= j < t0.len() && #[trigger] step_target(adj, t0[j]) == u;
                    assert(tree[j] == t0[j]);
                }
            }
        }
        assert forall|i: int, j: int| 0 <= i < j < tree.len() implies step_target(adj, tree[i]) != step_target(
            adj,
            tree[j],
        ) by {
            assert(tree[i] == t0[i]);
            if j == t0.len() {
                assert(v0[step_target(adj, t0[i])]);
            } else {
                assert(tree[j] == t0[j]);
            }
        }
        assert forall|x: int|
            0 <= x < n implies (#[trigger] visited[x] <==> ((x == s && visited[s]) || exists|i: int|
            0 <= i < tree.len() && #[trigger] step_target(adj, tree[i]) == x)) by {
            if exists|i: int| 0 <= i < t0.len() && #[trigger] step_target(adj, t0[i]) == x {
                let i = choose|i: int| 0 <= i < t0.len() && #[trigger] step_target(adj, t0[i]) == x;
                assert(tree[i] == t0[i]);
            }
            if exists|i: int| 0 <= i < tree.len() && #[trigger] step_target(adj, tree[i]) == x {
                let i = choose|i: int| 0 <= i < tree.len() && #[trigger] step_target(adj, tree[i]) == x;
                if i < t0.len() {
                    assert(tree[i] == t0[i]);
                }
            }
        }
        assert forall|i: int| 0 <= i < tree.len() implies step_target(adj, #[trigger] tree[i]) != s by {
            if i < t0.len() {
                assert(tree[i] == t0[i]);
            }
        }
        assert forall|i: int| 0 <= i < tree.len() implies 0 <= (#[trigger] tree[i]).0 < n && 0 <= tree[i].1 < adj[tree[i].0].len() by {
            if i < t0.len() {
                assert(tree[i] == t0[i]);
            }
        }
    } else {
        lemma_walk_empty(adj, s);
        assert forall|x: int|
            0 <= x < n implies (#[trigger] visited[x] <==> ((x == s && visited[s]) || exists|i: int|
            0 <= i < tree.len() && #[trigger] step_target(adj, tree[i]) == x)) by {
        }
    }
    assert forall|x: int| 0 <= x < n && #[trigger] visited[x] implies walk_exists(adj, s, x) by {
        if x != v {
            assert(v0[x]);
        }
    }
    assert forall|e: (i64, usize)| #[trigger] pq.contains(e) implies e.1 < n && exists|u: int, j: int|
        0 <= u < n && visited[u] && 0 <= j < adj[u].len() && #[trigger] adj[u][j] == (e.1, adj[u][j].1)
            && adj[u][j].1.spec_cost() == e.0 by {
        assert(p0.contains(e));
        if v0[s] {
            let (u, j) = choose|u: int, j: int|
                0 <= u < n && v0[u] && 0 <= j < adj[u].len() && #[trigger] adj[u][j] == (e.1, adj[u][j].1)
                    && adj[u][j].1.spec_cost() == e.0;
            assert(visited[u]);
        } else {
            assert(e == (0i64, s as usize));
            assert(e == (c, v as usize));
            assert(pq.len() == 0);
        }
    }
    assert forall|u: int, j: int|
        0 <= u < n && visited[u] && 0 <= j < adj[u].len() && (u != v || j < 0) implies visited[#[trigger] adj[u][j].0 as int] || (
        costs[adj[u][j].0 as int] is Some && costs[adj[u][j].0 as int].unwrap() <= adj[u][j].1.spec_cost()) by {
        assert(v0[u]);
        if !v0[s] {
            assert(false);
        }
    }
    assert forall|w: int| 0 <= w < n && !visited[w] && (#[trigger] costs[w]) is Some implies pq.contains((costs[w].unwrap(), w as usize)) by {
        assert(p0.contains((costs[w].unwrap(), w as usize)));
        assert(w != v);
    }
}

/// The edge taken for `v`, of the least cost in the queue, is a cheapest edge leaving the tree.
proof fn lemma_prim_cut<W: EdgeCost>(
    adj: Seq<Seq<(usize, W)>>,
    s: int,
    v0: Seq<bool>,
    costs: Seq<Option<i64>>,
    p0: Multiset<(i64, usize)>,
    t0: Seq<(int, int)>,
    total0: i64,
    pushed: int,
    tree: Seq<(int, int)>,
    c: i64,
    v: int,
)
    requires
        prim_state(adj, s, v0, costs, p0, t0, total0, pushed),
        cheapest_steps(adj, s, t0),
        forall|e: (i64, usize)| #[trigger] p0.contains(e) ==> c <= e.0,
        v0[s] ==> exists|u: int, k: int|
            0 <= u < adj.len() && v0[u] && 0 <= k < adj[u].len() && adj[u][k].0 == v && adj[u][k].1.spec_cost() == c
                && tree == t0.push((u, k)),
        !v0[s] ==> tree == t0,
    ensures
        cheapest_steps(adj, s, tree),
{
    reveal(prim_state);
    if v0[s] {
        let (u0, k0) = choose|u: int, k: int|
            0 <= u < adj.len() && v0[u] && 0 <= k < adj[u].len() && adj[u][k].0 == v && adj[u][k].1.spec_cost() == c
                && tree == t0.push((u, k));
        assert forall|i: int, u: int, k: int|
            #![trigger tree[i], adj[u][k]]
            0 <= i < tree.len() && 0 <= u < adj.len() && 0 <= k < adj[u].len() && in_tree(adj, s, tree, i, u) && !in_tree(
                adj,
                s,
                tree,
                i,
                adj[u][k].0 as int,
            ) implies step_cost(adj, tree[i]) <= adj[u][k].1.spec_cost() by {
            let w = adj[u][k].0 as int;
            assert forall|x: int| #[trigger] in_tree(adj, s, tree, i, x) == in_tree(adj, s, t0, i, x) by {
                if exists|j: int| 0 <= j < i && #[trigger] step_target(adj, tree[j]) == x {
                    let j = choose|j: int| 0 <= j < i && #[trigger] step_target(adj, tree[j]) == x;
                    assert(tree[j] == t0[j]);
                }
                if exists|j: int| 0 <= j < i && #[trigger] step_target(adj, t0[j]) == x {
                    let j = choose|j: int| 0 <= j < i && #[trigger] step_target(adj, t0[j]) == x;
                    assert(tree[j] == t0[j]);
                }
            }
            if i < t0.len() {
                assert(tree[i] == t0[i]);
                assert(in_tree(adj, s, t0, i, u));
                assert(!in_tree(adj, s, t0, i, w));
            } else {
                assert(tree[i] == (u0, k0));
                assert(in_tree(adj, s, t0, t0.len() as int, u));
                assert(v0[u]) by {
                    if u != s {
                        let j = choose|j: int| 0 <= j < t0.len() && #[trigger] step_target(adj, t0[j]) == u;
                    }
                }
                assert(w < adj.len());
                assert(!v0[w]) by {
                    if v0[w] {
                        if w != s {
                            let j = choose|j: int| 0 <= j < t0.len() && #[trigger] step_target(adj, t0[j]) == w;
                            assert(in_tree(adj, s, t0, t0.len() as int, w));
                        }
                    }
                }
                assert(costs[w] is Some && costs[w].unwrap() <= adj[u][k].1.spec_cost());
                assert(p0.contains((costs[w].unwrap(), w as usize)));
            }
        }
    }
}

proof fn lemma_prim_scan_facts<W: EdgeCost>(
    adj: Seq<Seq<(usize, W)>>,
    s: int,
    v: int,
    k: int,
    visited: Seq<bool>,
    costs: Seq<Option<i64>>,
    pq: Multiset<(i64, usize)>,
    tree: Seq<(int, int)>,
    total: i64,
    pushed: int,
    budget0: int,
)
    requires
        prim_scan(adj, s, v, k, visited, costs, pq, tree, total, pushed, budget0),
        0 <= k < adj[v].len(),
    ensures
        adj[v][k].0 < visited.len(),
        visited.len() == costs.len(),
{
    reveal(prim_scan);
}

proof fn lemma_prim_scan_room<W: EdgeCost>(
    adj: Seq<Seq<(usize, W)>>,
    s: int,
    v: int,
    k: int,
    visited: Seq<bool>,
    costs: Seq<Option<i64>>,
    pq: Multiset<(i64, usize)>,
    tree: Seq<(int, int)>,
    total: i64,
    pushed: int,
    budget0: int,
)
    requires
        prim_scan(adj, s, v, k, visited, costs, pq, tree, total, pushed, budget0),
        0 <= k < adj[v].len(),
    ensures
        pq.len() < PQ_LIMIT,
{
    reveal(prim_scan);
    lemma_settled_edges_bound(adj, visited);
}

proof fn lemma_prim_scan_push<W: EdgeCost>(
    adj: Seq<Seq<(usize, W)>>,
    s: int,
    v: int,
    k: int,
    visited: Seq<bool>,
    costs: Seq<Option<i64>>,
    pq: Multiset<(i64, usize)>,
    tree: Seq<(int, int)>,
    total: i64,
    pushed: int,
    budget0: int,
)
    requires
        prim_scan(adj, s, v, k, visited, costs, pq, tree, total, pushed, budget0),
        0 <= k < adj[v].len(),
        !visited[adj[v][k].0 as int],
        costs[adj[v][k].0 as int] is None || costs[adj[v][k].0 as int].unwrap() > adj[v][k].1.spec_cost(),
    ensures
        prim_scan(
            adj,
            s,
            v,
            k + 1,
            visited,
            costs.update(adj[v][k].0 as int, Some(adj[v][k].1.spec_cost())),
            pq.insert((adj[v][k].1.spec_cost(), adj[v][k].0)),
            tree,
            total,
            pushed + 1,
            budget0,
        ),
{
    reveal(prim_scan);
    let n = adj.len();
    let w = adj[v][k].0 as int;
    let c = adj[v][k].1.spec_cost();
    let costs1 = costs.update(w, Some(c));
    let pq1 = pq.insert((c, w as usize));
    assert forall|e: (i64, usize)| #[trigger] pq1.contains(e) implies e.1 < n && exists|u: int, j: int|
        0 <= u < n && visited[u] && 0 <= j < adj[u].len() && #[trigger] adj[u][j] == (e.1, adj[u][j].1)
            && adj[u][j].1.spec_cost() == e.0 by {
        if e == (c, w as usize) {
            assert(adj[v][k] == (e.1, adj[v][k].1));
        } else {
            assert(pq.contains(e));
        }
    }
    assert forall|u: int, j: int|
        0 <= u < n && visited[u] && 0 <= j < adj[u].len() && (u != v || j < k + 1) implies visited[#[trigger] adj[u][j].0 as int] || (
        costs1[adj[u][j].0 as int] is Some && costs1[adj[u][j].0 as int].unwrap() <= adj[u][j].1.spec_cost()) by {
        if u == v && j == k {
        } else if !visited[adj[u][j].0 as int] {
            assert(costs[adj[u][j].0 as int] is Some);
        }
    }
    assert forall|x: int| 0 <= x < n && !visited[x] && (#[trigger] costs1[x]) is Some implies pq1.contains(
        (costs1[x].unwrap(), x as usize),
    ) by {
        if x != w {
            assert(costs[x] == costs1[x]);
            assert(pq.contains((costs1[x].unwrap(), x as usize)));
        }
    }
}

proof fn lemma_prim_scan_skip<W: EdgeCost>(
    adj: Seq<Seq<(usize, W)>>,
    s: int,
    v: int,
    k: int,
    visited: Seq<bool>,
    costs: Seq<Option<i64>>,
    pq: Multiset<(i64, usize)>,
    tree: Seq<(int, int)>,
    total: i64,
    pushed: int,
    budget0: int,
)
    requires
        prim_scan(adj, s, v, k, visited, costs, pq, tree, total, pushed, budget0),
        0 <= k < adj[v].len(),
        visited[adj[v][k].0 as int] || (costs[adj[v][k].0 as int] is Some && costs[adj[v][k].0 as int].unwrap()
            <= adj[v][k].1.spec_cost()),
    ensures
        prim_scan(adj, s, v, k + 1, visited, costs, pq, tree, total, pushed, budget0),
{
    reveal(prim_scan);
}

proof fn lemma_prim_scan_end<W: EdgeCost>(
    adj: Seq<Seq<(usize, W)>>,
    s: int,
    v: int,
    k: int,
    visited: Seq<bool>,
    costs: Seq<Option<i64>>,
    pq: Multiset<(i64, usize)>,
    tree: Seq<(int, int)>,
    total: i64,
    pushed: int,
    budget0: int,
)
    requires
        prim_scan(adj, s, v, k, visited, costs, pq, tree, total, pushed, budget0),
        k == adj[v].len(),
    ensures
        prim_state(adj, s, visited, costs, pq, tree, total, pushed),
{
    reveal(prim_scan);
    reveal(prim_state);
}

/// Prim's algorithm from the first node; zero for a graph without nodes.
pub fn prim<G: Index + IterAdjacent + Count>(graph: &G) -> (r: i64)
    where
        G::Weight: EdgeCost + Copy,
    requires
        graph.spec_wf(),
        adj_wf(graph.spec_adj()),
        graph.spec_nodes().len() < PQ_LIMIT,
        total_edges(graph.spec_adj()) + 1 < PQ_LIMIT,
    ensures
        graph.spec_nodes().len() == 0 ==> r == 0,
        graph.spec_nodes().len() > 0 ==> spanning_cost(graph.spec_adj(), 0, r),
{
    let ids = graph.node_ids();
    if ids.len() == 0 {
        0
    } else {
        _prim(graph, ids[0])
    }
}

} // verus!
