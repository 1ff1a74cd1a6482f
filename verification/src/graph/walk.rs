use crate::graph::weight::{add_cost, EdgeCapacity, EdgeCost, EdgeFlow};
use vstd::prelude::*;

verus! {

/// The node a walk from `from` stands on before step `i` (after the last step for `i` equal
/// to the number of steps). A step `(u, k)` takes the `k`-th stored edge of node `u`.
pub open spec fn walk_node<W>(adj: Seq<Seq<(usize, W)>>, from: int, steps: Seq<(int, int)>, i: int) -> int {
    if i == 0 {
        from
    } else {
        adj[steps[i - 1].0][steps[i - 1].1].0 as int
    }
}

/// Where the walk ends.
pub open spec fn walk_end<W>(adj: Seq<Seq<(usize, W)>>, from: int, steps: Seq<(int, int)>) -> int {
    walk_node(adj, from, steps, steps.len() as int)
}

/// Every step takes a stored edge of the node the walk stands on.
pub open spec fn walk_ok<W>(adj: Seq<Seq<(usize, W)>>, from: int, steps: Seq<(int, int)>) -> bool {
    forall|i: int|
        0 <= i < steps.len() ==> 0 <= #[trigger] steps[i].0 < adj.len() && 0 <= steps[i].1 < adj[steps[i].0].len()
            && steps[i].0 == walk_node(adj, from, steps, i)
}

/// The cost of the edge a step takes.
pub open spec fn step_cost<W: EdgeCost>(adj: Seq<Seq<(usize, W)>>, step: (int, int)) -> i64 {
    adj[step.0][step.1].1.spec_cost()
}

/// The cost of a walk: the costs of its steps added in order.
pub open spec fn walk_cost<W: EdgeCost>(adj: Seq<Seq<(usize, W)>>, steps: Seq<(int, int)>) -> i64
    decreases steps.len(),
{
    if steps.len() == 0 {
        0
    } else {
        add_cost(walk_cost(adj, steps.drop_last()), step_cost(adj, steps.last()))
    }
}

/// No stored edge has a negative cost.
pub open spec fn costs_nonneg<W: EdgeCost>(adj: Seq<Seq<(usize, W)>>) -> bool {
    forall|u: int, k: int| 0 <= u < adj.len() && 0 <= k < adj[u].len() ==> (#[trigger] adj[u][k]).1.spec_cost() >= 0
}

/// There is a walk from `from` to `v` of cost `c`.
pub open spec fn walk_to<W: EdgeCost>(adj: Seq<Seq<(usize, W)>>, from: int, v: int, c: i64) -> bool {
    exists|steps: Seq<(int, int)>|
        #[trigger] walk_ok(adj, from, steps) && walk_end(adj, from, steps) == v && walk_cost(adj, steps) == c
}

/// Every walk from `from` to `v` costs at least `c`.
pub open spec fn walks_at_least<W: EdgeCost>(adj: Seq<Seq<(usize, W)>>, from: int, v: int, c: i64) -> bool {
    forall|steps: Seq<(int, int)>|
        #[trigger] walk_ok(adj, from, steps) && walk_end(adj, from, steps) == v ==> walk_cost(adj, steps) >= c
}

/// `c` is the least cost of a walk from `from` to `v`.
pub open spec fn least_cost<W: EdgeCost>(adj: Seq<Seq<(usize, W)>>, from: int, v: int, c: i64) -> bool {
    walk_to(adj, from, v, c) && walks_at_least(adj, from, v, c)
}

/// Some walk leads from `from` to `v`.
pub open spec fn walk_exists<W>(adj: Seq<Seq<(usize, W)>>, from: int, v: int) -> bool {
    exists|steps: Seq<(int, int)>| #[trigger] walk_ok(adj, from, steps) && walk_end(adj, from, steps) == v
}

pub proof fn lemma_add_cost_monotone(a: i64, b: i64, c: i64)
    requires
        a <= b,
    ensures
        add_cost(a, c) <= add_cost(b, c),
{
}

pub proof fn lemma_walk_empty<W: EdgeCost>(adj: Seq<Seq<(usize, W)>>, from: int)
    ensures
        walk_to(adj, from, from, 0),
        walk_exists(adj, from, from),
{
    let steps = Seq::<(int, int)>::empty();
    assert(walk_ok(adj, from, steps));
    assert(walk_end(adj, from, steps) == from);
}

/// A walk extended by one more edge.
pub proof fn lemma_walk_push<W: EdgeCost>(adj: Seq<Seq<(usize, W)>>, from: int, steps: Seq<(int, int)>, k: int)
    requires
        walk_ok(adj, from, steps),
        0 <= walk_end(adj, from, steps) < adj.len(),
        0 <= k < adj[walk_end(adj, from, steps)].len(),
    ensures
        walk_ok(adj, from, steps.push((walk_end(adj, from, steps), k))),
        walk_end(adj, from, steps.push((walk_end(adj, from, steps), k))) == adj[walk_end(adj, from, steps)][k].0,
        walk_cost(adj, steps.push((walk_end(adj, from, steps), k))) == add_cost(
            walk_cost(adj, steps),
            adj[walk_end(adj, from, steps)][k].1.spec_cost(),
        ),
{
    let u = walk_end(adj, from, steps);
    let s2 = steps.push((u, k));
    assert(s2.drop_last() =~= steps);
    assert forall|i: int| 0 <= i < s2.len() implies 0 <= #[trigger] s2[i].0 < adj.len() && 0 <= s2[i].1
        < adj[s2[i].0].len() && s2[i].0 == walk_node(adj, from, s2, i) by {
        if i < steps.len() {
            assert(s2[i] == steps[i]);
            if i > 0 {
                assert(s2[i - 1] == steps[i - 1]);
            }
        } else if i > 0 {
            assert(s2[i - 1] == steps[i - 1]);
        }
    }
}

/// A walk that reaches `u` at cost `c` extends along any edge of `u`.
pub proof fn lemma_walk_to_step<W: EdgeCost>(adj: Seq<Seq<(usize, W)>>, from: int, u: int, c: i64, k: int)
    requires
        walk_to(adj, from, u, c),
        0 <= u < adj.len(),
        0 <= k < adj[u].len(),
    ensures
        walk_to(adj, from, adj[u][k].0 as int, add_cost(c, adj[u][k].1.spec_cost())),
        walk_exists(adj, from, adj[u][k].0 as int),
{
    let steps = choose|steps: Seq<(int, int)>|
        #[trigger] walk_ok(adj, from, steps) && walk_end(adj, from, steps) == u && walk_cost(adj, steps) == c;
    lemma_walk_push(adj, from, steps, k);
    let s2 = steps.push((u, k));
    assert(walk_ok(adj, from, s2));
}

/// The first steps of a walk form a walk to the node reached after them.
pub proof fn lemma_walk_prefix<W: EdgeCost>(adj: Seq<Seq<(usize, W)>>, from: int, steps: Seq<(int, int)>, i: int)
    requires
        walk_ok(adj, from, steps),
        0 <= i <= steps.len(),
    ensures
        walk_ok(adj, from, steps.take(i)),
        walk_end(adj, from, steps.take(i)) == walk_node(adj, from, steps, i),
{
    let p = steps.take(i);
    assert forall|j: int| 0 <= j < p.len() implies 0 <= #[trigger] p[j].0 < adj.len() && 0 <= p[j].1 < adj[p[j].0].len()
        && p[j].0 == walk_node(adj, from, p, j) by {
        assert(p[j] == steps[j]);
        if j > 0 {
            assert(p[j - 1] == steps[j - 1]);
        }
    }
    if i > 0 {
        assert(p[i - 1] == steps[i - 1]);
    }
}

/// With no negative costs, a walk costs at least as much as its first steps, and nothing
/// below zero.
pub proof fn lemma_walk_cost_prefix<W: EdgeCost>(adj: Seq<Seq<(usize, W)>>, from: int, steps: Seq<(int, int)>, i: int)
    requires
        walk_ok(adj, from, steps),
        costs_nonneg(adj),
        0 <= i <= steps.len(),
    ensures
        0 <= walk_cost(adj, steps.take(i)) <= walk_cost(adj, steps),
    decreases steps.len(),
{
    if steps.len() > 0 {
        let d = steps.drop_last();
        assert(walk_ok(adj, from, d)) by {
            assert forall|j: int| 0 <= j < d.len() implies 0 <= #[trigger] d[j].0 < adj.len() && 0 <= d[j].1
                < adj[d[j].0].len() && d[j].0 == walk_node(adj, from, d, j) by {
                assert(d[j] == steps[j]);
                if j > 0 {
                    assert(d[j - 1] == steps[j - 1]);
                }
            }
        }
        let last = steps.last();
        assert(steps[steps.len() - 1] == last);
        assert(adj[last.0][last.1].1.spec_cost() >= 0);
        if i == steps.len() {
            assert(steps.take(i) =~= steps);
            lemma_walk_cost_prefix(adj, from, d, d.len() as int);
            assert(d.take(d.len() as int) =~= d);
        } else {
            lemma_walk_cost_prefix(adj, from, d, i);
            assert(d.take(i) =~= steps.take(i));
            lemma_walk_cost_prefix(adj, from, d, d.len() as int);
            assert(d.take(d.len() as int) =~= d);
        }
    }
}

/// A walk that starts inside a set of nodes and ends outside it leaves the set along some step.
pub proof fn lemma_walk_exit<W>(adj: Seq<Seq<(usize, W)>>, from: int, steps: Seq<(int, int)>, inside: spec_fn(int) -> bool)
    requires
        inside(walk_node(adj, from, steps, 0)),
        !inside(walk_node(adj, from, steps, steps.len() as int)),
    ensures
        exists|i: int|
            0 <= i < steps.len() && inside(#[trigger] walk_node(adj, from, steps, i)) && !inside(
                walk_node(adj, from, steps, i + 1),
            ),
    decreases steps.len(),
{
    let n = steps.len() as int;
    if inside(walk_node(adj, from, steps, n - 1)) {
        assert(inside(walk_node(adj, from, steps, n - 1)) && !inside(walk_node(adj, from, steps, n - 1 + 1)));
    } else {
        let d = steps.drop_last();
        assert forall|j: int| 0 <= j <= d.len() implies walk_node(adj, from, d, j) == walk_node(adj, from, steps, j) by {
            if j > 0 {
                assert(d[j - 1] == steps[j - 1]);
            }
        }
        lemma_walk_exit(adj, from, d, inside);
        let i = choose|i: int|
            0 <= i < d.len() && inside(#[trigger] walk_node(adj, from, d, i)) && !inside(walk_node(adj, from, d, i + 1));
        assert(walk_node(adj, from, d, i) == walk_node(adj, from, steps, i));
        assert(walk_node(adj, from, d, i + 1) == walk_node(adj, from, steps, i + 1));
    }
}

} // verus!

verus! {

/// The edge still has room: its capacity exceeds its flow.
pub open spec fn residual<W: EdgeCapacity + EdgeFlow>(w: W) -> bool {
    w.spec_capacity() > w.spec_flow()
}

/// A walk along edges that all have room.
pub open spec fn res_walk_ok<W: EdgeCapacity + EdgeFlow>(adj: Seq<Seq<(usize, W)>>, from: int, steps: Seq<(int, int)>) -> bool {
    &&& walk_ok(adj, from, steps)
    &&& forall|i: int| 0 <= i < steps.len() ==> residual(adj[(#[trigger] steps[i]).0][steps[i].1].1)
}

/// There is a walk with room from `from` to `v` of cost `c`.
pub open spec fn res_walk_to<W: EdgeCost + EdgeCapacity + EdgeFlow>(adj: Seq<Seq<(usize, W)>>, from: int, v: int, c: i64) -> bool {
    exists|steps: Seq<(int, int)>|
        #[trigger] res_walk_ok(adj, from, steps) && walk_end(adj, from, steps) == v && walk_cost(adj, steps) == c
}

/// Some walk with room leads from `from` to `v`.
pub open spec fn res_walk_exists<W: EdgeCapacity + EdgeFlow>(adj: Seq<Seq<(usize, W)>>, from: int, v: int) -> bool {
    exists|steps: Seq<(int, int)>| #[trigger] res_walk_ok(adj, from, steps) && walk_end(adj, from, steps) == v
}

/// `c` is the least cost of a walk with room from `from` to `v`.
pub open spec fn res_least_cost<W: EdgeCost + EdgeCapacity + EdgeFlow>(adj: Seq<Seq<(usize, W)>>, from: int, v: int, c: i64) -> bool {
    &&& res_walk_to(adj, from, v, c)
    &&& forall|steps: Seq<(int, int)>|
        #[trigger] res_walk_ok(adj, from, steps) && walk_end(adj, from, steps) == v ==> walk_cost(adj, steps) >= c
}

pub proof fn lemma_res_walk_empty<W: EdgeCost + EdgeCapacity + EdgeFlow>(adj: Seq<Seq<(usize, W)>>, from: int)
    ensures
        res_walk_to(adj, from, from, 0),
{
    let steps = Seq::<(int, int)>::empty();
    assert(res_walk_ok(adj, from, steps));
    assert(walk_end(adj, from, steps) == from);
}

/// A walk with room extended by an edge with room.
pub proof fn lemma_res_walk_step<W: EdgeCost + EdgeCapacity + EdgeFlow>(
    adj: Seq<Seq<(usize, W)>>,
    from: int,
    u: int,
    c: i64,
    k: int,
)
    requires
        res_walk_to(adj, from, u, c),
        0 <= u < adj.len(),
        0 <= k < adj[u].len(),
        residual(adj[u][k].1),
    ensures
        res_walk_to(adj, from, adj[u][k].0 as int, add_cost(c, adj[u][k].1.spec_cost())),
{
    let steps = choose|steps: Seq<(int, int)>|
        #[trigger] res_walk_ok(adj, from, steps) && walk_end(adj, from, steps) == u && walk_cost(adj, steps) == c;
    lemma_walk_push(adj, from, steps, k);
    let s2 = steps.push((u, k));
    assert forall|i: int| 0 <= i < s2.len() implies residual(adj[(#[trigger] s2[i]).0][s2[i].1].1) by {
        if i < steps.len() {
            assert(s2[i] == steps[i]);
        }
    }
    assert(res_walk_ok(adj, from, s2));
}

/// Costs that no edge with room can lower, starting at most zero at `from`, bound every walk
/// with room from below.
pub proof fn lemma_fixpoint_bound<W: EdgeCost + EdgeCapacity + EdgeFlow>(
    adj: Seq<Seq<(usize, W)>>,
    from: int,
    table: Seq<Option<i64>>,
    steps: Seq<(int, int)>,
)
    requires
        table.len() == adj.len(),
        0 <= from < adj.len(),
        table[from] is Some,
        table[from].unwrap() <= 0,
        forall|u: int, k: int|
            0 <= u < adj.len() && 0 <= k < adj[u].len() && table[u] is Some && residual(adj[u][k].1) ==> table[#[trigger] adj[u][k].0 as int] is Some
                && table[adj[u][k].0 as int].unwrap() <= add_cost(table[u].unwrap(), adj[u][k].1.spec_cost()),
        res_walk_ok(adj, from, steps),
    ensures
        table[walk_end(adj, from, steps)] is Some,
        table[walk_end(adj, from, steps)].unwrap() <= walk_cost(adj, steps),
    decreases steps.len(),
{
    if steps.len() > 0 {
        let d = steps.drop_last();
        assert(res_walk_ok(adj, from, d)) by {
            assert forall|j: int| 0 <= j < d.len() implies 0 <= #[trigger] d[j].0 < adj.len() && 0 <= d[j].1
                < adj[d[j].0].len() && d[j].0 == walk_node(adj, from, d, j) by {
                assert(d[j] == steps[j]);
                if j > 0 {
                    assert(d[j - 1] == steps[j - 1]);
                }
            }
            assert forall|j: int| 0 <= j < d.len() implies residual(adj[(#[trigger] d[j]).0][d[j].1].1) by {
                assert(d[j] == steps[j]);
            }
        }
        lemma_fixpoint_bound(adj, from, table, d);
        let last = steps.last();
        assert(steps[steps.len() - 1] == last);
        let u = walk_end(adj, from, d);
        if d.len() > 0 {
            assert(d[d.len() - 1] == steps[d.len() - 1]);
        }
        assert(last.0 == u);
        lemma_add_cost_monotone(table[u].unwrap(), walk_cost(adj, d), adj[u][last.1].1.spec_cost());
    }
}


/// The cost of a walk whose costs are added, one step after another, to `a`.
pub open spec fn cost_from<W: EdgeCost>(adj: Seq<Seq<(usize, W)>>, a: i64, steps: Seq<(int, int)>) -> i64
    decreases steps.len(),
{
    if steps.len() == 0 {
        a
    } else {
        add_cost(cost_from(adj, a, steps.drop_last()), step_cost(adj, steps.last()))
    }
}

/// The sum of the costs of the steps, as an integer.
pub open spec fn exact_cost<W: EdgeCost>(adj: Seq<Seq<(usize, W)>>, steps: Seq<(int, int)>) -> int
    decreases steps.len(),
{
    if steps.len() == 0 {
        0
    } else {
        exact_cost(adj, steps.drop_last()) + step_cost(adj, steps.last())
    }
}

/// Adding the costs of the steps one by one to `a` never leaves the range of `i64`.
pub open spec fn stays_in_range<W: EdgeCost>(adj: Seq<Seq<(usize, W)>>, a: i64, steps: Seq<(int, int)>) -> bool {
    forall|i: int| 0 <= i <= steps.len() ==> i64::MIN <= a + #[trigger] exact_cost(adj, steps.take(i)) <= i64::MAX
}

/// Where the costs stay in range, adding them one by one is adding their sum.
pub proof fn lemma_cost_from_exact<W: EdgeCost>(adj: Seq<Seq<(usize, W)>>, a: i64, steps: Seq<(int, int)>)
    requires
        stays_in_range(adj, a, steps),
    ensures
        cost_from(adj, a, steps) == a + exact_cost(adj, steps),
    decreases steps.len(),
{
    if steps.len() > 0 {
        let p = steps.drop_last();
        assert forall|i: int| 0 <= i <= p.len() implies i64::MIN <= a + #[trigger] exact_cost(adj, p.take(i)) <= i64::MAX by {
            assert(p.take(i) =~= steps.take(i));
        }
        lemma_cost_from_exact(adj, a, p);
        assert(steps.take(steps.len() as int) =~= steps);
        assert(i64::MIN <= a + exact_cost(adj, steps.take(steps.len() as int)) <= i64::MAX);
    }
}

/// A walk with room to `x` of cost `c`, followed by the first `i` steps of a walk with room
/// from `x`, is a walk with room whose cost is those steps added to `c`.
pub proof fn lemma_walk_on<W: EdgeCost + EdgeCapacity + EdgeFlow>(
    adj: Seq<Seq<(usize, W)>>,
    from: int,
    x: int,
    c: i64,
    more: Seq<(int, int)>,
    i: int,
)
    requires
        res_walk_to(adj, from, x, c),
        res_walk_ok(adj, x, more),
        0 <= i <= more.len(),
    ensures
        res_walk_to(adj, from, walk_node(adj, x, more, i), cost_from(adj, c, more.take(i))),
    decreases i,
{
    if i == 0 {
        assert(more.take(0) =~= Seq::<(int, int)>::empty());
    } else {
        lemma_walk_on(adj, from, x, c, more, i - 1);
        let st = more[i - 1];
        assert(0 <= st.0 < adj.len() && 0 <= st.1 < adj[st.0].len() && st.0 == walk_node(adj, x, more, i - 1));
        assert(residual(adj[st.0][st.1].1));
        lemma_res_walk_step(adj, from, st.0, cost_from(adj, c, more.take(i - 1)), st.1);
        assert(more.take(i).drop_last() =~= more.take(i - 1));
        assert(more.take(i).last() == st);
    }
}

} // verus!
