
use crate::algorithms::Distances;
use crate::graph::index::NodeId;
use crate::graph::traits::{adj_wf, Base, Count, Index, IterAdjacent};
use crate::graph::walk::{cost_from, exact_cost, lemma_cost_from_exact, lemma_walk_on, stays_in_range, lemma_add_cost_monotone, lemma_fixpoint_bound, lemma_res_walk_empty, lemma_res_walk_step, res_least_cost, res_walk_exists, res_walk_ok, res_walk_to, residual, walk_cost, walk_end, walk_node};
use crate::graph::weight::{add_cost, cost_add, EdgeCapacity, EdgeCost, EdgeFlow};
use crate::structures::parents::{cycle_found, first_stop, lemma_cycle_distinct, lemma_cycle_links, parent_of, parents_in_range, Parents};
use crate::structures::route::Route;
use vstd::prelude::*;

verus! {

/// One of two outcomes.
pub enum Either<L, R> {
    Left(L),
    Right(R),
}

/// No edge with room can lower a cost of the table any more.
pub open spec fn fixpoint<W: EdgeCost + EdgeCapacity + EdgeFlow>(adj: Seq<Seq<(usize, W)>>, table: Seq<Option<i64>>) -> bool {
    forall|u: int, k: int|
        0 <= u < adj.len() && 0 <= k < adj[u].len() && table[u] is Some && residual(adj[u][k].1) ==> table[#[trigger] adj[u][k].0 as int] is Some
            && table[adj[u][k].0 as int].unwrap() <= add_cost(table[u].unwrap(), adj[u][k].1.spec_cost())
}

/// Every cost of the table is the cost of a walk with room from `from`, and `from` has a cost
/// of at most zero.
pub open spec fn sound_table<W: EdgeCost + EdgeCapacity + EdgeFlow>(adj: Seq<Seq<(usize, W)>>, from: int, table: Seq<Option<i64>>) -> bool {
    &&& table.len() == adj.len()
    &&& table[from] is Some
    &&& table[from].unwrap() <= 0
    &&& forall|v: int| 0 <= v < table.len() && (#[trigger] table[v]) is Some ==> res_walk_to(adj, from, v, table[v].unwrap())
}

/// Every cost of `t0` is still there in `t`, no higher.
pub open spec fn no_higher(t0: Seq<Option<i64>>, t: Seq<Option<i64>>) -> bool {
    &&& t.len() == t0.len()
    &&& forall|v: int| 0 <= v < t0.len() && (#[trigger] t0[v]) is Some ==> t[v] is Some && t[v].unwrap() <= t0[v].unwrap()
}

/// Every edge with room leaving a node that had a cost in `t0` leads to a node whose cost in
/// `t` is at most that cost plus the edge's.
pub open spec fn relaxed_from<W: EdgeCost + EdgeCapacity + EdgeFlow>(adj: Seq<Seq<(usize, W)>>, t0: Seq<Option<i64>>, t: Seq<Option<i64>>) -> bool {
    forall|u: int, k: int|
        0 <= u < adj.len() && 0 <= k < adj[u].len() && t0[u] is Some && residual(adj[u][k].1) ==> t[#[trigger] adj[u][k].0 as int] is Some
            && t[adj[u][k].0 as int].unwrap() <= add_cost(t0[u].unwrap(), adj[u][k].1.spec_cost())
}

/// Every walk with room from `from` of at most `k` steps ends at a node whose cost is at most
/// the walk's.
pub open spec fn bounds_walks<W: EdgeCost + EdgeCapacity + EdgeFlow>(adj: Seq<Seq<(usize, W)>>, from: int, t: Seq<Option<i64>>, k: int) -> bool {
    forall|steps: Seq<(int, int)>|
        #[trigger] res_walk_ok(adj, from, steps) && steps.len() <= k ==> t[walk_end(adj, from, steps)] is Some && t[walk_end(
            adj,
            from,
            steps,
        )].unwrap() <= walk_cost(adj, steps)
}

/// Every node that a walk with room from `from` reaches is reached by a cheapest one of at most
/// `k` steps: one that costs no more than any walk with room from `from` to it.
pub open spec fn least_walks_within<W: EdgeCost + EdgeCapacity + EdgeFlow>(adj: Seq<Seq<(usize, W)>>, from: int, k: int) -> bool {
    forall|v: int|
        0 <= v < adj.len() && #[trigger] res_walk_exists(adj, from, v) ==> exists|best: Seq<(int, int)>|
            #[trigger] res_walk_ok(adj, from, best) && walk_end(adj, from, best) == v && best.len() <= k && forall|steps: Seq<(int, int)>|
                #[trigger] res_walk_ok(adj, from, steps) && walk_end(adj, from, steps) == v ==> walk_cost(adj, best) <= walk_cost(
                    adj,
                    steps,
                )
}

/// The graph has an edge `u -> v` with room.
pub open spec fn room_link<W: EdgeCapacity + EdgeFlow>(adj: Seq<Seq<(usize, W)>>, u: int, v: int) -> bool {
    &&& 0 <= u < adj.len()
    &&& exists|k: int| 0 <= k < adj[u].len() && (#[trigger] adj[u][k]).0 == v && residual(adj[u][k].1)
}

/// Every recorded parent reaches its child along an edge with room.
pub open spec fn links_have_room<W: EdgeCapacity + EdgeFlow>(adj: Seq<Seq<(usize, W)>>, p: Seq<Option<NodeId>>) -> bool {
    forall|v: int| 0 <= v < p.len() && (#[trigger] p[v]) is Some ==> room_link(adj, p[v].unwrap().0 as int, v)
}

/// The state of the Bellman-Ford algorithm: the cost found for every node, the node each was
/// last lowered from, and whether the last pass lowered anything.
pub struct BellmanFord<'a, G> {
    pub cost_table: Vec<Option<i64>>,
    pub parents: Parents,
    pub updated: bool,
    pub graph: &'a G,
}

impl<'a, G: Index + IterAdjacent + Count> BellmanFord<'a, G> where G::Weight: EdgeCost + EdgeCapacity + EdgeFlow + Copy {
    pub open spec fn inv(&self, from: int) -> bool {
        &&& self.graph.spec_wf()
        &&& adj_wf(self.graph.spec_adj())
        &&& self.graph.spec_adj().len() == self.graph.spec_nodes().len()
        &&& 0 <= from < self.graph.spec_nodes().len()
        &&& sound_table(self.graph.spec_adj(), from, self.cost_table@)
        &&& self.parents@.len() == self.cost_table@.len()
        &&& parents_in_range(self.parents@)
        &&& links_have_room(self.graph.spec_adj(), self.parents@)
    }

    /// Only `start` has a cost, zero.
    pub fn init(graph: &'a G, start: NodeId) -> (r: Self)
        requires
            graph.spec_wf(),
            adj_wf(graph.spec_adj()),
            start.0 < graph.spec_nodes().len(),
        ensures
            r.inv(start.0 as int),
            r.graph == graph,
            !r.updated,
            r.cost_table@ == Seq::new(graph.spec_nodes().len(), |i: int| None::<i64>).update(start.0 as int, Some(0i64)),
    {
        proof {
            graph.lemma_wf();
        }
        let count = graph.node_count();
        let mut cost_table: Vec<Option<i64>> = Vec::new();
        let mut i: usize = 0;
        while i < count
            invariant
                i <= count,
                cost_table@ == Seq::new(i as nat, |k: int| None::<i64>),
            decreases count - i,
        {
            cost_table.push(None);
            i = i + 1;
            proof {
                assert(cost_table@ =~= Seq::new(i as nat, |k: int| None::<i64>));
            }
        }
        cost_table.set(start.0, Some(0));
        let r = BellmanFord { cost_table, parents: Parents::with_count(count), updated: false, graph };
        proof {
            lemma_res_walk_empty(graph.spec_adj(), start.0 as int);
            assert forall|v: int| 0 <= v < r.cost_table@.len() && (#[trigger] r.cost_table@[v]) is Some implies res_walk_to(
                graph.spec_adj(),
                start.0 as int,
                v,
                r.cost_table@[v].unwrap(),
            ) by {
                assert(v == start.0);
            }
            assert(parents_in_range(r.parents@));
        }
        r
    }

    /// One pass over the nodes in order, lowering the cost of the target of every edge with
    /// room where the edge gives a lower one; marks the state updated when something fell.
    #[verifier::spinoff_prover]
    #[verifier::rlimit(80)]
    pub fn relax(&mut self, Ghost(from): Ghost<int>)
        requires
            old(self).inv(from),
        ensures
            final(self).inv(from),
            final(self).graph == old(self).graph,
            old(self).updated ==> final(self).updated,
            final(self).cost_table@ != old(self).cost_table@ ==> final(self).updated,
            !final(self).updated ==> final(self).cost_table@ == old(self).cost_table@ && fixpoint(
                final(self).graph.spec_adj(),
                final(self).cost_table@,
            ),
            no_higher(old(self).cost_table@, final(self).cost_table@),
            relaxed_from(final(self).graph.spec_adj(), old(self).cost_table@, final(self).cost_table@),
            fixpoint(old(self).graph.spec_adj(), old(self).cost_table@) ==> final(self).cost_table@ == old(self).cost_table@
                && final(self).updated == old(self).updated,
    {
        let ghost adj = self.graph.spec_adj();
        let ghost t0 = self.cost_table@;
        let ghost up0 = self.updated;
        let ids = self.graph.node_ids();
        let n = ids.len();
        let mut i: usize = 0;
        while i < n
            invariant
                self.inv(from),
                self.graph == old(self).graph,
                adj == self.graph.spec_adj(),
                t0 == old(self).cost_table@,
                up0 == old(self).updated,
                up0 ==> self.updated,
                n == ids@.len(),
                n == adj.len(),
                forall|j: int| 0 <= j < ids@.len() ==> (#[trigger] ids@[j]).0 == j,
                i <= n,
                self.cost_table@ != t0 ==> self.updated,
                !self.updated ==> self.cost_table@ == t0,
                !self.updated ==> forall|u: int, k: int|
                    0 <= u < i && 0 <= k < adj[u].len() && self.cost_table@[u] is Some && residual(adj[u][k].1)
                        ==> self.cost_table@[#[trigger] adj[u][k].0 as int] is Some && self.cost_table@[adj[u][k].0 as int].unwrap()
                        <= add_cost(self.cost_table@[u].unwrap(), adj[u][k].1.spec_cost()),
                no_higher(t0, self.cost_table@),
                forall|u: int, k: int|
                    0 <= u < i && 0 <= k < adj[u].len() && t0[u] is Some && residual(adj[u][k].1)
                        ==> self.cost_table@[#[trigger] adj[u][k].0 as int] is Some && self.cost_table@[adj[u][k].0 as int].unwrap()
                        <= add_cost(t0[u].unwrap(), adj[u][k].1.spec_cost()),
                fixpoint(adj, t0) ==> self.cost_table@ == t0 && self.updated == up0,
            decreases n - i,
        {
            let from_id = ids[i];
            match self.cost_table[from_id.0] {
                Some(cost) => {
                    let out = self.graph.iter_adjacent_edges(from_id);
                    let mut k: usize = 0;
                    while k < out.len()
                        invariant
                            self.inv(from),
                            self.graph == old(self).graph,
                            adj == self.graph.spec_adj(),
                            t0 == old(self).cost_table@,
                            up0 == old(self).updated,
                            up0 ==> self.updated,
                            n == adj.len(),
                            i < n,
                            from_id.0 == i,
                            out@.len() == adj[i as int].len(),
                            forall|j: int|
                                0 <= j < out@.len() ==> (#[trigger] out@[j]).edge_id.to.0 == adj[i as int][j].0
                                    && out@[j].weight == adj[i as int][j].1 && out@[j].edge_id.from == from_id,
                            k <= out@.len(),
                            self.cost_table@[i as int] is Some,
                            !self.updated ==> self.cost_table@[i as int] == Some(cost),
                            self.updated || self.cost_table@[i as int] == Some(cost),
                            res_walk_to(adj, from, i as int, cost),
                            self.cost_table@ != t0 ==> self.updated,
                            !self.updated ==> self.cost_table@ == t0,
                            !self.updated ==> forall|u: int, j: int|
                                0 <= u < i && 0 <= j < adj[u].len() && self.cost_table@[u] is Some && residual(adj[u][j].1)
                                    ==> self.cost_table@[#[trigger] adj[u][j].0 as int] is Some && self.cost_table@[adj[u][j].0 as int].unwrap()
                                    <= add_cost(self.cost_table@[u].unwrap(), adj[u][j].1.spec_cost()),
                            !self.updated ==> forall|j: int|
                                0 <= j < k && residual(adj[i as int][j].1) ==> self.cost_table@[#[trigger] adj[i as int][j].0 as int] is Some
                                    && self.cost_table@[adj[i as int][j].0 as int].unwrap() <= add_cost(cost, adj[i as int][j].1.spec_cost()),
                            no_higher(t0, self.cost_table@),
                            forall|u: int, j: int|
                                0 <= u < i && 0 <= j < adj[u].len() && t0[u] is Some && residual(adj[u][j].1)
                                    ==> self.cost_table@[#[trigger] adj[u][j].0 as int] is Some && self.cost_table@[adj[u][j].0 as int].unwrap()
                                    <= add_cost(t0[u].unwrap(), adj[u][j].1.spec_cost()),
                            forall|j: int|
                                0 <= j < k && residual(adj[i as int][j].1) ==> self.cost_table@[#[trigger] adj[i as int][j].0 as int] is Some
                                    && self.cost_table@[adj[i as int][j].0 as int].unwrap() <= add_cost(cost, adj[i as int][j].1.spec_cost()),
                            t0[i as int] is Some ==> cost <= t0[i as int].unwrap(),
                            fixpoint(adj, t0) ==> self.cost_table@ == t0 && self.updated == up0 && t0[i as int] == Some(cost),
                        decreases out@.len() - k,
                    {
                        let e = out[k];
                        let to = e.edge_id.to;
                        proof {
                            assert(adj[i as int][k as int].0 == to.0);
                            assert(to.0 < n);
                        }
                        let combined = cost_add(cost, e.weight.cost());
                        let to_cost = self.cost_table[to.0];
                        let better = match to_cost {
                            Some(c) => c > combined,
                            None => true,
                        };
                        let update = better && e.weight.capacity() > e.weight.flow();
                        if update {
                            proof {
                                lemma_res_walk_step(adj, from, i as int, cost, k as int);
                            }
                            let ghost ct0 = self.cost_table@;
                            self.cost_table.set(to.0, Some(combined));
                            self.updated = true;
                            self.parents.insert(from_id, to);
                            proof {
                                assert forall|v: int|
                                    0 <= v < self.cost_table@.len() && (#[trigger] self.cost_table@[v]) is Some implies res_walk_to(
                                    adj,
                                    from,
                                    v,
                                    self.cost_table@[v].unwrap(),
                                ) by {
                                    if v != to.0 {
                                        assert(ct0[v] == self.cost_table@[v]);
                                    }
                                }
                                if to.0 == from {
                                    assert(combined < ct0[from].unwrap());
                                }
                                assert(residual(adj[i as int][k as int].1));
                                assert(links_have_room(adj, self.parents@)) by {
                                    assert forall|v: int| 0 <= v < self.parents@.len() && (#[trigger] self.parents@[v]) is Some implies room_link(
                                        adj,
                                        self.parents@[v].unwrap().0 as int,
                                        v,
                                    ) by {
                                        if v == to.0 {
                                            assert(adj[i as int][k as int].0 == v);
                                        }
                                    }
                                }
                                assert(parents_in_range(self.parents@)) by {
                                    assert forall|j: int| 0 <= j < self.parents@.len() && (#[trigger] self.parents@[j]) is Some implies self.parents@[j].unwrap().0
                                        < self.parents@.len() by {
                                        if j != to.0 {
                                        }
                                    }
                                }
                            }
                        }
                        k = k + 1;
                    }
                    proof {
                        assert forall|u: int, j: int|
                            0 <= u < i + 1 && 0 <= j < adj[u].len() && t0[u] is Some && residual(adj[u][j].1)
                                implies self.cost_table@[#[trigger] adj[u][j].0 as int] is Some && self.cost_table@[adj[u][j].0 as int].unwrap()
                                <= add_cost(t0[u].unwrap(), adj[u][j].1.spec_cost()) by {
                            if u == i {
                                lemma_add_cost_monotone(cost, t0[u].unwrap(), adj[u][j].1.spec_cost());
                            }
                        }
                    }
                },
                None => {},
            }
            i = i + 1;
        }
    }

    /// The first node, in the order of a pass, whose cost an edge with room still lowers.
    pub fn relax_cycle(&self, Ghost(from): Ghost<int>) -> (r: Option<NodeId>)
        requires
            self.inv(from),
        ensures
            r is None <==> fixpoint(self.graph.spec_adj(), self.cost_table@),
            r matches Some(to) ==> to.0 < self.cost_table@.len(),
    {
        let ghost adj = self.graph.spec_adj();
        let ids = self.graph.node_ids();
        let n = ids.len();
        let mut i: usize = 0;
        while i < n
            invariant
                self.inv(from),
                adj == self.graph.spec_adj(),
                n == ids@.len(),
                n == adj.len(),
                forall|j: int| 0 <= j < ids@.len() ==> (#[trigger] ids@[j]).0 == j,
                i <= n,
                forall|u: int, k: int|
                    0 <= u < i && 0 <= k < adj[u].len() && self.cost_table@[u] is Some && residual(adj[u][k].1)
                        ==> self.cost_table@[#[trigger] adj[u][k].0 as int] is Some && self.cost_table@[adj[u][k].0 as int].unwrap()
                        <= add_cost(self.cost_table@[u].unwrap(), adj[u][k].1.spec_cost()),
            decreases n - i,
        {
            let from_id = ids[i];
            match self.cost_table[from_id.0] {
                Some(cost) => {
                    let out = self.graph.iter_adjacent_edges(from_id);
                    let mut k: usize = 0;
                    while k < out.len()
                        invariant
                            self.inv(from),
                            adj == self.graph.spec_adj(),
                            n == adj.len(),
                            i < n,
                            from_id.0 == i,
                            self.cost_table@[i as int] == Some(cost),
                            out@.len() == adj[i as int].len(),
                            forall|j: int|
                                0 <= j < out@.len() ==> (#[trigger] out@[j]).edge_id.to.0 == adj[i as int][j].0
                                    && out@[j].weight == adj[i as int][j].1,
                            k <= out@.len(),
                            forall|j: int|
                                0 <= j < k && residual(adj[i as int][j].1) ==> self.cost_table@[#[trigger] adj[i as int][j].0 as int] is Some
                                    && self.cost_table@[adj[i as int][j].0 as int].unwrap() <= add_cost(cost, adj[i as int][j].1.spec_cost()),
                        decreases out@.len() - k,
                    {
                        let e = out[k];
                        let to = e.edge_id.to;
                        proof {
                            assert(adj[i as int][k as int].0 == to.0);
                            assert(to.0 < n);
                        }
                        let combined = cost_add(cost, e.weight.cost());
                        let better = match self.cost_table[to.0] {
                            Some(c) => c > combined,
                            None => true,
                        };
                        if better && e.weight.capacity() > e.weight.flow() {
                            return Some(to);
                        }
                        k = k + 1;
                    }
                },
                None => {},
            }
            i = i + 1;
        }
        None
    }
}

/// A walk with room without its last step is a walk with room, ending where the last step starts.
proof fn lemma_res_walk_drop_last<W: EdgeCost + EdgeCapacity + EdgeFlow>(adj: Seq<Seq<(usize, W)>>, from: int, steps: Seq<(int, int)>)
    requires
        res_walk_ok(adj, from, steps),
        steps.len() > 0,
    ensures
        res_walk_ok(adj, from, steps.drop_last()),
        walk_end(adj, from, steps.drop_last()) == steps.last().0,
        walk_cost(adj, steps) == add_cost(walk_cost(adj, steps.drop_last()), adj[steps.last().0][steps.last().1].1.spec_cost()),
        residual(adj[steps.last().0][steps.last().1].1),
        0 <= steps.last().0 < adj.len(),
        0 <= steps.last().1 < adj[steps.last().0].len(),
        walk_end(adj, from, steps) == adj[steps.last().0][steps.last().1].0,
{
    let d = steps.drop_last();
    assert forall|j: int| 0 <= j < d.len() implies 0 <= #[trigger] d[j].0 < adj.len() && 0 <= d[j].1 < adj[d[j].0].len() && d[j].0
        == walk_node(adj, from, d, j) by {
        assert(d[j] == steps[j]);
        if j > 0 {
            assert(d[j - 1] == steps[j - 1]);
        }
    }
    assert forall|j: int| 0 <= j < d.len() implies residual(adj[(#[trigger] d[j]).0][d[j].1].1) by {
        assert(d[j] == steps[j]);
    }
    assert(steps[steps.len() - 1] == steps.last());
    if d.len() > 0 {
        assert(d[d.len() - 1] == steps[d.len() - 1]);
    }
}

/// A pass that lowers no cost and relaxes every edge from the costs before it bounds walks one
/// step longer than the costs before it did.
proof fn lemma_bounds_step<W: EdgeCost + EdgeCapacity + EdgeFlow>(
    adj: Seq<Seq<(usize, W)>>,
    from: int,
    t0: Seq<Option<i64>>,
    t: Seq<Option<i64>>,
    k: int,
)
    requires
        t0.len() == adj.len(),
        adj_wf(adj),
        0 <= from < adj.len(),
        0 <= k,
        bounds_walks(adj, from, t0, k),
        no_higher(t0, t),
        relaxed_from(adj, t0, t),
    ensures
        bounds_walks(adj, from, t, k + 1),
{
    assert forall|steps: Seq<(int, int)>| #[trigger] res_walk_ok(adj, from, steps) && steps.len() <= k + 1 implies t[walk_end(
        adj,
        from,
        steps,
    )] is Some && t[walk_end(adj, from, steps)].unwrap() <= walk_cost(adj, steps) by {
        if steps.len() <= k {
            let v = walk_end(adj, from, steps);
            if steps.len() > 0 {
                lemma_res_walk_drop_last(adj, from, steps);
            }
            assert(0 <= v < t0.len());
            assert(t0[v] is Some);
        } else {
            lemma_res_walk_drop_last(adj, from, steps);
            let d = steps.drop_last();
            let u = steps.last().0;
            let j = steps.last().1;
            assert(res_walk_ok(adj, from, d) && d.len() <= k);
            assert(t0[u] is Some);
            assert(t[adj[u][j].0 as int] is Some);
            lemma_add_cost_monotone(t0[u].unwrap(), walk_cost(adj, d), adj[u][j].1.spec_cost());
        }
    }
}

/// Sound costs that bound every walk of at most `k` steps, where cheapest walks need no more
/// than `k` steps, cannot be lowered any more.
proof fn lemma_least_within_fixpoint<W: EdgeCost + EdgeCapacity + EdgeFlow>(
    adj: Seq<Seq<(usize, W)>>,
    from: int,
    t: Seq<Option<i64>>,
    k: int,
)
    requires
        adj_wf(adj),
        sound_table(adj, from, t),
        bounds_walks(adj, from, t, k),
        least_walks_within(adj, from, k),
    ensures
        fixpoint(adj, t),
{
    assert forall|u: int, j: int|
        0 <= u < adj.len() && 0 <= j < adj[u].len() && t[u] is Some && residual(adj[u][j].1) implies t[#[trigger] adj[u][j].0 as int] is Some
            && t[adj[u][j].0 as int].unwrap() <= add_cost(t[u].unwrap(), adj[u][j].1.spec_cost()) by {
        let v = adj[u][j].0 as int;
        let c = add_cost(t[u].unwrap(), adj[u][j].1.spec_cost());
        assert(res_walk_to(adj, from, u, t[u].unwrap()));
        lemma_res_walk_step(adj, from, u, t[u].unwrap(), j);
        let w = choose|steps: Seq<(int, int)>|
            #[trigger] res_walk_ok(adj, from, steps) && walk_end(adj, from, steps) == v && walk_cost(adj, steps) == c;
        assert(res_walk_ok(adj, from, w) && walk_end(adj, from, w) == v);
        assert(res_walk_exists(adj, from, v));
        assert(0 <= v < adj.len());
        let best = choose|best: Seq<(int, int)>|
            #[trigger] res_walk_ok(adj, from, best) && walk_end(adj, from, best) == v && best.len() <= k && forall|steps: Seq<(int, int)>|
                #[trigger] res_walk_ok(adj, from, steps) && walk_end(adj, from, steps) == v ==> walk_cost(adj, best) <= walk_cost(
                    adj,
                    steps,
                );
        assert(walk_cost(adj, best) <= walk_cost(adj, w));
    }
}

/// Runs the passes of the Bellman-Ford algorithm: at most one fewer than there are nodes,
/// stopping after a pass that lowers nothing.
fn run<'a, G: Index + IterAdjacent + Count>(graph: &'a G, start: NodeId) -> (r: BellmanFord<'a, G>)
    where
        G::Weight: EdgeCost + EdgeCapacity + EdgeFlow + Copy,
    requires
        graph.spec_wf(),
        adj_wf(graph.spec_adj()),
        start.0 < graph.spec_nodes().len(),
    ensures
        r.inv(start.0 as int),
        r.graph == graph,
        graph.spec_nodes().len() >= 2 && !r.updated ==> fixpoint(graph.spec_adj(), r.cost_table@),
        graph.spec_nodes().len() < 2 ==> !r.updated && r.cost_table@ == seq![Some(0i64)],
        graph.spec_nodes().len() >= 2 && r.updated ==> bounds_walks(
            graph.spec_adj(),
            start.0 as int,
            r.cost_table@,
            graph.spec_nodes().len() - 1,
        ),
{
    let mut bf = BellmanFord::init(graph, start);
    let n = graph.node_count();
    let ghost adj = graph.spec_adj();
    let ghost s = start.0 as int;
    proof {
        assert forall|steps: Seq<(int, int)>| #[trigger] res_walk_ok(adj, s, steps) && steps.len() <= 0 implies bf.cost_table@[walk_end(
            adj,
            s,
            steps,
        )] is Some && bf.cost_table@[walk_end(adj, s, steps)].unwrap() <= walk_cost(adj, steps) by {
            assert(walk_end(adj, s, steps) == s);
        }
        assert(bounds_walks(adj, s, bf.cost_table@, 0));
    }
    let mut round: usize = 1;
    while round < n
        invariant
            bf.inv(start.0 as int),
            bf.graph == graph,
            adj == graph.spec_adj(),
            s == start.0,
            n == graph.spec_nodes().len(),
            1 <= round,
            round <= n || round == 1,
            bounds_walks(adj, s, bf.cost_table@, round - 1),
            round == 1 ==> !bf.updated && bf.cost_table@ == Seq::new(n as nat, |i: int| None::<i64>).update(
                start.0 as int,
                Some(0i64),
            ),
            round > 1 && !bf.updated ==> fixpoint(graph.spec_adj(), bf.cost_table@),
        decreases n - round,
    {
        bf.updated = false;
        let ghost before = bf.cost_table@;
        bf.relax(Ghost(start.0 as int));
        if !bf.updated {
            return bf;
        }
        proof {
            lemma_bounds_step(adj, s, before, bf.cost_table@, round - 1);
        }
        round = round + 1;
    }
    proof {
        if n < 2 {
            assert(bf.cost_table@ =~= seq![Some(0i64)]);
        }
    }
    bf
}

/// The least cost of a walk with room from `start` to every node (none where no such walk
/// leads), or none when, after one fewer passes than there are nodes, an edge with room can
/// still lower a cost; with a single node, the start alone at zero.
pub fn bellman_ford<G: Index + IterAdjacent + Count>(graph: &G, start: NodeId) -> (r: Option<Distances>)
    where
        G::Weight: EdgeCost + EdgeCapacity + EdgeFlow + Copy,
    requires
        graph.spec_wf(),
        adj_wf(graph.spec_adj()),
        start.0 < graph.spec_nodes().len(),
    ensures
        r matches Some(d) ==> d.from == start && d.distances@.len() == graph.spec_nodes().len(),
        graph.spec_nodes().len() >= 2 ==> (r matches Some(d) ==> forall|v: int|
            0 <= v < d.distances@.len() ==> match #[trigger] d.distances@[v] {
                Some(c) => res_least_cost(graph.spec_adj(), start.0 as int, v, c),
                None => !res_walk_exists(graph.spec_adj(), start.0 as int, v),
            }),
        graph.spec_nodes().len() < 2 ==> (r matches Some(d) && d.distances@ == seq![Some(0i64)]),
        graph.spec_nodes().len() >= 2 && least_walks_within(graph.spec_adj(), start.0 as int, graph.spec_nodes().len() - 1)
            ==> r is Some,
{
    let bf = run(graph, start);
    let ghost adj0 = graph.spec_adj();
    proof {
        if graph.spec_nodes().len() >= 2 && bf.updated && least_walks_within(adj0, start.0 as int, graph.spec_nodes().len() - 1) {
            lemma_least_within_fixpoint(adj0, start.0 as int, bf.cost_table@, graph.spec_nodes().len() - 1);
        }
    }
    if !bf.updated || bf.relax_cycle(Ghost(start.0 as int)).is_none() {
        let BellmanFord { cost_table, parents: _, updated: _, graph: _ } = bf;
        let ghost adj = graph.spec_adj();
        proof {
            if graph.spec_nodes().len() >= 2 {
                lemma_least_from_fixpoint(adj, start.0 as int, cost_table@);
            }
        }
        Some(Distances::new(start, cost_table))
    } else {
        None
    }
}

/// Sound costs that no edge with room can lower are least costs.
proof fn lemma_least_from_fixpoint<W: EdgeCost + EdgeCapacity + EdgeFlow>(adj: Seq<Seq<(usize, W)>>, from: int, table: Seq<Option<i64>>)
    requires
        sound_table(adj, from, table),
        fixpoint(adj, table),
        0 <= from < adj.len(),
    ensures
        forall|v: int|
            0 <= v < table.len() ==> match #[trigger] table[v] {
                Some(c) => res_least_cost(adj, from, v, c),
                None => !res_walk_exists(adj, from, v),
            },
{
    assert forall|v: int| 0 <= v < table.len() implies match #[trigger] table[v] {
        Some(c) => res_least_cost(adj, from, v, c),
        None => !res_walk_exists(adj, from, v),
    } by {
        assert forall|steps: Seq<(int, int)>|
            #[trigger] res_walk_ok(adj, from, steps) && walk_end(adj, from, steps) == v implies table[v] is Some
                && walk_cost(adj, steps) >= table[v].unwrap() by {
            lemma_fixpoint_bound(adj, from, table, steps);
        }
    }
}

/// Where `c` is the least cost of reaching `x` (as `bellman_ford` and `bellman_ford_cycle`
/// give it for every node they reach), no walk with room that leaves `x` and comes back to it
/// costs less than nothing, so long as adding its costs one by one to `c` stays within the
/// range of `i64`: no cycle of negative cost can be reached from the start.
pub proof fn lemma_no_negative_cycle<W: EdgeCost + EdgeCapacity + EdgeFlow>(
    adj: Seq<Seq<(usize, W)>>,
    from: int,
    x: int,
    c: i64,
    cycle: Seq<(int, int)>,
)
    requires
        res_least_cost(adj, from, x, c),
        res_walk_ok(adj, x, cycle),
        walk_end(adj, x, cycle) == x,
        stays_in_range(adj, c, cycle),
    ensures
        exact_cost(adj, cycle) >= 0,
{
    lemma_walk_on(adj, from, x, c, cycle, cycle.len() as int);
    assert(cycle.take(cycle.len() as int) =~= cycle);
    let total = cost_from(adj, c, cycle);
    let w = choose|steps: Seq<(int, int)>| #[trigger] res_walk_ok(adj, from, steps) && walk_end(adj, from, steps) == x && walk_cost(adj, steps) == total;
    assert(walk_cost(adj, w) >= c);
    lemma_cost_from_exact(adj, c, cycle);
}

/// A least cost of the walks with room from `from` to `v` is unique: where `bellman_ford` and
/// `bellman_ford_between` both give a cost for the same nodes, they give the same one.
pub proof fn lemma_least_cost_unique<W: EdgeCost + EdgeCapacity + EdgeFlow>(
    adj: Seq<Seq<(usize, W)>>,
    from: int,
    v: int,
    c1: i64,
    c2: i64,
)
    requires
        res_least_cost(adj, from, v, c1),
        res_least_cost(adj, from, v, c2),
    ensures
        c1 == c2,
{
    let w1 = choose|steps: Seq<(int, int)>| #[trigger] res_walk_ok(adj, from, steps) && walk_end(adj, from, steps) == v && walk_cost(adj, steps) == c1;
    let w2 = choose|steps: Seq<(int, int)>| #[trigger] res_walk_ok(adj, from, steps) && walk_end(adj, from, steps) == v && walk_cost(adj, steps) == c2;
    assert(walk_cost(adj, w1) >= c2);
    assert(walk_cost(adj, w2) >= c1);
}

/// The least cost of a walk with room from `from` to `to`, when the passes settle.
pub fn bellman_ford_between<G: Index + IterAdjacent + Count>(graph: &G, from: NodeId, to: NodeId) -> (r: Option<i64>)
    where
        G::Weight: EdgeCost + EdgeCapacity + EdgeFlow + Copy,
    requires
        graph.spec_wf(),
        adj_wf(graph.spec_adj()),
        from.0 < graph.spec_nodes().len(),
        to.0 < graph.spec_nodes().len(),
    ensures
        graph.spec_nodes().len() >= 2 ==> (r matches Some(c) ==> res_least_cost(graph.spec_adj(), from.0 as int, to.0 as int, c)),
        graph.spec_nodes().len() >= 2 && least_walks_within(graph.spec_adj(), from.0 as int, graph.spec_nodes().len() - 1) ==> (r is Some
            <==> res_walk_exists(graph.spec_adj(), from.0 as int, to.0 as int)),
        graph.spec_nodes().len() < 2 ==> r == Some(0i64),
{
    match bellman_ford(graph, from) {
        Some(d) => d.distances[to.0],
        None => None,
    }
}

/// The distances as `bellman_ford` finds them, or else a cycle of the last parent links met
/// from the first node whose cost can still fall.
pub fn bellman_ford_cycle<G: Index + IterAdjacent + Count>(graph: &G, start: NodeId) -> (r: Either<Distances, Route>)
    where
        G::Weight: EdgeCost + EdgeCapacity + EdgeFlow + Copy,
    requires
        graph.spec_wf(),
        adj_wf(graph.spec_adj()),
        start.0 < graph.spec_nodes().len(),
    ensures
        r matches Either::Left(d) ==> d.from == start && d.distances@.len() == graph.spec_nodes().len(),
        graph.spec_nodes().len() >= 2 ==> (r matches Either::Left(d) ==> forall|v: int|
            0 <= v < d.distances@.len() ==> match #[trigger] d.distances@[v] {
                Some(c) => res_least_cost(graph.spec_adj(), start.0 as int, v, c),
                None => !res_walk_exists(graph.spec_adj(), start.0 as int, v),
            }),
        graph.spec_nodes().len() >= 2 && least_walks_within(graph.spec_adj(), start.0 as int, graph.spec_nodes().len() - 1)
            ==> r is Left,
        r matches Either::Right(route) ==> {
            &&& forall|m: int|
                0 <= m < route@.len() - 1 ==> room_link(graph.spec_adj(), route@[m].0 as int, (#[trigger] route@[m + 1]).0 as int)
            &&& route@.len() > 0 ==> room_link(graph.spec_adj(), route@.last().0 as int, route@[0].0 as int)
            &&& forall|i: int, j: int| 0 <= i < j < route@.len() ==> route@[i] != route@[j]
        },
{
    let bf = run(graph, start);
    let ghost adj = graph.spec_adj();
    proof {
        if graph.spec_nodes().len() >= 2 && bf.updated && least_walks_within(adj, start.0 as int, graph.spec_nodes().len() - 1) {
            lemma_least_within_fixpoint(adj, start.0 as int, bf.cost_table@, graph.spec_nodes().len() - 1);
        }
    }
    if bf.updated {
        match bf.relax_cycle(Ghost(start.0 as int)) {
            Some(to) => {
                let route = bf.parents.find_cycle(to);
                proof {
                    let p = bf.parents@;
                    let k = choose|k: nat| first_stop(p, to.0, k) && cycle_found(p, to.0, k, route@);
                    lemma_cycle_links(p, to.0, k, route@);
                    lemma_cycle_distinct(p, to.0, k, route@);
                    let r = route@;
                    assert forall|m: int| 0 <= m < r.len() - 1 implies room_link(adj, r[m].0 as int, (#[trigger] r[m + 1]).0 as int) by {
                        assert(parent_of(p, r[m + 1].0) == Some(r[m].0));
                        assert(p[r[m + 1].0 as int] is Some);
                    }
                    if r.len() > 0 {
                        assert(parent_of(p, r[0].0) == Some(r.last().0));
                        assert(p[r[0].0 as int] is Some);
                    }
                }
                return Either::Right(route);
            },
            None => {
                let BellmanFord { cost_table, parents: _, updated: _, graph: _ } = bf;
                proof {
                    lemma_least_from_fixpoint(adj, start.0 as int, cost_table@);
                }
                return Either::Left(Distances::new(start, cost_table));
            },
        }
    }
    let BellmanFord { cost_table, parents: _, updated: _, graph: _ } = bf;
    proof {
        if graph.spec_nodes().len() >= 2 {
            lemma_least_from_fixpoint(adj, start.0 as int, cost_table@);
        }
    }
    Either::Left(Distances::new(start, cost_table))
}

} // verus!
