use crate::graph::index::{EdgeId, NodeId};
use crate::algorithms::bfs::zeros;
use crate::graph::reach::{count_free, lemma_count_free_bound, lemma_count_free_update};
use crate::graph::walk::{lemma_walk_exit, walk_end, walk_node, walk_ok};
use crate::graph::traits::{adj_wf, edge_weight, first_edge, lemma_first_edge, Base, Count, Get, IndexAdjacent};
use crate::graph::weight::FlowWeight;
use crate::graph_impl::adjacency_list::AdjacencyList;
use crate::structures::parents::Parents;
use vstd::prelude::*;

verus! {

/// An edge weight that can carry flow: how much more it can take (its residual capacity),
/// and how much it can still give back before its numbers leave the range of `i64`.
pub trait Residual: Sized + Copy {
    spec fn spec_res(&self) -> int;

    spec fn spec_room(&self) -> int;

    /// What carrying flow leaves alone of the weight.
    spec fn spec_fixed(&self) -> Self;

    fn residual(&self) -> (r: i64)
        requires
            0 <= self.spec_res() <= i64::MAX,
        ensures
            r == self.spec_res(),
    ;

    /// Whether the edge can take more.
    fn has_room(&self) -> (r: bool)
        ensures
            r == (self.spec_res() > 0),
    ;

    /// The weight after `b` more units went along the edge.
    fn push(&self, b: i64) -> (r: Self)
        requires
            0 <= b <= self.spec_res(),
        ensures
            r.spec_res() == self.spec_res() - b,
            r.spec_room() == self.spec_room() + b,
            r.spec_fixed() == self.spec_fixed(),
    ;

    /// The weight after `b` units were taken back.
    fn pull(&self, b: i64) -> (r: Self)
        requires
            0 <= b <= self.spec_room(),
        ensures
            r.spec_res() == self.spec_res() + b,
            r.spec_room() == self.spec_room() - b,
            r.spec_fixed() == self.spec_fixed(),
    ;
}

/// An edge of a flow network: its residual capacity is what its capacity leaves to its flow.
impl Residual for FlowWeight<i64> {
    open spec fn spec_res(&self) -> int {
        self.capacity - self.flow
    }

    open spec fn spec_room(&self) -> int {
        self.flow - i64::MIN
    }

    /// Capacity, cost and direction: all but the flow.
    open spec fn spec_fixed(&self) -> Self {
        FlowWeight { flow: 0, capacity: self.capacity, cost: self.cost, rev: self.rev }
    }

    fn residual(&self) -> (r: i64) {
        self.capacity - self.flow
    }

    fn has_room(&self) -> (r: bool) {
        self.capacity > self.flow
    }

    fn push(&self, b: i64) -> (r: Self)
        ensures
            r == (FlowWeight { flow: (self.flow + b) as i64, ..*self }),
    {
        FlowWeight { flow: self.flow + b, capacity: self.capacity, cost: self.cost, rev: self.rev }
    }

    fn pull(&self, b: i64) -> (r: Self)
        ensures
            r == (FlowWeight { flow: (self.flow - b) as i64, ..*self }),
    {
        FlowWeight { flow: self.flow - b, capacity: self.capacity, cost: self.cost, rev: self.rev }
    }
}

/// A bare capacity: the residual capacity is the capacity itself.
impl Residual for i64 {
    open spec fn spec_res(&self) -> int {
        *self as int
    }

    open spec fn spec_room(&self) -> int {
        i64::MAX - *self
    }

    /// A bare capacity is all flow room: nothing of it stays fixed.
    open spec fn spec_fixed(&self) -> Self {
        0
    }

    fn residual(&self) -> (r: i64) {
        *self
    }

    fn has_room(&self) -> (r: bool) {
        *self > 0
    }

    fn push(&self, b: i64) -> (r: Self) {
        *self - b
    }

    fn pull(&self, b: i64) -> (r: Self) {
        *self + b
    }
}

/// The weight of the first stored edge `u -> v`.
pub open spec fn fw<W>(adj: Seq<Seq<(usize, W)>>, u: int, v: int) -> Option<W> {
    edge_weight(adj, u as usize, v as usize)
}

/// The edge `u -> v` has its reverse, and together they can move flow either way without
/// leaving the range of `i64`.
pub open spec fn pair_ok<W: Residual>(adj: Seq<Seq<(usize, W)>>, u: int, v: int) -> bool {
    &&& fw(adj, v, u) is Some
    &&& 0 <= fw(adj, u, v).unwrap().spec_res()
    &&& 0 <= fw(adj, v, u).unwrap().spec_res()
    &&& fw(adj, u, v).unwrap().spec_res() + fw(adj, v, u).unwrap().spec_res() <= i64::MAX
    &&& fw(adj, u, v).unwrap().spec_res() <= fw(adj, v, u).unwrap().spec_room()
    &&& fw(adj, v, u).unwrap().spec_res() <= fw(adj, u, v).unwrap().spec_room()
}

/// Every edge of the network is ready to carry flow: see `pair_ok`.
pub open spec fn flow_ready<W: Residual>(adj: Seq<Seq<(usize, W)>>) -> bool {
    forall|u: int, v: int|
        0 <= u < adj.len() && 0 <= v < adj.len() && (#[trigger] fw(adj, u, v)) is Some ==> pair_ok(adj, u, v)
}

/// Every edge of `adj` has what carrying flow leaves alone of the same edge of `adj0`.
pub open spec fn same_fixed<W: Residual>(adj0: Seq<Seq<(usize, W)>>, adj: Seq<Seq<(usize, W)>>) -> bool {
    forall|u: int, k: int| 0 <= u < adj.len() && 0 <= k < adj[u].len() ==> (#[trigger] adj[u][k]).1.spec_fixed() == adj0[u][k].1.spec_fixed()
}

/// `adj` has the same edges as `adj0`, in the same order, whatever their weights.
pub open spec fn same_shape<W>(adj0: Seq<Seq<(usize, W)>>, adj: Seq<Seq<(usize, W)>>) -> bool {
    &&& adj.len() == adj0.len()
    &&& forall|u: int| 0 <= u < adj.len() ==> (#[trigger] adj[u]).len() == adj0[u].len()
    &&& forall|u: int, k: int| 0 <= u < adj.len() && 0 <= k < adj[u].len() ==> (#[trigger] adj[u][k]).0 == adj0[u][k].0
}

/// What the first stored edges `s -> v`, for `v` below `m`, can still take.
pub open spec fn out_res<W: Residual>(adj: Seq<Seq<(usize, W)>>, s: int, m: int) -> int
    decreases m,
{
    if m <= 0 {
        0
    } else {
        out_res(adj, s, m - 1) + match fw(adj, s, m - 1) {
            Some(w) => w.spec_res(),
            None => 0,
        }
    }
}

/// `p` leads back from `t` to `s`: every node with a parent comes after its parent in some
/// order, the parent is `s` or has a parent itself, and the first edge from the parent to
/// the node can still take flow.
pub open spec fn parent_chain<W: Residual>(adj: Seq<Seq<(usize, W)>>, p: Seq<Option<NodeId>>, s: int, ord: Seq<nat>) -> bool {
    &&& p.len() == adj.len()
    &&& ord.len() == adj.len()
    &&& forall|v: int|
        0 <= v < p.len() && v != s && (#[trigger] p[v]) is Some ==> {
            let u = p[v].unwrap().0 as int;
            &&& 0 <= u < p.len()
            &&& (u == s || p[u] is Some)
            &&& ord[u] < ord[v]
            &&& fw(adj, u, v) is Some
            &&& fw(adj, u, v).unwrap().spec_res() > 0
        }
}

/// `p` holds an augmenting path from `s` to `t`.
pub open spec fn augmenting<W: Residual>(adj: Seq<Seq<(usize, W)>>, p: Seq<Option<NodeId>>, s: int, t: int) -> bool {
    &&& 0 <= t < p.len()
    &&& (t == s || p[t] is Some)
    &&& exists|ord: Seq<nat>| #[trigger] parent_chain(adj, p, s, ord)
}

/// `p` holds parent links back towards `s`: every node with a parent comes after its parent
/// in the order `ord`, the parent is `s` or has a parent itself, and the first edge from the
/// parent to the node passes `ok`.
pub open spec fn chain_by<W>(adj: Seq<Seq<(usize, W)>>, p: Seq<Option<NodeId>>, s: int, ord: Seq<nat>, ok: spec_fn(W) -> bool) -> bool {
    &&& p.len() == adj.len()
    &&& ord.len() == adj.len()
    &&& forall|v: int|
        0 <= v < p.len() && v != s && (#[trigger] p[v]) is Some ==> {
            let u = p[v].unwrap().0 as int;
            &&& 0 <= u < p.len()
            &&& (u == s || p[u] is Some)
            &&& ord[u] < ord[v]
            &&& fw(adj, u, v) is Some
            &&& ok(fw(adj, u, v).unwrap())
        }
}

/// `p` leads back from `t` to `s` along edges that pass `ok`.
pub open spec fn reaches_by<W>(adj: Seq<Seq<(usize, W)>>, p: Seq<Option<NodeId>>, s: int, t: int, ok: spec_fn(W) -> bool) -> bool {
    &&& 0 <= t < p.len()
    &&& (t == s || p[t] is Some)
    &&& exists|ord: Seq<nat>| #[trigger] chain_by(adj, p, s, ord, ok)
}

/// Parent links along edges that pass a test that only residual edges pass form an
/// augmenting path.
pub proof fn lemma_reaches_augmenting<W: Residual>(adj: Seq<Seq<(usize, W)>>, p: Seq<Option<NodeId>>, s: int, t: int, ok: spec_fn(W) -> bool)
    requires
        reaches_by(adj, p, s, t, ok),
        forall|w: W| #[trigger] ok(w) ==> w.spec_res() > 0,
    ensures
        augmenting(adj, p, s, t),
{
    let ord = choose|ord: Seq<nat>| #[trigger] chain_by(adj, p, s, ord, ok);
    assert forall|v: int| 0 <= v < p.len() && v != s && (#[trigger] p[v]) is Some implies ({
        let u = p[v].unwrap().0 as int;
        &&& 0 <= u < p.len()
        &&& (u == s || p[u] is Some)
        &&& ord[u] < ord[v]
        &&& fw(adj, u, v) is Some
        &&& fw(adj, u, v).unwrap().spec_res() > 0
    }) by {
        let u = p[v].unwrap().0 as int;
        assert(ok(fw(adj, u, v).unwrap()));
    }
    assert(parent_chain(adj, p, s, ord));
}

pub proof fn lemma_first_edge_same_targets<W>(a: Seq<(usize, W)>, b: Seq<(usize, W)>, x: usize)
    requires
        a.len() == b.len(),
        forall|k: int| 0 <= k < a.len() ==> (#[trigger] a[k]).0 == b[k].0,
    ensures
        first_edge(a, x) == first_edge(b, x),
    decreases a.len(),
{
    if a.len() > 0 {
        lemma_first_edge_same_targets(a.drop_last(), b.drop_last(), x);
        assert(a.last().0 == b[b.len() - 1].0);
    }
}

/// Putting on the first edge `u -> v` a weight with the same fixed part keeps every fixed part.
pub proof fn lemma_replace_fixed<W: Residual>(adj0: Seq<Seq<(usize, W)>>, adj: Seq<Seq<(usize, W)>>, u: int, v: usize, w: W)
    requires
        0 <= u < adj.len() <= usize::MAX,
        same_fixed(adj0, adj),
        fw(adj, u, v as int) is Some,
        w.spec_fixed() == fw(adj, u, v as int).unwrap().spec_fixed(),
    ensures
        ({
            let f = first_edge(adj[u], v).unwrap();
            same_fixed(adj0, adj.update(u, adj[u].update(f, (v, w))))
        }),
{
    let f = first_edge(adj[u], v).unwrap();
    lemma_first_edge(adj[u], v);
    assert(fw(adj, u, v as int) == Some(adj[u][f].1));
    assert(0 <= f < adj[u].len());
    let adj2 = adj.update(u, adj[u].update(f, (v, w)));
    assert(adj2.len() == adj.len());
    assert forall|a: int, k: int| 0 <= a < adj2.len() && 0 <= k < adj2[a].len() implies (#[trigger] adj2[a][k]).1.spec_fixed()
        == adj0[a][k].1.spec_fixed() by {
        if a == u {
            assert(adj2[a] == adj[u].update(f, (v, w)));
            assert(adj[u][k].1.spec_fixed() == adj0[u][k].1.spec_fixed());
            if k == f {
                assert(adj2[a][k] == (v, w));
            } else {
                assert(adj2[a][k] == adj[a][k]);
            }
        } else {
            assert(adj2[a] == adj[a]);
            assert(adj[a][k].1.spec_fixed() == adj0[a][k].1.spec_fixed());
        }
    }
}

/// Putting `w` on the first edge `u -> v` changes what the first edge `u -> v` weighs, and
/// nothing else.
pub proof fn lemma_replace_first<W>(adj: Seq<Seq<(usize, W)>>, u: int, v: usize, w: W)
    requires
        0 <= u < adj.len() <= usize::MAX,
        first_edge(adj[u], v) is Some,
    ensures
        ({
            let f = first_edge(adj[u], v).unwrap();
            let adj2 = adj.update(u, adj[u].update(f, (v, w)));
            &&& same_shape(adj, adj2)
            &&& forall|a: int, c: int|
                0 <= a < adj.len() && 0 <= c <= usize::MAX ==> #[trigger] fw(adj2, a, c) == if a == u && c == v {
                    Some(w)
                } else {
                    fw(adj, a, c)
                }
        }),
{
    let f = first_edge(adj[u], v).unwrap();
    let adj2 = adj.update(u, adj[u].update(f, (v, w)));
    lemma_first_edge(adj[u], v);
    assert(adj2.len() == adj.len());
    assert(adj2[u] == adj[u].update(f, (v, w)));
    assert forall|k: int| 0 <= k < adj2[u].len() implies (#[trigger] adj2[u][k]).0 == adj[u][k].0 by {}
    lemma_first_edge_same_targets(adj2[u], adj[u], v);
    assert(first_edge(adj2[u], v) == Some(f));
    assert forall|a: int, c: int| 0 <= a < adj.len() && 0 <= c <= usize::MAX implies #[trigger] fw(adj2, a, c) == if a == u && c == v {
        Some(w)
    } else {
        fw(adj, a, c)
    } by {
        if a == u {
            assert forall|k: int| 0 <= k < adj2[u].len() implies (#[trigger] adj2[u][k]).0 == adj[u][k].0 by {}
            lemma_first_edge_same_targets(adj2[u], adj[u], c as usize);
            lemma_first_edge(adj[u], c as usize);
            if c != v {
                match first_edge(adj[u], c as usize) {
                    Some(g) => {
                        assert(adj[u][g].0 == c as usize);
                        assert(g != f);
                    },
                    None => {},
                }
            }
        } else {
            assert(adj2[a] == adj[a]);
        }
    }
}

pub proof fn lemma_out_res_nonneg<W: Residual>(adj: Seq<Seq<(usize, W)>>, s: int, m: int)
    requires
        flow_ready(adj),
        0 <= s < adj.len(),
        m <= adj.len(),
    ensures
        out_res(adj, s, m) >= 0,
    decreases m,
{
    if m > 0 {
        lemma_out_res_nonneg(adj, s, m - 1);
        if fw(adj, s, m - 1) is Some {
            assert(pair_ok(adj, s, m - 1));
        }
    }
}

/// One term of the sum is at most the sum.
pub proof fn lemma_out_res_term<W: Residual>(adj: Seq<Seq<(usize, W)>>, s: int, m: int, x: int)
    requires
        flow_ready(adj),
        0 <= s < adj.len(),
        0 <= x < m <= adj.len(),
        fw(adj, s, x) is Some,
    ensures
        fw(adj, s, x).unwrap().spec_res() <= out_res(adj, s, m),
    decreases m,
{
    if x < m - 1 {
        lemma_out_res_term(adj, s, m - 1, x);
        if fw(adj, s, m - 1) is Some {
            assert(pair_ok(adj, s, m - 1));
        }
    } else {
        lemma_out_res_nonneg(adj, s, m - 1);
    }
}

/// Where only the edge `s -> x` changed, the sum changes by as much as that edge did.
pub proof fn lemma_out_res_change<W: Residual>(a: Seq<Seq<(usize, W)>>, b: Seq<Seq<(usize, W)>>, s: int, m: int, x: int, d: int)
    requires
        0 <= x,
        forall|v: int| 0 <= v < m && v != x ==> #[trigger] fw(b, s, v) == fw(a, s, v),
        fw(a, s, x) is Some,
        fw(b, s, x) is Some,
        fw(b, s, x).unwrap().spec_res() == fw(a, s, x).unwrap().spec_res() - d,
    ensures
        out_res(b, s, m) == out_res(a, s, m) - (if x < m { d } else { 0 }),
    decreases m,
{
    if m > 0 {
        lemma_out_res_change(a, b, s, m - 1, x, d);
        if m - 1 != x {
            assert(fw(b, s, m - 1) == fw(a, s, m - 1));
        }
    }
}

/// Where only the edges `s -> x1` and `s -> x2` changed, the sum changes by as much as they did.
pub proof fn lemma_out_res_change2<W: Residual>(
    a: Seq<Seq<(usize, W)>>,
    b: Seq<Seq<(usize, W)>>,
    s: int,
    m: int,
    x1: int,
    d1: int,
    x2: int,
    d2: int,
)
    requires
        0 <= x1 < m,
        0 <= x2 < m,
        x1 != x2,
        forall|v: int| 0 <= v < m && v != x1 && v != x2 ==> #[trigger] fw(b, s, v) == fw(a, s, v),
        fw(a, s, x1) is Some,
        fw(b, s, x1) is Some,
        fw(b, s, x1).unwrap().spec_res() == fw(a, s, x1).unwrap().spec_res() - d1,
        fw(a, s, x2) is Some,
        fw(b, s, x2) is Some,
        fw(b, s, x2).unwrap().spec_res() == fw(a, s, x2).unwrap().spec_res() - d2,
    ensures
        out_res(b, s, m) == out_res(a, s, m) - d1 - d2,
    decreases m,
{
    if m - 1 == x1 {
        lemma_out_res_change(a, b, s, m - 1, x2, d2);
    } else if m - 1 == x2 {
        lemma_out_res_change(a, b, s, m - 1, x1, d1);
    } else {
        lemma_out_res_change2(a, b, s, m - 1, x1, d1, x2, d2);
        assert(fw(b, s, m - 1) == fw(a, s, m - 1));
    }
}

/// `adj` is `adj0` with a flow from `s` to `t` added to it: every edge still has its reverse,
/// an edge and its reverse together can take as much as before, and every node but `s` and `t`
/// can send as much along its edges as before, so that what flows into it flows out again.
pub open spec fn flow_added<W: Residual>(adj0: Seq<Seq<(usize, W)>>, adj: Seq<Seq<(usize, W)>>, s: int, t: int) -> bool {
    &&& pairs_kept(adj0, adj)
    &&& forall|w: int|
        0 <= w < adj0.len() && w != s && w != t ==> #[trigger] out_res(adj, w, adj0.len() as int) == out_res(adj0, w, adj0.len() as int)
}

/// Every edge of `adj0` and its reverse are in `adj` too, and together they can take as much
/// as before.
pub open spec fn pairs_kept<W: Residual>(adj0: Seq<Seq<(usize, W)>>, adj: Seq<Seq<(usize, W)>>) -> bool {
    forall|u: int, v: int|
        0 <= u < adj0.len() && 0 <= v < adj0.len() && (#[trigger] fw(adj0, u, v)) is Some ==> {
            &&& fw(adj, u, v) is Some
            &&& fw(adj, v, u) is Some
            &&& fw(adj0, v, u) is Some
            &&& fw(adj, u, v).unwrap().spec_res() + fw(adj, v, u).unwrap().spec_res() == fw(adj0, u, v).unwrap().spec_res() + fw(
                adj0,
                v,
                u,
            ).unwrap().spec_res()
        }
}

/// Keeping the pairs twice keeps them.
pub proof fn lemma_pairs_kept_trans<W: Residual>(a: Seq<Seq<(usize, W)>>, b: Seq<Seq<(usize, W)>>, c: Seq<Seq<(usize, W)>>)
    requires
        a.len() == b.len(),
        pairs_kept(a, b),
        pairs_kept(b, c),
    ensures
        pairs_kept(a, c),
{
    assert forall|u: int, v: int| 0 <= u < a.len() && 0 <= v < a.len() && (#[trigger] fw(a, u, v)) is Some implies {
        &&& fw(c, u, v) is Some
        &&& fw(c, v, u) is Some
        &&& fw(a, v, u) is Some
        &&& fw(c, u, v).unwrap().spec_res() + fw(c, v, u).unwrap().spec_res() == fw(a, u, v).unwrap().spec_res() + fw(
            a,
            v,
            u,
        ).unwrap().spec_res()
    } by {
        assert(fw(b, u, v) is Some);
    }
}

/// Keeping what carrying flow leaves alone, twice, keeps it.
pub proof fn lemma_same_fixed_trans<W: Residual>(a: Seq<Seq<(usize, W)>>, b: Seq<Seq<(usize, W)>>, c: Seq<Seq<(usize, W)>>)
    requires
        same_shape(a, b),
        same_shape(b, c),
        same_fixed(a, b),
        same_fixed(b, c),
    ensures
        same_fixed(a, c),
{
    assert forall|u: int, k: int| 0 <= u < c.len() && 0 <= k < c[u].len() implies (#[trigger] c[u][k]).1.spec_fixed() == a[u][k].1.spec_fixed() by {
        assert(b[u][k].1.spec_fixed() == a[u][k].1.spec_fixed());
    }
}

/// Sending `b` along the path `chain` (from `t` at position 0 back to `s` at position `m`)
/// keeps what every edge and its reverse can take together, and what every node of the path
/// but its two ends, and every node off it, can send.
pub proof fn lemma_augment_keeps<W: Residual>(
    adj1: Seq<Seq<(usize, W)>>,
    adj2: Seq<Seq<(usize, W)>>,
    chain: Seq<int>,
    ord: Seq<nat>,
    m: int,
    b: int,
    s: int,
    t: int,
)
    requires
        adj1.len() == adj2.len(),
        flow_ready(adj1),
        m >= 1,
        chain.len() == m + 1,
        chain[m] == s,
        chain[0] == t,
        forall|j: int| 0 <= j < chain.len() ==> 0 <= #[trigger] chain[j] < adj1.len(),
        forall|i1: int, j: int| 0 <= i1 < j < chain.len() ==> ord[#[trigger] chain[j]] < ord[#[trigger] chain[i1]],
        forall|j: int| 0 <= j < chain.len() - 1 ==> #[trigger] fw(adj1, chain[j + 1], chain[j]) is Some,
        forall|a: int, c: int|
            0 <= a < adj1.len() && 0 <= c < adj1.len() && !on_chain(chain, m, a, c) && !on_chain(chain, m, c, a)
                ==> #[trigger] fw(adj2, a, c) == fw(adj1, a, c),
        forall|a: int, c: int|
            0 <= a < adj1.len() && 0 <= c < adj1.len() && on_chain(chain, m, a, c) ==> {
                &&& #[trigger] fw(adj2, a, c) is Some
                &&& fw(adj2, a, c).unwrap().spec_res() == fw(adj1, a, c).unwrap().spec_res() - b
                &&& fw(adj2, c, a) is Some
                &&& fw(adj2, c, a).unwrap().spec_res() == fw(adj1, c, a).unwrap().spec_res() + b
            },
    ensures
        flow_added(adj1, adj2, s, t),
{
    let n = adj1.len() as int;
    assert forall|u: int, v: int| on_chain(chain, m, u, v) && on_chain(chain, m, v, u) implies false by {
        let j1 = choose|j: int| 0 <= j < m && #[trigger] chain[j + 1] == u && chain[j] == v;
        let j2 = choose|j: int| 0 <= j < m && #[trigger] chain[j + 1] == v && chain[j] == u;
        if j1 < j2 + 1 {
            assert(ord[chain[j2 + 1]] < ord[chain[j1]]);
        } else if j1 > j2 + 1 {
            assert(ord[chain[j1]] < ord[chain[j2 + 1]]);
        }
        assert(j1 == j2 + 1);
        if j1 + 1 < j2 {
            assert(ord[chain[j2]] < ord[chain[j1 + 1]]);
        }
    }
    assert forall|i1: int, j: int| 0 <= i1 < chain.len() && 0 <= j < chain.len() && chain[i1] == chain[j] implies i1 == j by {
        if i1 < j {
            assert(ord[chain[j]] < ord[chain[i1]]);
        } else if j < i1 {
            assert(ord[chain[i1]] < ord[chain[j]]);
        }
    }
    assert forall|u: int, v: int| 0 <= u < n && 0 <= v < n && (#[trigger] fw(adj1, u, v)) is Some implies {
        &&& fw(adj2, u, v) is Some
        &&& fw(adj2, v, u) is Some
        &&& fw(adj1, v, u) is Some
        &&& fw(adj2, u, v).unwrap().spec_res() + fw(adj2, v, u).unwrap().spec_res() == fw(adj1, u, v).unwrap().spec_res() + fw(
            adj1,
            v,
            u,
        ).unwrap().spec_res()
    } by {
        assert(pair_ok(adj1, u, v));
        if on_chain(chain, m, u, v) {
        } else if on_chain(chain, m, v, u) {
        } else {
            assert(fw(adj2, u, v) == fw(adj1, u, v));
            assert(fw(adj2, v, u) == fw(adj1, v, u));
        }
    }
    assert forall|w: int| 0 <= w < n && w != s && w != t implies #[trigger] out_res(adj2, w, n) == out_res(adj1, w, n) by {
        if exists|j: int| 0 <= j < chain.len() && chain[j] == w {
            let j = choose|j: int| 0 <= j < chain.len() && chain[j] == w;
            assert(0 < j < m);
            let x1 = chain[j - 1];
            let x2 = chain[j + 1];
            let jm = j - 1;
            assert(fw(adj1, chain[jm + 1], chain[jm]) is Some);
            assert(on_chain(chain, m, w, x1));
            assert(on_chain(chain, m, x2, w));
            assert(fw(adj1, chain[j + 1], chain[j]) is Some);
            assert(pair_ok(adj1, x2, w));
            assert forall|v: int| 0 <= v < n && v != x1 && v != x2 implies #[trigger] fw(adj2, w, v) == fw(adj1, w, v) by {
                if on_chain(chain, m, w, v) {
                    let k = choose|k: int| 0 <= k < m && #[trigger] chain[k + 1] == w && chain[k] == v;
                    assert(k + 1 == j);
                }
                if on_chain(chain, m, v, w) {
                    let k = choose|k: int| 0 <= k < m && #[trigger] chain[k + 1] == v && chain[k] == w;
                    assert(k == j);
                }
            }
            lemma_out_res_change2(adj1, adj2, w, n, x1, b, x2, -b);
        } else {
            assert forall|v: int| 0 <= v < n implies #[trigger] fw(adj2, w, v) == fw(adj1, w, v) by {
                if on_chain(chain, m, w, v) {
                    let k = choose|k: int| 0 <= k < m && #[trigger] chain[k + 1] == w && chain[k] == v;
                    assert(chain[k + 1] == w);
                }
                if on_chain(chain, m, v, w) {
                    let k = choose|k: int| 0 <= k < m && #[trigger] chain[k + 1] == v && chain[k] == w;
                    assert(chain[k] == w);
                }
            }
            lemma_out_res_same(adj1, adj2, w, n);
        }
    }
}

/// Where no edge leaving `s` changed, neither did the sum.
pub proof fn lemma_out_res_same<W: Residual>(a: Seq<Seq<(usize, W)>>, b: Seq<Seq<(usize, W)>>, s: int, m: int)
    requires
        forall|v: int| 0 <= v < m ==> #[trigger] fw(b, s, v) == fw(a, s, v),
    ensures
        out_res(b, s, m) == out_res(a, s, m),
    decreases m,
{
    if m > 0 {
        lemma_out_res_same(a, b, s, m - 1);
        assert(fw(b, s, m - 1) == fw(a, s, m - 1));
    }
}

/// A network that is ready for flow is itself with no flow added.
pub proof fn lemma_flow_added_refl<W: Residual>(adj: Seq<Seq<(usize, W)>>, s: int, t: int)
    requires
        flow_ready(adj),
    ensures
        flow_added(adj, adj, s, t),
{
    assert forall|u: int, v: int| 0 <= u < adj.len() && 0 <= v < adj.len() && (#[trigger] fw(adj, u, v)) is Some implies fw(
        adj,
        v,
        u,
    ) is Some by {
        assert(pair_ok(adj, u, v));
    }
}

/// Adding one flow after another adds a flow.
pub proof fn lemma_flow_added_trans<W: Residual>(
    a: Seq<Seq<(usize, W)>>,
    b: Seq<Seq<(usize, W)>>,
    c: Seq<Seq<(usize, W)>>,
    s: int,
    t: int,
)
    requires
        a.len() == b.len(),
        flow_added(a, b, s, t),
        flow_added(b, c, s, t),
    ensures
        flow_added(a, c, s, t),
{
    assert forall|u: int, v: int| 0 <= u < a.len() && 0 <= v < a.len() && (#[trigger] fw(a, u, v)) is Some implies {
        &&& fw(c, u, v) is Some
        &&& fw(c, v, u) is Some
        &&& fw(a, v, u) is Some
        &&& fw(c, u, v).unwrap().spec_res() + fw(c, v, u).unwrap().spec_res() == fw(a, u, v).unwrap().spec_res() + fw(
            a,
            v,
            u,
        ).unwrap().spec_res()
    } by {
        assert(fw(b, u, v) is Some);
    }
    assert forall|w: int| 0 <= w < a.len() && w != s && w != t implies #[trigger] out_res(c, w, a.len() as int) == out_res(
        a,
        w,
        a.len() as int,
    ) by {
        assert(out_res(b, w, b.len() as int) == out_res(a, w, a.len() as int));
    }
}

/// The path finder hands back augmenting paths only.
pub open spec fn finds_paths<N, W: Residual, F: Fn(&AdjacencyList<N, W, true>, NodeId, NodeId) -> Option<Parents>>(sp: F) -> bool {
    &&& forall|g: &AdjacencyList<N, W, true>, s: NodeId, t: NodeId|
        g.spec_wf() && adj_wf(g.spec_adj()) && s.0 < g.spec_nodes().len() && t.0 < g.spec_nodes().len()
            ==> #[trigger] sp.requires((g, s, t))
    &&& forall|g: &AdjacencyList<N, W, true>, s: NodeId, t: NodeId, o: Option<Parents>|
        #[trigger] sp.ensures((g, s, t), o) ==> (o matches Some(p) ==> augmenting(g.spec_adj(), p@, s.0 as int, t.0 as int))
}

/// Whether `(a, c)` is the edge between positions `j + 1` and `j` of `chain`, for some `j`
/// below `i`.
pub open spec fn on_chain(chain: Seq<int>, i: int, a: int, c: int) -> bool {
    exists|j: int| 0 <= j < i && #[trigger] chain[j + 1] == a && chain[j] == c
}

/// After the bottleneck `b` went along the path `chain` (from the sink at position 0 back to
/// the source at position `m`), the network is still ready for flow, and the edges leaving the
/// source lost `b` of what they can take.
pub proof fn lemma_augmented<W: Residual>(
    adj1: Seq<Seq<(usize, W)>>,
    adj2: Seq<Seq<(usize, W)>>,
    chain: Seq<int>,
    ord: Seq<nat>,
    m: int,
    b: int,
    s: int,
)
    requires
        adj1.len() == adj2.len() <= usize::MAX,
        same_shape(adj1, adj2),
        flow_ready(adj1),
        m >= 1,
        chain.len() == m + 1,
        chain[m] == s,
        forall|j: int| 0 <= j < chain.len() ==> 0 <= #[trigger] chain[j] < adj1.len(),
        forall|j: int| 0 <= j < chain.len() - 1 ==> #[trigger] chain[j] != s,
        forall|i1: int, j: int| 0 <= i1 < j < chain.len() ==> ord[#[trigger] chain[j]] < ord[#[trigger] chain[i1]],
        0 < b,
        forall|j: int|
            0 <= j < chain.len() - 1 ==> #[trigger] fw(adj1, chain[j + 1], chain[j]) is Some && b <= fw(
                adj1,
                chain[j + 1],
                chain[j],
            ).unwrap().spec_res(),
        forall|a: int, c: int|
            0 <= a < adj1.len() && 0 <= c < adj1.len() && !on_chain(chain, m, a, c) && !on_chain(chain, m, c, a)
                ==> #[trigger] fw(adj2, a, c) == fw(adj1, a, c),
        forall|a: int, c: int|
            0 <= a < adj1.len() && 0 <= c < adj1.len() && on_chain(chain, m, a, c) ==> {
                &&& #[trigger] fw(adj2, a, c) is Some
                &&& fw(adj2, a, c).unwrap().spec_res() == fw(adj1, a, c).unwrap().spec_res() - b
                &&& fw(adj2, a, c).unwrap().spec_room() == fw(adj1, a, c).unwrap().spec_room() + b
                &&& fw(adj2, c, a) is Some
                &&& fw(adj2, c, a).unwrap().spec_res() == fw(adj1, c, a).unwrap().spec_res() + b
                &&& fw(adj2, c, a).unwrap().spec_room() == fw(adj1, c, a).unwrap().spec_room() - b
            },
    ensures
        flow_ready(adj2),
        out_res(adj2, s, adj1.len() as int) == out_res(adj1, s, adj1.len() as int) - b,
{
    let n = adj1.len() as int;
    assert forall|u: int, v: int| on_chain(chain, m, u, v) && on_chain(chain, m, v, u) implies false by {
        let j1 = choose|j: int| 0 <= j < m && #[trigger] chain[j + 1] == u && chain[j] == v;
        let j2 = choose|j: int| 0 <= j < m && #[trigger] chain[j + 1] == v && chain[j] == u;
        if j1 < j2 + 1 {
            assert(ord[chain[j2 + 1]] < ord[chain[j1]]);
        } else if j1 > j2 + 1 {
            assert(ord[chain[j1]] < ord[chain[j2 + 1]]);
        }
        assert(j1 == j2 + 1);
        if j1 + 1 < j2 {
            assert(ord[chain[j2]] < ord[chain[j1 + 1]]);
        }
    }
    assert forall|u: int, v: int| 0 <= u < n && 0 <= v < n && (#[trigger] fw(adj2, u, v)) is Some implies pair_ok(adj2, u, v) by {
        if on_chain(chain, m, u, v) {
            let j = choose|j: int| 0 <= j < m && #[trigger] chain[j + 1] == u && chain[j] == v;
            assert(fw(adj1, chain[j + 1], chain[j]) is Some);
            assert(pair_ok(adj1, u, v));
        } else if on_chain(chain, m, v, u) {
            let j = choose|j: int| 0 <= j < m && #[trigger] chain[j + 1] == v && chain[j] == u;
            assert(fw(adj1, chain[j + 1], chain[j]) is Some);
            assert(pair_ok(adj1, v, u));
            assert(fw(adj2, v, u) is Some);
        } else {
            assert(fw(adj2, u, v) == fw(adj1, u, v));
            assert(fw(adj2, v, u) == fw(adj1, v, u));
            assert(pair_ok(adj1, u, v));
        }
    }
    let x = chain[m - 1];
    let jm = m - 1;
    assert(fw(adj1, chain[jm + 1], chain[jm]) is Some);
    assert(on_chain(chain, m, s, x));
    assert forall|v: int| 0 <= v < n && v != x implies #[trigger] fw(adj2, s, v) == fw(adj1, s, v) by {
        if on_chain(chain, m, s, v) {
            let j = choose|j: int| 0 <= j < m && #[trigger] chain[j + 1] == s && chain[j] == v;
            if j + 1 < m {
                assert(chain[j + 1] != s);
            }
        }
        if on_chain(chain, m, v, s) {
            let j = choose|j: int| 0 <= j < m && #[trigger] chain[j + 1] == v && chain[j] == s;
            assert(chain[j] != s);
        }
    }
    assert(0 <= s < n);
    lemma_out_res_change(adj1, adj2, s, n, x, b);
}

/// Ford and Fulkerson's method: while `sp` finds a path from `source` to `sink` whose edges can
/// all take more, sends along it as much as its narrowest edge allows. Returns the total sent,
/// which is what the edges leaving `source` lost of their residual capacity.
#[verifier::spinoff_prover]
#[verifier::rlimit(60)]
pub fn _ford_fulkerson<N, W: Residual, F: Fn(&AdjacencyList<N, W, true>, NodeId, NodeId) -> Option<Parents>>(
    graph: &mut AdjacencyList<N, W, true>,
    source: NodeId,
    sink: NodeId,
    sp: F,
) -> (r: i64)
    requires
        old(graph).spec_wf(),
        adj_wf(old(graph).spec_adj()),
        source.0 < old(graph).spec_nodes().len(),
        sink.0 < old(graph).spec_nodes().len(),
        source != sink,
        flow_ready(old(graph).spec_adj()),
        out_res(old(graph).spec_adj(), source.0 as int, old(graph).spec_nodes().len() as int) <= i64::MAX,
        finds_paths(sp),
    ensures
        final(graph).spec_wf(),
        final(graph).spec_nodes() == old(graph).spec_nodes(),
        same_shape(old(graph).spec_adj(), final(graph).spec_adj()),
        flow_ready(final(graph).spec_adj()),
        r == out_res(old(graph).spec_adj(), source.0 as int, old(graph).spec_nodes().len() as int) - out_res(
            final(graph).spec_adj(),
            source.0 as int,
            old(graph).spec_nodes().len() as int,
        ),
        flow_added(old(graph).spec_adj(), final(graph).spec_adj(), source.0 as int, sink.0 as int),
        same_fixed(old(graph).spec_adj(), final(graph).spec_adj()),
        sp.ensures((&*final(graph), source, sink), None::<Parents>),
{
    proof {
        graph.lemma_wf();
    }
    let ghost adj0 = graph.spec_adj();
    proof {
        lemma_flow_added_refl(adj0, source.0 as int, sink.0 as int);
    }
    let ghost nodes0 = graph.spec_nodes();
    let n = graph.node_count();
    let ghost s = source.0 as int;
    let mut total: i64 = 0;
    proof {
        lemma_out_res_nonneg(adj0, s, n as int);
    }
    loop
        invariant
            graph.spec_wf(),
            graph.spec_nodes() == nodes0,
            n == nodes0.len(),
            n == adj0.len(),
            n <= usize::MAX,
            adj_wf(adj0),
            same_shape(adj0, graph.spec_adj()),
            flow_ready(graph.spec_adj()),
            s == source.0,
            source.0 < n,
            sink.0 < n,
            source != sink,
            finds_paths(sp),
            out_res(adj0, s, n as int) <= i64::MAX,
            0 <= out_res(graph.spec_adj(), s, n as int),
            total == out_res(adj0, s, n as int) - out_res(graph.spec_adj(), s, n as int),
            flow_added(adj0, graph.spec_adj(), s, sink.0 as int),
            same_fixed(adj0, graph.spec_adj()),
        ensures
            sp.ensures((&*graph, source, sink), None::<Parents>),
        decreases out_res(graph.spec_adj(), s, n as int),
    {
        let ghost adj1 = graph.spec_adj();
        proof {
            assert(adj_wf(adj1)) by {
                assert forall|u: int, k: int| 0 <= u < adj1.len() && 0 <= k < adj1[u].len() implies #[trigger] adj1[u][k].0 < adj1.len() by {
                    assert(adj1[u][k].0 == adj0[u][k].0);
                }
            }
        }
        let found = sp(&*graph, source, sink);
        let parents = match found {
            Some(p) => p,
            None => {
                break;
            },
        };
        let ghost p = parents@;
        let ghost ord: Seq<nat> = choose|ord: Seq<nat>| #[trigger] parent_chain(adj1, p, s, ord);
        // the narrowest edge of the path
        let mut to = sink;
        let mut bottleneck: Option<i64> = None;
        let ghost mut chain: Seq<int> = seq![sink.0 as int];
        while to != source
            invariant
                graph.spec_wf(),
                adj1 == graph.spec_adj(),
                graph.spec_nodes().len() == n,
                n == adj1.len(),
                n <= usize::MAX,
                flow_ready(adj1),
                parents@ == p,
                parent_chain(adj1, p, s, ord),
                s == source.0,
                source.0 < n,
                to.0 < n,
                to == source || p[to.0 as int] is Some,
                chain.len() >= 1,
                chain[0] == sink.0,
                chain.last() == to.0,
                forall|j: int| 0 <= j < chain.len() ==> 0 <= #[trigger] chain[j] < n,
                forall|j: int| 0 <= j < chain.len() - 1 ==> #[trigger] chain[j] != s,
                forall|i: int, j: int| 0 <= i < j < chain.len() ==> ord[#[trigger] chain[j]] < ord[#[trigger] chain[i]],
                forall|j: int|
                    0 <= j < chain.len() - 1 ==> #[trigger] fw(adj1, chain[j + 1], chain[j]) is Some && p[chain[j]] == Some(
                        NodeId(chain[j + 1] as usize),
                    ),
                match bottleneck {
                    None => chain.len() == 1,
                    Some(b) => chain.len() >= 2 && 0 < b && forall|j: int|
                        0 <= j < chain.len() - 1 ==> b <= (#[trigger] fw(adj1, chain[j + 1], chain[j])).unwrap().spec_res(),
                },
            decreases ord[to.0 as int],
        {
            let from = parents.parent(to).unwrap();
            proof {
                assert(parent_chain(adj1, p, s, ord));
                assert(pair_ok(adj1, from.0 as int, to.0 as int));
            }
            let w = graph.weight(EdgeId { from, to }).unwrap();
            let rc = w.residual();
            bottleneck = match bottleneck {
                Some(b) => if b > rc {
                    Some(rc)
                } else {
                    Some(b)
                },
                None => Some(rc),
            };
            proof {
                let c2 = chain.push(from.0 as int);
                assert forall|i: int, j: int| 0 <= i < j < c2.len() implies ord[#[trigger] c2[j]] < ord[#[trigger] c2[i]] by {
                    if j == c2.len() - 1 && i < j - 1 {
                        assert(ord[chain[j - 1]] < ord[chain[i]]);
                    }
                }
                assert forall|j: int| 0 <= j < c2.len() - 1 implies #[trigger] fw(adj1, c2[j + 1], c2[j]) is Some && p[c2[j]] == Some(
                    NodeId(c2[j + 1] as usize),
                ) by {
                    if j < chain.len() - 1 {
                        assert(c2[j] == chain[j] && c2[j + 1] == chain[j + 1]);
                    }
                }
                chain = c2;
            }
            to = from;
        }
        let b = bottleneck.unwrap();
        let ghost m = chain.len() - 1;
        proof {
            assert(chain[m] == s);
            let x = chain[m - 1];
            let j = m - 1;
            assert(fw(adj1, chain[j + 1], chain[j]) is Some);
            assert(fw(adj1, s, x) is Some);
            lemma_out_res_term(adj1, s, n as int, x);
        }
        total = total + b;
        // send the bottleneck along the path
        let mut to = sink;
        let ghost mut i: int = 0;
        while to != source
            invariant
                graph.spec_wf(),
                graph.spec_nodes() == nodes0,
                n == nodes0.len(),
                n == adj1.len(),
                n <= usize::MAX,
                same_shape(adj1, graph.spec_adj()),
                flow_ready(adj1),
                parents@ == p,
                p.len() == n,
                s == source.0,
                0 <= i <= m,
                m == chain.len() - 1,
                chain[0] == sink.0,
                same_shape(adj0, adj1),
                same_fixed(adj0, graph.spec_adj()),
                to.0 == chain[i],
                chain[m] == s,
                forall|j: int| 0 <= j < chain.len() ==> 0 <= #[trigger] chain[j] < n,
                forall|j: int| 0 <= j < chain.len() - 1 ==> #[trigger] chain[j] != s,
                forall|i1: int, j: int| 0 <= i1 < j < chain.len() ==> ord[#[trigger] chain[j]] < ord[#[trigger] chain[i1]],
                forall|j: int|
                    0 <= j < chain.len() - 1 ==> #[trigger] fw(adj1, chain[j + 1], chain[j]) is Some && p[chain[j]] == Some(
                        NodeId(chain[j + 1] as usize),
                    ),
                0 < b,
                forall|j: int| 0 <= j < chain.len() - 1 ==> b <= (#[trigger] fw(adj1, chain[j + 1], chain[j])).unwrap().spec_res(),
                forall|a: int, c: int|
                    0 <= a < n && 0 <= c < n && !on_chain(chain, i, a, c) && !on_chain(chain, i, c, a) ==> #[trigger] fw(
                        graph.spec_adj(),
                        a,
                        c,
                    ) == fw(adj1, a, c),
                forall|a: int, c: int|
                    0 <= a < n && 0 <= c < n && on_chain(chain, i, a, c) ==> {
                        &&& #[trigger] fw(graph.spec_adj(), a, c) is Some
                        &&& fw(graph.spec_adj(), a, c).unwrap().spec_res() == fw(adj1, a, c).unwrap().spec_res() - b
                        &&& fw(graph.spec_adj(), a, c).unwrap().spec_room() == fw(adj1, a, c).unwrap().spec_room() + b
                        &&& fw(graph.spec_adj(), c, a) is Some
                        &&& fw(graph.spec_adj(), c, a).unwrap().spec_res() == fw(adj1, c, a).unwrap().spec_res() + b
                        &&& fw(graph.spec_adj(), c, a).unwrap().spec_room() == fw(adj1, c, a).unwrap().spec_room() - b
                    },
            decreases m - i,
        {
            proof {
                let j = i;
                assert(fw(adj1, chain[j + 1], chain[j]) is Some && p[chain[j]] == Some(NodeId(chain[j + 1] as usize)));
            }
            let from = parents.parent(to).unwrap();
            proof {
                assert(from.0 == chain[i + 1]);
                assert(pair_ok(adj1, from.0 as int, to.0 as int));
                assert(!on_chain(chain, i, from.0 as int, to.0 as int));
                assert(!on_chain(chain, i, to.0 as int, from.0 as int));
            }
            let w = *graph.weight(EdgeId { from, to }).unwrap();
            proof {
                assert(fw(graph.spec_adj(), from.0 as int, to.0 as int) == fw(adj1, from.0 as int, to.0 as int));
            }
            let ghost g1 = graph.spec_adj();
            let nw = w.push(b);
            let _ = graph.replace_weight(from, to, nw);
            proof {
                lemma_replace_first(g1, from.0 as int, to.0, nw);
                lemma_replace_fixed(adj0, g1, from.0 as int, to.0, nw);
                let ii = i + 1;
                assert(ord[chain[ii]] < ord[chain[i]]);
                assert(from != to);
                assert(fw(g1, to.0 as int, from.0 as int) == fw(adj1, to.0 as int, from.0 as int));
                assert(fw(graph.spec_adj(), to.0 as int, from.0 as int) == fw(adj1, to.0 as int, from.0 as int));
            }
            let wr = *graph.weight(EdgeId { from: to, to: from }).unwrap();
            let ghost g2 = graph.spec_adj();
            let nr = wr.pull(b);
            let _ = graph.replace_weight(to, from, nr);
            proof {
                lemma_replace_first(g2, to.0 as int, from.0, nr);
                lemma_replace_fixed(adj0, g2, to.0 as int, from.0, nr);
            }
            to = from;
            proof {
                i = i + 1;
            }
        }
        proof {
            assert(i == m);
            lemma_augmented(adj1, graph.spec_adj(), chain, ord, m, b as int, s);
            lemma_augment_keeps(adj1, graph.spec_adj(), chain, ord, m, b as int, s, sink.0 as int);
            lemma_flow_added_trans(adj0, adj1, graph.spec_adj(), s, sink.0 as int);
            lemma_same_shape_trans(adj0, adj1, graph.spec_adj());
        }
    }
    total
}

pub proof fn lemma_same_shape_trans<W>(a: Seq<Seq<(usize, W)>>, b: Seq<Seq<(usize, W)>>, c: Seq<Seq<(usize, W)>>)
    requires
        same_shape(a, b),
        same_shape(b, c),
    ensures
        same_shape(a, c),
{
    assert forall|u: int, k: int| 0 <= u < c.len() && 0 <= k < c[u].len() implies (#[trigger] c[u][k]).0 == a[u][k].0 by {
        assert(b[u].len() == c[u].len());
        assert(b[u][k].0 == a[u][k].0);
    }
}

/// The test that an edge of a residual network passes when it can take more flow.
pub open spec fn room<W: Residual>() -> spec_fn(W) -> bool {
    |w: W| w.spec_res() > 0
}

/// A walk from `from` whose every step passes `ok`, judged on the weight of the first stored
/// edge that joins the two nodes the step connects.
pub open spec fn walk_by<W>(adj: Seq<Seq<(usize, W)>>, from: int, steps: Seq<(int, int)>, ok: spec_fn(W) -> bool) -> bool {
    &&& walk_ok(adj, from, steps)
    &&& forall|i: int|
        0 <= i < steps.len() ==> ok(
            #[trigger] fw(adj, walk_node(adj, from, steps, i), walk_node(adj, from, steps, i + 1)).unwrap(),
        )
}

/// Every edge of `v` whose first stored weight passes `ok` leads to a marked node.
spec fn closed_at<W>(adj: Seq<Seq<(usize, W)>>, marks: Seq<usize>, ok: spec_fn(W) -> bool, v: int) -> bool {
    forall|j: int|
        0 <= j < adj[v].len() && ok(fw(adj, v, adj[v][j].0 as int).unwrap()) ==> marks[#[trigger] adj[v][j].0 as int] != 0
}

/// `v` waits in the frontier at or after `head`.
spec fn waiting(frontier: Seq<NodeId>, head: int, v: int) -> bool {
    exists|j: int| head <= j < frontier.len() && (#[trigger] frontier[j]).0 == v
}

/// No walk that passes `ok` leaves a set of marked nodes that holds `from` and whose every node
/// is closed, so none reaches an unmarked node.
proof fn lemma_closed_unreachable<W>(adj: Seq<Seq<(usize, W)>>, marks: Seq<usize>, ok: spec_fn(W) -> bool, from: int, t: int)
    requires
        adj_wf(adj),
        marks.len() == adj.len(),
        0 <= from < adj.len(),
        marks[from] != 0,
        0 <= t < adj.len(),
        marks[t] == 0,
        forall|v: int| 0 <= v < adj.len() && marks[v] != 0 ==> #[trigger] closed_at(adj, marks, ok, v),
    ensures
        forall|steps: Seq<(int, int)>| walk_by(adj, from, steps, ok) ==> #[trigger] walk_end(adj, from, steps) != t,
{
    assert forall|steps: Seq<(int, int)>| walk_by(adj, from, steps, ok) implies #[trigger] walk_end(adj, from, steps) != t by {
        if walk_end(adj, from, steps) == t {
            let inside = |v: int| 0 <= v < adj.len() && marks[v] != 0;
            lemma_walk_exit(adj, from, steps, inside);
            let i = choose|i: int|
                0 <= i < steps.len() && inside(#[trigger] walk_node(adj, from, steps, i)) && !inside(
                    walk_node(adj, from, steps, i + 1),
                );
            let u = walk_node(adj, from, steps, i);
            let k = steps[i].1;
            assert(steps[i].0 == u);
            assert(walk_node(adj, from, steps, i + 1) == adj[u][k].0 as int);
            assert(ok(fw(adj, u, adj[u][k].0 as int).unwrap()));
            assert(closed_at(adj, marks, ok, u));
            assert(marks[adj[u][k].0 as int] != 0);
        }
    }
}

/// Marking more nodes keeps a node closed.
proof fn lemma_closed_grow<W>(adj: Seq<Seq<(usize, W)>>, m0: Seq<usize>, m1: Seq<usize>, ok: spec_fn(W) -> bool, v: int)
    requires
        adj_wf(adj),
        m0.len() == adj.len(),
        m1.len() == adj.len(),
        0 <= v < adj.len(),
        closed_at(adj, m0, ok, v),
        forall|u: int| 0 <= u < adj.len() && m0[u] != 0 ==> #[trigger] m1[u] != 0,
    ensures
        closed_at(adj, m1, ok, v),
{
    assert forall|j: int| 0 <= j < adj[v].len() && ok(fw(adj, v, adj[v][j].0 as int).unwrap()) implies m1[#[trigger] adj[v][j].0 as int] != 0 by {
        assert(m0[adj[v][j].0 as int] != 0);
    }
}

/// Following the parent links `p` back from `t` reaches `s` in `m` hops.
pub open spec fn hops_back(p: Seq<Option<NodeId>>, s: int, t: int, m: nat) -> bool
    decreases m,
{
    if m == 0 {
        t == s
    } else {
        &&& 0 <= t < p.len()
        &&& p[t] is Some
        &&& hops_back(p, s, p[t].unwrap().0 as int, (m - 1) as nat)
    }
}

/// The parent links `p` lead back from `t` to `s` in as few hops as any walk from `s` to `t`
/// whose every step passes `ok` takes.
pub open spec fn fewest_hops<W>(adj: Seq<Seq<(usize, W)>>, p: Seq<Option<NodeId>>, s: int, t: int, ok: spec_fn(W) -> bool) -> bool {
    exists|m: nat|
        #[trigger] hops_back(p, s, t, m) && forall|steps: Seq<(int, int)>|
            walk_by(adj, s, steps, ok) && #[trigger] walk_end(adj, s, steps) == t ==> steps.len() >= m
}

/// Every edge of `v` whose first stored weight passes `ok` leads to a node at most one level
/// deeper.
spec fn level_closed<W>(adj: Seq<Seq<(usize, W)>>, dep: Seq<nat>, ok: spec_fn(W) -> bool, v: int) -> bool {
    forall|j: int|
        0 <= j < adj[v].len() && ok(fw(adj, v, adj[v][j].0 as int).unwrap()) ==> dep[#[trigger] adj[v][j].0 as int] <= dep[v] + 1
}

/// Setting a parent for a node that had none and is not `s` keeps every chain of links that
/// ends at `s` and passes only nodes with parents.
pub proof fn lemma_hops_update(p: Seq<Option<NodeId>>, s: int, v: int, m: nat, to: int, f: NodeId)
    requires
        hops_back(p, s, v, m),
        0 <= to < p.len(),
        to != s,
        p[to] is None,
    ensures
        hops_back(p.update(to, Some(f)), s, v, m),
    decreases m,
{
    if m > 0 {
        lemma_hops_update(p, s, p[v].unwrap().0 as int, (m - 1) as nat, to, f);
    }
}

/// A walk from `s` whose steps pass `ok` takes, after `i` steps, at least `i` steps, or stands
/// on a node found on a level no deeper than `i`.
proof fn lemma_level_prefix<W>(
    adj: Seq<Seq<(usize, W)>>,
    visited: Seq<usize>,
    frontier: Seq<NodeId>,
    head: int,
    dep: Seq<nat>,
    lvl: nat,
    ok: spec_fn(W) -> bool,
    s: int,
    t: int,
    steps: Seq<(int, int)>,
    i: int,
)
    requires
        adj_wf(adj),
        visited.len() == adj.len(),
        dep.len() == adj.len(),
        0 <= s < adj.len(),
        visited[s] != 0,
        dep[s] == 0,
        0 <= t < adj.len(),
        dep[t] == lvl,
        forall|a: int| head <= a < frontier.len() ==> lvl <= #[trigger] dep[frontier[a].0 as int],
        forall|v: int|
            0 <= v < adj.len() && #[trigger] visited[v] != 0 && v != t && !waiting(frontier, head, v) ==> dep[v] <= lvl
                && closed_at(adj, visited, ok, v) && level_closed(adj, dep, ok, v),
        walk_by(adj, s, steps, ok),
        0 <= i <= steps.len(),
    ensures
        i >= lvl || (0 <= walk_node(adj, s, steps, i) < adj.len() && visited[walk_node(adj, s, steps, i)] != 0 && dep[walk_node(
            adj,
            s,
            steps,
            i,
        )] <= i),
    decreases i,
{
    if i > 0 {
        lemma_level_prefix(adj, visited, frontier, head, dep, lvl, ok, s, t, steps, i - 1);
        if i - 1 < lvl {
            let v = walk_node(adj, s, steps, i - 1);
            if dep[v] < lvl {
                if waiting(frontier, head, v) {
                    let a = choose|a: int| head <= a < frontier.len() && (#[trigger] frontier[a]).0 == v;
                    assert(lvl <= dep[frontier[a].0 as int]);
                }
                let k = steps[i - 1].1;
                assert(steps[i - 1].0 == v);
                assert(walk_node(adj, s, steps, i) == adj[v][k].0 as int);
                let j = i - 1;
                assert(ok(fw(adj, walk_node(adj, s, steps, j), walk_node(adj, s, steps, j + 1)).unwrap()));
                assert(j + 1 == i);
                assert(closed_at(adj, visited, ok, v));
                assert(level_closed(adj, dep, ok, v));
                assert(visited[adj[v][k].0 as int] != 0);
                assert(dep[adj[v][k].0 as int] <= dep[v] + 1);
            }
        }
    }
}

/// Searches from `source` along edges whose first stored weight passes `cost`, taking the next
/// node from the back of the frontier (depth first) or, with `fifo`, from its front (breadth
/// first). When it takes `sink`, returns the parent links it has set; `None` when the frontier
/// runs dry first.
#[verifier::rlimit(80)]
#[verifier::spinoff_prover]
pub(crate) fn search_sp<G: IndexAdjacent + Count + Get, F: Fn(&G::Weight) -> bool>(
    graph: &G,
    source: NodeId,
    sink: NodeId,
    cost: F,
    fifo: bool,
) -> (r: Option<Parents>)
    requires
        graph.spec_wf(),
        adj_wf(graph.spec_adj()),
        source.0 < graph.spec_nodes().len(),
        sink.0 < graph.spec_nodes().len(),
        forall|w: &G::Weight| #[trigger] cost.requires((w,)),
    ensures
        r matches Some(p) ==> reaches_by(
            graph.spec_adj(),
            p@,
            source.0 as int,
            sink.0 as int,
            |w: G::Weight| cost.ensures((&w,), true),
        ),
        r is None ==> forall|steps: Seq<(int, int)>|
            walk_by(
                graph.spec_adj(),
                source.0 as int,
                steps,
                |w: G::Weight| forall|b: bool| cost.ensures((&w,), b) ==> b,
            ) ==> #[trigger] walk_end(graph.spec_adj(), source.0 as int, steps) != sink.0,
        fifo ==> (r matches Some(p) ==> fewest_hops(
            graph.spec_adj(),
            p@,
            source.0 as int,
            sink.0 as int,
            |w: G::Weight| forall|b: bool| cost.ensures((&w,), b) ==> b,
        )),
{
    proof {
        graph.lemma_wf();
    }
    let ghost adj = graph.spec_adj();
    let ghost s = source.0 as int;
    let ghost ok = |w: G::Weight| cost.ensures((&w,), true);
    let ghost okm = |w: G::Weight| forall|b: bool| cost.ensures((&w,), b) ==> b;
    let count = graph.node_count();
    let mut frontier: Vec<NodeId> = Vec::new();
    let mut head: usize = 0;
    let mut visited = zeros(count);
    let mut parents = Parents::with_count(count);
    frontier.push(source);
    visited.set(source.0, 1);
    let ghost mut ord: Seq<nat> = Seq::new(count as nat, |i: int| 0nat);
    let ghost mut k: nat = 1;
    let ghost mut dep: Seq<nat> = Seq::new(count as nat, |i: int| 0nat);
    let ghost mut lvl: nat = 0;
    proof {
        lemma_count_free_bound(visited@);
        assert forall|v: int| 0 <= v < count && #[trigger] visited@[v] != 0 implies waiting(frontier@, head as int, v) by {
            assert(v == s);
            assert(frontier@[0].0 == v);
        }
    }
    while head < frontier.len()
        invariant
            graph.spec_wf(),
            adj == graph.spec_adj(),
            adj_wf(adj),
            count == adj.len(),
            count == graph.spec_nodes().len(),
            s == source.0,
            source.0 < count,
            sink.0 < count,
            forall|w: &G::Weight| #[trigger] cost.requires((w,)),
            ok == (|w: G::Weight| cost.ensures((&w,), true)),
            visited@.len() == count,
            parents@.len() == count,
            head <= frontier@.len(),
            forall|i: int| head <= i < frontier@.len() ==> (#[trigger] frontier@[i]).0 < count && visited@[frontier@[i].0 as int] != 0,
            forall|v: int| 0 <= v < count ==> ((#[trigger] visited@[v]) != 0) == (v == s || parents@[v] is Some),
            parents@[s] is None,
            ord.len() == count,
            chain_by(adj, parents@, s, ord, ok),
            forall|v: int| 0 <= v < count && visited@[v] != 0 ==> #[trigger] ord[v] < k,
            okm == (|w: G::Weight| forall|b: bool| cost.ensures((&w,), b) ==> b),
            forall|a: int, b: int| head <= a < b < frontier@.len() ==> frontier@[a] != frontier@[b],
            forall|v: int|
                0 <= v < count && #[trigger] visited@[v] != 0 ==> waiting(frontier@, head as int, v) || (v != sink.0
                    && closed_at(adj, visited@, okm, v)),
            dep.len() == count,
            fifo ==> dep[s] == 0,
            fifo ==> forall|v: int| 0 <= v < count && #[trigger] visited@[v] != 0 ==> hops_back(parents@, s, v, dep[v]) && dep[v] <= lvl + 1,
            fifo ==> forall|a: int| head <= a < frontier@.len() ==> lvl <= #[trigger] dep[frontier@[a].0 as int],
            fifo ==> forall|a: int, b: int|
                #![trigger frontier@[a], frontier@[b]]
                head <= a <= b < frontier@.len() ==> dep[frontier@[a].0 as int] <= dep[frontier@[b].0 as int],
            fifo ==> forall|v: int|
                0 <= v < count && #[trigger] visited@[v] != 0 && !waiting(frontier@, head as int, v) ==> dep[v] <= lvl && level_closed(
                    adj,
                    dep,
                    okm,
                    v,
                ),
        decreases 2 * count_free(visited@) + frontier@.len() - head,
    {
        let ghost f0 = frontier@;
        let ghost h0 = head as int;
        let ghost at: int = if fifo { h0 } else { f0.len() - 1 };
        let from = if fifo {
            let f = frontier[head];
            head = head + 1;
            f
        } else {
            frontier.pop().unwrap()
        };
        proof {
            assert(f0[at] == from);
            assert forall|j: int| head <= j < frontier@.len() implies #[trigger] frontier@[j] == f0[j] && h0 <= j && j != at by {}
            assert(!waiting(frontier@, head as int, from.0 as int)) by {
                if waiting(frontier@, head as int, from.0 as int) {
                    let j = choose|j: int| head <= j < frontier@.len() && (#[trigger] frontier@[j]).0 == from.0;
                    assert(f0[j] == frontier@[j]);
                    assert(f0[j].0 == f0[at].0);
                    if j < at {
                        assert(f0[j] != f0[at]);
                    } else {
                        assert(f0[at] != f0[j]);
                    }
                }
            }
            assert forall|v: int|
                0 <= v < count && v != from.0 && #[trigger] visited@[v] != 0 implies waiting(frontier@, head as int, v)
                    || (v != sink.0 && closed_at(adj, visited@, okm, v)) by {
                if waiting(f0, h0, v) {
                    let j = choose|j: int| h0 <= j < f0.len() && (#[trigger] f0[j]).0 == v;
                    assert(j != at);
                    assert(frontier@[j] == f0[j]);
                }
            }
        }
        proof {
            if fifo {
                let old_lvl = lvl;
                assert(lvl <= dep[f0[h0].0 as int]);
                lvl = dep[from.0 as int];
                assert forall|a: int| head <= a < frontier@.len() implies lvl <= #[trigger] dep[frontier@[a].0 as int] by {
                    assert(frontier@[a] == f0[a]);
                    assert(dep[f0[h0].0 as int] <= dep[f0[a].0 as int]);
                }
                assert forall|v: int| 0 <= v < count && #[trigger] visited@[v] != 0 implies hops_back(parents@, s, v, dep[v]) && dep[v] <= lvl + 1 by {}
                assert forall|v: int|
                    0 <= v < count && #[trigger] visited@[v] != 0 && v != from.0 && !waiting(frontier@, head as int, v) implies dep[v] <= lvl
                        && level_closed(adj, dep, okm, v) by {
                    if waiting(f0, h0, v) {
                        let j = choose|j: int| h0 <= j < f0.len() && (#[trigger] f0[j]).0 == v;
                        assert(j != at);
                        assert(frontier@[j] == f0[j]);
                    }
                }
            }
        }
        if from == sink {
            proof {
                assert(chain_by(adj, parents@, s, ord, ok));
                if fifo {
                    let t = sink.0 as int;
                    assert forall|v: int|
                        0 <= v < adj.len() && #[trigger] visited@[v] != 0 && v != t && !waiting(frontier@, head as int, v) implies dep[v] <= lvl
                            && closed_at(adj, visited@, okm, v) && level_closed(adj, dep, okm, v) by {}
                    assert forall|steps: Seq<(int, int)>|
                        walk_by(adj, s, steps, okm) && #[trigger] walk_end(adj, s, steps) == t implies steps.len() >= dep[t] by {
                        lemma_level_prefix(adj, visited@, frontier@, head as int, dep, lvl, okm, s, t, steps, steps.len() as int);
                    }
                    assert(hops_back(parents@, s, t, dep[t]));
                    assert(fewest_hops(adj, parents@, s, t, okm));
                }
            }
            return Some(parents);
        }
        let targets = graph.adjacent_node_ids(from);
        let ghost m0 = 2 * count_free(visited@) + frontier@.len() - head;
        let mut i: usize = 0;
        while i < targets.len()
            invariant
                graph.spec_wf(),
                adj == graph.spec_adj(),
                adj_wf(adj),
                count == adj.len(),
                count == graph.spec_nodes().len(),
                s == source.0,
                source.0 < count,
                from.0 < count,
                visited@[from.0 as int] != 0,
                forall|w: &G::Weight| #[trigger] cost.requires((w,)),
                ok == (|w: G::Weight| cost.ensures((&w,), true)),
                targets@.len() == adj[from.0 as int].len(),
                forall|j: int| 0 <= j < targets@.len() ==> (#[trigger] targets@[j]).0 == adj[from.0 as int][j].0,
                i <= targets@.len(),
                visited@.len() == count,
                parents@.len() == count,
                head <= frontier@.len(),
                forall|j: int| head <= j < frontier@.len() ==> (#[trigger] frontier@[j]).0 < count && visited@[frontier@[j].0 as int] != 0,
                forall|v: int| 0 <= v < count ==> ((#[trigger] visited@[v]) != 0) == (v == s || parents@[v] is Some),
                parents@[s] is None,
                ord.len() == count,
                chain_by(adj, parents@, s, ord, ok),
                forall|v: int| 0 <= v < count && visited@[v] != 0 ==> #[trigger] ord[v] < k,
                2 * count_free(visited@) + frontier@.len() - head <= m0,
                okm == (|w: G::Weight| forall|b: bool| cost.ensures((&w,), b) ==> b),
                from.0 != sink.0,
                !waiting(frontier@, head as int, from.0 as int),
                forall|a: int, b: int| head <= a < b < frontier@.len() ==> frontier@[a] != frontier@[b],
                forall|v: int|
                    0 <= v < count && v != from.0 && #[trigger] visited@[v] != 0 ==> waiting(frontier@, head as int, v)
                        || (v != sink.0 && closed_at(adj, visited@, okm, v)),
                forall|j: int|
                    0 <= j < i && okm(fw(adj, from.0 as int, adj[from.0 as int][j].0 as int).unwrap())
                        ==> visited@[#[trigger] adj[from.0 as int][j].0 as int] != 0,
                dep.len() == count,
                fifo ==> dep[s] == 0,
                fifo ==> dep[from.0 as int] == lvl,
                fifo ==> forall|v: int| 0 <= v < count && #[trigger] visited@[v] != 0 ==> hops_back(parents@, s, v, dep[v]) && dep[v] <= lvl + 1,
                fifo ==> forall|a: int| head <= a < frontier@.len() ==> lvl <= #[trigger] dep[frontier@[a].0 as int],
                fifo ==> forall|a: int, b: int|
                    #![trigger frontier@[a], frontier@[b]]
                    head <= a <= b < frontier@.len() ==> dep[frontier@[a].0 as int] <= dep[frontier@[b].0 as int],
                fifo ==> forall|v: int|
                    0 <= v < count && #[trigger] visited@[v] != 0 && v != from.0 && !waiting(frontier@, head as int, v) ==> dep[v] <= lvl
                        && level_closed(adj, dep, okm, v),
                fifo ==> forall|j: int|
                    0 <= j < i && okm(fw(adj, from.0 as int, adj[from.0 as int][j].0 as int).unwrap())
                        ==> dep[#[trigger] adj[from.0 as int][j].0 as int] <= lvl + 1,
            decreases targets@.len() - i,
        {
            let to = targets[i];
            proof {
                assert(targets@[i as int].0 == adj[from.0 as int][i as int].0);
                lemma_first_edge(adj[from.0 as int], to.0);
                assert(adj[from.0 as int][i as int].0 < count);
            }
            let weight = graph.weight(EdgeId { from, to }).unwrap();
            let pass = cost(weight);
            if visited[to.0] == 0 && pass {
                let ghost vb = visited@;
                let ghost pb = parents@;
                let ghost ob = ord;
                let ghost fb = frontier@;
                parents.insert(from, to);
                frontier.push(to);
                visited.set(to.0, 1);
                proof {
                    assert forall|v: int|
                        0 <= v < count && v != from.0 && #[trigger] visited@[v] != 0 implies waiting(frontier@, head as int, v)
                            || (v != sink.0 && closed_at(adj, visited@, okm, v)) by {
                        if v == to.0 {
                            assert(frontier@[frontier@.len() - 1].0 == v);
                        } else if waiting(fb, head as int, v) {
                            let j = choose|j: int| head <= j < fb.len() && (#[trigger] fb[j]).0 == v;
                            assert(frontier@[j] == fb[j]);
                        } else {
                            lemma_closed_grow(adj, vb, visited@, okm, v);
                        }
                    }
                    assert forall|a: int, b: int| head <= a < b < frontier@.len() implies frontier@[a] != frontier@[b] by {
                        if b == frontier@.len() - 1 {
                            assert(visited@[frontier@[a].0 as int] != 0);
                            assert(vb[fb[a].0 as int] != 0);
                        }
                    }
                    lemma_count_free_update(vb, to.0 as int, 1);
                    let db = dep;
                    dep = dep.update(to.0 as int, lvl + 1);
                    if fifo {
                        let ti = to.0 as int;
                        assert(pb[ti] is None && ti != s);
                        assert(parents@ == pb.update(ti, Some(from)));
                        assert forall|v: int| 0 <= v < count && #[trigger] visited@[v] != 0 implies hops_back(parents@, s, v, dep[v]) && dep[v] <= lvl + 1 by {
                            if v == ti {
                                lemma_hops_update(pb, s, from.0 as int, lvl, ti, from);
                                assert(parents@[ti] == Some(from));
                            } else {
                                assert(vb[v] != 0);
                                lemma_hops_update(pb, s, v, db[v], ti, from);
                            }
                        }
                        assert forall|a: int| head <= a < frontier@.len() implies lvl <= #[trigger] dep[frontier@[a].0 as int] by {
                            if a < fb.len() {
                                assert(frontier@[a] == fb[a]);
                                assert(vb[fb[a].0 as int] != 0);
                            }
                        }
                        assert forall|a: int, b: int|
                            #![trigger frontier@[a], frontier@[b]]
                            head <= a <= b < frontier@.len() implies dep[frontier@[a].0 as int] <= dep[frontier@[b].0 as int] by {
                            assert(frontier@[a] == fb[a] || a == fb.len());
                            if a < fb.len() {
                                assert(vb[fb[a].0 as int] != 0);
                                if b < fb.len() {
                                    assert(frontier@[b] == fb[b]);
                                    assert(vb[fb[b].0 as int] != 0);
                                }
                            }
                        }
                        assert forall|v: int|
                            0 <= v < count && #[trigger] visited@[v] != 0 && v != from.0 && !waiting(frontier@, head as int, v) implies dep[v] <= lvl
                                && level_closed(adj, dep, okm, v) by {
                            assert(v != ti) by {
                                if v == ti {
                                    assert(frontier@[frontier@.len() - 1].0 == v);
                                }
                            }
                            assert(vb[v] != 0);
                            if waiting(fb, head as int, v) {
                                let j = choose|j: int| head <= j < fb.len() && (#[trigger] fb[j]).0 == v;
                                assert(frontier@[j] == fb[j]);
                            }
                            assert(closed_at(adj, vb, okm, v));
                            assert forall|j: int|
                                0 <= j < adj[v].len() && okm(fw(adj, v, adj[v][j].0 as int).unwrap()) implies dep[#[trigger] adj[v][j].0 as int]
                                <= dep[v] + 1 by {
                                assert(vb[adj[v][j].0 as int] != 0);
                                assert(level_closed(adj, db, okm, v));
                            }
                        }
                        assert forall|j: int|
                            0 <= j < i + 1 && okm(fw(adj, from.0 as int, adj[from.0 as int][j].0 as int).unwrap())
                                implies dep[#[trigger] adj[from.0 as int][j].0 as int] <= lvl + 1 by {
                            let w = adj[from.0 as int][j].0 as int;
                            if w != ti && j < i {
                                assert(vb[w] != 0);
                                assert(db[w] <= lvl + 1);
                            }
                        }
                    }
                    ord = ord.update(to.0 as int, k);
                    k = k + 1;
                    assert(ok(fw(adj, from.0 as int, to.0 as int).unwrap()));
                    assert forall|v: int| 0 <= v < count && v != s && (#[trigger] parents@[v]) is Some implies ({
                        let u = parents@[v].unwrap().0 as int;
                        &&& 0 <= u < parents@.len()
                        &&& (u == s || parents@[u] is Some)
                        &&& ord[u] < ord[v]
                        &&& fw(adj, u, v) is Some
                        &&& ok(fw(adj, u, v).unwrap())
                    }) by {
                        if v != to.0 {
                            assert(parents@[v] == pb[v]);
                            let u = pb[v].unwrap().0 as int;
                            assert(u != to.0);
                        }
                    }
                }
            }
            i = i + 1;
        }
    }
    proof {
        assert forall|v: int| 0 <= v < adj.len() && visited@[v] != 0 implies #[trigger] closed_at(adj, visited@, okm, v) by {
            assert(!waiting(frontier@, head as int, v));
        }
        if visited@[sink.0 as int] != 0 {
            assert(!waiting(frontier@, head as int, sink.0 as int));
        }
        lemma_closed_unreachable(adj, visited@, okm, s, sink.0 as int);
    }
    None
}

/// A depth-first search for a path from `source` to `sink` along edges that pass `cost`.
pub fn dfs_sp<G: IndexAdjacent + Count + Get, F: Fn(&G::Weight) -> bool>(graph: &G, source: NodeId, sink: NodeId, cost: F) -> (r: Option<Parents>)
    requires
        graph.spec_wf(),
        adj_wf(graph.spec_adj()),
        source.0 < graph.spec_nodes().len(),
        sink.0 < graph.spec_nodes().len(),
        forall|w: &G::Weight| #[trigger] cost.requires((w,)),
    ensures
        r matches Some(p) ==> reaches_by(
            graph.spec_adj(),
            p@,
            source.0 as int,
            sink.0 as int,
            |w: G::Weight| cost.ensures((&w,), true),
        ),
        r is None ==> forall|steps: Seq<(int, int)>|
            walk_by(
                graph.spec_adj(),
                source.0 as int,
                steps,
                |w: G::Weight| forall|b: bool| cost.ensures((&w,), b) ==> b,
            ) ==> #[trigger] walk_end(graph.spec_adj(), source.0 as int, steps) != sink.0,
{
    search_sp(graph, source, sink, cost, false)
}

/// A breadth-first search for a path from `source` to `sink` along edges that pass `cost`.
pub fn bfs_sp<G: IndexAdjacent + Count + Get, F: Fn(&G::Weight) -> bool>(graph: &G, source: NodeId, sink: NodeId, cost: F) -> (r: Option<Parents>)
    requires
        graph.spec_wf(),
        adj_wf(graph.spec_adj()),
        source.0 < graph.spec_nodes().len(),
        sink.0 < graph.spec_nodes().len(),
        forall|w: &G::Weight| #[trigger] cost.requires((w,)),
    ensures
        r matches Some(p) ==> reaches_by(
            graph.spec_adj(),
            p@,
            source.0 as int,
            sink.0 as int,
            |w: G::Weight| cost.ensures((&w,), true),
        ),
        r is None ==> forall|steps: Seq<(int, int)>|
            walk_by(
                graph.spec_adj(),
                source.0 as int,
                steps,
                |w: G::Weight| forall|b: bool| cost.ensures((&w,), b) ==> b,
            ) ==> #[trigger] walk_end(graph.spec_adj(), source.0 as int, steps) != sink.0,
        r matches Some(p) ==> fewest_hops(
            graph.spec_adj(),
            p@,
            source.0 as int,
            sink.0 as int,
            |w: G::Weight| forall|b: bool| cost.ensures((&w,), b) ==> b,
        ),
{
    search_sp(graph, source, sink, cost, true)
}

/// A shortest augmenting path, found breadth first along the edges that can take more.
fn residual_path<N, W: Residual>(g: &AdjacencyList<N, W, true>, s: NodeId, t: NodeId) -> (o: Option<Parents>)
    requires
        g.spec_wf(),
        adj_wf(g.spec_adj()),
        s.0 < g.spec_nodes().len(),
        t.0 < g.spec_nodes().len(),
    ensures
        o matches Some(p) ==> augmenting(g.spec_adj(), p@, s.0 as int, t.0 as int),
        o matches Some(p) ==> fewest_hops(g.spec_adj(), p@, s.0 as int, t.0 as int, room::<W>()),
        o is None ==> forall|steps: Seq<(int, int)>|
            walk_by(g.spec_adj(), s.0 as int, steps, room::<W>()) ==> #[trigger] walk_end(
                g.spec_adj(),
                s.0 as int,
                steps,
            ) != t.0,
{
    let open = |w: &W| -> (r: bool)
        ensures
            r == (w.spec_res() > 0),
        { w.has_room() };
    let r = bfs_sp(g, s, t, open);
    proof {
        if r is Some {
            let adj = g.spec_adj();
            let p = r.unwrap()@;
            lemma_reaches_augmenting(adj, p, s.0 as int, t.0 as int, |w: W| open.ensures((&w,), true));
            let room = room::<W>();
            let sure = |w: W| forall|b: bool| open.ensures((&w,), b) ==> b;
            let m = choose|m: nat|
                #[trigger] hops_back(p, s.0 as int, t.0 as int, m) && forall|steps: Seq<(int, int)>|
                    walk_by(adj, s.0 as int, steps, sure) && #[trigger] walk_end(adj, s.0 as int, steps) == t.0 ==> steps.len() >= m;
            assert forall|steps: Seq<(int, int)>|
                walk_by(adj, s.0 as int, steps, room) && #[trigger] walk_end(adj, s.0 as int, steps) == t.0 implies steps.len() >= m by {
                assert forall|i: int| 0 <= i < steps.len() implies sure(
                    #[trigger] fw(adj, walk_node(adj, s.0 as int, steps, i), walk_node(adj, s.0 as int, steps, i + 1)).unwrap(),
                ) by {
                    let w = fw(adj, walk_node(adj, s.0 as int, steps, i), walk_node(adj, s.0 as int, steps, i + 1)).unwrap();
                    assert(room(w));
                }
                assert(walk_by(adj, s.0 as int, steps, sure));
            }
            assert(fewest_hops(adj, p, s.0 as int, t.0 as int, room));
        } else {
            let adj = g.spec_adj();
            let room = room::<W>();
            let sure = |w: W| forall|b: bool| open.ensures((&w,), b) ==> b;
            assert forall|steps: Seq<(int, int)>| walk_by(adj, s.0 as int, steps, room) implies #[trigger] walk_end(
                adj,
                s.0 as int,
                steps,
            ) != t.0 by {
                assert forall|i: int| 0 <= i < steps.len() implies sure(
                    #[trigger] fw(adj, walk_node(adj, s.0 as int, steps, i), walk_node(adj, s.0 as int, steps, i + 1)).unwrap(),
                ) by {
                    let w = fw(adj, walk_node(adj, s.0 as int, steps, i), walk_node(adj, s.0 as int, steps, i + 1)).unwrap();
                    assert(room(w));
                }
                assert(walk_by(adj, s.0 as int, steps, sure));
            }
        }
    }
    r
}

/// Edmonds and Karp's method: Ford and Fulkerson's, always along a shortest augmenting path.
pub fn _edmonds_karp<N, W: Residual>(graph: &mut AdjacencyList<N, W, true>, source: NodeId, sink: NodeId) -> (r: i64)
    requires
        old(graph).spec_wf(),
        adj_wf(old(graph).spec_adj()),
        source.0 < old(graph).spec_nodes().len(),
        sink.0 < old(graph).spec_nodes().len(),
        source != sink,
        flow_ready(old(graph).spec_adj()),
        out_res(old(graph).spec_adj(), source.0 as int, old(graph).spec_nodes().len() as int) <= i64::MAX,
    ensures
        final(graph).spec_wf(),
        final(graph).spec_nodes() == old(graph).spec_nodes(),
        same_shape(old(graph).spec_adj(), final(graph).spec_adj()),
        flow_ready(final(graph).spec_adj()),
        r == out_res(old(graph).spec_adj(), source.0 as int, old(graph).spec_nodes().len() as int) - out_res(
            final(graph).spec_adj(),
            source.0 as int,
            old(graph).spec_nodes().len() as int,
        ),
        flow_added(old(graph).spec_adj(), final(graph).spec_adj(), source.0 as int, sink.0 as int),
        same_fixed(old(graph).spec_adj(), final(graph).spec_adj()),
        forall|steps: Seq<(int, int)>|
            walk_by(final(graph).spec_adj(), source.0 as int, steps, room::<W>()) ==> #[trigger] walk_end(
                final(graph).spec_adj(),
                source.0 as int,
                steps,
            ) != sink.0,
{
    let sp = |g: &AdjacencyList<N, W, true>, s: NodeId, t: NodeId| -> (o: Option<Parents>)
        requires
            g.spec_wf(),
            adj_wf(g.spec_adj()),
            s.0 < g.spec_nodes().len(),
            t.0 < g.spec_nodes().len(),
        ensures
            o matches Some(p) ==> augmenting(g.spec_adj(), p@, s.0 as int, t.0 as int),
            o matches Some(p) ==> fewest_hops(g.spec_adj(), p@, s.0 as int, t.0 as int, room::<W>()),
            o is None ==> forall|steps: Seq<(int, int)>|
                walk_by(g.spec_adj(), s.0 as int, steps, room::<W>()) ==> #[trigger] walk_end(
                    g.spec_adj(),
                    s.0 as int,
                    steps,
                ) != t.0,
        { residual_path(g, s, t) };
    let r = _ford_fulkerson(graph, source, sink, sp);
    proof {
        assert(adj_wf(graph.spec_adj()));
        assert(sp.requires((&*graph, source, sink)));
        assert(sp.ensures((&*graph, source, sink), None::<Parents>));
        let g = &*graph;
        assert(forall|steps: Seq<(int, int)>|
            walk_by(g.spec_adj(), source.0 as int, steps, room::<W>()) ==> #[trigger] walk_end(g.spec_adj(), source.0 as int, steps) != sink.0);
    }
    r
}

} // verus!
