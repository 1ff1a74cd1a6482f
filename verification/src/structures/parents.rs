use crate::graph::index::{EdgeId, NodeId};
use crate::structures::route::Route;
use vstd::prelude::*;
use vstd::set_lib::{lemma_int_range, lemma_len_subset, set_int_range};

verus! {

/// For every node, the node it was reached from, if any.
#[derive(Debug, PartialEq, Eq, Clone)]
pub struct Parents(Vec<Option<NodeId>>);

impl View for Parents {
    type V = Seq<Option<NodeId>>;

    closed spec fn view(&self) -> Seq<Option<NodeId>> {
        self.0@
    }
}

/// Every recorded parent is a node of the table.
pub open spec fn parents_in_range(p: Seq<Option<NodeId>>) -> bool {
    forall|i: int| 0 <= i < p.len() && #[trigger] p[i] is Some ==> p[i].unwrap().0 < p.len()
}

/// The parent of node `v`, if it has one (and `None` for a node outside the table).
pub open spec fn parent_of(p: Seq<Option<NodeId>>, v: usize) -> Option<usize> {
    if v < p.len() && p[v as int] is Some {
        Some(p[v as int].unwrap().0)
    } else {
        None
    }
}

/// The `k`-th ancestor of `v`: `v` itself for `k == 0`, then the parent of the previous one.
pub open spec fn ancestor(p: Seq<Option<NodeId>>, v: usize, k: nat) -> Option<usize>
    decreases k,
{
    if k == 0 {
        Some(v)
    } else {
        match ancestor(p, v, (k - 1) as nat) {
            Some(a) => parent_of(p, a),
            None => None,
        }
    }
}

/// Walking up from `start`, step `k` is the first at which the walk ends: it finds no parent,
/// or meets a node seen before (`start` included).
pub open spec fn first_stop(p: Seq<Option<NodeId>>, start: usize, k: nat) -> bool {
    &&& k >= 1
    &&& forall|m: nat| 1 <= m < k ==> !stops(p, start, m)
    &&& stops(p, start, k)
}

/// The walk up from `start` cannot go on at step `k`.
pub open spec fn stops(p: Seq<Option<NodeId>>, start: usize, k: nat) -> bool {
    ||| ancestor(p, start, k) is None
    ||| exists|j: nat| j < k && ancestor(p, start, j) == ancestor(p, start, k)
}

/// The ancestors of `start` from step `lo` up to, but not including, step `hi`.
pub open spec fn ancestors(p: Seq<Option<NodeId>>, start: usize, lo: nat, hi: nat) -> Seq<NodeId> {
    Seq::new((hi - lo) as nat, |i: int| NodeId(ancestor(p, start, (lo + i) as nat).unwrap()))
}

/// The cycle that the walk up from `start` runs into, listed against the direction of the
/// parent links; empty when the walk ends at a node without parent.
pub open spec fn cycle_found(p: Seq<Option<NodeId>>, start: usize, k: nat, r: Seq<NodeId>) -> bool {
    match ancestor(p, start, k) {
        None => r == Seq::<NodeId>::empty(),
        Some(a) => if a == start {
            r == ancestors(p, start, 1, k + 1).reverse()
        } else {
            exists|i: nat|
                1 <= i < k && ancestor(p, start, i) == Some(a) && r == ancestors(
                    p,
                    start,
                    i,
                    k,
                ).reverse()
        },
    }
}

impl Parents {
    pub fn new(parents: Vec<Option<NodeId>>) -> (r: Self)
        ensures
            r@ == parents@,
    {
        Parents(parents)
    }

    /// A table of `count` nodes without parents.
    pub fn with_count(count: usize) -> (r: Self)
        ensures
            r@ =~= Seq::new(count as nat, |i: int| None::<NodeId>),
    {
        let mut v: Vec<Option<NodeId>> = Vec::new();
        let mut i: usize = 0;
        while i < count
            invariant
                i <= count,
                v@ =~= Seq::new(i as nat, |k: int| None::<NodeId>),
            decreases count - i,
        {
            v.push(None);
            i = i + 1;
        }
        Parents(v)
    }

    pub fn with_parents(parents: Vec<Option<NodeId>>) -> (r: Self)
        ensures
            r@ == parents@,
    {
        Parents(parents)
    }

    /// The number of nodes in the table.
    pub fn count(&self) -> (r: usize)
        ensures
            r == self@.len(),
    {
        self.0.len()
    }

    /// Records `from` as the parent of `to`, and returns the parent it had before.
    pub fn insert(&mut self, from: NodeId, to: NodeId) -> (r: Option<NodeId>)
        requires
            to.0 < old(self)@.len(),
        ensures
            r == old(self)@[to.0 as int],
            final(self)@ == old(self)@.update(to.0 as int, Some(from)),
    {
        let prev = self.0[to.0];
        self.0.set(to.0, Some(from));
        prev
    }

    /// The parent of `child`; `None` when it has none or lies outside the table.
    pub fn parent(&self, child: NodeId) -> (r: Option<NodeId>)
        ensures
            r == (if child.0 < self@.len() { self@[child.0 as int] } else { None }),
    {
        if child.0 < self.0.len() {
            self.0[child.0]
        } else {
            None
        }
    }

    /// The edges `parent -> child`, by increasing child.
    pub fn edge_ids(&self) -> (r: Vec<EdgeId>)
        ensures
            r@ =~= parent_edges(self@, self@.len() as int),
    {
        let n = self.0.len();
        let mut res: Vec<EdgeId> = Vec::new();
        let mut i: usize = 0;
        while i < n
            invariant
                n == self@.len(),
                i <= n,
                res@ =~= parent_edges(self@, i as int),
            decreases n - i,
        {
            if let Some(from) = self.0[i] {
                res.push(EdgeId { from, to: NodeId(i) });
            }
            i = i + 1;
        }
        res
    }
}

impl Parents {
    /// Walks up the parent links from `start` until the walk finds no parent (then there is
    /// no cycle and the route is empty) or meets a node it has seen before (then the route is
    /// that cycle, against the direction of the parent links).
    pub fn find_cycle(&self, start: NodeId) -> (r: Route)
        requires
            start.0 < self@.len(),
            parents_in_range(self@),
        ensures
            exists|k: nat| first_stop(self@, start.0, k) && cycle_found(self@, start.0, k, r@),
    {
        let ghost p = self@;
        let ghost s = start.0;
        let n = self.0.len();
        let mut visited: Vec<bool> = vec![false; n];
        let mut path: Vec<NodeId> = Vec::new();
        let mut node = start;
        let ghost mut m: nat = 0;
        let ghost mut seen: Set<int> = set![s as int];
        proof {
            lemma_int_range(0, n as int);
            assert(ancestor(p, s, 0) == Some(s));
        }
        loop
            invariant
                p == self@,
                s == start.0,
                n == p.len(),
                s < n,
                parents_in_range(p),
                visited@.len() == n,
                path@ =~= ancestors(p, s, 1, m + 1),
                ancestor(p, s, m) == Some(node.0),
                forall|k: nat|
                    k <= m ==> #[trigger] ancestor(p, s, k) is Some && ancestor(p, s, k).unwrap()
                        < n,
                forall|k: nat| 1 <= k <= m ==> !#[trigger] stops(p, s, k),
                forall|v: int|
                    0 <= v < n ==> (#[trigger] visited@[v] <==> exists|k: nat|
                        1 <= k <= m && ancestor(p, s, k) == Some(v as usize)),
                seen.finite(),
                seen.len() == m + 1,
                forall|v: int|
                    #[trigger] seen.contains(v) <==> exists|k: nat|
                        k <= m && #[trigger] ancestor(p, s, k) is Some && ancestor(
                            p,
                            s,
                            k,
                        ).unwrap() as int == v,
                seen.subset_of(set_int_range(0, n as int)),
                set_int_range(0, n as int).finite(),
                set_int_range(0, n as int).len() == n,
            decreases n - m,
        {
            proof {
                lemma_len_subset(seen, set_int_range(0, n as int));
            }
            let anc = match self.parent(node) {
                Some(a) => a,
                None => {
                    proof {
                        assert(ancestor(p, s, m + 1) is None);
                        assert(stops(p, s, m + 1));
                        assert(first_stop(p, s, m + 1));
                        assert(cycle_found(p, s, m + 1, Seq::<NodeId>::empty()));
                    }
                    return Route::new(Vec::new());
                },
            };
            assert(ancestor(p, s, m + 1) == Some(anc.0));
            if anc == start {
                path.push(anc);
                proof {
                    assert(ancestor(p, s, 0) == ancestor(p, s, m + 1));
                    assert(stops(p, s, m + 1));
                    assert(first_stop(p, s, m + 1));
                    assert(path@ =~= ancestors(p, s, 1, m + 2));
                }
                let r = reversed(&path);
                proof {
                    assert(cycle_found(p, s, m + 1, r@));
                }
                return Route::new(r);
            } else if visited[anc.0] {
                let ghost kw = choose|k: nat| 1 <= k <= m && ancestor(p, s, k) == Some(anc.0);
                let len = path.len();
                let mut i: usize = 0;
                while i < len && path[i] != anc
                    invariant
                        len == path@.len(),
                        path@ =~= ancestors(p, s, 1, m + 1),
                        1 <= kw <= m,
                        ancestor(p, s, kw) == Some(anc.0),
                        i <= len,
                        forall|j: int| 0 <= j < i ==> path@[j] != anc,
                    decreases len - i,
                {
                    i = i + 1;
                }
                assert(path@[kw - 1] == anc);
                let mut tail: Vec<NodeId> = Vec::new();
                let mut j: usize = i;
                while j < len
                    invariant
                        len == path@.len(),
                        i < len,
                        i <= j <= len,
                        tail@ =~= path@.subrange(i as int, j as int),
                    decreases len - j,
                {
                    tail.push(path[j]);
                    j = j + 1;
                }
                proof {
                    assert(ancestor(p, s, (i + 1) as nat) == Some(anc.0));
                    assert(stops(p, s, m + 1));
                    assert(first_stop(p, s, m + 1));
                    assert(tail@ =~= ancestors(p, s, (i + 1) as nat, m + 1));
                }
                let r = reversed(&tail);
                proof {
                    assert(cycle_found(p, s, m + 1, r@));
                }
                return Route::new(r);
            }
            proof {
                assert forall|j: nat| j < m + 1 implies #[trigger] ancestor(p, s, j) != ancestor(
                    p,
                    s,
                    m + 1,
                ) by {
                    if j >= 1 && ancestor(p, s, j) == ancestor(p, s, m + 1) {
                        assert(visited@[anc.0 as int]);
                    }
                }
                assert(!stops(p, s, m + 1));
                assert(!seen.contains(anc.0 as int));
            }
            path.push(anc);
            visited.set(anc.0, true);
            node = anc;
            proof {
                seen = seen.insert(anc.0 as int);
                m = m + 1;
                assert(path@ =~= ancestors(p, s, 1, m + 1));
                assert forall|v: int| 0 <= v < n implies (#[trigger] visited@[v] <==> exists|k: nat|
                    1 <= k <= m && ancestor(p, s, k) == Some(v as usize)) by {
                    if v == anc.0 {
                        assert(ancestor(p, s, m) == Some(v as usize));
                    }
                }
                assert forall|v: int| #[trigger] seen.contains(v) <==> exists|k: nat|
                    k <= m && #[trigger] ancestor(p, s, k) is Some && ancestor(p, s, k).unwrap() as int
                        == v by {
                    if v == anc.0 {
                        assert(ancestor(p, s, m) == Some(anc.0));
                    }
                }
            }
        }
    }
}

/// A copy of the list in reverse order.
pub fn reversed<T: Copy>(v: &Vec<T>) -> (r: Vec<T>)
    ensures
        r@ =~= v@.reverse(),
{
    let mut res: Vec<T> = Vec::new();
    let n = v.len();
    let mut i: usize = n;
    while i > 0
        invariant
            n == v@.len(),
            i <= n,
            res@.len() == n - i,
            forall|k: int| 0 <= k < n - i ==> res@[k] == v@[n - 1 - k],
        decreases i,
    {
        i = i - 1;
        res.push(v[i]);
    }
    res
}

/// The edges `parent -> child` of the first `n` children.
pub open spec fn parent_edges(p: Seq<Option<NodeId>>, n: int) -> Seq<EdgeId>
    decreases n,
{
    if n <= 0 {
        Seq::empty()
    } else {
        let prev = parent_edges(p, n - 1);
        match p[n - 1] {
            Some(from) => prev.push(EdgeId { from, to: NodeId((n - 1) as usize) }),
            None => prev,
        }
    }
}

/// Each node of a found cycle is the parent of the next, and the last is the parent of the
/// first.
pub proof fn lemma_cycle_links(p: Seq<Option<NodeId>>, start: usize, k: nat, r: Seq<NodeId>)
    requires
        parents_in_range(p),
        start < p.len(),
        first_stop(p, start, k),
        cycle_found(p, start, k, r),
    ensures
        forall|m: int| 0 <= m < r.len() - 1 ==> parent_of(p, (#[trigger] r[m + 1]).0) == Some(r[m].0),
        r.len() > 0 ==> parent_of(p, r[0].0) == Some(r.last().0),
{
    assert forall|j: nat| j < k implies #[trigger] ancestor(p, start, j) is Some by {
        if j > 0 {
            assert(!stops(p, start, j));
        }
    }
    assert forall|j: nat| j < k implies parent_of(p, ancestor(p, start, j).unwrap()) == #[trigger] ancestor(
        p,
        start,
        (j + 1) as nat,
    ) by {
        assert(ancestor(p, start, j) is Some);
    }
    match ancestor(p, start, k) {
        None => {},
        Some(a) => {
            let lo: nat = if a == start {
                1
            } else {
                choose|i: nat| 1 <= i < k && ancestor(p, start, i) == Some(a) && r == ancestors(p, start, i, k).reverse()
            };
            let hi: nat = if a == start { k + 1 } else { k };
            assert(r == ancestors(p, start, lo, hi).reverse());
            assert(r.len() == hi - lo);
            assert forall|m: int| 0 <= m < r.len() - 1 implies parent_of(p, (#[trigger] r[m + 1]).0) == Some(r[m].0) by {
                let j = (hi - 2 - m) as nat;
                assert(r[m + 1] == NodeId(ancestor(p, start, j).unwrap()));
                assert(r[m] == NodeId(ancestor(p, start, (j + 1) as nat).unwrap()));
                assert(j < k);
            }
            if r.len() > 0 {
                let f = (hi - 1) as nat;
                assert(r[0] == NodeId(ancestor(p, start, f).unwrap()));
                assert(r.last() == NodeId(ancestor(p, start, lo).unwrap()));
                if a == start {
                    assert(ancestor(p, start, k) == ancestor(p, start, 0));
                    assert(parent_of(p, ancestor(p, start, k).unwrap()) == ancestor(p, start, 1));
                } else {
                    assert(f < k);
                    assert(parent_of(p, ancestor(p, start, f).unwrap()) == ancestor(p, start, k));
                }
            }
        },
    }
}

/// The cycle found passes no node twice.
pub proof fn lemma_cycle_distinct(p: Seq<Option<NodeId>>, start: usize, k: nat, r: Seq<NodeId>)
    requires
        parents_in_range(p),
        start < p.len(),
        first_stop(p, start, k),
        cycle_found(p, start, k, r),
    ensures
        forall|i: int, j: int| 0 <= i < j < r.len() ==> r[i] != r[j],
{
    assert forall|j: nat| j < k implies #[trigger] ancestor(p, start, j) is Some by {
        if j > 0 {
            assert(!stops(p, start, j));
        }
    }
    // below step k, no ancestor repeats an earlier one
    assert forall|a: nat, b: nat| a < b < k implies #[trigger] ancestor(p, start, a) != #[trigger] ancestor(p, start, b) by {
        assert(!stops(p, start, b));
    }
    match ancestor(p, start, k) {
        None => {},
        Some(x) => {
            let lo: nat = if x == start {
                1
            } else {
                choose|i: nat| 1 <= i < k && ancestor(p, start, i) == Some(x) && r == ancestors(p, start, i, k).reverse()
            };
            let hi: nat = if x == start { k + 1 } else { k };
            assert(r == ancestors(p, start, lo, hi).reverse());
            assert forall|i: int, j: int| 0 <= i < j < r.len() implies r[i] != r[j] by {
                let a = (hi - 1 - j) as nat;
                let b = (hi - 1 - i) as nat;
                assert(r[i] == NodeId(ancestor(p, start, b).unwrap()));
                assert(r[j] == NodeId(ancestor(p, start, a).unwrap()));
                assert(lo <= a < b < hi);
                if b < k {
                    assert(ancestor(p, start, a) != ancestor(p, start, b));
                } else {
                    // b == k, and the walk came back to start
                    assert(x == start);
                    assert(ancestor(p, start, b) == ancestor(p, start, 0));
                    assert(ancestor(p, start, a) != ancestor(p, start, 0));
                }
            }
        },
    }
}

} // verus!
