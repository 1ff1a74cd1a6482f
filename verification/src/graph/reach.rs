use crate::graph::index::NodeId;
use crate::graph::traits::adj_wf;
use vstd::prelude::*;

verus! {

/// The graph stores an edge `u -> v`.
pub open spec fn has_edge<W>(adj: Seq<Seq<(usize, W)>>, u: int, v: int) -> bool {
    &&& 0 <= u < adj.len()
    &&& exists|k: int| 0 <= k < adj[u].len() && #[trigger] adj[u][k].0 == v
}

/// Every edge of a graph whose edges all stay inside it leads to a node of the graph.
pub proof fn lemma_has_edge_range<W>(adj: Seq<Seq<(usize, W)>>, u: int, w: int)
    requires
        adj_wf(adj),
        has_edge(adj, u, w),
    ensures
        0 <= w < adj.len(),
{
    let k = choose|k: int| 0 <= k < adj[u].len() && #[trigger] adj[u][k].0 == w;
    assert(adj[u][k].0 < adj.len());
}

/// Whether a node is still free in a list of markers (marker zero).
pub open spec fn free(markers: Seq<usize>, v: int) -> bool {
    0 <= v < markers.len() && markers[v] == 0
}

/// `path` leads from `from` along edges of the graph, every node after the first being free
/// in `markers`.
pub open spec fn is_path<W>(adj: Seq<Seq<(usize, W)>>, markers: Seq<usize>, from: int, path: Seq<int>) -> bool {
    &&& path.len() >= 1
    &&& path[0] == from
    &&& forall|i: int|
        1 <= i < path.len() ==> has_edge(adj, path[i - 1], #[trigger] path[i]) && free(markers, path[i])
}

/// `v` can be reached from `from` through nodes that are free in `markers` (`from` itself
/// need not be free).
pub open spec fn reachable<W>(adj: Seq<Seq<(usize, W)>>, markers: Seq<usize>, from: int, v: int) -> bool {
    exists|path: Seq<int>| #[trigger] is_path(adj, markers, from, path) && path.last() == v
}

pub proof fn lemma_reach_start<W>(adj: Seq<Seq<(usize, W)>>, markers: Seq<usize>, from: int)
    ensures
        reachable(adj, markers, from, from),
{
    let path = seq![from];
    assert(is_path(adj, markers, from, path));
}

pub proof fn lemma_reach_step<W>(adj: Seq<Seq<(usize, W)>>, markers: Seq<usize>, from: int, u: int, v: int)
    requires
        reachable(adj, markers, from, u),
        has_edge(adj, u, v),
        free(markers, v),
    ensures
        reachable(adj, markers, from, v),
{
    let path = choose|path: Seq<int>| #[trigger] is_path(adj, markers, from, path) && path.last() == u;
    let p2 = path.push(v);
    assert forall|i: int| 1 <= i < p2.len() implies has_edge(adj, p2[i - 1], #[trigger] p2[i]) && free(
        markers,
        p2[i],
    ) by {
        if i < path.len() {
            assert(p2[i] == path[i]);
            assert(p2[i - 1] == path[i - 1]);
        }
    }
    assert(is_path(adj, markers, from, p2));
}

/// A set of nodes that holds `from` and every free successor of its members holds every node
/// that can be reached from `from`.
pub proof fn lemma_reach_closed<W>(
    adj: Seq<Seq<(usize, W)>>,
    markers: Seq<usize>,
    from: int,
    m: spec_fn(int) -> bool,
    v: int,
)
    requires
        m(from),
        forall|u: int, w: int| m(u) && #[trigger] has_edge(adj, u, w) && free(markers, w) ==> m(w),
        reachable(adj, markers, from, v),
    ensures
        m(v),
{
    let path = choose|path: Seq<int>| #[trigger] is_path(adj, markers, from, path) && path.last() == v;
    lemma_path_closed(adj, markers, from, m, path, path.len() - 1);
}

proof fn lemma_path_closed<W>(
    adj: Seq<Seq<(usize, W)>>,
    markers: Seq<usize>,
    from: int,
    m: spec_fn(int) -> bool,
    path: Seq<int>,
    i: int,
)
    requires
        m(from),
        forall|u: int, w: int| m(u) && #[trigger] has_edge(adj, u, w) && free(markers, w) ==> m(w),
        is_path(adj, markers, from, path),
        0 <= i < path.len(),
    ensures
        m(path[i]),
    decreases i,
{
    if i > 0 {
        lemma_path_closed(adj, markers, from, m, path, i - 1);
        assert(has_edge(adj, path[i - 1], path[i]));
    }
}

/// The number of free markers.
pub open spec fn count_free(markers: Seq<usize>) -> nat
    decreases markers.len(),
{
    if markers.len() == 0 {
        0
    } else {
        count_free(markers.drop_last()) + if markers.last() == 0 {
            1nat
        } else {
            0nat
        }
    }
}

pub proof fn lemma_count_free_bound(markers: Seq<usize>)
    ensures
        count_free(markers) <= markers.len(),
    decreases markers.len(),
{
    if markers.len() > 0 {
        lemma_count_free_bound(markers.drop_last());
    }
}

/// Taking a free marker changes the count by one; setting a marker that was taken changes
/// nothing.
pub proof fn lemma_count_free_update(markers: Seq<usize>, i: int, x: usize)
    requires
        0 <= i < markers.len(),
        x != 0,
    ensures
        count_free(markers.update(i, x)) == count_free(markers) - if markers[i] == 0 {
            1int
        } else {
            0int
        },
    decreases markers.len(),
{
    if i == markers.len() - 1 {
        assert(markers.update(i, x).drop_last() =~= markers.drop_last());
    } else {
        lemma_count_free_update(markers.drop_last(), i, x);
        assert(markers.update(i, x).drop_last() =~= markers.drop_last().update(i, x));
    }
}

} // verus!

verus! {

/// `v` is reached by a search from `from` that may only enter free nodes: it is not `from`,
/// it was free, and it can be reached.
pub open spec fn found<W>(adj: Seq<Seq<(usize, W)>>, old: Seq<usize>, from: int, v: int) -> bool {
    &&& v != from
    &&& free(old, v)
    &&& reachable(adj, old, from, v)
}

/// The markers after such a search: `from` and every node found carry `mark`, every other
/// node keeps its marker.
pub open spec fn marked_result<W>(
    adj: Seq<Seq<(usize, W)>>,
    old: Seq<usize>,
    new: Seq<usize>,
    from: int,
    mark: usize,
) -> bool {
    &&& new.len() == old.len()
    &&& new[from] == mark
    &&& forall|v: int|
        0 <= v < old.len() && v != from ==> #[trigger] new[v] == if found(adj, old, from, v) {
            mark
        } else {
            old[v]
        }
}

/// During a search: `v` is `from` or was free and is marked now.
pub open spec fn in_run(old: Seq<usize>, cur: Seq<usize>, from: int, v: int) -> bool {
    &&& 0 <= v < cur.len()
    &&& v == from || (old[v] == 0 && cur[v] != 0)
}

} // verus!

verus! {

/// The state of a search from `from` that marks the nodes it enters with `mark`: `old` holds
/// the markers before it, `cur` the markers now, `pending` the nodes entered but not yet
/// scanned (each once), `done` the nodes scanned, whose successors are all marked, and
/// `active` the node being scanned, if any (`-1` for none).
#[verifier::opaque]
pub open spec fn search_state<W>(
    adj: Seq<Seq<(usize, W)>>,
    old: Seq<usize>,
    cur: Seq<usize>,
    from: int,
    mark: usize,
    pending: Seq<usize>,
    done: Set<int>,
    active: int,
) -> bool {
    let n = old.len();
    &&& cur.len() == n
    &&& n <= usize::MAX
    &&& adj.len() == n
    &&& adj_wf(adj)
    &&& 0 <= from < n
    &&& mark != 0
    &&& cur[from] == mark
    &&& forall|v: int| 0 <= v < n && !in_run(old, cur, from, v) ==> cur[v] == old[v]
    &&& forall|v: int| #[trigger] in_run(old, cur, from, v) ==> cur[v] == mark
    &&& forall|v: int| #[trigger] in_run(old, cur, from, v) ==> reachable(adj, old, from, v)
    &&& forall|i: int|
        0 <= i < pending.len() ==> in_run(old, cur, from, #[trigger] pending[i] as int)
            && !done.contains(pending[i] as int) && pending[i] != active
    &&& forall|i: int, j: int| 0 <= i < j < pending.len() ==> pending[i] != pending[j]
    &&& active != -1 ==> in_run(old, cur, from, active) && !done.contains(active)
    &&& forall|v: int|
        #[trigger] in_run(old, cur, from, v) ==> done.contains(v) || v == active || pending.contains(
            v as usize,
        )
    &&& forall|u: int| #[trigger] done.contains(u) ==> in_run(old, cur, from, u)
    &&& forall|u: int, w: int| done.contains(u) && #[trigger] has_edge(adj, u, w) ==> cur[w] != 0
}

/// Marking `from` starts a search with `from` pending.
pub proof fn lemma_search_init<W>(adj: Seq<Seq<(usize, W)>>, old: Seq<usize>, from: int, mark: usize)
    requires
        adj.len() == old.len(),
        adj_wf(adj),
        old.len() <= usize::MAX,
        0 <= from < old.len(),
        mark != 0,
    ensures
        search_state(adj, old, old.update(from, mark), from, mark, seq![from as usize], Set::empty(), -1),
{
    reveal(search_state);
    let cur = old.update(from, mark);
    lemma_reach_start(adj, old, from);
    assert forall|v: int| #[trigger] in_run(old, cur, from, v) implies reachable(adj, old, from, v) by {
        if v != from {
            assert(old[v] == 0 && cur[v] != 0);
            assert(cur[v] == old[v]);
        }
    }
    assert forall|v: int| #[trigger] in_run(old, cur, from, v) implies cur[v] == mark by {
        if v != from {
            assert(cur[v] == old[v]);
        }
    }
    let p = seq![from as usize];
    assert forall|v: int| #[trigger] in_run(old, cur, from, v) implies p.contains(v as usize) by {
        if v != from {
            assert(cur[v] == old[v]);
        }
        assert(p[0] == v as usize);
    }
}

/// Taking the pending node at position `j` to scan it.
pub proof fn lemma_search_take<W>(
    adj: Seq<Seq<(usize, W)>>,
    old: Seq<usize>,
    cur: Seq<usize>,
    from: int,
    mark: usize,
    pending: Seq<usize>,
    done: Set<int>,
    j: int,
)
    requires
        search_state(adj, old, cur, from, mark, pending, done, -1),
        0 <= j < pending.len(),
    ensures
        search_state(adj, old, cur, from, mark, pending.remove(j), done, pending[j] as int),
        in_run(old, cur, from, pending[j] as int),
        reachable(adj, old, from, pending[j] as int),
{
    reveal(search_state);
    let p2 = pending.remove(j);
    let a = pending[j] as int;
    assert(in_run(old, cur, from, a));
    assert forall|v: int| #[trigger] in_run(old, cur, from, v) implies done.contains(v) || v == a
        || p2.contains(v as usize) by {
        if !done.contains(v) && v != a {
            assert(pending.contains(v as usize));
            let i = choose|i: int| 0 <= i < pending.len() && pending[i] == v as usize;
            if i < j {
                assert(p2[i] == pending[i]);
            } else {
                assert(i != j);
                assert(p2[i - 1] == pending[i]);
            }
        }
    }
    assert forall|i: int| 0 <= i < p2.len() implies in_run(old, cur, from, #[trigger] p2[i] as int)
        && !done.contains(p2[i] as int) && p2[i] != a by {
        if i < j {
            assert(p2[i] == pending[i]);
        } else {
            assert(p2[i] == pending[i + 1]);
        }
    }
    assert forall|i: int, k: int| 0 <= i < k < p2.len() implies p2[i] != p2[k] by {
        let i0 = if i < j { i } else { i + 1 };
        let k0 = if k < j { k } else { k + 1 };
        assert(p2[i] == pending[i0]);
        assert(p2[k] == pending[k0]);
    }
}

/// Entering the free node `to` along an edge from the node being scanned.
pub proof fn lemma_search_enter<W>(
    adj: Seq<Seq<(usize, W)>>,
    old: Seq<usize>,
    cur: Seq<usize>,
    from: int,
    mark: usize,
    pending: Seq<usize>,
    done: Set<int>,
    active: int,
    to: int,
)
    requires
        search_state(adj, old, cur, from, mark, pending, done, active),
        active != -1,
        has_edge(adj, active, to),
        0 <= to < cur.len(),
        cur[to] == 0,
    ensures
        search_state(adj, old, cur.update(to, mark), from, mark, pending.push(to as usize), done, active),
        !in_run(old, cur, from, to),
        old[to] == 0,
        to != from,
        count_free(cur.update(to, mark)) == count_free(cur) - 1,
        forall|v: int| #[trigger] in_run(old, cur.update(to, mark), from, v) <==> (v == to || in_run(old, cur, from, v)),
{
    reveal(search_state);
    let cur2 = cur.update(to, mark);
    let p2 = pending.push(to as usize);
    lemma_count_free_update(cur, to, mark);
    assert(!in_run(old, cur, from, to));
    assert(in_run(old, cur, from, active));
    lemma_reach_step(adj, old, from, active, to);
    assert forall|v: int| #[trigger] in_run(old, cur2, from, v) <==> (v == to || in_run(old, cur, from, v)) by {
    }
    assert forall|v: int| #[trigger] in_run(old, cur2, from, v) implies done.contains(v) || v == active
        || p2.contains(v as usize) by {
        if v == to {
            assert(p2[pending.len() as int] == to as usize);
        } else {
            assert(in_run(old, cur, from, v));
            if pending.contains(v as usize) {
                let i = choose|i: int| 0 <= i < pending.len() && pending[i] == v as usize;
                assert(p2[i] == pending[i]);
            }
        }
    }
    assert forall|i: int| 0 <= i < p2.len() implies in_run(old, cur2, from, #[trigger] p2[i] as int)
        && !done.contains(p2[i] as int) && p2[i] != active by {
        if i < pending.len() {
            assert(p2[i] == pending[i]);
            assert(in_run(old, cur, from, pending[i] as int));
        }
    }
    assert forall|i: int, k: int| 0 <= i < k < p2.len() implies p2[i] != p2[k] by {
        if k == pending.len() {
            assert(p2[i] == pending[i]);
            assert(in_run(old, cur, from, pending[i] as int));
        } else {
            assert(p2[i] == pending[i]);
            assert(p2[k] == pending[k]);
        }
    }
    assert forall|u: int, w: int| done.contains(u) && #[trigger] has_edge(adj, u, w) implies cur2[w] != 0 by {
        lemma_has_edge_range(adj, u, w);
        assert(cur[w] != 0);
    }
    assert forall|u: int| #[trigger] done.contains(u) implies in_run(old, cur2, from, u) by {
        assert(in_run(old, cur, from, u));
    }
}

/// Finishing the scan of the active node once all its successors are marked.
pub proof fn lemma_search_finish<W>(
    adj: Seq<Seq<(usize, W)>>,
    old: Seq<usize>,
    cur: Seq<usize>,
    from: int,
    mark: usize,
    pending: Seq<usize>,
    done: Set<int>,
    active: int,
)
    requires
        search_state(adj, old, cur, from, mark, pending, done, active),
        active != -1,
        forall|w: int| #[trigger] has_edge(adj, active, w) ==> cur[w] != 0,
    ensures
        search_state(adj, old, cur, from, mark, pending, done.insert(active), -1),
{
    reveal(search_state);
}

/// A search with nothing pending or active has entered exactly `from` and the nodes found.
pub proof fn lemma_search_done<W>(
    adj: Seq<Seq<(usize, W)>>,
    old: Seq<usize>,
    cur: Seq<usize>,
    from: int,
    mark: usize,
    done: Set<int>,
)
    requires
        search_state(adj, old, cur, from, mark, Seq::empty(), done, -1),
    ensures
        marked_result(adj, old, cur, from, mark),
        forall|v: int| 0 <= v < old.len() && v != from ==> (#[trigger] in_run(old, cur, from, v) <==> found(adj, old, from, v)),
        forall|v: int| #[trigger] done.contains(v) <==> in_run(old, cur, from, v),
{
    reveal(search_state);
    let m = |v: int| in_run(old, cur, from, v);
    assert forall|v: int| #[trigger] in_run(old, cur, from, v) implies done.contains(v) by {
        assert(!Seq::<usize>::empty().contains(v as usize));
    }
    assert forall|u: int, w: int| m(u) && #[trigger] has_edge(adj, u, w) && free(old, w) implies m(w) by {
        assert(done.contains(u));
        assert(cur[w] != 0);
    }
    assert forall|v: int| 0 <= v < old.len() && v != from implies (#[trigger] in_run(old, cur, from, v) <==> found(
        adj,
        old,
        from,
        v,
    )) by {
        if found(adj, old, from, v) {
            lemma_reach_closed(adj, old, from, m, v);
        }
    }
    assert forall|v: int| 0 <= v < old.len() && v != from implies #[trigger] cur[v] == if found(adj, old, from, v) {
        mark
    } else {
        old[v]
    } by {
        assert(in_run(old, cur, from, v) == found(adj, old, from, v));
    }
}

/// What the search state says of single nodes.
pub proof fn lemma_search_facts<W>(
    adj: Seq<Seq<(usize, W)>>,
    old: Seq<usize>,
    cur: Seq<usize>,
    from: int,
    mark: usize,
    pending: Seq<usize>,
    done: Set<int>,
    active: int,
)
    requires
        search_state(adj, old, cur, from, mark, pending, done, active),
    ensures
        cur.len() == old.len(),
        cur[from] == mark,
        forall|i: int| 0 <= i < pending.len() ==> #[trigger] pending[i] < old.len() && in_run(old, cur, from, pending[i] as int),
        forall|v: int| 0 <= v < cur.len() ==> (cur[v] == 0 ==> !#[trigger] in_run(old, cur, from, v)),
        forall|u: int| #[trigger] done.contains(u) ==> in_run(old, cur, from, u),
        forall|u: int, w: int| done.contains(u) && #[trigger] has_edge(adj, u, w) ==> cur[w] != 0,
        active != -1 ==> in_run(old, cur, from, active) && !done.contains(active),
        forall|i: int| 0 <= i < pending.len() ==> !done.contains(#[trigger] pending[i] as int),
{
    reveal(search_state);
}

/// The raw indices of a list of nodes.
pub open spec fn raw_ids(q: Seq<NodeId>) -> Seq<usize> {
    q.map_values(|x: NodeId| x.0)
}

/// The nodes a search from `from` over the free nodes of `old` enters, in the order given:
/// `from` first, then every node found, each once.
pub open spec fn search_order<W>(adj: Seq<Seq<(usize, W)>>, old: Seq<usize>, from: int, order: Seq<NodeId>) -> bool {
    &&& order.len() >= 1
    &&& order[0].0 == from
    &&& forall|i: int, j: int| 0 <= i < j < order.len() ==> order[i] != order[j]
    &&& forall|i: int| 1 <= i < order.len() ==> found(adj, old, from, #[trigger] order[i].0 as int)
    &&& forall|v: int| #[trigger] found(adj, old, from, v) ==> exists|i: int| 0 <= i < order.len() && #[trigger] order[i].0 == v
}

} // verus!

verus! {

/// Markers that split the nodes seen so far into `k` components: a node belongs to component
/// `i` exactly when its marker is `i + 1`, and every successor of a node of component `i`
/// belongs to a component up to `i`.
pub open spec fn split_state<W>(
    adj: Seq<Seq<(usize, W)>>,
    markers: Seq<usize>,
    k: int,
    member: spec_fn(int, int) -> bool,
) -> bool {
    &&& forall|i: int, v: int|
        0 <= i < k && 0 <= v < markers.len() ==> (#[trigger] member(i, v) <==> markers[v] == i + 1)
    &&& forall|v: int| 0 <= v < markers.len() ==> #[trigger] markers[v] <= k
    &&& forall|i: int, u: int, w: int|
        0 <= i < k && 0 <= u < markers.len() && #[trigger] member(i, u) && #[trigger] has_edge(adj, u, w)
            ==> 1 <= markers[w] <= i + 1
}

/// One more search, from a node still free, adds a component.
pub proof fn lemma_split_step<W>(
    adj: Seq<Seq<(usize, W)>>,
    old: Seq<usize>,
    new: Seq<usize>,
    k: int,
    root: int,
    member: spec_fn(int, int) -> bool,
    member2: spec_fn(int, int) -> bool,
)
    requires
        split_state(adj, old, k, member),
        adj_wf(adj),
        adj.len() == old.len(),
        0 <= k,
        0 <= root < old.len(),
        old[root] == 0,
        k + 1 <= usize::MAX,
        marked_result(adj, old, new, root, (k + 1) as usize),
        forall|i: int, v: int| 0 <= i < k ==> #[trigger] member2(i, v) == member(i, v),
        forall|v: int| 0 <= v < old.len() ==> #[trigger] member2(k, v) == (v == root || found(adj, old, root, v)),
    ensures
        split_state(adj, new, k + 1, member2),
{
    assert forall|i: int, v: int| 0 <= i < k + 1 && 0 <= v < new.len() implies (#[trigger] member2(i, v)
        <==> new[v] == i + 1) by {
        if i < k {
            assert(member(i, v) <==> old[v] == i + 1);
        }
    }
    assert forall|i: int, u: int, w: int|
        0 <= i < k + 1 && 0 <= u < new.len() && #[trigger] member2(i, u) && #[trigger] has_edge(adj, u, w)
            implies 1 <= new[w] <= i + 1 by {
        lemma_has_edge_range(adj, u, w);
        if i < k {
            assert(member(i, u));
            assert(1 <= old[w] <= i + 1);
            assert(!free(old, w));
        } else if old[w] != 0 {
            assert(!free(old, w));
        } else {
            if u == root {
                lemma_reach_start(adj, old, root);
            }
            lemma_reach_step(adj, old, root, u, w);
        }
    }
}

} // verus!

verus! {

/// `n` markers, all free.
pub open spec fn no_marks(n: nat) -> Seq<usize> {
    Seq::new(n, |i: int| 0usize)
}

} // verus!
