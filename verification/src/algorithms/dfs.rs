use crate::algorithms::bfs::zeros;
use crate::graph::index::NodeId;
use crate::graph::reach::{no_marks, 
    count_free, found, has_edge, in_run, lemma_has_edge_range, lemma_search_done, lemma_search_enter,
    lemma_search_facts, lemma_search_finish, lemma_search_init, lemma_search_take, marked_result,
    raw_ids, search_order, search_state,
};
use crate::graph::traits::{adj_wf, Base, Count, IndexAdjacent};
use crate::graph::index::EdgeId;
use crate::graph_impl::tree::{found_edge, lemma_run_tree_done, lemma_run_tree_step, lemma_scan_pos, lemma_tree_by_move, lemma_tree_by_push, run_tree, scan_pos, search_tree, tree_by, Tree};
use vstd::prelude::*;

verus! {

/// `pa` names for each node of `order` after the first the node that found it, as a depth-first
/// search with a stack finds them: an earlier node with an edge to it, the first listed node
/// with such an edge; the finders nest: a node listed after node `i` was found either no later
/// than `i` was, or by `i` or a node listed after it, never by a node strictly between the
/// finder of `i` and `i`; and the nodes one node found come in the reverse order of its edges.
#[verifier::opaque]
pub open spec fn dfs_finders<W>(adj: Seq<Seq<(usize, W)>>, order: Seq<NodeId>, pa: Seq<int>) -> bool {
    &&& pa.len() == order.len()
    &&& forall|i: int|
        1 <= i < order.len() ==> 0 <= #[trigger] pa[i] < i && has_edge(adj, order[pa[i]].0 as int, order[i].0 as int)
    &&& forall|i: int, j: int|
        #![trigger pa[i], order[j]]
        1 <= i < order.len() && 0 <= j < pa[i] ==> !has_edge(adj, order[j].0 as int, order[i].0 as int)
    &&& forall|i: int, k: int| #![trigger pa[i], pa[k]] 1 <= i < k < order.len() ==> !(pa[i] < pa[k] < i)
    &&& forall|i: int, k: int|
        #![trigger pa[i], pa[k]]
        1 <= i < k < order.len() && pa[i] == pa[k] ==> scan_pos(adj, order[pa[i]].0 as int, order[i].0 as int) > scan_pos(
            adj,
            order[pa[k]].0 as int,
            order[k].0 as int,
        )
}

/// A depth-first search under way: the nodes `o` were taken from the stack with the finders
/// `pa`, and the nodes `s` wait on the stack with the finders `sp` (positions in `o`). Taking
/// the top of the stack and pushing what it finds keeps `o` in the shape `dfs_finders` states.
#[verifier::opaque]
pub open spec fn dfs_state<W>(adj: Seq<Seq<(usize, W)>>, o: Seq<NodeId>, pa: Seq<int>, s: Seq<NodeId>, sp: Seq<int>) -> bool {
    &&& dfs_finders(adj, o, pa)
    &&& sp.len() == s.len()
    &&& o.len() == 0 ==> sp == seq![-1int]
    &&& o.len() > 0 ==> forall|j: int|
        0 <= j < s.len() ==> 0 <= #[trigger] sp[j] < o.len() && has_edge(adj, o[sp[j]].0 as int, s[j].0 as int)
    &&& forall|j1: int, j2: int| #![trigger sp[j1], sp[j2]] 0 <= j1 <= j2 < s.len() ==> sp[j1] <= sp[j2]
    &&& forall|i: int, j: int| #![trigger pa[i], sp[j]] 1 <= i < o.len() && 0 <= j < s.len() ==> !(pa[i] < sp[j] < i)
    &&& forall|j: int, x: int|
        #![trigger sp[j], o[x]]
        0 <= j < s.len() && 0 <= x < sp[j] ==> !has_edge(adj, o[x].0 as int, s[j].0 as int)
    &&& forall|j1: int, j2: int|
        #![trigger sp[j1], sp[j2]]
        0 <= j1 < j2 < s.len() && sp[j1] == sp[j2] && o.len() > 0 ==> scan_pos(adj, o[sp[j1]].0 as int, s[j1].0 as int)
            < scan_pos(adj, o[sp[j2]].0 as int, s[j2].0 as int)
    &&& forall|i: int, j: int|
        #![trigger pa[i], sp[j]]
        1 <= i < o.len() && 0 <= j < s.len() && pa[i] == sp[j] ==> scan_pos(adj, o[pa[i]].0 as int, o[i].0 as int)
            > scan_pos(adj, o[sp[j]].0 as int, s[j].0 as int)
}

/// Taking the top of the stack lists it, found by the node that pushed it.
proof fn lemma_dfs_pop<W>(adj: Seq<Seq<(usize, W)>>, o: Seq<NodeId>, pa: Seq<int>, s: Seq<NodeId>, sp: Seq<int>)
    requires
        dfs_state(adj, o, pa, s, sp),
        s.len() > 0,
    ensures
        dfs_state(adj, o.push(s.last()), pa.push(sp.last()), s.drop_last(), sp.drop_last()),
        o.len() == 0 ==> s.len() == 1,
        forall|i: int| 1 <= i < o.len() ==> 0 <= #[trigger] pa[i] < o.len(),
        o.len() > 0 ==> forall|j: int| 0 <= j < s.len() ==> 0 <= #[trigger] sp[j] < o.len(),
        pa.len() == o.len(),
        sp.len() == s.len(),
{
    reveal(dfs_state);
    reveal(dfs_finders);
    let l = o.len() as int;
    let b = s.len() - 1;
    let u = s.last();
    let q = sp.last();
    let o1 = o.push(u);
    let pa1 = pa.push(q);
    let s1 = s.drop_last();
    let sp1 = sp.drop_last();
    if l == 0 {
        assert(sp.len() == 1);
    }
    assert forall|i: int| 1 <= i < o1.len() implies 0 <= #[trigger] pa1[i] < i && has_edge(adj, o1[pa1[i]].0 as int, o1[i].0 as int) by {
        if i < l {
            assert(pa1[i] == pa[i] && o1[i] == o[i] && o1[pa[i]] == o[pa[i]]);
        } else {
            assert(pa1[i] == sp[b] && o1[sp[b]] == o[sp[b]]);
        }
    }
    assert forall|i: int, j: int| #![trigger pa1[i], o1[j]] 1 <= i < o1.len() && 0 <= j < pa1[i] implies !has_edge(adj, o1[j].0 as int, o1[i].0 as int) by {
        assert(o1[j] == o[j]);
        if i < l {
            assert(pa1[i] == pa[i] && o1[i] == o[i]);
        } else {
            assert(pa1[i] == sp[b]);
        }
    }
    assert forall|i: int, k: int| #![trigger pa1[i], pa1[k]] 1 <= i < k < o1.len() implies !(pa1[i] < pa1[k] < i) by {
        assert(pa1[i] == pa[i]);
        if k < l {
            assert(pa1[k] == pa[k]);
        } else {
            assert(pa1[k] == sp[b]);
        }
    }
    assert forall|i: int, k: int| #![trigger pa1[i], pa1[k]] 1 <= i < k < o1.len() && pa1[i] == pa1[k] implies scan_pos(adj, o1[pa1[i]].0 as int, o1[i].0 as int) > scan_pos(
        adj,
        o1[pa1[k]].0 as int,
        o1[k].0 as int,
    ) by {
        assert(pa1[i] == pa[i] && o1[i] == o[i] && o1[pa[i]] == o[pa[i]]);
        if k < l {
            assert(pa1[k] == pa[k] && o1[k] == o[k] && o1[pa[k]] == o[pa[k]]);
        } else {
            assert(pa1[k] == sp[b] && o1[k] == s[b]);
        }
    }
    assert(dfs_finders(adj, o1, pa1));
    assert forall|j: int| 0 <= j < s1.len() implies 0 <= #[trigger] sp1[j] < o1.len() && has_edge(adj, o1[sp1[j]].0 as int, s1[j].0 as int) by {
        assert(sp1[j] == sp[j] && s1[j] == s[j] && o1[sp[j]] == o[sp[j]]);
    }
    assert forall|j1: int, j2: int| #![trigger sp1[j1], sp1[j2]] 0 <= j1 <= j2 < s1.len() implies sp1[j1] <= sp1[j2] by {
        assert(sp1[j1] == sp[j1] && sp1[j2] == sp[j2]);
    }
    assert forall|i: int, j: int| #![trigger pa1[i], sp1[j]] 1 <= i < o1.len() && 0 <= j < s1.len() implies !(pa1[i] < sp1[j] < i) by {
        assert(sp1[j] == sp[j]);
        if i < l {
            assert(pa1[i] == pa[i]);
        } else {
            assert(pa1[i] == sp[b]);
            assert(sp[j] <= sp[b]);
        }
    }
    assert forall|j: int, x: int| #![trigger sp1[j], o1[x]] 0 <= j < s1.len() && 0 <= x < sp1[j] implies !has_edge(adj, o1[x].0 as int, s1[j].0 as int) by {
        assert(sp1[j] == sp[j] && s1[j] == s[j] && o1[x] == o[x]);
    }
    assert forall|j1: int, j2: int|
        #![trigger sp1[j1], sp1[j2]]
        0 <= j1 < j2 < s1.len() && sp1[j1] == sp1[j2] && o1.len() > 0 implies scan_pos(adj, o1[sp1[j1]].0 as int, s1[j1].0 as int)
            < scan_pos(adj, o1[sp1[j2]].0 as int, s1[j2].0 as int) by {
        assert(sp1[j1] == sp[j1] && sp1[j2] == sp[j2] && s1[j1] == s[j1] && s1[j2] == s[j2]);
        assert(o1[sp[j1]] == o[sp[j1]]);
    }
    assert forall|i: int, j: int|
        #![trigger pa1[i], sp1[j]]
        1 <= i < o1.len() && 0 <= j < s1.len() && pa1[i] == sp1[j] implies scan_pos(adj, o1[pa1[i]].0 as int, o1[i].0 as int)
            > scan_pos(adj, o1[sp1[j]].0 as int, s1[j].0 as int) by {
        assert(sp1[j] == sp[j] && s1[j] == s[j] && o1[sp[j]] == o[sp[j]]);
        if i < l {
            assert(pa1[i] == pa[i] && o1[i] == o[i]);
        } else {
            assert(pa1[i] == sp[b] && o1[i] == s[b]);
        }
    }
}

/// Pushing a node that the last listed node `o.last()` finds at position `k` of its edges,
/// after those it pushed before and unseen by every earlier node, keeps the search in shape.
proof fn lemma_dfs_push<W>(adj: Seq<Seq<(usize, W)>>, o: Seq<NodeId>, pa: Seq<int>, s: Seq<NodeId>, sp: Seq<int>, k: int, to: NodeId)
    requires
        dfs_state(adj, o, pa, s, sp),
        o.len() > 0,
        adj_wf(adj),
        0 <= o.last().0 < adj.len(),
        0 <= k < adj[o.last().0 as int].len(),
        to.0 == adj[o.last().0 as int][k].0,
        forall|j: int| 0 <= j < k ==> adj[o.last().0 as int][j].0 != to.0,
        forall|j: int| 0 <= j < s.len() && sp[j] == o.len() - 1 ==> scan_pos(adj, o.last().0 as int, #[trigger] s[j].0 as int) < k,
        forall|x: int| 0 <= x < o.len() - 1 ==> !has_edge(adj, #[trigger] o[x].0 as int, to.0 as int),
    ensures
        dfs_state(adj, o, pa, s.push(to), sp.push(o.len() - 1)),
        scan_pos(adj, o.last().0 as int, to.0 as int) == k,
{
    reveal(dfs_state);
    reveal(dfs_finders);
    let l = o.len() - 1;
    let ui = o.last().0 as int;
    let s1 = s.push(to);
    let sp1 = sp.push(l);
    lemma_scan_pos(adj, ui, k);
    assert(has_edge(adj, ui, to.0 as int));
    assert forall|j: int| 0 <= j < s1.len() implies 0 <= #[trigger] sp1[j] < o.len() && has_edge(adj, o[sp1[j]].0 as int, s1[j].0 as int) by {
        if j < s.len() {
            assert(sp1[j] == sp[j] && s1[j] == s[j]);
        }
    }
    assert forall|j1: int, j2: int| #![trigger sp1[j1], sp1[j2]] 0 <= j1 <= j2 < s1.len() implies sp1[j1] <= sp1[j2] by {
        if j2 < s.len() {
            assert(sp1[j1] == sp[j1] && sp1[j2] == sp[j2]);
        } else if j1 < s.len() {
            assert(sp1[j1] == sp[j1]);
        }
    }
    assert forall|i: int, j: int| #![trigger pa[i], sp1[j]] 1 <= i < o.len() && 0 <= j < s1.len() implies !(pa[i] < sp1[j] < i) by {
        if j < s.len() {
            assert(sp1[j] == sp[j]);
        }
    }
    assert forall|j: int, x: int| #![trigger sp1[j], o[x]] 0 <= j < s1.len() && 0 <= x < sp1[j] implies !has_edge(adj, o[x].0 as int, s1[j].0 as int) by {
        if j < s.len() {
            assert(sp1[j] == sp[j] && s1[j] == s[j]);
        }
    }
    assert forall|j1: int, j2: int|
        #![trigger sp1[j1], sp1[j2]]
        0 <= j1 < j2 < s1.len() && sp1[j1] == sp1[j2] && o.len() > 0 implies scan_pos(adj, o[sp1[j1]].0 as int, s1[j1].0 as int)
            < scan_pos(adj, o[sp1[j2]].0 as int, s1[j2].0 as int) by {
        assert(sp1[j1] == sp[j1] && s1[j1] == s[j1]);
        if j2 < s.len() {
            assert(sp1[j2] == sp[j2] && s1[j2] == s[j2]);
        } else {
            assert(o[l] == o.last());
        }
    }
    assert forall|i: int, j: int|
        #![trigger pa[i], sp1[j]]
        1 <= i < o.len() && 0 <= j < s1.len() && pa[i] == sp1[j] implies scan_pos(adj, o[pa[i]].0 as int, o[i].0 as int)
            > scan_pos(adj, o[sp1[j]].0 as int, s1[j].0 as int) by {
        if j < s.len() {
            assert(sp1[j] == sp[j] && s1[j] == s[j]);
        }
    }
}

/// The nodes of `order` come in an order that a depth-first search can scan them in.
pub open spec fn depth_first<W>(adj: Seq<Seq<(usize, W)>>, order: Seq<NodeId>) -> bool {
    exists|pa: Seq<int>| #[trigger] dfs_finders(adj, order, pa)
}

/// `t` is the tree of a depth-first search that listed the nodes `order`: each node after the
/// first hangs from the node that found it.
pub open spec fn dfs_tree_of<'a, G, W>(t: Tree<'a, G>, adj: Seq<Seq<(usize, W)>>, order: Seq<NodeId>) -> bool {
    exists|pa: Seq<int>| #[trigger] dfs_finders(adj, order, pa) && tree_by(t, order, pa)
}

/// Depth-first search from `from` through the nodes whose marker is zero: gives `from` and
/// every node it reaches the marker `mark`, and returns the tree of the search and the nodes
/// in the order the search scanned them.
#[verifier::rlimit(80)]
#[verifier::spinoff_prover]
fn dfs_core<'a, G: IndexAdjacent + Count>(
    graph: &'a G,
    from: NodeId,
    markers: &mut Vec<usize>,
    mark: usize,
) -> (r: (Tree<'a, G>, Vec<NodeId>))
    requires
        graph.spec_wf(),
        adj_wf(graph.spec_adj()),
        from.0 < graph.spec_nodes().len(),
        old(markers)@.len() == graph.spec_nodes().len(),
        mark != 0,
    ensures
        marked_result(graph.spec_adj(), old(markers)@, final(markers)@, from.0 as int, mark),
        search_tree(r.0, graph.spec_adj(), old(markers)@, from.0 as int),
        *r.0.spec_graph() == *graph,
        search_order(graph.spec_adj(), old(markers)@, from.0 as int, r.1@),
        depth_first(graph.spec_adj(), r.1@),
        dfs_tree_of(r.0, graph.spec_adj(), r.1@),
{
    proof {
        graph.lemma_wf();
    }
    let ghost adj = graph.spec_adj();
    let ghost old_m = markers@;
    let ghost n = old_m.len();
    let ghost s = from.0 as int;
    let mlen: usize = markers.len();
    let mut tree = Tree::new(from, graph);
    let mut stack: Vec<NodeId> = Vec::new();
    let mut order: Vec<NodeId> = Vec::new();
    stack.push(from);
    markers.set(from.0, mark);
    let ghost mut done: Set<int> = Set::empty();
    let ghost mut started = false;
    let ghost mut pa: Seq<int> = Seq::empty();
    let ghost mut st_par: Seq<int> = seq![-1int];
    proof {
        lemma_search_init(adj, old_m, s, mark);
        assert(raw_ids(stack@) =~= seq![from.0]);
        lemma_search_facts(adj, old_m, markers@, s, mark, seq![from.0], done, -1);
        assert forall|v: int| 0 <= v < n && v != s implies !#[trigger] in_run(old_m, markers@, s, v) by {
            assert(markers@[v] == old_m[v]);
        }
        assert(dfs_state(adj, order@, pa, stack@, st_par)) by {
            reveal(dfs_state);
            reveal(dfs_finders);
        }
        assert forall|e: EdgeId| #[trigger] tree.spec_edges().contains(e) <==> exists|i: int| #[trigger] found_edge(order@ + stack@, pa + st_par, i, e) by {
            if exists|i: int| #[trigger] found_edge(order@ + stack@, pa + st_par, i, e) {
                let i = choose|i: int| #[trigger] found_edge(order@ + stack@, pa + st_par, i, e);
                assert((order@ + stack@).len() == 1);
            }
        }
    }
    while stack.len() > 0
        invariant
            graph.spec_wf(),
            adj == graph.spec_adj(),
            adj_wf(adj),
            adj.len() == n,
            graph.spec_nodes().len() == n,
            old_m.len() == n,
            markers@.len() == n,
            s == from.0,
            from.0 < n,
            mark != 0,
            search_state(adj, old_m, markers@, s, mark, raw_ids(stack@), done, -1),
            started <==> exists|v: int| 0 <= v < n && v != s && #[trigger] in_run(old_m, markers@, s, v),
            run_tree(tree, adj, old_m, markers@, s, started),
            *tree.spec_graph() == *graph,
            order@.len() == 0 ==> raw_ids(stack@) == seq![from.0],
            order@.len() > 0 ==> order@[0] == from,
            forall|i: int| 0 <= i < order@.len() ==> done.contains(#[trigger] order@[i].0 as int),
            forall|v: int| #[trigger] done.contains(v) ==> exists|i: int| 0 <= i < order@.len() && #[trigger] order@[i].0 == v,
            forall|i: int, j: int| 0 <= i < j < order@.len() ==> order@[i] != order@[j],
            dfs_state(adj, order@, pa, stack@, st_par),
            tree_by(tree, order@ + stack@, pa + st_par),
        decreases 2 * count_free(markers@) + stack@.len(),
    {
        let ghost pending = raw_ids(stack@);
        let ghost free0 = count_free(markers@);
        let ghost slen0 = stack@.len();
        let ghost o0 = order@;
        let ghost pa0 = pa;
        let ghost sp0 = st_par;
        let ghost stk0 = stack@;
        let u = stack.pop().unwrap();
        let ghost ui = u.0 as int;
        let ghost q = sp0[slen0 - 1];
        let ghost o1 = o0.push(u);
        let ghost pa1 = pa0.push(q);
        proof {
            st_par = sp0.drop_last();
            assert(stack@ == stk0.drop_last());
            assert(stk0.last() == u);
            lemma_dfs_pop(adj, o0, pa0, stk0, sp0);
            lemma_tree_by_move(tree, o0, pa0, stk0, sp0);
            if o0.len() > 0 {
                assert forall|j: int| 0 <= j < stack@.len() && st_par[j] == o0.len() implies scan_pos(adj, ui, #[trigger] stack@[j].0 as int) < 0 by {
                    assert(st_par[j] == sp0[j]);
                }
            }
        }
        proof {
            assert(pending[slen0 - 1] == u.0);
            lemma_search_take(adj, old_m, markers@, s, mark, pending, done, slen0 - 1);
            assert(pending.remove(slen0 - 1) =~= raw_ids(stack@));
            lemma_search_facts(adj, old_m, markers@, s, mark, raw_ids(stack@), done, ui);
            if o0.len() == 0 {
                assert(ui == s);
            }
            if !started {
                assert(ui == s);
            }
        }
        let ids = graph.adjacent_node_ids(u);
        let mut k: usize = 0;
        while k < ids.len()
            invariant
                graph.spec_wf(),
                adj == graph.spec_adj(),
                adj_wf(adj),
                adj.len() == n,
                graph.spec_nodes().len() == n,
                old_m.len() == n,
                markers@.len() == n,
                s == from.0,
                from.0 < n,
                mark != 0,
                ui == u.0,
                ui < n,
                o0 == order@,
                o0.len() == 0 ==> ui == s,
                search_state(adj, old_m, markers@, s, mark, raw_ids(stack@), done, ui),
                started <==> exists|v: int| 0 <= v < n && v != s && #[trigger] in_run(old_m, markers@, s, v),
                started || ui == s,
                run_tree(tree, adj, old_m, markers@, s, started),
                *tree.spec_graph() == *graph,
                !done.contains(ui),
                forall|i: int| 0 <= i < order@.len() ==> done.contains(#[trigger] order@[i].0 as int),
                forall|v: int| #[trigger] done.contains(v) ==> exists|i: int| 0 <= i < order@.len() && #[trigger] order@[i].0 == v,
                forall|i: int, j: int| 0 <= i < j < order@.len() ==> order@[i] != order@[j],
                2 * count_free(markers@) + stack@.len() <= 2 * free0 + slen0 - 1,
                ids@.len() == adj[ui].len(),
                forall|j: int| 0 <= j < ids@.len() ==> (#[trigger] ids@[j]).0 == adj[ui][j].0,
                k <= ids@.len(),
                forall|j: int| 0 <= j < k ==> markers@[#[trigger] adj[ui][j].0 as int] != 0,
                o1 == o0.push(u),
                pa1 == pa0.push(q),
                dfs_state(adj, o1, pa1, stack@, st_par),
                tree_by(tree, o1 + stack@, pa1 + st_par),
                forall|j: int| 0 <= j < stack@.len() && st_par[j] == o0.len() ==> scan_pos(adj, ui, #[trigger] stack@[j].0 as int) < k,
            decreases ids@.len() - k,
        {
            let to = ids[k];
            proof {
                assert(adj[ui][k as int].0 == to.0);
                assert(has_edge(adj, ui, to.0 as int));
                lemma_has_edge_range(adj, ui, to.0 as int);
            }
            if markers[to.0] == 0 {
                let ghost cur0 = markers@;
                let ghost t0 = tree;
                let ghost st0 = stack@;
                let ghost ti = to.0 as int;
                proof {
                    lemma_search_enter(adj, old_m, cur0, s, mark, raw_ids(st0), done, ui, ti);
                    lemma_search_facts(adj, old_m, cur0, s, mark, raw_ids(st0), done, ui);
                }
                stack.push(to);
                markers.set(to.0, mark);
                tree.insert(u, to);
                proof {
                    let sp1 = st_par;
                    assert forall|j: int| 0 <= j < k implies adj[ui][j].0 != to.0 by {
                        assert(cur0[adj[ui][j].0 as int] != 0);
                    }
                    assert forall|x: int| 0 <= x < o1.len() - 1 implies !has_edge(adj, #[trigger] o1[x].0 as int, to.0 as int) by {
                        assert(o1[x] == o0[x]);
                        assert(done.contains(o0[x].0 as int));
                    }
                    assert(o1.last() == u);
                    lemma_dfs_push(adj, o1, pa1, st0, sp1, k as int, to);
                    st_par = sp1.push(o0.len() as int);
                    assert(stack@ == st0.push(to));
                    reveal(dfs_state);
                    reveal(dfs_finders);
                    assert forall|i: int| 1 <= i < (o1 + st0).len() implies 0 <= #[trigger] (pa1 + sp1)[i] < (o1 + st0).len() by {
                        if i < o1.len() {
                            assert((pa1 + sp1)[i] == pa1[i]);
                        } else {
                            assert((pa1 + sp1)[i] == sp1[i - o1.len()]);
                        }
                    }
                    assert(o1[o0.len() as int] == u);
                    assert((o1 + st0)[o0.len() as int] == u);
                    lemma_tree_by_push(t0, tree, o1 + st0, pa1 + sp1, to, o0.len() as int);
                    assert((o1 + st0).push(to) =~= o1 + stack@);
                    assert((pa1 + sp1).push(o0.len() as int) =~= pa1 + st_par);
                    assert forall|j: int| 0 <= j < stack@.len() && st_par[j] == o0.len() implies scan_pos(adj, ui, #[trigger] stack@[j].0 as int) < k + 1 by {
                        if j < st0.len() {
                            assert(st_par[j] == sp1[j] && stack@[j] == st0[j]);
                        }
                    }
                    lemma_run_tree_step(t0, tree, adj, old_m, cur0, markers@, s, started, ui, ti, mark);
                    assert(raw_ids(st0).push(to.0) =~= raw_ids(stack@));
                    assert(in_run(old_m, markers@, s, ti));
                    started = true;
                }
            }
            k = k + 1;
        }
        proof {
            assert forall|w: int| #[trigger] has_edge(adj, ui, w) implies markers@[w] != 0 by {
                let j = choose|j: int| 0 <= j < adj[ui].len() && #[trigger] adj[ui][j].0 == w;
                assert(markers@[adj[ui][j].0 as int] != 0);
            }
            lemma_search_finish(adj, old_m, markers@, s, mark, raw_ids(stack@), done, ui);
        }
        order.push(u);
        proof {
            pa = pa1;
            assert(order@ == o1);
            let d0 = done;
            done = done.insert(ui);
            assert forall|i: int| 0 <= i < order@.len() implies done.contains(#[trigger] order@[i].0 as int) by {
                if i < o0.len() {
                    assert(order@[i] == o0[i]);
                }
            }
            assert forall|v: int| #[trigger] done.contains(v) implies exists|i: int| 0 <= i < order@.len() && #[trigger] order@[i].0 == v by {
                if v != ui {
                    assert(d0.contains(v));
                    let i = choose|i: int| 0 <= i < o0.len() && #[trigger] o0[i].0 == v;
                    assert(order@[i] == o0[i]);
                } else {
                    assert(order@[o0.len() as int].0 == v);
                }
            }
            assert forall|i: int, j: int| 0 <= i < j < order@.len() implies order@[i] != order@[j] by {
                assert(order@[i] == o0[i] || i == o0.len());
                if j == o0.len() {
                    assert(d0.contains(o0[i].0 as int));
                } else {
                    assert(order@[j] == o0[j]);
                }
            }
        }
    }
    proof {
        assert(raw_ids(stack@) =~= Seq::<usize>::empty());
        lemma_search_done(adj, old_m, markers@, s, mark, done);
        lemma_run_tree_done(tree, adj, old_m, markers@, s, started);
        assert(order@.len() > 0);
        assert forall|i: int| 1 <= i < order@.len() implies found(adj, old_m, s, #[trigger] order@[i].0 as int) by {
            assert(done.contains(order@[i].0 as int));
            assert(order@[i] != order@[0]);
        }
        assert forall|v: int| #[trigger] found(adj, old_m, s, v) implies exists|i: int| 0 <= i < order@.len() && #[trigger] order@[i].0 == v by {
            assert(in_run(old_m, markers@, s, v));
            assert(done.contains(v));
        }
        assert(stack@.len() == 0);
        assert(order@ + stack@ =~= order@);
        assert(pa + st_par =~= pa) by {
            reveal(dfs_state);
            reveal(dfs_finders);
        }
        assert(dfs_finders(adj, order@, pa)) by {
            reveal(dfs_state);
        }
        assert(depth_first(adj, order@));
        assert(dfs_tree_of(tree, adj, order@));
    }
    (tree, order)
}

/// Depth-first search from `from` through the nodes whose marker is zero: gives `from` and
/// every node it reaches the marker `mark`, and returns the tree of the search.
pub fn dfs_marker<'a, G: IndexAdjacent + Count>(
    graph: &'a G,
    from: NodeId,
    markers: &mut Vec<usize>,
    mark: usize,
) -> (r: Tree<'a, G>)
    requires
        graph.spec_wf(),
        adj_wf(graph.spec_adj()),
        from.0 < graph.spec_nodes().len(),
        old(markers)@.len() == graph.spec_nodes().len(),
        mark != 0,
    ensures
        marked_result(graph.spec_adj(), old(markers)@, final(markers)@, from.0 as int, mark),
        search_tree(r, graph.spec_adj(), old(markers)@, from.0 as int),
        *r.spec_graph() == *graph,
        exists|order: Seq<NodeId>|
            #[trigger] search_order(graph.spec_adj(), old(markers)@, from.0 as int, order) && dfs_tree_of(r, graph.spec_adj(), order),
{
    let (tree, order) = dfs_core(graph, from, markers, mark);
    proof {
        assert(search_order(graph.spec_adj(), old(markers)@, from.0 as int, order@));
    }
    tree
}

/// The nodes that a depth-first search from `from` through the nodes whose marker is zero
/// scans, in that order; each gets the marker `mark`.
pub fn _dfs<G: IndexAdjacent + Count>(graph: &G, from: NodeId, markers: &mut Vec<usize>, mark: usize) -> (r: Vec<NodeId>)
    requires
        graph.spec_wf(),
        adj_wf(graph.spec_adj()),
        from.0 < graph.spec_nodes().len(),
        old(markers)@.len() == graph.spec_nodes().len(),
        mark != 0,
    ensures
        marked_result(graph.spec_adj(), old(markers)@, final(markers)@, from.0 as int, mark),
        search_order(graph.spec_adj(), old(markers)@, from.0 as int, r@),
        depth_first(graph.spec_adj(), r@),
{
    let (_tree, order) = dfs_core(graph, from, markers, mark);
    order
}

/// The depth-first search tree from `from` over the whole graph.
pub fn dfs<'a, G: IndexAdjacent + Count>(graph: &'a G, from: NodeId) -> (r: Tree<'a, G>)
    requires
        graph.spec_wf(),
        adj_wf(graph.spec_adj()),
        from.0 < graph.spec_nodes().len(),
    ensures
        search_tree(r, graph.spec_adj(), no_marks(graph.spec_nodes().len()), from.0 as int),
        *r.spec_graph() == *graph,
        exists|order: Seq<NodeId>|
            #[trigger] search_order(graph.spec_adj(), no_marks(graph.spec_nodes().len()), from.0 as int, order) && dfs_tree_of(
                r,
                graph.spec_adj(),
                order,
            ),
{
    let mut markers = zeros(graph.node_count());
    proof {
        assert(markers@ =~= no_marks(graph.spec_nodes().len()));
    }
    dfs_marker(graph, from, &mut markers, 1)
}

/// The nodes that a depth-first search from `from` over the whole graph scans, in order.
pub fn dfs_iter<G: IndexAdjacent + Count>(graph: &G, from: NodeId) -> (r: Vec<NodeId>)
    requires
        graph.spec_wf(),
        adj_wf(graph.spec_adj()),
        from.0 < graph.spec_nodes().len(),
    ensures
        search_order(graph.spec_adj(), no_marks(graph.spec_nodes().len()), from.0 as int, r@),
        depth_first(graph.spec_adj(), r@),
{
    let mut visited = zeros(graph.node_count());
    _dfs(graph, from, &mut visited, 1)
}

} // verus!
