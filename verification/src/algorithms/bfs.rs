use crate::graph::index::NodeId;
use crate::graph::reach::{no_marks, 
    count_free, found, has_edge, in_run, lemma_has_edge_range, lemma_search_done, lemma_search_enter,
    lemma_search_facts, lemma_search_finish, lemma_search_init, lemma_search_take, marked_result,
    raw_ids, search_order, search_state,
};
use crate::graph::traits::{adj_wf, Base, Count, IndexAdjacent};
use crate::graph_impl::tree::{found_edge, lemma_run_tree_done, lemma_run_tree_step, lemma_scan_pos, run_tree, scan_pos, search_tree, tree_by, Tree, edge_between};
use crate::graph::index::EdgeId;
use vstd::prelude::*;

verus! {

/// `pa` names for each node of `order` after the first the node that found it, as a
/// breadth-first search finds them: an earlier node with an edge to it, the first listed node
/// with such an edge; and the nodes come in the order they were found: by the place of their
/// finder in the list, and those of one finder in the order of its edges.
#[verifier::opaque]
pub open spec fn bfs_finders<W>(adj: Seq<Seq<(usize, W)>>, order: Seq<NodeId>, pa: Seq<int>) -> bool {
    &&& pa.len() == order.len()
    &&& forall|i: int|
        1 <= i < order.len() ==> 0 <= #[trigger] pa[i] < i && has_edge(adj, order[pa[i]].0 as int, order[i].0 as int)
    &&& forall|i: int, j: int|
        #![trigger pa[i], order[j]]
        1 <= i < order.len() && 0 <= j < pa[i] ==> !has_edge(adj, order[j].0 as int, order[i].0 as int)
    &&& forall|i: int, k: int|
        #![trigger pa[i], pa[k]]
        1 <= i < k < order.len() ==> pa[i] < pa[k] || (pa[i] == pa[k] && scan_pos(adj, order[pa[i]].0 as int, order[i].0 as int)
            < scan_pos(adj, order[pa[k]].0 as int, order[k].0 as int))
}

/// The nodes of `order` come in breadth-first order.
pub open spec fn breadth_first<W>(adj: Seq<Seq<(usize, W)>>, order: Seq<NodeId>) -> bool {
    exists|pa: Seq<int>| #[trigger] bfs_finders(adj, order, pa)
}

/// `t` is the tree of a breadth-first search that listed the nodes `order`: each node after
/// the first hangs from the node that found it.
pub open spec fn bfs_tree_of<'a, G, W>(t: Tree<'a, G>, adj: Seq<Seq<(usize, W)>>, order: Seq<NodeId>) -> bool {
    exists|pa: Seq<int>| #[trigger] bfs_finders(adj, order, pa) && tree_by(t, order, pa)
}

/// Breadth-first search from `from` through the nodes whose marker is zero: gives `from` and
/// every node it reaches the marker `mark`, and returns the tree of the search and the nodes
/// in the order the search entered them.
#[verifier::rlimit(100)]
#[verifier::spinoff_prover]
fn bfs_core<'a, G: IndexAdjacent + Count>(
    graph: &'a G,
    from: NodeId,
    markers: &mut Vec<usize>,
    mark: usize,
) -> (r: (Tree<'a, G>, Vec<NodeId>))
    requires
        graph.spec_wf(),
        adj_wf(graph.spec_adj()),
        from.0 < graph.spec_nodes().len(),
        old(markers)@.len() == graph.spec_nodes().len(),
        mark != 0,
    ensures
        marked_result(graph.spec_adj(), old(markers)@, final(markers)@, from.0 as int, mark),
        search_tree(r.0, graph.spec_adj(), old(markers)@, from.0 as int),
        *r.0.spec_graph() == *graph,
        search_order(graph.spec_adj(), old(markers)@, from.0 as int, r.1@),
        bfs_tree_of(r.0, graph.spec_adj(), r.1@),
{
    proof {
        graph.lemma_wf();
    }
    let ghost adj = graph.spec_adj();
    let ghost old_m = markers@;
    let ghost n = old_m.len();
    let ghost s = from.0 as int;
    let mlen: usize = markers.len();
    let mut tree = Tree::new(from, graph);
    let mut queue: Vec<NodeId> = Vec::new();
    queue.push(from);
    markers.set(from.0, mark);
    let ghost mut done: Set<int> = Set::empty();
    let ghost mut started = false;
    let ghost mut pa: Seq<int> = seq![-1int];
    proof {
        lemma_search_init(adj, old_m, s, mark);
        assert(raw_ids(queue@).subrange(0, 1) =~= seq![from.0]);
        lemma_search_facts(adj, old_m, markers@, s, mark, seq![from.0], done, -1);
        assert forall|v: int| 0 <= v < n && v != s implies !#[trigger] in_run(old_m, markers@, s, v) by {
            assert(markers@[v] == old_m[v]);
        }
    }
    proof {
        reveal(bfs_finders);
        assert(bfs_finders(adj, queue@, pa));
        assert forall|e: EdgeId| #[trigger] tree.spec_edges().contains(e) <==> exists|i: int| #[trigger] found_edge(queue@, pa, i, e) by {
            if exists|i: int| #[trigger] found_edge(queue@, pa, i, e) {
                let i = choose|i: int| #[trigger] found_edge(queue@, pa, i, e);
            }
        }
    }
    let mut h: usize = 0;
    while h < queue.len()
        invariant
            graph.spec_wf(),
            adj == graph.spec_adj(),
            adj_wf(adj),
            adj.len() == n,
            graph.spec_nodes().len() == n,
            old_m.len() == n,
            markers@.len() == n,
            s == from.0,
            from.0 < n,
            mark != 0,
            h <= queue@.len(),
            1 <= queue@.len(),
            search_state(adj, old_m, markers@, s, mark, raw_ids(queue@).subrange(h as int, queue@.len() as int), done, -1),
            started <==> exists|v: int| 0 <= v < n && v != s && #[trigger] in_run(old_m, markers@, s, v),
            run_tree(tree, adj, old_m, markers@, s, started),
            *tree.spec_graph() == *graph,
            queue@[0] == from,
            forall|i: int| 0 <= i < h ==> done.contains(#[trigger] queue@[i].0 as int),
            forall|v: int| #[trigger] done.contains(v) ==> exists|i: int| 0 <= i < h && #[trigger] queue@[i].0 == v,
            forall|i: int, j: int| 0 <= i < j < h ==> queue@[i] != queue@[j],
            bfs_finders(adj, queue@, pa),
            forall|i: int| 1 <= i < queue@.len() ==> #[trigger] pa[i] < h,
            tree_by(tree, queue@, pa),
        decreases 2 * count_free(markers@) + queue@.len() - h,
    {
        let ghost pending = raw_ids(queue@).subrange(h as int, queue@.len() as int);
        let ghost free0 = count_free(markers@);
        let ghost qlen0 = queue@.len();
        let u = queue[h];
        let ghost ui = u.0 as int;
        proof {
            assert(pending[0] == u.0);
            lemma_search_take(adj, old_m, markers@, s, mark, pending, done, 0);
            assert(pending.remove(0) =~= raw_ids(queue@).subrange(h + 1, queue@.len() as int));
            lemma_search_facts(adj, old_m, markers@, s, mark, pending.remove(0), done, ui);
        }
        let ids = graph.adjacent_node_ids(u);
        let mut k: usize = 0;
        while k < ids.len()
            invariant
                graph.spec_wf(),
                adj == graph.spec_adj(),
                adj_wf(adj),
                adj.len() == n,
                graph.spec_nodes().len() == n,
                old_m.len() == n,
                markers@.len() == n,
                s == from.0,
                from.0 < n,
                mark != 0,
                h < qlen0 <= queue@.len(),
                ui == u.0,
                ui < n,
                search_state(adj, old_m, markers@, s, mark, raw_ids(queue@).subrange(h + 1, queue@.len() as int), done, ui),
                started <==> exists|v: int| 0 <= v < n && v != s && #[trigger] in_run(old_m, markers@, s, v),
                started || ui == s,
                run_tree(tree, adj, old_m, markers@, s, started),
                *tree.spec_graph() == *graph,
                queue@[0] == from,
                queue@[h as int] == u,
                !done.contains(ui),
                forall|i: int| 0 <= i < h ==> done.contains(#[trigger] queue@[i].0 as int),
                forall|v: int| #[trigger] done.contains(v) ==> exists|i: int| 0 <= i < h && #[trigger] queue@[i].0 == v,
                forall|i: int, j: int| 0 <= i < j < h ==> queue@[i] != queue@[j],
                2 * count_free(markers@) + queue@.len() <= 2 * free0 + qlen0,
                ids@.len() == adj[ui].len(),
                forall|j: int| 0 <= j < ids@.len() ==> (#[trigger] ids@[j]).0 == adj[ui][j].0,
                k <= ids@.len(),
                forall|j: int| 0 <= j < k ==> markers@[#[trigger] adj[ui][j].0 as int] != 0,
                bfs_finders(adj, queue@, pa),
                forall|i: int| 1 <= i < qlen0 ==> #[trigger] pa[i] < h,
                forall|i: int| qlen0 <= i < queue@.len() ==> #[trigger] pa[i] == h && scan_pos(adj, ui, queue@[i].0 as int) < k,
                tree_by(tree, queue@, pa),
            decreases ids@.len() - k,
        {
            let to = ids[k];
            proof {
                assert(adj[ui][k as int].0 == to.0);
                assert(has_edge(adj, ui, to.0 as int));
                lemma_has_edge_range(adj, ui, to.0 as int);
            }
            if markers[to.0] == 0 {
                let ghost cur0 = markers@;
                let ghost t0 = tree;
                let ghost q0 = queue@;
                let ghost ti = to.0 as int;
                proof {
                    lemma_search_enter(adj, old_m, cur0, s, mark, raw_ids(q0).subrange(h + 1, q0.len() as int), done, ui, ti);
                    lemma_search_facts(adj, old_m, cur0, s, mark, raw_ids(q0).subrange(h + 1, q0.len() as int), done, ui);
                }
                markers.set(to.0, mark);
                queue.push(to);
                tree.insert(u, to);
                proof {
                    reveal(bfs_finders);
                    let pa0 = pa;
                    pa = pa.push(h as int);
                    let q1 = queue@;
                    let l = q0.len() as int;
                    assert forall|j: int| 0 <= j < k implies adj[ui][j].0 != adj[ui][k as int].0 by {
                        assert(cur0[adj[ui][j].0 as int] != 0);
                    }
                    lemma_scan_pos(adj, ui, k as int);
                    assert(scan_pos(adj, ui, ti) == k);
                    assert forall|i: int| 1 <= i < q1.len() implies 0 <= #[trigger] pa[i] < i && has_edge(adj, q1[pa[i]].0 as int, q1[i].0 as int) by {
                        if i < l {
                            assert(pa[i] == pa0[i] && q1[i] == q0[i] && q1[pa0[i]] == q0[pa0[i]]);
                        } else {
                            assert(q1[h as int] == u);
                        }
                    }
                    assert forall|i: int, j: int| #![trigger pa[i], q1[j]] 1 <= i < q1.len() && 0 <= j < pa[i] implies !has_edge(adj, q1[j].0 as int, q1[i].0 as int) by {
                        assert(q1[j] == q0[j]);
                        if i < l {
                            assert(pa[i] == pa0[i] && q1[i] == q0[i]);
                        } else {
                            assert(done.contains(q0[j].0 as int));
                        }
                    }
                    assert forall|i: int, k2: int| #![trigger pa[i], pa[k2]] 1 <= i < k2 < q1.len() implies pa[i] < pa[k2] || (pa[i] == pa[k2] && scan_pos(adj, q1[pa[i]].0 as int, q1[i].0 as int)
                        < scan_pos(adj, q1[pa[k2]].0 as int, q1[k2].0 as int)) by {
                        assert(pa[i] == pa0[i] && q1[i] == q0[i]);
                        if k2 < l {
                            assert(pa[k2] == pa0[k2] && q1[k2] == q0[k2]);
                            assert(q1[pa0[i]] == q0[pa0[i]] && q1[pa0[k2]] == q0[pa0[k2]]);
                        } else {
                            if i >= qlen0 {
                                assert(q1[h as int] == u);
                            }
                        }
                    }
                    assert(bfs_finders(adj, q1, pa));
                    assert forall|e: EdgeId| #[trigger] tree.spec_edges().contains(e) <==> exists|i: int| #[trigger] found_edge(q1, pa, i, e) by {
                        if tree.spec_edges().contains(e) {
                            if e == edge_between(ui, ti) || e == edge_between(ti, ui) {
                                assert(q1[h as int] == u);
                                assert(found_edge(q1, pa, l, e));
                            } else {
                                assert(t0.spec_edges().contains(e));
                                let i = choose|i: int| #[trigger] found_edge(q0, pa0, i, e);
                                assert(q1[i] == q0[i] && pa[i] == pa0[i] && q1[pa0[i]] == q0[pa0[i]]);
                                assert(found_edge(q1, pa, i, e));
                            }
                        }
                        if exists|i: int| #[trigger] found_edge(q1, pa, i, e) {
                            let i = choose|i: int| #[trigger] found_edge(q1, pa, i, e);
                            if i < l {
                                assert(q1[i] == q0[i] && pa[i] == pa0[i] && q1[pa0[i]] == q0[pa0[i]]);
                                assert(found_edge(q0, pa0, i, e));
                            } else {
                                assert(q1[h as int] == u);
                            }
                        }
                    }
                    assert forall|i: int| 0 <= i < h implies done.contains(#[trigger] queue@[i].0 as int) by {
                        assert(queue@[i] == q0[i]);
                    }
                    assert forall|v: int| #[trigger] done.contains(v) implies exists|i: int| 0 <= i < h && #[trigger] queue@[i].0 == v by {
                        let i = choose|i: int| 0 <= i < h && #[trigger] q0[i].0 == v;
                        assert(queue@[i] == q0[i]);
                    }
                    lemma_run_tree_step(t0, tree, adj, old_m, cur0, markers@, s, started, ui, ti, mark);
                    assert(raw_ids(q0).subrange(h + 1, q0.len() as int).push(to.0) =~= raw_ids(queue@).subrange(
                        h + 1,
                        queue@.len() as int,
                    ));
                    assert(in_run(old_m, markers@, s, ti));
                    started = true;
                }
            }
            k = k + 1;
        }
        proof {
            assert forall|i: int| 1 <= i < queue@.len() implies #[trigger] pa[i] < h + 1 by {
                if i >= qlen0 {
                    assert(pa[i] == h);
                }
            }
            assert forall|w: int| #[trigger] has_edge(adj, ui, w) implies markers@[w] != 0 by {
                let j = choose|j: int| 0 <= j < adj[ui].len() && #[trigger] adj[ui][j].0 == w;
                assert(markers@[adj[ui][j].0 as int] != 0);
            }
            lemma_search_finish(adj, old_m, markers@, s, mark, raw_ids(queue@).subrange(h + 1, queue@.len() as int), done, ui);
            let d0 = done;
            done = done.insert(ui);
            assert forall|v: int| #[trigger] done.contains(v) implies exists|i: int| 0 <= i < h + 1 && #[trigger] queue@[i].0 == v by {
                if v != ui {
                    assert(d0.contains(v));
                } else {
                    assert(queue@[h as int].0 == v);
                }
            }
            assert forall|i: int, j: int| 0 <= i < j < h + 1 implies queue@[i] != queue@[j] by {
                if j == h {
                    assert(d0.contains(queue@[i].0 as int));
                }
            }
        }
        h = h + 1;
    }
    proof {
        assert(raw_ids(queue@).subrange(h as int, queue@.len() as int) =~= Seq::<usize>::empty());
        lemma_search_done(adj, old_m, markers@, s, mark, done);
        lemma_run_tree_done(tree, adj, old_m, markers@, s, started);
        assert forall|i: int| 1 <= i < queue@.len() implies found(adj, old_m, s, #[trigger] queue@[i].0 as int) by {
            assert(done.contains(queue@[i].0 as int));
            assert(queue@[i] != queue@[0]);
        }
        assert forall|v: int| #[trigger] found(adj, old_m, s, v) implies exists|i: int| 0 <= i < queue@.len() && #[trigger] queue@[i].0 == v by {
            assert(in_run(old_m, markers@, s, v));
            assert(done.contains(v));
        }
        assert(bfs_finders(adj, queue@, pa) && tree_by(tree, queue@, pa));
    }
    (tree, queue)
}

/// Breadth-first search from `from` through the nodes whose marker is zero: gives `from` and
/// every node it reaches the marker `mark`, and returns the tree of the search.
pub fn bfs_marker<'a, G: IndexAdjacent + Count>(
    graph: &'a G,
    from: NodeId,
    markers: &mut Vec<usize>,
    mark: usize,
) -> (r: Tree<'a, G>)
    requires
        graph.spec_wf(),
        adj_wf(graph.spec_adj()),
        from.0 < graph.spec_nodes().len(),
        old(markers)@.len() == graph.spec_nodes().len(),
        mark != 0,
    ensures
        marked_result(graph.spec_adj(), old(markers)@, final(markers)@, from.0 as int, mark),
        search_tree(r, graph.spec_adj(), old(markers)@, from.0 as int),
        *r.spec_graph() == *graph,
        exists|order: Seq<NodeId>|
            #[trigger] search_order(graph.spec_adj(), old(markers)@, from.0 as int, order) && bfs_tree_of(r, graph.spec_adj(), order),
{
    let (tree, order) = bfs_core(graph, from, markers, mark);
    proof {
        assert(search_order(graph.spec_adj(), old(markers)@, from.0 as int, order@));
    }
    tree
}

/// The nodes that a breadth-first search from `from` through the nodes whose marker is zero
/// enters, in that order; each gets the marker `mark`.
pub fn _bfs<G: IndexAdjacent + Count>(graph: &G, from: NodeId, markers: &mut Vec<usize>, mark: usize) -> (r: Vec<NodeId>)
    requires
        graph.spec_wf(),
        adj_wf(graph.spec_adj()),
        from.0 < graph.spec_nodes().len(),
        old(markers)@.len() == graph.spec_nodes().len(),
        mark != 0,
    ensures
        marked_result(graph.spec_adj(), old(markers)@, final(markers)@, from.0 as int, mark),
        search_order(graph.spec_adj(), old(markers)@, from.0 as int, r@),
        breadth_first(graph.spec_adj(), r@),
{
    let (tree, order) = bfs_core(graph, from, markers, mark);
    proof {
        let pa = choose|pa: Seq<int>| #[trigger] bfs_finders(graph.spec_adj(), order@, pa) && tree_by(tree, order@, pa);
        assert(bfs_finders(graph.spec_adj(), order@, pa));
    }
    order
}

/// The breadth-first search tree from `from` over the whole graph.
pub fn bfs<'a, G: IndexAdjacent + Count>(graph: &'a G, from: NodeId) -> (r: Tree<'a, G>)
    requires
        graph.spec_wf(),
        adj_wf(graph.spec_adj()),
        from.0 < graph.spec_nodes().len(),
    ensures
        search_tree(r, graph.spec_adj(), no_marks(graph.spec_nodes().len()), from.0 as int),
        *r.spec_graph() == *graph,
        exists|order: Seq<NodeId>|
            #[trigger] search_order(graph.spec_adj(), no_marks(graph.spec_nodes().len()), from.0 as int, order) && bfs_tree_of(
                r,
                graph.spec_adj(),
                order,
            ),
{
    let mut markers = zeros(graph.node_count());
    proof {
        assert(markers@ =~= no_marks(graph.spec_nodes().len()));
    }
    bfs_marker(graph, from, &mut markers, 1)
}

/// The nodes that a breadth-first search from `from` over the whole graph visits, in order.
pub fn bfs_iter<G: IndexAdjacent + Count>(graph: &G, from: NodeId) -> (r: Vec<NodeId>)
    requires
        graph.spec_wf(),
        adj_wf(graph.spec_adj()),
        from.0 < graph.spec_nodes().len(),
    ensures
        search_order(graph.spec_adj(), no_marks(graph.spec_nodes().len()), from.0 as int, r@),
        breadth_first(graph.spec_adj(), r@),
{
    let mut visited = zeros(graph.node_count());
    _bfs(graph, from, &mut visited, 1)
}

/// `n` zero markers.
pub fn zeros(n: usize) -> (r: Vec<usize>)
    ensures
        r@ == Seq::new(n as nat, |i: int| 0usize),
{
    let mut r: Vec<usize> = Vec::new();
    let mut i: usize = 0;
    while i < n
        invariant
            i <= n,
            r@ == Seq::new(i as nat, |k: int| 0usize),
        decreases n - i,
    {
        r.push(0);
        i = i + 1;
        proof {
            assert(r@ =~= Seq::new(i as nat, |k: int| 0usize));
        }
    }
    r
}

} // verus!
