use crate::algorithms::bfs::{_bfs, bfs_marker, zeros};
use crate::algorithms::dfs::{_dfs, dfs_marker};
use crate::graph::index::{EdgeId, NodeId};
use crate::graph::reach::{no_marks, found, has_edge, lemma_split_step, search_order, split_state};
use crate::graph::traits::{adj_wf, Base, Count, Index, IndexAdjacent};
use crate::algorithms::ConnectedComponents;
use crate::graph_impl::tree::{edge_between, lemma_search_tree_members, tree_member, Tree};
use crate::structures::tour::Tour;
use vstd::prelude::*;

verus! {

/// `v` belongs to one of the trees.
pub open spec fn in_some_tree<'a, G>(r: Seq<Tree<'a, G>>, v: int) -> bool {
    exists|i: int| 0 <= i < r.len() && #[trigger] tree_member(r[i], v)
}

/// Trees that split the nodes `0..n` into components: each node belongs to exactly one tree,
/// the roots increase, every successor of a member of tree `i` belongs to a tree up to `i`,
/// the edges of each tree join its members along edges of the graph, and every member but the
/// root hangs from another member.
pub open spec fn tree_components<'a, G, W>(r: Seq<Tree<'a, G>>, adj: Seq<Seq<(usize, W)>>, n: int) -> bool {
    &&& forall|i: int| 0 <= i < r.len() ==> (#[trigger] r[i]).wf() && r[i].spec_root().0 < n
    &&& forall|i: int, j: int| 0 <= i < j < r.len() ==> r[i].spec_root().0 < r[j].spec_root().0
    &&& forall|v: int| 0 <= v < n ==> #[trigger] in_some_tree(r, v)
    &&& forall|i: int, j: int, v: int|
        0 <= i < r.len() && 0 <= j < r.len() && 0 <= v < n && #[trigger] tree_member(r[i], v)
            && #[trigger] tree_member(r[j], v) ==> i == j
    &&& forall|i: int, u: int, w: int|
        0 <= i < r.len() && 0 <= u < n && #[trigger] tree_member(r[i], u) && #[trigger] has_edge(adj, u, w)
            ==> exists|j: int| 0 <= j <= i && #[trigger] tree_member(r[j], w)
    &&& forall|i: int, e: EdgeId|
        0 <= i < r.len() && #[trigger] r[i].spec_edges().contains(e) ==> tree_member(r[i], e.from.0 as int)
            && tree_member(r[i], e.to.0 as int) && (has_edge(adj, e.from.0 as int, e.to.0 as int)
            || has_edge(adj, e.to.0 as int, e.from.0 as int))
    &&& forall|i: int, v: int|
        0 <= i < r.len() && #[trigger] tree_member(r[i], v) && v != r[i].spec_root().0 ==> exists|p: int|
            tree_member(r[i], p) && #[trigger] has_edge(adj, p, v) && r[i].spec_edges().contains(
                edge_between(p, v),
            ) && r[i].spec_edges().contains(edge_between(v, p))
}

/// Searches from every node that no earlier search reached, depth first or breadth first, and
/// collects the trees.
fn scc_with<'a, G: Index + IndexAdjacent + Count>(graph: &'a G, depth: bool) -> (r: Vec<Tree<'a, G>>)
    requires
        graph.spec_wf(),
        adj_wf(graph.spec_adj()),
    ensures
        tree_components(r@, graph.spec_adj(), graph.spec_nodes().len() as int),
        forall|i: int| 0 <= i < r@.len() ==> *(#[trigger] r@[i]).spec_graph() == *graph,
{
    proof {
        graph.lemma_wf();
    }
    let ghost adj = graph.spec_adj();
    let ghost n = graph.spec_nodes().len() as int;
    let mut counter: usize = 0;
    let mut markers = zeros(graph.node_count());
    let mut components: Vec<Tree<'a, G>> = Vec::new();
    let ids = graph.node_ids();
    let mut i: usize = 0;
    while i < ids.len()
        invariant
            graph.spec_wf(),
            adj == graph.spec_adj(),
            adj_wf(adj),
            adj.len() == n,
            graph.spec_nodes().len() == n,
            ids@.len() == n,
            forall|j: int| 0 <= j < ids@.len() ==> (#[trigger] ids@[j]).0 == j,
            i <= ids@.len(),
            markers@.len() == n,
            counter == components@.len(),
            counter <= i,
            split_state(adj, markers@, counter as int, |c: int, v: int| tree_member(components@[c], v)),
            forall|v: int| 0 <= v < i ==> #[trigger] markers@[v] != 0,
            forall|c: int|
                0 <= c < components@.len() ==> (#[trigger] components@[c]).wf() && components@[c].spec_root().0
                    < i && *components@[c].spec_graph() == *graph,
            forall|c: int, d: int|
                0 <= c < d < components@.len() ==> components@[c].spec_root().0 < components@[d].spec_root().0,
            forall|c: int, e: EdgeId|
                0 <= c < components@.len() && #[trigger] components@[c].spec_edges().contains(e) ==> tree_member(
                    components@[c],
                    e.from.0 as int,
                ) && tree_member(components@[c], e.to.0 as int) && (has_edge(adj, e.from.0 as int, e.to.0 as int)
                    || has_edge(adj, e.to.0 as int, e.from.0 as int)),
            forall|c: int, v: int|
                0 <= c < components@.len() && #[trigger] tree_member(components@[c], v) && v
                    != components@[c].spec_root().0 ==> exists|p: int|
                    tree_member(components@[c], p) && #[trigger] has_edge(adj, p, v)
                        && components@[c].spec_edges().contains(edge_between(p, v))
                        && components@[c].spec_edges().contains(edge_between(v, p)),
        decreases ids@.len() - i,
    {
        let from = ids[i];
        if markers[from.0] == 0 {
            counter = counter + 1;
            let ghost m0 = markers@;
            let ghost c0 = components@;
            let comp = if depth {
                dfs_marker(graph, from, &mut markers, counter)
            } else {
                bfs_marker(graph, from, &mut markers, counter)
            };
            proof {
                lemma_search_tree_members(comp, adj, m0, from.0 as int);
            }
            components.push(comp);
            proof {
                let member = |c: int, v: int| tree_member(c0[c], v);
                let member2 = |c: int, v: int| tree_member(components@[c], v);
                assert forall|c: int, v: int| 0 <= c < counter - 1 implies #[trigger] member2(c, v) == member(c, v) by {
                    assert(components@[c] == c0[c]);
                }
                lemma_split_step(adj, m0, markers@, counter - 1, from.0 as int, member, member2);
                assert forall|v: int| 0 <= v < i + 1 implies #[trigger] markers@[v] != 0 by {
                    if v != from.0 {
                        if m0[v] != 0 {
                            assert(markers@[v] == m0[v] || markers@[v] == counter);
                        }
                    }
                }
                assert forall|c: int, e: EdgeId|
                    0 <= c < components@.len() && #[trigger] components@[c].spec_edges().contains(e) implies tree_member(
                    components@[c],
                    e.from.0 as int,
                ) && tree_member(components@[c], e.to.0 as int) && (has_edge(adj, e.from.0 as int, e.to.0 as int)
                    || has_edge(adj, e.to.0 as int, e.from.0 as int)) by {
                    if c < c0.len() {
                        assert(components@[c] == c0[c]);
                    }
                }
                assert forall|c: int, v: int|
                    0 <= c < components@.len() && #[trigger] tree_member(components@[c], v) && v
                        != components@[c].spec_root().0 implies exists|p: int|
                    tree_member(components@[c], p) && #[trigger] has_edge(adj, p, v)
                        && components@[c].spec_edges().contains(edge_between(p, v))
                        && components@[c].spec_edges().contains(edge_between(v, p)) by {
                    if c < c0.len() {
                        assert(components@[c] == c0[c]);
                    }
                }
                assert forall|c: int|
                    0 <= c < components@.len() implies (#[trigger] components@[c]).wf() && components@[c].spec_root().0
                    < i + 1 && *components@[c].spec_graph() == *graph by {
                    if c < c0.len() {
                        assert(components@[c] == c0[c]);
                    }
                }
            }
        }
        i = i + 1;
    }
    proof {
        let member = |c: int, v: int| tree_member(components@[c], v);
        assert forall|v: int| 0 <= v < n implies #[trigger] in_some_tree(components@, v) by {
            let c = markers@[v] - 1;
            assert(markers@[v] <= counter);
            assert(member(c, v));
        }
        assert forall|c: int, d: int, v: int|
            0 <= c < components@.len() && 0 <= d < components@.len() && 0 <= v < n && #[trigger] tree_member(
                components@[c],
                v,
            ) && #[trigger] tree_member(components@[d], v) implies c == d by {
            assert(member(c, v));
            assert(member(d, v));
        }
        assert forall|c: int, u: int, w: int|
            0 <= c < components@.len() && 0 <= u < n && #[trigger] tree_member(components@[c], u) && #[trigger] has_edge(
                adj,
                u,
                w,
            ) implies exists|d: int| 0 <= d <= c && #[trigger] tree_member(components@[d], w) by {
            assert(member(c, u));
            assert(1 <= markers@[w] <= c + 1);
            crate::graph::reach::lemma_has_edge_range(adj, u, w);
            assert(member(markers@[w] - 1, w));
        }
    }
    components
}

/// The breadth-first search trees of the components, in the order of their first nodes.
pub fn bfs_scc<'a, G: Index + IndexAdjacent + Count>(graph: &'a G) -> (r: Vec<Tree<'a, G>>)
    requires
        graph.spec_wf(),
        adj_wf(graph.spec_adj()),
    ensures
        tree_components(r@, graph.spec_adj(), graph.spec_nodes().len() as int),
        forall|i: int| 0 <= i < r@.len() ==> *(#[trigger] r@[i]).spec_graph() == *graph,
{
    scc_with(graph, false)
}

/// The depth-first search trees of the components, in the order of their first nodes.
pub fn dfs_scc<'a, G: Index + IndexAdjacent + Count>(graph: &'a G) -> (r: Vec<Tree<'a, G>>)
    requires
        graph.spec_wf(),
        adj_wf(graph.spec_adj()),
    ensures
        tree_components(r@, graph.spec_adj(), graph.spec_nodes().len() as int),
        forall|i: int| 0 <= i < r@.len() ==> *(#[trigger] r@[i]).spec_graph() == *graph,
{
    scc_with(graph, true)
}

/// `v` appears in the list.
pub open spec fn order_member(o: Seq<NodeId>, v: int) -> bool {
    exists|j: int| 0 <= j < o.len() && #[trigger] o[j].0 == v
}

/// `v` appears in one of the lists.
pub open spec fn in_some_order(r: Seq<Seq<NodeId>>, v: int) -> bool {
    exists|i: int| 0 <= i < r.len() && #[trigger] order_member(r[i], v)
}

/// Lists of nodes that split the nodes `0..n` into components: each list starts at its root
/// and holds distinct nodes, the roots increase, each node appears in exactly one list, and
/// every successor of a node of list `i` appears in a list up to `i`.
pub open spec fn order_components<W>(r: Seq<Seq<NodeId>>, adj: Seq<Seq<(usize, W)>>, n: int) -> bool {
    &&& forall|i: int| 0 <= i < r.len() ==> (#[trigger] r[i]).len() >= 1
    &&& forall|i: int, j: int| 0 <= i < r.len() && 0 <= j < r[i].len() ==> (#[trigger] r[i][j]).0 < n
    &&& forall|i: int, j: int, k: int| 0 <= i < r.len() && 0 <= j < k < r[i].len() ==> r[i][j] != r[i][k]
    &&& forall|i: int, j: int| 0 <= i < j < r.len() ==> r[i][0].0 < r[j][0].0
    &&& forall|v: int| 0 <= v < n ==> #[trigger] in_some_order(r, v)
    &&& forall|i: int, j: int, v: int|
        0 <= i < r.len() && 0 <= j < r.len() && #[trigger] order_member(r[i], v) && #[trigger] order_member(
            r[j],
            v,
        ) ==> i == j
    &&& forall|i: int, u: int, w: int|
        0 <= i < r.len() && #[trigger] order_member(r[i], u) && #[trigger] has_edge(adj, u, w) ==> exists|j: int|
            0 <= j <= i && #[trigger] order_member(r[j], w)
}

/// Searches from every node that no earlier search reached, depth first or breadth first, and
/// collects the nodes of each search in the order it entered them.
fn components_with<G: Index + IndexAdjacent + Count>(graph: &G, depth: bool) -> (r: Vec<Vec<NodeId>>)
    requires
        graph.spec_wf(),
        adj_wf(graph.spec_adj()),
    ensures
        order_components(r@.map_values(|c: Vec<NodeId>| c@), graph.spec_adj(), graph.spec_nodes().len() as int),
{
    proof {
        graph.lemma_wf();
    }
    let ghost adj = graph.spec_adj();
    let ghost n = graph.spec_nodes().len() as int;
    let mut counter: usize = 0;
    let mut markers = zeros(graph.node_count());
    let mut components: Vec<Vec<NodeId>> = Vec::new();
    let ids = graph.node_ids();
    let mut i: usize = 0;
    while i < ids.len()
        invariant
            graph.spec_wf(),
            adj == graph.spec_adj(),
            adj_wf(adj),
            adj.len() == n,
            graph.spec_nodes().len() == n,
            ids@.len() == n,
            forall|j: int| 0 <= j < ids@.len() ==> (#[trigger] ids@[j]).0 == j,
            i <= ids@.len(),
            markers@.len() == n,
            counter == components@.len(),
            counter <= i,
            split_state(adj, markers@, counter as int, |c: int, v: int| order_member(components@[c]@, v)),
            forall|v: int| 0 <= v < i ==> #[trigger] markers@[v] != 0,
            forall|c: int| 0 <= c < components@.len() ==> (#[trigger] components@[c])@.len() >= 1 && components@[c]@[0].0 < i,
            forall|c: int, j: int|
                0 <= c < components@.len() && 0 <= j < components@[c]@.len() ==> (#[trigger] components@[c]@[j]).0 < n,
            forall|c: int, j: int, k: int|
                0 <= c < components@.len() && 0 <= j < k < components@[c]@.len() ==> components@[c]@[j]
                    != components@[c]@[k],
            forall|c: int, d: int| 0 <= c < d < components@.len() ==> components@[c]@[0].0 < components@[d]@[0].0,
        decreases ids@.len() - i,
    {
        let from = ids[i];
        if markers[from.0] == 0 {
            counter = counter + 1;
            let ghost m0 = markers@;
            let ghost c0 = components@;
            let comp = if depth {
                _dfs(graph, from, &mut markers, counter)
            } else {
                _bfs(graph, from, &mut markers, counter)
            };
            let ghost o = comp@;
            components.push(comp);
            proof {
                let member = |c: int, v: int| order_member(c0[c]@, v);
                let member2 = |c: int, v: int| order_member(components@[c]@, v);
                assert forall|c: int, v: int| 0 <= c < counter - 1 implies #[trigger] member2(c, v) == member(c, v) by {
                    assert(components@[c] == c0[c]);
                }
                assert forall|v: int| 0 <= v < m0.len() implies #[trigger] member2(counter - 1, v) == (v == from.0
                    || found(adj, m0, from.0 as int, v)) by {
                    assert(components@[counter - 1]@ == o);
                    if v == from.0 {
                        assert(o[0].0 == v);
                    }
                    if order_member(o, v) && v != from.0 {
                        let j = choose|j: int| 0 <= j < o.len() && #[trigger] o[j].0 == v;
                        assert(j != 0);
                    }
                }
                lemma_split_step(adj, m0, markers@, counter - 1, from.0 as int, member, member2);
                assert forall|v: int| 0 <= v < i + 1 implies #[trigger] markers@[v] != 0 by {
                    if v != from.0 {
                        if m0[v] != 0 {
                            assert(markers@[v] == m0[v] || markers@[v] == counter);
                        }
                    }
                }
                assert forall|c: int, j: int|
                    0 <= c < components@.len() && 0 <= j < components@[c]@.len() implies (#[trigger] components@[c]@[j]).0
                    < n by {
                    if c < c0.len() {
                        assert(components@[c] == c0[c]);
                    } else if j > 0 {
                        assert(found(adj, m0, from.0 as int, o[j].0 as int));
                    }
                }
                assert forall|c: int, j: int, k: int|
                    0 <= c < components@.len() && 0 <= j < k < components@[c]@.len() implies components@[c]@[j]
                    != components@[c]@[k] by {
                    if c < c0.len() {
                        assert(components@[c] == c0[c]);
                    }
                }
                assert forall|c: int| 0 <= c < components@.len() implies (#[trigger] components@[c])@.len() >= 1
                    && components@[c]@[0].0 < i + 1 by {
                    if c < c0.len() {
                        assert(components@[c] == c0[c]);
                    }
                }
            }
        }
        i = i + 1;
    }
    let ghost r = components@.map_values(|c: Vec<NodeId>| c@);
    proof {
        let member = |c: int, v: int| order_member(components@[c]@, v);
        assert forall|c: int| 0 <= c < r.len() implies #[trigger] r[c] == components@[c]@ by {
        }
        assert forall|v: int| 0 <= v < n implies #[trigger] in_some_order(r, v) by {
            let c = markers@[v] - 1;
            assert(markers@[v] <= counter);
            assert(member(c, v));
            assert(r[c] == components@[c]@);
        }
        assert forall|c: int, d: int, v: int|
            0 <= c < r.len() && 0 <= d < r.len() && #[trigger] order_member(r[c], v) && #[trigger] order_member(
                r[d],
                v,
            ) implies c == d by {
            assert(r[c] == components@[c]@);
            assert(r[d] == components@[d]@);
            let j = choose|j: int| 0 <= j < r[c].len() && #[trigger] r[c][j].0 == v;
            assert(0 <= v < n);
            assert(member(c, v));
            assert(member(d, v));
        }
        assert forall|c: int, u: int, w: int|
            0 <= c < r.len() && #[trigger] order_member(r[c], u) && #[trigger] has_edge(adj, u, w) implies exists|d: int|
            0 <= d <= c && #[trigger] order_member(r[d], w) by {
            assert(r[c] == components@[c]@);
            let j = choose|j: int| 0 <= j < r[c].len() && #[trigger] r[c][j].0 == u;
            assert(0 <= u < n);
            assert(member(c, u));
            assert(1 <= markers@[w] <= c + 1);
            crate::graph::reach::lemma_has_edge_range(adj, u, w);
            assert(member(markers@[w] - 1, w));
            assert(r[markers@[w] - 1] == components@[markers@[w] - 1]@);
        }
    }
    components
}

/// The components found by depth-first searches, each as the nodes in the order scanned.
pub fn dfs_connected_components<G: Index + IndexAdjacent + Count>(graph: &G) -> (r: ConnectedComponents)
    requires
        graph.spec_wf(),
        adj_wf(graph.spec_adj()),
    ensures
        order_components(r@, graph.spec_adj(), graph.spec_nodes().len() as int),
{
    ConnectedComponents::new(components_with(graph, true))
}

/// The components found by breadth-first searches, each as the nodes in the order entered.
pub fn bfs_connected_components<G: Index + IndexAdjacent + Count>(graph: &G) -> (r: ConnectedComponents)
    requires
        graph.spec_wf(),
        adj_wf(graph.spec_adj()),
    ensures
        order_components(r@, graph.spec_adj(), graph.spec_nodes().len() as int),
{
    ConnectedComponents::new(components_with(graph, false))
}

/// The nodes a depth-first search from `from` scans, as a tour without weight.
pub fn dfs_tour<G: IndexAdjacent + Count>(graph: &G, from: NodeId) -> (r: Tour<()>)
    requires
        graph.spec_wf(),
        adj_wf(graph.spec_adj()),
        from.0 < graph.spec_nodes().len(),
    ensures
        search_order(graph.spec_adj(), no_marks(graph.spec_nodes().len()), from.0 as int, r.route@),
{
    let mut markers = zeros(graph.node_count());
    let route = _dfs(graph, from, &mut markers, 1);
    Tour::new(route, ())
}

/// The nodes a breadth-first search from `from` enters, as a tour without weight.
pub fn bfs_tour<G: IndexAdjacent + Count>(graph: &G, from: NodeId) -> (r: Tour<()>)
    requires
        graph.spec_wf(),
        adj_wf(graph.spec_adj()),
        from.0 < graph.spec_nodes().len(),
    ensures
        search_order(graph.spec_adj(), no_marks(graph.spec_nodes().len()), from.0 as int, r.route@),
{
    let mut markers = zeros(graph.node_count());
    let route = _bfs(graph, from, &mut markers, 1);
    Tour::new(route, ())
}

} // verus!
