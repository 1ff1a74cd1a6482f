use crate::graph::index::NodeId;
use crate::graph::traits::{edge_weight, Base, Contains, Get, Index};
use crate::graph::weight::{add_cost, cost_add, EdgeCost};
use crate::structures::route::Route;
use vstd::prelude::*;

verus! {

/// What `permute::permutations_of` yields for a list of nodes, each permutation collected.
pub uninterp spec fn node_permutations(items: Seq<NodeId>) -> Seq<Seq<NodeId>>;

/// Calls `permute::permutations_of`, which runs Heap's algorithm over the positions of the
/// list: each permutation it yields holds the items of the list, rearranged, and every
/// rearrangement comes out. Which order they come in is named, not stated.
#[verifier::external_body]
fn permutations(items: &Vec<NodeId>) -> (r: Vec<Vec<NodeId>>)
    ensures
        r@.map_values(|p: Vec<NodeId>| p@) == node_permutations(items@),
        forall|i: int| 0 <= i < r@.len() ==> (#[trigger] r@[i])@.to_multiset() == items@.to_multiset(),
        forall|p: Seq<NodeId>|
            (#[trigger] p.to_multiset()) == items@.to_multiset() ==> exists|i: int| 0 <= i < r@.len() && (#[trigger] r@[i])@ == p,
{
    permute::permutations_of(items).map(|p| p.copied().collect()).collect()
}

/// The list `p` with its first node appended: the round trip through `p`.
pub open spec fn closed(p: Seq<NodeId>) -> Seq<NodeId> {
    p.push(p[0])
}

/// The graph holds an edge between every two consecutive nodes of `route`.
pub open spec fn all_hops<W>(adj: Seq<Seq<(usize, W)>>, route: Seq<NodeId>) -> bool {
    forall|k: int| 0 <= k < route.len() - 1 ==> (#[trigger] edge_weight(adj, route[k].0, route[k + 1].0)) is Some
}

/// The cost of `route` along the first edge of each hop, added up from the left and held at
/// the ends of the range.
pub open spec fn route_cost<W: EdgeCost>(adj: Seq<Seq<(usize, W)>>, route: Seq<NodeId>) -> i64
    decreases route.len(),
{
    if route.len() < 2 {
        0
    } else {
        let n = route.len() as int;
        add_cost(
            route_cost(adj, route.drop_last()),
            edge_weight(adj, route[n - 2].0, route[n - 1].0).unwrap().spec_cost(),
        )
    }
}

/// The nodes `0..n`.
pub open spec fn all_nodes(n: nat) -> Seq<NodeId> {
    Seq::new(n, |i: int| NodeId(i as usize))
}

/// The cost of `route`, or nothing when a hop has no edge.
fn priced<G: Contains + Get>(graph: &G, route: &Vec<NodeId>) -> (r: Option<i64>)
    where
        G::Weight: EdgeCost,
    requires
        graph.spec_wf(),
        route@.len() >= 1,
        forall|i: int| 0 <= i < route@.len() ==> (#[trigger] route@[i]).0 < graph.spec_nodes().len(),
    ensures
        r == if all_hops(graph.spec_adj(), route@) {
            Some(route_cost(graph.spec_adj(), route@))
        } else {
            None::<i64>
        },
{
    let ghost adj = graph.spec_adj();
    let mut total: i64 = 0;
    let mut k: usize = 1;
    while k < route.len()
        invariant
            graph.spec_wf(),
            adj == graph.spec_adj(),
            route@.len() >= 1,
            forall|i: int| 0 <= i < route@.len() ==> (#[trigger] route@[i]).0 < graph.spec_nodes().len(),
            1 <= k <= route@.len(),
            all_hops(adj, route@.take(k as int)),
            total == route_cost(adj, route@.take(k as int)),
        decreases route@.len() - k,
    {
        let from = route[k - 1];
        let to = route[k];
        let e = match graph.contains_edge(from, to) {
            Some(e) => e,
            None => {
                proof {
                    let j = k - 1;
                    assert(edge_weight(adj, route@[j].0, route@[j + 1].0) is None);
                }
                return None;
            },
        };
        let w = graph.weight(e).unwrap();
        let c = w.cost();
        proof {
            let t = route@.take(k + 1);
            assert(t.drop_last() =~= route@.take(k as int));
            assert(t[k - 1] == route@[k - 1] && t[k as int] == route@[k as int]);
            assert forall|j: int| 0 <= j < t.len() - 1 implies (#[trigger] edge_weight(adj, t[j].0, t[j + 1].0)) is Some by {
                if j < k - 1 {
                    assert(t[j] == route@.take(k as int)[j] && t[j + 1] == route@.take(k as int)[j + 1]);
                }
            }
        }
        total = cost_add(total, c);
        k = k + 1;
    }
    proof {
        assert(route@.take(route@.len() as int) =~= route@);
    }
    Some(total)
}

/// The cheapest round trip through all nodes, found by trying every order of the nodes, and its
/// cost; the first of the cheapest in the order the permutations come in, where several tie. Nothing where no order has an edge
/// for every hop at a cost below the largest.
pub fn brute_force<G: Contains + Get + Index>(graph: &G) -> (r: Option<(Route, i64)>)
    where
        G::Weight: EdgeCost,
    requires
        graph.spec_wf(),
        graph.spec_nodes().len() >= 1,
    ensures
        match r {
            Some((route, c)) => exists|p: Seq<NodeId>|
                {
                    &&& p.to_multiset() == all_nodes(graph.spec_nodes().len()).to_multiset()
                    &&& route@ == closed(p)
                    &&& all_hops(graph.spec_adj(), closed(p))
                    &&& c == route_cost(graph.spec_adj(), closed(p))
                    &&& c < i64::MAX
                    &&& exists|j: int|
                        0 <= j < node_permutations(all_nodes(graph.spec_nodes().len())).len() && #[trigger] node_permutations(
                            all_nodes(graph.spec_nodes().len()),
                        )[j] == p && forall|k: int|
                            0 <= k < j && all_hops(graph.spec_adj(), closed(node_permutations(all_nodes(graph.spec_nodes().len()))[k]))
                                ==> c < route_cost(
                                graph.spec_adj(),
                                #[trigger] closed(node_permutations(all_nodes(graph.spec_nodes().len()))[k]),
                            )
                    &&& forall|q: Seq<NodeId>|
                        q.to_multiset() == all_nodes(graph.spec_nodes().len()).to_multiset() && all_hops(
                            graph.spec_adj(),
                            #[trigger] closed(q),
                        ) ==> c <= route_cost(graph.spec_adj(), closed(q))
                },
            None => forall|q: Seq<NodeId>|
                q.to_multiset() == all_nodes(graph.spec_nodes().len()).to_multiset() && all_hops(
                    graph.spec_adj(),
                    #[trigger] closed(q),
                ) ==> route_cost(graph.spec_adj(), closed(q)) == i64::MAX,
        },
{
    let ghost adj = graph.spec_adj();
    let ghost n = graph.spec_nodes().len();
    let start = graph.node_ids();
    proof {
        assert(start@ =~= all_nodes(n));
    }
    let perms = permutations(&start);
    let mut best_path: Vec<NodeId> = Vec::new();
    let mut best_weight: i64 = i64::MAX;
    let ghost mut best_p: Seq<NodeId> = Seq::empty();
    let ghost mut best_j: int = 0;
    let ghost perm_seq = node_permutations(all_nodes(n));
    proof {
        assert(perms@.map_values(|p: Vec<NodeId>| p@) == perm_seq);
        assert(perm_seq.len() == perms@.len());
        assert forall|j: int| 0 <= j < perms@.len() implies #[trigger] perm_seq[j] == perms@[j]@ by {
            assert(perms@.map_values(|p: Vec<NodeId>| p@)[j] == perms@[j]@);
        }
    }
    let mut i: usize = 0;
    while i < perms.len()
        invariant
            graph.spec_wf(),
            adj == graph.spec_adj(),
            n == graph.spec_nodes().len(),
            n >= 1,
            start@ == all_nodes(n),
            forall|j: int| 0 <= j < perms@.len() ==> (#[trigger] perms@[j])@.to_multiset() == start@.to_multiset(),
            i <= perms@.len(),
            best_weight < i64::MAX ==> {
                &&& best_p.to_multiset() == start@.to_multiset()
                &&& best_path@ == closed(best_p)
                &&& all_hops(adj, closed(best_p))
                &&& best_weight == route_cost(adj, closed(best_p))
            },
            forall|j: int|
                0 <= j < i && all_hops(adj, closed((#[trigger] perms@[j])@)) ==> best_weight <= route_cost(
                    adj,
                    closed(perms@[j]@),
                ),
            perm_seq.len() == perms@.len(),
            forall|j: int| 0 <= j < perms@.len() ==> #[trigger] perm_seq[j] == perms@[j]@,
            best_weight < i64::MAX ==> {
                &&& 0 <= best_j < i
                &&& perm_seq[best_j] == best_p
                &&& forall|k: int| 0 <= k < best_j && all_hops(adj, closed(perm_seq[k])) ==> best_weight < route_cost(adj, #[trigger] closed(perm_seq[k]))
            },
        decreases perms@.len() - i,
    {
        let perm = &perms[i];
        let ghost p = perm@;
        proof {
            assert(perms@[i as int]@.to_multiset() == start@.to_multiset());
            p.to_multiset_ensures();
            start@.to_multiset_ensures();
            assert(p.len() == n);
            assert forall|k: int| 0 <= k < p.len() implies (#[trigger] p[k]).0 < n by {
                assert(p.to_multiset().count(p[k]) > 0);
                assert(start@.to_multiset().count(p[k]) > 0);
                assert(start@.contains(p[k]));
            }
        }
        let mut cycle: Vec<NodeId> = Vec::new();
        let mut k: usize = 0;
        while k < perm.len()
            invariant
                p == perm@,
                k <= p.len(),
                cycle@ == p.take(k as int),
            decreases p.len() - k,
        {
            cycle.push(perm[k]);
            k = k + 1;
            proof {
                assert(cycle@ =~= p.take(k as int));
            }
        }
        cycle.push(perm[0]);
        proof {
            assert(cycle@ =~= closed(p));
        }
        match priced(graph, &cycle) {
            Some(total) => {
                if total < best_weight {
                    best_path = cycle;
                    best_weight = total;
                    proof {
                        assert forall|k: int| 0 <= k < i && all_hops(adj, closed(perm_seq[k])) implies total < route_cost(
                            adj,
                            #[trigger] closed(perm_seq[k]),
                        ) by {
                            assert(perm_seq[k] == perms@[k]@);
                        }
                        best_p = p;
                        best_j = i as int;
                    }
                }
            },
            None => {},
        }
        i = i + 1;
    }
    if best_weight == i64::MAX {
        proof {
            assert forall|q: Seq<NodeId>|
                q.to_multiset() == all_nodes(n).to_multiset() && all_hops(adj, #[trigger] closed(q)) implies route_cost(
                adj,
                closed(q),
            ) == i64::MAX by {
                let j = choose|j: int| 0 <= j < perms@.len() && (#[trigger] perms@[j])@ == q;
                assert(all_hops(adj, closed(perms@[j]@)));
            }
        }
        None
    } else {
        proof {
            assert forall|q: Seq<NodeId>|
                q.to_multiset() == all_nodes(n).to_multiset() && all_hops(adj, #[trigger] closed(q)) implies best_weight
                <= route_cost(adj, closed(q)) by {
                let j = choose|j: int| 0 <= j < perms@.len() && (#[trigger] perms@[j])@ == q;
                assert(all_hops(adj, closed(perms@[j]@)));
            }
        }
        let route = Route::new(best_path);
        proof {
            assert(perm_seq[best_j] == best_p);
        }
        Some((route, best_weight))
    }
}

} // verus!
