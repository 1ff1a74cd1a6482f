# grph

A graph library whose algorithms are verified with Verus.

- `src/graph/`: the graph traits (`Base`, `Count`, `Get`, `Index`, `IndexAdjacent`,
  `IterAdjacent`, `Insert`, ...), node and edge types, weights, and the specifications that
  the algorithms are stated over: walks and their costs (`walk.rs`), reachability and search
  orders (`reach.rs`). `Graph` and `WeightlessGraph` offer the algorithms as methods.
- `src/graph_impl/`: adjacency lists, adjacency matrices over a sparse matrix, trees, and the
  residual graph used for maximum flows.
- `src/algorithms/`: searches and components, Dijkstra, Bellman-Ford, Prim, Kruskal with
  union-find, maximum flow (Ford-Fulkerson, Edmonds-Karp), minimum cost flow (successive
  shortest paths, cycle cancelling), and round trips (nearest neighbour, double tree,
  branch and bound, brute force).
- `src/structures/`: parents, routes, tours and distances that the algorithms return.
- `src/edge_list.rs`, `src/parse.rs`: reading edge lists from text.
- `src/pq.rs`: the priority queue of the `priq` crate, with the contracts this library relies
  on.
- `app/`: the command-line program.
