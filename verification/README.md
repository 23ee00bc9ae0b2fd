# lau_graph_theory

Graph algorithms with machine-checked contracts, written in Verus.

## Layout

- `src/` — the verified library. Every function carries a `requires` /
  `ensures` contract proved by Verus:
  - `graph`, `edge_lists` — adjacency-list graphs with a weight of any type,
    edge lists (for a graph built by adding edges: each added edge once, as
    many as `edge_count`, the smaller end first when undirected), adjacency
    matrices, and the walk / reachability model.
  - `traversal` — breadth-first and depth-first search (the exact visiting
    order), topological sort (Kahn's queue order, or `None` exactly when no
    topological order exists).
  - `connectivity`, `cut_vertices` — connected components, bridges,
    articulation points (exactly the cut edges / cut vertices of a graph whose
    edges all have reverse edges), biconnected components (for such a graph:
    every edge in exactly one component, and two edges share a component
    exactly when a chain of edges, each meeting the next around a common
    cycle, joins them; without parallel edges, no pair twice in a component).
  - `mst`, `mst_weight` — union-find (path compression, union by rank, ranks
    at most log2 of the size), Kruskal and Prim on integer weights. Kruskal's
    forest is proved to weigh no more than any spanning forest; where every edge
    has a reverse edge of the same weight, Prim's tree weighs no more than any
    spanning forest of the part of the graph reachable from its start.
  - `matching` — Hopcroft–Karp bipartite matching, proved maximum.
  - `flow` — the breadth-first augmenting-path search of Edmonds–Karp.
  - `path_counts` — distances and numbers of shortest walks from a source.
  - `agent_network` — the integer steps of clustering and influence spreading.
  - `laws` — properties that relate several operations.
- `app/` — the floating-point layer (Dijkstra, Bellman–Ford, Floyd–Warshall,
  max flow, the Hungarian method, spectral analysis with nalgebra, network
  statistics, random influence simulation with rand, serde forms of the
  types). It runs the verified algorithms for everything that is not
  arithmetic on floats: `f64` weights are mapped to order-preserving `u64`
  keys for Kruskal and Prim.
- `tests/` — tests of the library on concrete graphs.
