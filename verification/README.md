# graphina

A graph library whose core is written in Verus: the functions in `src/` are
verified by Verus against their contracts (`requires` / `ensures`); the few
that wrap a random source or `std`'s hasher state only what holds of every
outcome.

## Layout

- `src/` — the verified library.
  - `types`: the graph store (`BaseGraph`): node and edge slots whose ids are
    never reused, with neighbours in adjacency order; `Graph` and `Digraph`.
  - `builders`, `generators`: builders with validation, fixed topologies and
    seeded random generators (Erdős–Rényi, bipartite, Watts–Strogatz,
    Barabási–Albert). Random numbers come from `rand` through small trusted
    wrappers; what the library does with the drawn values is proved.
  - `traversal`, `hops`, `components`, `validation`, `subgraphs`, `metrics`,
    `links`, `layout`: searches, hop distances, connected components, checks
    (connected, acyclic, bipartite), subgraphs, triangle counts, diameter and
    radius, shared neighbours, grid and layered layouts.
  - `mst`, `prim`, `minheap`: Kruskal, Borůvka and Prim over edge ranks (a
    lower rank is a lighter edge), with a verified indexed min-heap.
  - `retain`, `incident`, `matrix`, `sparse`, `records`, `serialization`:
    pruning, edges at a node, dense adjacency matrices, the cells and entries
    of sparse ones, building graphs from labelled records, and
    the serializable form of a graph.
  - `shortest`: Dijkstra, Bellman–Ford and Johnson over `i64` weights, with
    distances stated as least walk weights (an undirected edge can be used
    either way round) and negative cycles detected.
  - `graphml`, `ascii`, `lines`: the GraphML document and the ASCII picture of
    a graph (given the text of each attribute and weight), and the line
    grammar of edge-list and adjacency-list files (comments, fields, `i32`
    labels).
  - `laws`: properties relating several operations, proved as lemmas.
- `tests/` — tests run against the compiled library.
- `app/` — ordinary Rust around the library: file I/O, serde formats,
  floating-point algorithms (shortest paths over generic or float weights, PageRank,
  clustering coefficients, link-prediction scores), parallel versions with
  rayon, the weight-summing wrappers of the spanning-tree algorithms, the
  `sprs` matrices built from the cells that `sparse` computes, and the
  layouts and exports of `visualization` (floating-point positions, D3 JSON,
  HTML, SVG and PNG).
