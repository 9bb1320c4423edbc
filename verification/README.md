# gansner

A library for laying out directed graphs in layers, after the technique of Gansner et al.
("A Technique for Drawing Directed Graphs"). Users add nodes (with their bounding-box sizes)
and edges, may ask for nodes to share a rank or to sit on the first or last rank, and run the
layout.

Each function of the library carries a contract, and each contract is proved:

- `src/rank_set.rs`: the rank hints, a map from node to rank with the first and last ranks
  reserved; merging sets of nodes, with the laws that merging keeps nodes together, keeps the
  first and last ranks, makes fresh sets of two unhinted nodes, and does not depend on the order
  of the two nodes.
- `src/graph.rs`: the petgraph graph that holds the edges, seen through its node count and its
  sequence of edges, and the trusted contracts of the petgraph calls.
- `src/layout.rs`: preparation for rank assignment, on a graph of its own beside the user's
  graph: each set of nodes with one rank hint condensed into one node (condensed nodes numbered
  in the order of their first node), edges pointed out of the
  first-rank node and into the last-rank node, loops removed, parallel edges merged (keeping
  the largest minimum rank length, in the order of their first edge, and recording which edges
  each stands for), leaves outside
  every set removed, cycles broken with petgraph's greedy feedback arc set, and edges added
  from the first-rank node and to the last-rank node so that every node lies between them;
  proved to give an acyclic graph with nothing into the first-rank node and nothing out of the
  last-rank node.
- `src/lib.rs`: the `Gansner` graph type, node handles and edge data.

`app/` holds what takes or gives floating-point values (an `f64` edge weight, the summed
weights of merged edges) and checked forms of the calls whose preconditions a caller must meet,
which panic where those preconditions fail.
