# mapper_agent

The Mapper construction of topological data analysis: slice the data along a
filter, cluster each slice by single linkage, and join clusters that share
points into a simplicial complex (the nerve), then read the complex as a
graph.

## Layout

- `src/` is the verified library (Verus). It holds the combinatorial part of
  the construction, each public function with a contract:
  - `union_find`: union-find with path compression and union by rank; the
    contracts follow the parent links exactly and state which sets exist.
  - `linkage`, `grouping`, `cluster`: single-linkage clusters of the points of
    each interval (same cluster exactly when a chain of links joins two
    points), the cluster ids, and the map from ids to points.
  - `cover`: the point list of each interval and the coverage check.
  - `simplex_order`, `nerve`: the nerve of the clusters, its simplices listed
    by size and then lexicographically, each once; edges, triangles and counts
    by dimension.
  - `visualization`: adjacency lists and breadth-first connected components.
  - `text`, `ascii`: DOT and edge-list text, Bresenham lines and the ASCII
    picture.
- `app/` is the surrounding program in plain Rust: floating-point filters,
  distances and the linkage matrix, cover interval bounds, node attributes,
  force-directed layout, the pipeline, and serde forms of the library's types.
- `tests/` runs the library on concrete inputs.
