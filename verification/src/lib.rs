//! Mapper algorithm (Singh, Mémoli, Carlsson 2007) for discovering the shape
//! of data: the combinatorial side of the construction.
//!
//! - [`union_find`]: iterative union-find with path compression and union by rank.
//! - [`cluster`]: single-linkage clustering of the points of each cover
//!   interval, and the map from cluster ids to their points.
//! - [`nerve`]: the nerve of the clusters (clusters sharing points span simplices).
//! - [`visualization`]: adjacency lists and connected components of the Mapper graph.
//! - [`cover`]: the point lists of an overlapping cover, and its coverage check.
//! - [`text`], [`ascii`]: DOT, edge-list and ASCII renderings of the graph.
//!
//! Which pairs of points are close enough to be linked is given to the
//! clustering as a boolean matrix, and which intervals hold each point is
//! given to the cover as a boolean matrix; distances, filters, interval
//! bounds and the graph layout are computed by the surrounding program.
pub mod ascii;
pub mod cluster;
pub mod cover;
pub mod grouping;
pub mod linkage;
pub mod nerve;
pub mod simplex_order;
pub mod text;
pub mod union_find;
pub mod visualization;

pub use cluster::{ClusterID, ClusterMap, IntervalClusters, UnionFind};
pub use nerve::{SimplicialComplex, VertexInfo};
