//! Graph kernels over columns of node labels: connected components,
//! shortest paths, the breadth-first pass of betweenness centrality, and the
//! integer side of item co-occurrence networks, with the interner and the
//! disjoint-set forest that they share.

pub mod all_pairs;
pub mod betweenness;
pub mod components;
pub mod error;
pub mod graph;
pub mod ids;
pub mod interner;
pub mod itemsets;
pub mod order;
pub mod outside;
pub mod patterns;
pub mod scores;
pub mod shortest_path;
pub mod union_find;
