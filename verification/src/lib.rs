//! Classic in-memory data structures with verified contracts: an array-backed
//! binary min-heap (priority queue), a binary search tree with ordered
//! traversals, and an undirected adjacency-list graph.

pub mod binary_heap;
pub mod binary_search_tree;
pub mod graph;
pub mod order;
