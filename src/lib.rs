//! Ordered symbol tables and graphs with machine-checked contracts.
//!
//! * [`order`]: the total order that tree keys are compared by.
//! * [`rbtree`]: a left-leaning red-black binary search tree.
//! * [`graph`]: an undirected graph kept as adjacency lists.
pub mod graph;
pub mod order;
pub mod rbtree;
