//! An arena-backed binary tree with a tournament-tree (winner-tree) builder:
//! leaves hold an input sequence in order, every internal node holds the
//! maximum of its two children, and the root holds the global maximum.
//! A pre-order traversal over the finished tree is the observable surface.

pub mod graph;
pub mod tree;
pub mod tree_selection;
