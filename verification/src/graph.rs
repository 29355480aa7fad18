//! Interface of an unweighted graph. This layer is a set of declarations for
//! users to implement; no concrete graph lives in this crate.

use vstd::prelude::*;

verus! {

/// An unweighted graph over vertices `0 .. V()`.
pub trait IGraph {
    /// number of vertices
    #[allow(non_snake_case)]
    fn V(&self) -> usize;

    /// number of edges
    #[allow(non_snake_case)]
    fn E(&self) -> usize;

    /// add edge v-w to this graph
    fn add_edge(&mut self, v: usize, w: usize);

    /// vertices adjacent to v
    fn adj(&self, v: usize) -> Vec<usize>;

    /// directed graph op: the graph with every edge turned around
    fn reverse(&self) -> Self where Self: Sized;
}

} // verus!
