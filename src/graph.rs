//! The decoded graph.

use vstd::prelude::*;

verus! {

/// A decoded graph: node names in order of first appearance, and for each
/// node the indices of its neighbours in the order the edges were declared.
#[derive(Debug, PartialEq, Eq)]
pub struct Graph {
    pub is_directed: bool,
    pub nodes: Vec<String>,
    pub adjacency: Vec<Vec<usize>>,
}

/// A graph as mathematical values.
pub struct GraphModel {
    pub is_directed: bool,
    pub nodes: Seq<Seq<char>>,
    pub adjacency: Seq<Seq<usize>>,
}

impl View for Graph {
    type V = GraphModel;

    open spec fn view(&self) -> GraphModel {
        GraphModel {
            is_directed: self.is_directed,
            nodes: self.nodes@.map_values(|s: String| s@),
            adjacency: self.adjacency@.map_values(|row: Vec<usize>| row@),
        }
    }
}

} // verus!
