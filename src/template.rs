//! How labels and tooltips are made for the nodes and edges of a graph.

use crate::graph::{EdgeWeight, NodeWeight};
use vstd::prelude::*;

verus! {

/// Makes a label and a tooltip for each node and each edge.
pub trait Templating {
    type Context;
    type Value;

    fn node(&self, node: &NodeWeight, size: usize, value: Self::Value, context: Self::Context) -> (String, String);

    fn edge(&self, source: &NodeWeight, target: &NodeWeight, edge: &EdgeWeight) -> (String, String);
}

} // verus!
