//! The graph's data: coordinates, nodes and edges.

pub mod coord;
pub mod edge;
pub mod node;
