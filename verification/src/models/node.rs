//! Nodes.

use crate::models::coord::Coord;
use vstd::prelude::*;

verus! {

/// An OpenStreetMap node. `uses` counts how often the kept ways pass
/// through it, an end of a way counting twice; a node with more than one
/// use is a vertex of the graph.
#[derive(Clone, Copy, Debug, PartialEq, Eq, Structural)]
pub struct Node {
    pub id: i64,
    pub coord: Coord,
    pub uses: u128,
}

impl Default for Node {
    fn default() -> (node: Node)
        ensures
            node == (Node { id: 0, coord: Coord { lon: 0, lat: 0 }, uses: 0 }),
    {
        Node { id: 0, coord: Coord { lon: 0, lat: 0 }, uses: 0 }
    }
}

} // verus!
