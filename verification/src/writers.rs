//! What is handed to the writers of the node, edge and tile tables.

pub mod edges;
pub mod geohashes;
pub mod writer;
