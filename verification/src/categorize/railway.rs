//! The railway profile.

pub mod edge_properties;
