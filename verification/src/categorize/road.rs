//! The road profile.

pub mod edge_properties;
