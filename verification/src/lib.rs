//! Extraction of a routable graph (junction nodes and polyline edges) from
//! OpenStreetMap ways and nodes, and adaptive geohash tiling of the result.

use vstd::prelude::*;

pub mod categorize;
pub mod geohash;
pub mod models;
pub mod reader;
pub mod sorted;
pub mod text;
pub mod writers;

pub use reader::{read, Reader};
pub use writers::writer::Writer;

verus! {

/// The transportation profile that decides which ways are kept.
#[derive(Clone, Copy, Debug, PartialEq, Eq, Structural)]
pub enum ProfileType {
    Road,
    Railway,
}

/// The profile that `name` names, if any.
pub open spec fn profile_named(name: Seq<char>) -> Option<ProfileType> {
    if name == "railway"@ {
        Some(ProfileType::Railway)
    } else if name == "road"@ {
        Some(ProfileType::Road)
    } else {
        None
    }
}

impl ProfileType {
    /// The profile that `name` names: `railway` or `road`.
    pub fn parse(name: &str) -> (profile: Option<ProfileType>)
        ensures
            profile == profile_named(name@),
    {
        if text::str_eq(name, "railway") {
            Some(ProfileType::Railway)
        } else if text::str_eq(name, "road") {
            Some(ProfileType::Road)
        } else {
            None
        }
    }
}

} // verus!
