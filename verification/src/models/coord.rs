//! Coordinates.

use vstd::prelude::*;

verus! {

/// A WGS84 coordinate. Each part is a whole number of 10⁻⁷ degree, the unit
/// in which OpenStreetMap stores positions.
#[derive(Clone, Copy, Debug, PartialEq, Eq, Structural)]
pub struct Coord {
    pub lon: i32,
    pub lat: i32,
}

impl Default for Coord {
    fn default() -> (coord: Coord)
        ensures
            coord == (Coord { lon: 0, lat: 0 }),
    {
        Coord { lon: 0, lat: 0 }
    }
}

} // verus!
