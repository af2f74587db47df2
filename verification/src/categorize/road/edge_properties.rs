//! What the road profile keeps of a way's tags: who may use the way, in
//! which direction.

use crate::categorize::{BikeAccessibility, CarAccessibility, FootAccessibility, TrainAccessibility};
use crate::text::str_eq;
use vstd::prelude::*;

verus! {

/// Which means of transportation can use a way, in each direction.
#[derive(Clone, Copy, Debug, PartialEq, Eq, Structural)]
pub struct EdgeProperties {
    pub foot: FootAccessibility,
    pub car_forward: CarAccessibility,
    pub car_backward: CarAccessibility,
    pub bike_forward: BikeAccessibility,
    pub bike_backward: BikeAccessibility,
    pub train: TrainAccessibility,
}

/// What a `highway` tag says of a way, by the tag's value.
pub enum HighwayClass {
    /// Ways for cyclists and pedestrians only.
    Path,
    /// Roads open to cars, cyclists and pedestrians, with the class of the road.
    Street(CarAccessibility),
    /// Roads for cars only, with the class of the road.
    Expressway(CarAccessibility),
    /// A value that the table does not hold.
    Other,
}

/// The table of `highway` values.
pub open spec fn highway_class(val: Seq<char>) -> HighwayClass {
    if val == "cycleway"@ || val == "path"@ || val == "footway"@ || val == "steps"@ || val
        == "pedestrian"@ {
        HighwayClass::Path
    } else if val == "primary"@ || val == "primary_link"@ {
        HighwayClass::Street(CarAccessibility::Primary)
    } else if val == "secondary"@ {
        HighwayClass::Street(CarAccessibility::Secondary)
    } else if val == "tertiary"@ {
        HighwayClass::Street(CarAccessibility::Tertiary)
    } else if val == "unclassified"@ || val == "residential"@ || val == "living_street"@ || val
        == "road"@ || val == "service"@ || val == "track"@ {
        HighwayClass::Street(CarAccessibility::Residential)
    } else if val == "motorway"@ || val == "motorway_link"@ || val == "motorway_junction"@ {
        HighwayClass::Expressway(CarAccessibility::Motorway)
    } else if val == "trunk"@ || val == "trunk_link"@ {
        HighwayClass::Expressway(CarAccessibility::Trunk)
    } else {
        HighwayClass::Other
    }
}

/// Whether `val` says yes to `oneway`.
pub open spec fn is_yes(val: Seq<char>) -> bool {
    val == "yes"@ || val == "true"@ || val == "1"@
}

impl EdgeProperties {
    /// The properties of a way without tags: nothing is known.
    pub open spec fn unknown() -> EdgeProperties {
        EdgeProperties {
            foot: FootAccessibility::Unknown,
            car_forward: CarAccessibility::Unknown,
            car_backward: CarAccessibility::Unknown,
            bike_forward: BikeAccessibility::Unknown,
            bike_backward: BikeAccessibility::Unknown,
            train: TrainAccessibility::Unknown,
        }
    }

    /// The properties of a way that is one-way for cars; for bicycles too,
    /// unless something is known of them in the opposite direction.
    pub open spec fn one_way(self) -> EdgeProperties {
        EdgeProperties {
            car_backward: CarAccessibility::Forbidden,
            bike_backward: if self.bike_backward == BikeAccessibility::Unknown {
                BikeAccessibility::Forbidden
            } else {
                self.bike_backward
            },
            ..self
        }
    }

    /// The properties after a `highway` tag has been read.
    pub open spec fn with_highway(self, val: Seq<char>) -> EdgeProperties {
        match highway_class(val) {
            HighwayClass::Path => EdgeProperties {
                bike_forward: BikeAccessibility::Track,
                foot: FootAccessibility::Allowed,
                ..self
            },
            HighwayClass::Street(car) => EdgeProperties {
                car_forward: car,
                foot: FootAccessibility::Allowed,
                bike_forward: BikeAccessibility::Allowed,
                ..self
            },
            HighwayClass::Expressway(car) => EdgeProperties {
                car_forward: car,
                foot: FootAccessibility::Forbidden,
                bike_forward: BikeAccessibility::Forbidden,
                ..self
            },
            HighwayClass::Other => self,
        }
    }

    /// The properties after a `cycleway` tag has been read.
    pub open spec fn with_cycleway(self, val: Seq<char>) -> EdgeProperties {
        if val == "track"@ {
            EdgeProperties { bike_forward: BikeAccessibility::Track, ..self }
        } else if val == "opposite_track"@ {
            EdgeProperties { bike_backward: BikeAccessibility::Track, ..self }
        } else if val == "opposite"@ {
            EdgeProperties { bike_backward: BikeAccessibility::Allowed, ..self }
        } else if val == "share_busway"@ {
            EdgeProperties { bike_forward: BikeAccessibility::Busway, ..self }
        } else if val == "lane_left"@ || val == "opposite_lane"@ {
            EdgeProperties { bike_backward: BikeAccessibility::Lane, ..self }
        } else {
            EdgeProperties { bike_forward: BikeAccessibility::Lane, ..self }
        }
    }

    /// The properties after one more tag has been read.
    ///
    /// The table of keys and values below is this library's own reading of
    /// the OpenStreetMap tags, not a standard: which values of `highway`,
    /// `foot`, `pedestrian`, `cycleway`, `bicycle`, `busway`, `oneway` and
    /// `junction` say what is chosen here, and another table can take its
    /// place. In particular any `railway` tag, whatever its value, marks
    /// trains as allowed; the kinds of railway are told apart under the
    /// railway profile only.
    pub open spec fn updated(self, key: Seq<char>, val: Seq<char>) -> EdgeProperties {
        if key == "highway"@ {
            self.with_highway(val)
        } else if key == "pedestrian"@ || key == "foot"@ {
            EdgeProperties {
                foot: if val == "no"@ {
                    FootAccessibility::Forbidden
                } else {
                    FootAccessibility::Allowed
                },
                ..self
            }
        } else if key == "cycleway"@ {
            self.with_cycleway(val)
        } else if key == "bicycle"@ {
            EdgeProperties {
                bike_forward: if val == "no"@ || val == "false"@ {
                    BikeAccessibility::Forbidden
                } else {
                    BikeAccessibility::Allowed
                },
                ..self
            }
        } else if key == "busway"@ {
            if val == "opposite_lane"@ || val == "opposite_track"@ {
                EdgeProperties { bike_backward: BikeAccessibility::Busway, ..self }
            } else {
                EdgeProperties { bike_forward: BikeAccessibility::Busway, ..self }
            }
        } else if key == "oneway"@ {
            if is_yes(val) {
                self.one_way()
            } else {
                self
            }
        } else if key == "junction"@ {
            if val == "roundabout"@ {
                self.one_way()
            } else {
                self
            }
        } else if key == "railway"@ {
            EdgeProperties { train: TrainAccessibility::Allowed, ..self }
        } else {
            self
        }
    }

    /// The properties with every unknown filled in: what is unknown of the
    /// opposite direction is as in the forward one, and what is then still
    /// unknown is forbidden.
    pub open spec fn normalized(self) -> EdgeProperties {
        let car_forward = if self.car_forward == CarAccessibility::Unknown {
            CarAccessibility::Forbidden
        } else {
            self.car_forward
        };
        let bike_forward = if self.bike_forward == BikeAccessibility::Unknown {
            BikeAccessibility::Forbidden
        } else {
            self.bike_forward
        };
        EdgeProperties {
            foot: if self.foot == FootAccessibility::Unknown {
                FootAccessibility::Forbidden
            } else {
                self.foot
            },
            car_forward,
            car_backward: if self.car_backward == CarAccessibility::Unknown {
                car_forward
            } else {
                self.car_backward
            },
            bike_forward,
            bike_backward: if self.bike_backward == BikeAccessibility::Unknown {
                bike_forward
            } else {
                self.bike_backward
            },
            train: if self.train == TrainAccessibility::Unknown {
                TrainAccessibility::Forbidden
            } else {
                self.train
            },
        }
    }

    /// Whether nothing is unknown.
    pub open spec fn is_normal(self) -> bool {
        &&& self.foot != FootAccessibility::Unknown
        &&& self.car_forward != CarAccessibility::Unknown
        &&& self.car_backward != CarAccessibility::Unknown
        &&& self.bike_forward != BikeAccessibility::Unknown
        &&& self.bike_backward != BikeAccessibility::Unknown
        &&& self.train != TrainAccessibility::Unknown
    }

    /// Whether at least one means of transportation is known to be allowed
    /// on the way, in one direction.
    pub open spec fn is_accessible(self) -> bool {
        ||| self.foot == FootAccessibility::Allowed
        ||| (self.car_forward != CarAccessibility::Unknown && self.car_forward
            != CarAccessibility::Forbidden)
        ||| (self.car_backward != CarAccessibility::Unknown && self.car_backward
            != CarAccessibility::Forbidden)
        ||| (self.bike_forward != BikeAccessibility::Unknown && self.bike_forward
            != BikeAccessibility::Forbidden)
        ||| (self.bike_backward != BikeAccessibility::Unknown && self.bike_backward
            != BikeAccessibility::Forbidden)
        ||| self.train == TrainAccessibility::Allowed
    }
}

impl Default for EdgeProperties {
    fn default() -> (properties: EdgeProperties)
        ensures
            properties == EdgeProperties::unknown(),
    {
        EdgeProperties {
            foot: FootAccessibility::Unknown,
            car_forward: CarAccessibility::Unknown,
            car_backward: CarAccessibility::Unknown,
            bike_forward: BikeAccessibility::Unknown,
            bike_backward: BikeAccessibility::Unknown,
            train: TrainAccessibility::Unknown,
        }
    }
}

/// Looks a `highway` value up in the table.
fn highway(val: &str) -> (class: HighwayClass)
    ensures
        class == highway_class(val@),
{
    if str_eq(val, "cycleway") || str_eq(val, "path") || str_eq(val, "footway") || str_eq(
        val,
        "steps",
    ) || str_eq(val, "pedestrian") {
        HighwayClass::Path
    } else if str_eq(val, "primary") || str_eq(val, "primary_link") {
        HighwayClass::Street(CarAccessibility::Primary)
    } else if str_eq(val, "secondary") {
        HighwayClass::Street(CarAccessibility::Secondary)
    } else if str_eq(val, "tertiary") {
        HighwayClass::Street(CarAccessibility::Tertiary)
    } else if str_eq(val, "unclassified") || str_eq(val, "residential") || str_eq(
        val,
        "living_street",
    ) || str_eq(val, "road") || str_eq(val, "service") || str_eq(val, "track") {
        HighwayClass::Street(CarAccessibility::Residential)
    } else if str_eq(val, "motorway") || str_eq(val, "motorway_link") || str_eq(
        val,
        "motorway_junction",
    ) {
        HighwayClass::Expressway(CarAccessibility::Motorway)
    } else if str_eq(val, "trunk") || str_eq(val, "trunk_link") {
        HighwayClass::Expressway(CarAccessibility::Trunk)
    } else {
        HighwayClass::Other
    }
}

impl EdgeProperties {
    /// Fills in what is unknown: the opposite direction from the forward
    /// one, and what is then still unknown as forbidden.
    pub fn normalize(&mut self)
        ensures
            *final(self) == old(self).normalized(),
            final(self).is_normal(),
    {
        if self.car_forward == CarAccessibility::Unknown {
            self.car_forward = CarAccessibility::Forbidden;
        }
        if self.bike_forward == BikeAccessibility::Unknown {
            self.bike_forward = BikeAccessibility::Forbidden;
        }
        if self.car_backward == CarAccessibility::Unknown {
            self.car_backward = self.car_forward;
        }
        if self.bike_backward == BikeAccessibility::Unknown {
            self.bike_backward = self.bike_forward;
        }
        if self.foot == FootAccessibility::Unknown {
            self.foot = FootAccessibility::Forbidden;
        }
        if self.train == TrainAccessibility::Unknown {
            self.train = TrainAccessibility::Forbidden;
        }
    }

    /// Whether at least one means of transportation can use the way in one
    /// direction.
    pub fn accessible(self) -> (accessible: bool)
        ensures
            accessible == self.is_accessible(),
    {
        self.foot == FootAccessibility::Allowed || (self.car_forward != CarAccessibility::Unknown
            && self.car_forward != CarAccessibility::Forbidden) || (self.car_backward
            != CarAccessibility::Unknown && self.car_backward != CarAccessibility::Forbidden) || (
        self.bike_forward != BikeAccessibility::Unknown && self.bike_forward
            != BikeAccessibility::Forbidden) || (self.bike_backward != BikeAccessibility::Unknown
            && self.bike_backward != BikeAccessibility::Forbidden) || self.train
            == TrainAccessibility::Allowed
    }

    /// Reads one more tag of the way.
    pub fn update(&mut self, key_string: String, val_string: String)
        ensures
            *final(self) == old(self).updated(key_string@, val_string@),
    {
        let key = key_string.as_str();
        let val = val_string.as_str();
        self.update_with_str(key, val);
    }

    /// Marks the way as one-way.
    fn set_one_way(&mut self)
        ensures
            *final(self) == old(self).one_way(),
    {
        self.car_backward = CarAccessibility::Forbidden;
        if self.bike_backward == BikeAccessibility::Unknown {
            self.bike_backward = BikeAccessibility::Forbidden;
        }
    }

    /// Reads one more tag of the way, by the table of keys and values.
    pub fn update_with_str(&mut self, key: &str, val: &str)
        ensures
            *final(self) == old(self).updated(key@, val@),
    {
        if str_eq(key, "highway") {
            match highway(val) {
                HighwayClass::Path => {
                    self.bike_forward = BikeAccessibility::Track;
                    self.foot = FootAccessibility::Allowed;
                },
                HighwayClass::Street(car) => {
                    self.car_forward = car;
                    self.foot = FootAccessibility::Allowed;
                    self.bike_forward = BikeAccessibility::Allowed;
                },
                HighwayClass::Expressway(car) => {
                    self.car_forward = car;
                    self.foot = FootAccessibility::Forbidden;
                    self.bike_forward = BikeAccessibility::Forbidden;
                },
                HighwayClass::Other => {},
            }
        } else if str_eq(key, "pedestrian") || str_eq(key, "foot") {
            if str_eq(val, "no") {
                self.foot = FootAccessibility::Forbidden;
            } else {
                self.foot = FootAccessibility::Allowed;
            }
        } else if str_eq(key, "cycleway") {
            if str_eq(val, "track") {
                self.bike_forward = BikeAccessibility::Track;
            } else if str_eq(val, "opposite_track") {
                self.bike_backward = BikeAccessibility::Track;
            } else if str_eq(val, "opposite") {
                self.bike_backward = BikeAccessibility::Allowed;
            } else if str_eq(val, "share_busway") {
                self.bike_forward = BikeAccessibility::Busway;
            } else if str_eq(val, "lane_left") || str_eq(val, "opposite_lane") {
                self.bike_backward = BikeAccessibility::Lane;
            } else {
                self.bike_forward = BikeAccessibility::Lane;
            }
        } else if str_eq(key, "bicycle") {
            if str_eq(val, "no") || str_eq(val, "false") {
                self.bike_forward = BikeAccessibility::Forbidden;
            } else {
                self.bike_forward = BikeAccessibility::Allowed;
            }
        } else if str_eq(key, "busway") {
            if str_eq(val, "opposite_lane") || str_eq(val, "opposite_track") {
                self.bike_backward = BikeAccessibility::Busway;
            } else {
                self.bike_forward = BikeAccessibility::Busway;
            }
        } else if str_eq(key, "oneway") {
            if str_eq(val, "yes") || str_eq(val, "true") || str_eq(val, "1") {
                self.set_one_way();
            }
        } else if str_eq(key, "junction") {
            if str_eq(val, "roundabout") {
                self.set_one_way();
            }
        } else if str_eq(key, "railway") {
            self.train = TrainAccessibility::Allowed;
        }
    }
}

} // verus!
