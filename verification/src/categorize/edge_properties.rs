//! The properties of a way under either profile.

use crate::categorize::railway::edge_properties::EdgeProperties as RailwayEdgeProperties;
use crate::categorize::railway::edge_properties::RailwayTags;
use crate::categorize::road::edge_properties::EdgeProperties as RoadEdgeProperties;
use vstd::prelude::*;

verus! {

/// The properties that a profile keeps of a way.
#[derive(Clone, Debug)]
pub enum EdgeProperties {
    RailwayEdgeProperties(RailwayEdgeProperties),
    RoadEdgeProperties(RoadEdgeProperties),
}

/// The properties of a way as plain values.
pub enum Properties {
    Railway(RailwayTags),
    Road(RoadEdgeProperties),
}

impl View for EdgeProperties {
    type V = Properties;

    open spec fn view(&self) -> Properties {
        match self {
            EdgeProperties::RailwayEdgeProperties(properties) => Properties::Railway(properties@),
            EdgeProperties::RoadEdgeProperties(properties) => Properties::Road(*properties),
        }
    }
}

impl EdgeProperties {
    /// A copy of the properties.
    pub fn duplicate(&self) -> (copy: EdgeProperties)
        ensures
            copy@ == self@,
    {
        match self {
            EdgeProperties::RailwayEdgeProperties(properties) => {
                EdgeProperties::RailwayEdgeProperties(properties.duplicate())
            },
            EdgeProperties::RoadEdgeProperties(properties) => EdgeProperties::RoadEdgeProperties(
                *properties,
            ),
        }
    }
}

} // verus!
