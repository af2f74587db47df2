//! Classification of a way's tags under a transportation profile.

use crate::categorize::edge_properties::{EdgeProperties, Properties};
use crate::categorize::railway::edge_properties::EdgeProperties as RailwayEdgeProperties;
use crate::categorize::railway::edge_properties::RailwayTags;
use crate::categorize::road::edge_properties::EdgeProperties as RoadEdgeProperties;
use crate::ProfileType;
use vstd::prelude::*;

pub mod edge_properties;
pub mod railway;
pub mod road;

verus! {

/// Whether pedestrians may use a way.
#[derive(Clone, Copy, Debug, PartialEq, Eq, Structural)]
pub enum FootAccessibility {
    Unknown,
    Forbidden,
    Allowed,
}

/// Whether cars may use a way in one direction, and on what class of road.
#[derive(Clone, Copy, Debug, PartialEq, Eq, Structural)]
pub enum CarAccessibility {
    Unknown,
    Forbidden,
    Residential,
    Tertiary,
    Secondary,
    Primary,
    Trunk,
    Motorway,
}

/// Whether bicycles may use a way in one direction, and on what facility.
#[derive(Clone, Copy, Debug, PartialEq, Eq, Structural)]
pub enum BikeAccessibility {
    Unknown,
    Forbidden,
    Allowed,
    Lane,
    Busway,
    Track,
}

/// Whether trains may use a way.
#[derive(Clone, Copy, Debug, PartialEq, Eq, Structural)]
pub enum TrainAccessibility {
    Unknown,
    Forbidden,
    Allowed,
}

/// What the railway profile keeps of `tags`, read in order.
pub open spec fn railway_tags(tags: Seq<(String, String)>) -> RailwayTags
    decreases tags.len(),
{
    if tags.len() == 0 {
        RailwayTags::empty()
    } else {
        railway_tags(tags.drop_last()).updated(tags.last().0@, tags.last().1@)
    }
}

/// What the road profile keeps of `tags`, read in order, before what is
/// unknown is filled in.
pub open spec fn road_tags(tags: Seq<(String, String)>) -> RoadEdgeProperties
    decreases tags.len(),
{
    if tags.len() == 0 {
        RoadEdgeProperties::unknown()
    } else {
        road_tags(tags.drop_last()).updated(tags.last().0@, tags.last().1@)
    }
}

/// The properties of a way with `tags` under `profile`.
pub open spec fn classified_properties(
    tags: Seq<(String, String)>,
    profile: ProfileType,
) -> Properties {
    match profile {
        ProfileType::Railway => Properties::Railway(railway_tags(tags)),
        ProfileType::Road => Properties::Road(road_tags(tags).normalized()),
    }
}

/// Whether a way with `tags` is accessible under `profile`: under the
/// railway profile, where it has a `railway` tag of an allowed kind; under
/// the road profile, where some means of transportation can use it.
pub open spec fn classified_accessible(tags: Seq<(String, String)>, profile: ProfileType) -> bool {
    match profile {
        ProfileType::Railway => railway_tags(tags).has_railway_tag,
        ProfileType::Road => road_tags(tags).normalized().is_accessible(),
    }
}

/// Classifies a way by its tags: whether it is accessible under `profile`,
/// and the properties that the profile keeps of it.
pub fn classify(tags: &Vec<(String, String)>, profile: ProfileType) -> (result: (
    bool,
    EdgeProperties,
))
    ensures
        result.0 == classified_accessible(tags@, profile),
        result.1@ == classified_properties(tags@, profile),
{
    match profile {
        ProfileType::Railway => {
            let mut properties = RailwayEdgeProperties::default();
            let mut i: usize = 0;
            assert(tags@.take(0) =~= Seq::empty());
            while i < tags.len()
                invariant
                    i <= tags.len(),
                    properties@ == railway_tags(tags@.take(i as int)),
                decreases tags.len() - i,
            {
                let tag = &tags[i];
                properties.update_with_str(tag.0.as_str(), tag.1.as_str());
                assert(tags@.take(i + 1).drop_last() =~= tags@.take(i as int));
                i = i + 1;
            }
            assert(tags@.take(i as int) =~= tags@);
            (properties.has_railway_tag, EdgeProperties::RailwayEdgeProperties(properties))
        },
        ProfileType::Road => {
            let mut properties = RoadEdgeProperties::default();
            let mut i: usize = 0;
            assert(tags@.take(0) =~= Seq::empty());
            while i < tags.len()
                invariant
                    i <= tags.len(),
                    properties == road_tags(tags@.take(i as int)),
                decreases tags.len() - i,
            {
                let tag = &tags[i];
                properties.update_with_str(tag.0.as_str(), tag.1.as_str());
                assert(tags@.take(i + 1).drop_last() =~= tags@.take(i as int));
                i = i + 1;
            }
            assert(tags@.take(i as int) =~= tags@);
            properties.normalize();
            (properties.accessible(), EdgeProperties::RoadEdgeProperties(properties))
        },
    }
}

} // verus!
