use osm4routing::categorize::classify;
use osm4routing::categorize::edge_properties::EdgeProperties;
use osm4routing::categorize::railway::edge_properties::EdgeProperties as RailwayEdgeProperties;
use osm4routing::categorize::road::edge_properties::EdgeProperties as RoadEdgeProperties;
use osm4routing::categorize::{
    BikeAccessibility, CarAccessibility, FootAccessibility, TrainAccessibility,
};
use osm4routing::ProfileType;

fn tags(pairs: &[(&str, &str)]) -> Vec<(String, String)> {
    pairs.iter().map(|(k, v)| (k.to_string(), v.to_string())).collect()
}

fn road(pairs: &[(&str, &str)]) -> RoadEdgeProperties {
    let mut properties = RoadEdgeProperties::default();
    for (key, val) in pairs {
        properties.update_with_str(key, val);
    }
    properties
}

fn railway(pairs: &[(&str, &str)]) -> RailwayEdgeProperties {
    let mut properties = RailwayEdgeProperties::default();
    for (key, val) in pairs {
        properties.update_with_str(key, val);
    }
    properties
}

#[test]
fn railway_default_is_empty() {
    let properties = RailwayEdgeProperties::default();
    assert!(!properties.has_railway_tag);
    assert_eq!(properties.railway_type, "");
    assert_eq!(properties.usage, "");
    assert_eq!(properties.service, "");
}

#[test]
fn railway_keeps_the_allowed_kinds() {
    for kind in ["light_rail", "monorail", "narrow_gauge", "rail", "subway", "tram"] {
        let properties = railway(&[("railway", kind)]);
        assert!(properties.has_railway_tag);
        assert_eq!(properties.railway_type, kind);
    }
    for kind in ["abandoned", "platform", "", "Rail", "rail "] {
        let properties = railway(&[("railway", kind)]);
        assert!(!properties.has_railway_tag);
        assert_eq!(properties.railway_type, "");
    }
}

#[test]
fn railway_copies_usage_and_service() {
    let properties = railway(&[("usage", "main"), ("service", "yard"), ("name", "x")]);
    assert!(!properties.has_railway_tag);
    assert_eq!(properties.usage, "main");
    assert_eq!(properties.service, "yard");
    let mut again = properties.duplicate();
    again.update(String::from("usage"), String::from("branch"));
    assert_eq!(again.usage, "branch");
    assert_eq!(again.service, "yard");
    assert_eq!(properties.usage, "main");
}

#[test]
fn railway_tag_of_another_kind_keeps_the_first() {
    let properties = railway(&[("railway", "tram"), ("railway", "disused")]);
    assert!(properties.has_railway_tag);
    assert_eq!(properties.railway_type, "tram");
}

#[test]
fn road_default_is_unknown() {
    let properties = RoadEdgeProperties::default();
    assert_eq!(properties.foot, FootAccessibility::Unknown);
    assert_eq!(properties.car_forward, CarAccessibility::Unknown);
    assert_eq!(properties.car_backward, CarAccessibility::Unknown);
    assert_eq!(properties.bike_forward, BikeAccessibility::Unknown);
    assert_eq!(properties.bike_backward, BikeAccessibility::Unknown);
    assert_eq!(properties.train, TrainAccessibility::Unknown);
    assert!(!properties.accessible());
}

#[test]
fn road_highway_table() {
    for val in ["cycleway", "path", "footway", "steps", "pedestrian"] {
        let p = road(&[("highway", val)]);
        assert_eq!(p.bike_forward, BikeAccessibility::Track);
        assert_eq!(p.foot, FootAccessibility::Allowed);
        assert_eq!(p.car_forward, CarAccessibility::Unknown);
    }
    let streets = [
        ("primary", CarAccessibility::Primary),
        ("primary_link", CarAccessibility::Primary),
        ("secondary", CarAccessibility::Secondary),
        ("tertiary", CarAccessibility::Tertiary),
        ("unclassified", CarAccessibility::Residential),
        ("residential", CarAccessibility::Residential),
        ("living_street", CarAccessibility::Residential),
        ("road", CarAccessibility::Residential),
        ("service", CarAccessibility::Residential),
        ("track", CarAccessibility::Residential),
    ];
    for (val, car) in streets {
        let p = road(&[("highway", val)]);
        assert_eq!(p.car_forward, car);
        assert_eq!(p.foot, FootAccessibility::Allowed);
        assert_eq!(p.bike_forward, BikeAccessibility::Allowed);
    }
    let expressways = [
        ("motorway", CarAccessibility::Motorway),
        ("motorway_link", CarAccessibility::Motorway),
        ("motorway_junction", CarAccessibility::Motorway),
        ("trunk", CarAccessibility::Trunk),
        ("trunk_link", CarAccessibility::Trunk),
    ];
    for (val, car) in expressways {
        let p = road(&[("highway", val)]);
        assert_eq!(p.car_forward, car);
        assert_eq!(p.foot, FootAccessibility::Forbidden);
        assert_eq!(p.bike_forward, BikeAccessibility::Forbidden);
    }
    assert_eq!(road(&[("highway", "proposed")]), RoadEdgeProperties::default());
}

#[test]
fn road_foot_and_bicycle() {
    assert_eq!(road(&[("foot", "no")]).foot, FootAccessibility::Forbidden);
    assert_eq!(road(&[("foot", "yes")]).foot, FootAccessibility::Allowed);
    assert_eq!(road(&[("pedestrian", "no")]).foot, FootAccessibility::Forbidden);
    assert_eq!(road(&[("pedestrian", "designated")]).foot, FootAccessibility::Allowed);
    assert_eq!(road(&[("bicycle", "no")]).bike_forward, BikeAccessibility::Forbidden);
    assert_eq!(road(&[("bicycle", "false")]).bike_forward, BikeAccessibility::Forbidden);
    assert_eq!(road(&[("bicycle", "yes")]).bike_forward, BikeAccessibility::Allowed);
}

#[test]
fn road_cycleway_and_busway() {
    assert_eq!(road(&[("cycleway", "track")]).bike_forward, BikeAccessibility::Track);
    assert_eq!(road(&[("cycleway", "opposite_track")]).bike_backward, BikeAccessibility::Track);
    assert_eq!(road(&[("cycleway", "opposite")]).bike_backward, BikeAccessibility::Allowed);
    assert_eq!(road(&[("cycleway", "share_busway")]).bike_forward, BikeAccessibility::Busway);
    assert_eq!(road(&[("cycleway", "lane_left")]).bike_backward, BikeAccessibility::Lane);
    assert_eq!(road(&[("cycleway", "opposite_lane")]).bike_backward, BikeAccessibility::Lane);
    assert_eq!(road(&[("cycleway", "lane")]).bike_forward, BikeAccessibility::Lane);
    assert_eq!(road(&[("cycleway", "opposite")]).bike_forward, BikeAccessibility::Unknown);
    assert_eq!(road(&[("busway", "opposite_lane")]).bike_backward, BikeAccessibility::Busway);
    assert_eq!(road(&[("busway", "opposite_track")]).bike_backward, BikeAccessibility::Busway);
    assert_eq!(road(&[("busway", "lane")]).bike_forward, BikeAccessibility::Busway);
}

#[test]
fn road_one_way() {
    for val in ["yes", "true", "1"] {
        let p = road(&[("highway", "residential"), ("oneway", val)]);
        assert_eq!(p.car_forward, CarAccessibility::Residential);
        assert_eq!(p.car_backward, CarAccessibility::Forbidden);
        assert_eq!(p.bike_backward, BikeAccessibility::Forbidden);
    }
    let p = road(&[("highway", "residential"), ("oneway", "no")]);
    assert_eq!(p.car_backward, CarAccessibility::Unknown);
    let p = road(&[("cycleway", "opposite"), ("oneway", "yes")]);
    assert_eq!(p.bike_backward, BikeAccessibility::Allowed);
    let p = road(&[("junction", "roundabout")]);
    assert_eq!(p.car_backward, CarAccessibility::Forbidden);
    assert_eq!(p.bike_backward, BikeAccessibility::Forbidden);
    assert_eq!(road(&[("junction", "yes")]), RoadEdgeProperties::default());
}

#[test]
fn road_railway_tag_allows_trains() {
    let p = road(&[("railway", "anything")]);
    assert_eq!(p.train, TrainAccessibility::Allowed);
    assert!(p.accessible());
}

#[test]
fn road_normalize_fills_what_is_unknown() {
    let mut p = road(&[("highway", "secondary")]);
    p.normalize();
    assert_eq!(
        p,
        RoadEdgeProperties {
            foot: FootAccessibility::Allowed,
            car_forward: CarAccessibility::Secondary,
            car_backward: CarAccessibility::Secondary,
            bike_forward: BikeAccessibility::Allowed,
            bike_backward: BikeAccessibility::Allowed,
            train: TrainAccessibility::Forbidden,
        }
    );
    let mut q = RoadEdgeProperties::default();
    q.normalize();
    assert_eq!(
        q,
        RoadEdgeProperties {
            foot: FootAccessibility::Forbidden,
            car_forward: CarAccessibility::Forbidden,
            car_backward: CarAccessibility::Forbidden,
            bike_forward: BikeAccessibility::Forbidden,
            bike_backward: BikeAccessibility::Forbidden,
            train: TrainAccessibility::Forbidden,
        }
    );
    assert!(!q.accessible());
    let mut r = road(&[("highway", "motorway"), ("oneway", "yes")]);
    r.normalize();
    assert_eq!(r.car_forward, CarAccessibility::Motorway);
    assert_eq!(r.car_backward, CarAccessibility::Forbidden);
    assert_eq!(r.bike_backward, BikeAccessibility::Forbidden);
    assert!(r.accessible());
    let copy = r;
    r.normalize();
    assert_eq!(r, copy);
}

#[test]
fn road_update_takes_strings() {
    let mut p = RoadEdgeProperties::default();
    p.update(String::from("highway"), String::from("trunk"));
    assert_eq!(p, road(&[("highway", "trunk")]));
}

#[test]
fn road_accessible_needs_a_known_use() {
    let mut p = RoadEdgeProperties::default();
    p.foot = FootAccessibility::Forbidden;
    assert!(!p.accessible());
    p.bike_backward = BikeAccessibility::Lane;
    assert!(p.accessible());
    let mut q = RoadEdgeProperties::default();
    q.train = TrainAccessibility::Forbidden;
    assert!(!q.accessible());
    q.car_backward = CarAccessibility::Residential;
    assert!(q.accessible());
}

#[test]
fn classify_railway() {
    let (accessible, properties) =
        classify(&tags(&[("railway", "rail"), ("usage", "main")]), ProfileType::Railway);
    assert!(accessible);
    match properties {
        EdgeProperties::RailwayEdgeProperties(p) => {
            assert_eq!(p.railway_type, "rail");
            assert_eq!(p.usage, "main");
            assert_eq!(p.service, "");
        }
        EdgeProperties::RoadEdgeProperties(_) => panic!("a road"),
    }
    let (accessible, _) = classify(&tags(&[("highway", "primary")]), ProfileType::Railway);
    assert!(!accessible);
    let (accessible, _) = classify(&tags(&[("railway", "platform")]), ProfileType::Railway);
    assert!(!accessible);
    let (accessible, _) = classify(&tags(&[]), ProfileType::Railway);
    assert!(!accessible);
}

#[test]
fn classify_road() {
    let (accessible, properties) =
        classify(&tags(&[("highway", "primary"), ("oneway", "yes")]), ProfileType::Road);
    assert!(accessible);
    match properties {
        EdgeProperties::RoadEdgeProperties(p) => {
            assert_eq!(p.car_forward, CarAccessibility::Primary);
            assert_eq!(p.car_backward, CarAccessibility::Forbidden);
            assert_eq!(p.bike_forward, BikeAccessibility::Allowed);
            assert_eq!(p.bike_backward, BikeAccessibility::Forbidden);
            assert_eq!(p.foot, FootAccessibility::Allowed);
            assert_eq!(p.train, TrainAccessibility::Forbidden);
        }
        EdgeProperties::RailwayEdgeProperties(_) => panic!("a railway"),
    }
    let (accessible, _) = classify(&tags(&[("building", "yes")]), ProfileType::Road);
    assert!(!accessible);
    let (accessible, _) = classify(&tags(&[]), ProfileType::Road);
    assert!(!accessible);
    let profile = ProfileType::Road;
    let (accessible, _) =
        classify(&tags(&[("highway", "footway"), ("foot", "no"), ("bicycle", "no")]), profile);
    assert!(!accessible);
}

#[test]
fn profiles_by_name() {
    assert_eq!(ProfileType::parse("railway"), Some(ProfileType::Railway));
    assert_eq!(ProfileType::parse("road"), Some(ProfileType::Road));
    assert_eq!(ProfileType::parse("Road"), None);
    assert_eq!(ProfileType::parse(""), None);
    assert_eq!(ProfileType::parse("bike"), None);
}
