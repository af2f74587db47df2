use osm4routing::categorize::edge_properties::EdgeProperties;
use osm4routing::categorize::railway::edge_properties::EdgeProperties as RailwayEdgeProperties;
use osm4routing::categorize::road::edge_properties::EdgeProperties as RoadEdgeProperties;
use osm4routing::categorize::{
    BikeAccessibility, CarAccessibility, FootAccessibility, TrainAccessibility,
};
use osm4routing::models::coord::Coord;
use osm4routing::models::edge::Edge;
use osm4routing::text::{push_decimal, push_padded_decimal, push_signed_decimal};
use osm4routing::writers::edges::{edge_record, edges_csv_columns, edges_table};
use osm4routing::ProfileType;

#[test]
fn columns_of_each_profile() {
    assert_eq!(
        edges_csv_columns(ProfileType::Railway),
        vec!["id", "osm_id", "source", "target", "railway_type", "usage", "service", "geometry"]
    );
    assert_eq!(
        edges_csv_columns(ProfileType::Road),
        vec![
            "id",
            "osm_id",
            "source",
            "target",
            "foot",
            "car_forward",
            "car_backward",
            "bike_forward",
            "bike_backward",
            "train",
            "wkt",
        ]
    );
}

#[test]
fn record_of_a_railway_edge() {
    let mut properties = RailwayEdgeProperties::default();
    properties.update_with_str("railway", "tram");
    properties.update_with_str("service", "yard");
    let edge = Edge {
        id: String::from("5-0"),
        osm_id: 5,
        source: 1,
        target: 2,
        geometry: vec![Coord { lon: 1, lat: -2 }, Coord { lon: 30_000_000, lat: 40_000_000 }],
        properties: EdgeProperties::RailwayEdgeProperties(properties),
    };
    assert_eq!(
        edge_record(&edge),
        vec![
            "5-0",
            "5",
            "1",
            "2",
            "tram",
            "",
            "yard",
            "LINESTRING(0.0000001 -0.0000002, 3.0000000 4.0000000)",
        ]
    );
    assert_eq!(edge_record(&edge).len(), edges_csv_columns(ProfileType::Railway).len());
}

#[test]
fn record_of_a_road_edge() {
    let properties = RoadEdgeProperties {
        foot: FootAccessibility::Allowed,
        car_forward: CarAccessibility::Motorway,
        car_backward: CarAccessibility::Forbidden,
        bike_forward: BikeAccessibility::Busway,
        bike_backward: BikeAccessibility::Unknown,
        train: TrainAccessibility::Forbidden,
    };
    let edge = Edge {
        id: String::from("-12-3"),
        osm_id: -12,
        source: 9_000_000_000,
        target: 0,
        geometry: vec![Coord { lon: 0, lat: 0 }, Coord { lon: -5, lat: 5 }],
        properties: EdgeProperties::RoadEdgeProperties(properties),
    };
    assert_eq!(
        edge_record(&edge),
        vec![
            "-12-3",
            "-12",
            "9000000000",
            "0",
            "Allowed",
            "Motorway",
            "Forbidden",
            "Busway",
            "Unknown",
            "Forbidden",
            "LINESTRING(0.0000000 0.0000000, -0.0000005 0.0000005)",
        ]
    );
    assert_eq!(edge_record(&edge).len(), edges_csv_columns(ProfileType::Road).len());
}

#[test]
fn names_of_the_levels() {
    assert_eq!(FootAccessibility::Unknown.name(), "Unknown");
    assert_eq!(FootAccessibility::Forbidden.name(), "Forbidden");
    assert_eq!(FootAccessibility::Allowed.name(), "Allowed");
    let cars = [
        (CarAccessibility::Unknown, "Unknown"),
        (CarAccessibility::Forbidden, "Forbidden"),
        (CarAccessibility::Residential, "Residential"),
        (CarAccessibility::Tertiary, "Tertiary"),
        (CarAccessibility::Secondary, "Secondary"),
        (CarAccessibility::Primary, "Primary"),
        (CarAccessibility::Trunk, "Trunk"),
        (CarAccessibility::Motorway, "Motorway"),
    ];
    for (car, name) in cars {
        assert_eq!(car.name(), name);
        assert_eq!(format!("{:?}", car), name);
    }
    let bikes = [
        (BikeAccessibility::Unknown, "Unknown"),
        (BikeAccessibility::Forbidden, "Forbidden"),
        (BikeAccessibility::Allowed, "Allowed"),
        (BikeAccessibility::Lane, "Lane"),
        (BikeAccessibility::Busway, "Busway"),
        (BikeAccessibility::Track, "Track"),
    ];
    for (bike, name) in bikes {
        assert_eq!(bike.name(), name);
        assert_eq!(format!("{:?}", bike), name);
    }
    assert_eq!(TrainAccessibility::Unknown.name(), "Unknown");
    assert_eq!(TrainAccessibility::Forbidden.name(), "Forbidden");
    assert_eq!(TrainAccessibility::Allowed.name(), "Allowed");
}

#[test]
fn numbers_in_decimal() {
    let mut text = String::from("n=");
    push_decimal(&mut text, 0);
    text.push(' ');
    push_decimal(&mut text, 7);
    text.push(' ');
    push_decimal(&mut text, 10);
    text.push(' ');
    push_decimal(&mut text, u64::MAX);
    assert_eq!(text, "n=0 7 10 18446744073709551615");
    for n in [0i64, 1, -1, 9, -10, 1234567890123, i64::MAX, i64::MIN] {
        let mut text = String::new();
        push_signed_decimal(&mut text, n);
        assert_eq!(text, n.to_string());
    }
    let mut text = String::new();
    push_padded_decimal(&mut text, 42, 7);
    text.push('|');
    push_padded_decimal(&mut text, 1234, 2);
    text.push('|');
    push_padded_decimal(&mut text, 5, 0);
    text.push('|');
    push_padded_decimal(&mut text, 0, 3);
    assert_eq!(text, "0000042|34||000");
}

#[test]
fn the_edge_table_is_the_header_and_a_row_for_every_edge() {
    let edge = |id: &str, kind: &str| {
        let mut properties = RailwayEdgeProperties::default();
        properties.update_with_str("railway", kind);
        Edge {
            id: String::from(id),
            osm_id: 3,
            source: 10,
            target: 11,
            geometry: vec![Coord { lon: 0, lat: 0 }, Coord { lon: 1, lat: 1 }],
            properties: EdgeProperties::RailwayEdgeProperties(properties),
        }
    };
    let edges = vec![edge("3-0", "rail"), edge("3-1", "tram"), edge("3-2", "rail")];
    let rows = edges_table(&edges, ProfileType::Railway);
    assert_eq!(rows.len(), 4);
    assert_eq!(
        rows[0],
        vec!["id", "osm_id", "source", "target", "railway_type", "usage", "service", "geometry"]
    );
    for (row, edge) in rows[1..].iter().zip(edges.iter()) {
        assert_eq!(*row, edge_record(edge));
        assert_eq!(row.len(), rows[0].len());
    }
    assert_eq!(rows[2][0], "3-1");
    assert_eq!(rows[2][4], "tram");
    let empty = edges_table(&Vec::new(), ProfileType::Road);
    assert_eq!(empty.len(), 1);
    assert_eq!(empty[0].len(), 11);
}
