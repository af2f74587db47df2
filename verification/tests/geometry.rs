use osm4routing::categorize::edge_properties::EdgeProperties;
use osm4routing::categorize::railway::edge_properties::EdgeProperties as RailwayEdgeProperties;
use osm4routing::geohash::{decode, encode, is_cell_code, parse_code, render_code};
use osm4routing::models::coord::Coord;
use osm4routing::models::edge::Edge;
use osm4routing::models::node::Node;

fn line(points: &[(i32, i32)]) -> Edge {
    Edge {
        id: String::from("1-0"),
        osm_id: 1,
        source: 1,
        target: 2,
        geometry: points.iter().map(|&(lon, lat)| Coord { lon, lat }).collect(),
        properties: EdgeProperties::RailwayEdgeProperties(RailwayEdgeProperties::default()),
    }
}

#[test]
fn wkt_of_three_points() {
    let edge = line(&[(0, 0), (10_000_000, 0), (0, 10_000_000)]);
    assert_eq!(
        edge.as_wkt(),
        "LINESTRING(0.0000000 0.0000000, 1.0000000 0.0000000, 0.0000000 1.0000000)"
    );
}

#[test]
fn wkt_of_no_point_and_of_one() {
    assert_eq!(line(&[]).as_wkt(), "LINESTRING()");
    assert_eq!(line(&[(23_456_789, -1)]).as_wkt(), "LINESTRING(2.3456789 -0.0000001)");
}

#[test]
fn wkt_of_the_extremes() {
    let edge = line(&[(i32::MIN, i32::MAX), (-1_800_000_000, 900_000_000)]);
    assert_eq!(
        edge.as_wkt(),
        "LINESTRING(-214.7483648 214.7483647, -180.0000000 90.0000000)"
    );
}

#[test]
fn wkt_is_what_seven_decimals_of_the_degrees_print() {
    let samples: [i32; 12] = [
        0,
        1,
        -1,
        9,
        10,
        9_999_999,
        10_000_000,
        -10_000_001,
        123_456_789,
        -987_654_321,
        1_799_999_999,
        -1_800_000_000,
    ];
    for &lon in samples.iter() {
        for &lat in samples.iter() {
            let expected =
                format!("LINESTRING({:.7} {:.7})", lon as f64 * 1e-7, lat as f64 * 1e-7);
            assert_eq!(line(&[(lon, lat)]).as_wkt(), expected);
        }
    }
}

#[test]
fn defaults_are_zero() {
    assert_eq!(Coord::default(), Coord { lon: 0, lat: 0 });
    assert_eq!(Node::default(), Node { id: 0, coord: Coord { lon: 0, lat: 0 }, uses: 0 });
}

#[test]
fn geohash_of_a_known_point() {
    // 31.23 N, 121.473 E
    assert_eq!(encode(1_214_730_000, 312_300_000, 8), Some(String::from("11100110")));
    assert_eq!(encode(1_214_730_000, 312_300_000, 0), Some(String::new()));
    assert_eq!(encode(1_214_730_000, 312_300_000, 65), None);
}

#[test]
fn geohash_of_the_longest_precision() {
    let code = encode(1_214_730_000, 312_300_000, 64).unwrap();
    assert_eq!(code.len(), 64);
    assert!(code.starts_with("11100110"));
    assert!(is_cell_code(&code));
}

#[test]
fn geohashes_of_an_edge_come_once_each_and_ascending() {
    let edge = line(&[
        (1_214_730_000, 312_300_000),
        (-1_214_730_000, -312_300_000),
        (1_214_730_001, 312_300_001),
        (0, 0),
    ]);
    let codes = edge.get_geohashes(8);
    assert_eq!(
        codes,
        vec![String::from("00011001"), String::from("00111111"), String::from("11100110")]
    );
    for (place, coord) in [1usize, 3, 0].iter().zip(codes.iter()) {
        let point = edge.geometry[*place];
        assert_eq!(encode(point.lon, point.lat, 8).as_ref(), Some(coord));
    }
    assert!(line(&[]).get_geohashes(24).is_empty());
}

#[test]
fn geohashes_of_three_points_in_two_cells() {
    let edge = line(&[
        (100_000_000, 100_000_000),
        (200_000_000, 200_000_000),
        (-100_000_000, 100_000_000),
    ]);
    assert_eq!(edge.get_geohashes(2), vec![String::from("01"), String::from("11")]);
    assert_eq!(edge.get_geohashes(1), vec![String::from("0"), String::from("1")]);
    assert_eq!(edge.get_geohashes(0), vec![String::new()]);
}

#[test]
fn geohashes_are_what_sorting_and_dropping_repeats_gives() {
    let points: Vec<(i32, i32)> = (0..60)
        .map(|i: i32| {
            (((i * 7919) % 360 - 180) * 10_000_000, ((i * 104_729) % 180 - 90) * 9_999_999)
        })
        .collect();
    let edge = line(&points);
    for precision in [1u8, 3, 8, 24, 64] {
        let mut expected: Vec<String> =
            points.iter().map(|&(lon, lat)| encode(lon, lat, precision).unwrap()).collect();
        expected.sort_unstable();
        expected.dedup();
        assert_eq!(edge.get_geohashes(precision), expected);
    }
}

#[test]
fn decode_of_a_short_code() {
    let bounds = decode("11100").unwrap();
    assert_eq!(f64::from_bits(bounds.min_lon), 90.0);
    assert_eq!(f64::from_bits(bounds.max_lon), 135.0);
    assert_eq!(f64::from_bits(bounds.min_lat), 0.0);
    assert_eq!(f64::from_bits(bounds.max_lat), 45.0);
    let world = decode("").unwrap();
    assert_eq!(f64::from_bits(world.min_lon), -180.0);
    assert_eq!(f64::from_bits(world.max_lon), 180.0);
    assert_eq!(f64::from_bits(world.min_lat), -90.0);
    assert_eq!(f64::from_bits(world.max_lat), 90.0);
}

#[test]
fn decode_refuses_what_is_no_code() {
    assert_eq!(decode("1102"), None);
    assert_eq!(decode("wtw3"), None);
    assert_eq!(decode("10é"), None);
    assert_eq!(decode(&"1".repeat(65)), None);
    assert!(decode(&"1".repeat(64)).is_some());
    assert!(!is_cell_code("01 "));
    assert!(is_cell_code(""));
}

#[test]
fn the_box_of_a_code_holds_the_point() {
    let points: [(i32, i32); 8] = [
        (0, 0),
        (1_214_730_000, 312_300_000),
        (-1_799_999_999, -899_999_999),
        (1_800_000_000, 900_000_000),
        (-1_800_000_000, -900_000_000),
        (23_522_219, 488_566_140),
        (900_000_000, 450_000_000),
        (-740_059_700, 407_127_800),
    ];
    for &(lon, lat) in points.iter() {
        for precision in 1u8..=24 {
            let code = encode(lon, lat, precision).unwrap();
            assert_eq!(code.len(), precision as usize);
            let bounds = decode(&code).unwrap();
            let (x, y) = (lon as f64 * 1e-7, lat as f64 * 1e-7);
            assert!(f64::from_bits(bounds.min_lon) <= x && x <= f64::from_bits(bounds.max_lon));
            assert!(f64::from_bits(bounds.min_lat) <= y && y <= f64::from_bits(bounds.max_lat));
        }
    }
}

#[test]
fn a_longer_code_begins_with_the_shorter() {
    let long = encode(23_522_219, 488_566_140, 24).unwrap();
    for precision in 0u8..24 {
        let short = encode(23_522_219, 488_566_140, precision).unwrap();
        assert!(long.starts_with(&short));
    }
}

#[test]
fn codes_are_read_as_numbers() {
    assert_eq!(parse_code("11100110", 8), Some(0b1110_0110));
    assert_eq!(parse_code("", 0), Some(0));
    assert_eq!(parse_code("0001", 4), Some(1));
    assert_eq!(parse_code(&"1".repeat(64), 64), Some(u64::MAX));
    assert_eq!(parse_code("0001", 3), None);
    assert_eq!(parse_code("0001", 5), None);
    assert_eq!(parse_code("0021", 4), None);
    assert_eq!(parse_code("00é", 3), None);
}

#[test]
fn numbers_are_written_as_codes() {
    assert_eq!(render_code(0b1110_0110, 8), "11100110");
    assert_eq!(render_code(1, 4), "0001");
    assert_eq!(render_code(0b1110_0110, 4), "0110");
    assert_eq!(render_code(5, 0), "");
    assert_eq!(render_code(u64::MAX, 64), "1".repeat(64));
    assert_eq!(render_code(1, 66), format!("{}1", "0".repeat(65)));
    for value in 0u64..64 {
        assert_eq!(parse_code(&render_code(value, 6), 6), Some(value));
    }
}
