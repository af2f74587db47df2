use osm4routing::categorize::edge_properties::EdgeProperties;
use osm4routing::models::coord::Coord;
use osm4routing::models::edge::Edge;
use osm4routing::models::node::Node;
use osm4routing::categorize::railway::edge_properties::EdgeProperties as RailwayEdgeProperties;
use osm4routing::reader::{read, OsmNode, OsmWay, ReadError, Reader, Way};
use osm4routing::ProfileType;

fn way(id: i64, nodes: &[i64], tags: &[(&str, &str)]) -> OsmWay {
    OsmWay {
        id,
        nodes: nodes.to_vec(),
        tags: tags.iter().map(|(k, v)| (k.to_string(), v.to_string())).collect(),
    }
}

fn node(id: i64) -> OsmNode {
    OsmNode { id, lon: (id * 10) as i32, lat: (id * 100) as i32 }
}

fn coord(id: i64) -> Coord {
    Coord { lon: (id * 10) as i32, lat: (id * 100) as i32 }
}

fn nodes(ids: &[i64]) -> Vec<OsmNode> {
    ids.iter().map(|&id| node(id)).collect()
}

fn shape(edge: &Edge) -> (String, i64, i64, i64, Vec<Coord>) {
    (edge.id.clone(), edge.osm_id, edge.source, edge.target, edge.geometry.clone())
}

const RAIL: [(&str, &str); 1] = [("railway", "rail")];

#[test]
fn a_way_is_split_where_another_way_meets_it() {
    let ways = vec![way(7, &[1, 2, 3, 4], &RAIL), way(8, &[2], &RAIL)];
    let (vertices, edges) = read(&ways, &nodes(&[1, 2, 3, 4]), ProfileType::Railway).unwrap();
    assert_eq!(
        vertices,
        vec![
            Node { id: 1, coord: coord(1), uses: 2 },
            Node { id: 2, coord: coord(2), uses: 3 },
            Node { id: 4, coord: coord(4), uses: 2 },
        ]
    );
    assert_eq!(edges.len(), 2);
    assert_eq!(shape(&edges[0]), (String::from("7-0"), 7, 1, 2, vec![coord(1), coord(2)]));
    assert_eq!(
        shape(&edges[1]),
        (String::from("7-1"), 7, 2, 4, vec![coord(2), coord(3), coord(4)])
    );
}

#[test]
fn a_way_is_split_where_a_second_way_ends() {
    let ways = vec![way(7, &[1, 2, 3, 4], &RAIL), way(8, &[5, 2], &RAIL)];
    let (vertices, edges) = read(&ways, &nodes(&[5, 4, 3, 2, 1]), ProfileType::Railway).unwrap();
    let ids: Vec<i64> = vertices.iter().map(|n| n.id).collect();
    assert_eq!(ids, vec![5, 4, 2, 1]);
    let uses: Vec<u128> = vertices.iter().map(|n| n.uses).collect();
    assert_eq!(uses, vec![2, 2, 3, 2]);
    let found: Vec<(String, i64, i64)> =
        edges.iter().map(|e| (e.id.clone(), e.source, e.target)).collect();
    assert_eq!(
        found,
        vec![(String::from("7-0"), 1, 2), (String::from("7-1"), 2, 4), (String::from("8-0"), 5, 2)]
    );
    assert_eq!(edges[1].geometry, vec![coord(2), coord(3), coord(4)]);
    for pair in edges[..2].windows(2) {
        assert_eq!(pair[0].target, pair[1].source);
    }
}

#[test]
fn a_way_alone_is_one_edge() {
    let ways = vec![way(-3, &[10, 11, 12], &RAIL)];
    let (vertices, edges) = read(&ways, &nodes(&[12, 11, 10, 9]), ProfileType::Railway).unwrap();
    let ids: Vec<i64> = vertices.iter().map(|n| n.id).collect();
    assert_eq!(ids, vec![12, 10]);
    assert_eq!(edges.len(), 1);
    assert_eq!(
        shape(&edges[0]),
        (String::from("-3-0"), -3, 10, 12, vec![coord(10), coord(11), coord(12)])
    );
    match &edges[0].properties {
        EdgeProperties::RailwayEdgeProperties(p) => assert_eq!(p.railway_type, "rail"),
        EdgeProperties::RoadEdgeProperties(_) => panic!("a road"),
    }
}

#[test]
fn a_way_that_crosses_itself_is_split_at_the_crossing() {
    let ways = vec![way(1, &[1, 2, 3, 2, 4], &RAIL)];
    let (vertices, edges) = read(&ways, &nodes(&[1, 2, 3, 4]), ProfileType::Railway).unwrap();
    let seen: Vec<(i64, u128)> = vertices.iter().map(|n| (n.id, n.uses)).collect();
    assert_eq!(seen, vec![(1, 2), (2, 2), (4, 2)]);
    let found: Vec<(String, i64, i64, Vec<Coord>)> = edges
        .iter()
        .map(|e| (e.id.clone(), e.source, e.target, e.geometry.clone()))
        .collect();
    assert_eq!(
        found,
        vec![
            (String::from("1-0"), 1, 2, vec![coord(1), coord(2)]),
            (String::from("1-1"), 2, 2, vec![coord(2), coord(3), coord(2)]),
            (String::from("1-2"), 2, 4, vec![coord(2), coord(4)]),
        ]
    );
}

#[test]
fn a_closed_way_counts_its_end_four_times() {
    let ways = vec![way(1, &[1, 2, 3, 1], &RAIL)];
    let (vertices, edges) = read(&ways, &nodes(&[1, 2, 3]), ProfileType::Railway).unwrap();
    assert_eq!(vertices, vec![Node { id: 1, coord: coord(1), uses: 4 }]);
    assert_eq!(edges.len(), 1);
    assert_eq!(edges[0].source, 1);
    assert_eq!(edges[0].target, 1);
    assert_eq!(edges[0].geometry.len(), 4);
}

#[test]
fn a_way_of_one_node_or_none_has_no_edge() {
    let ways = vec![way(1, &[5], &RAIL), way(2, &[], &RAIL)];
    let (vertices, edges) = read(&ways, &nodes(&[5]), ProfileType::Railway).unwrap();
    assert_eq!(vertices, vec![Node { id: 5, coord: coord(5), uses: 2 }]);
    assert!(edges.is_empty());
}

#[test]
fn ways_that_are_not_accessible_are_dropped() {
    let ways = vec![
        way(1, &[1, 2], &[("highway", "primary")]),
        way(2, &[2, 3], &[("railway", "platform")]),
        way(3, &[3, 4], &[]),
    ];
    let (vertices, edges) = read(&ways, &nodes(&[1, 2, 3, 4]), ProfileType::Railway).unwrap();
    assert!(vertices.is_empty());
    assert!(edges.is_empty());
    // Their nodes are not asked for either.
    let (vertices, edges) = read(&ways, &Vec::new(), ProfileType::Railway).unwrap();
    assert!(vertices.is_empty());
    assert!(edges.is_empty());
}

#[test]
fn a_missing_node_fails_the_whole_run() {
    let ways = vec![way(1, &[1, 2, 3], &RAIL), way(2, &[9, 1], &RAIL)];
    let result = read(&ways, &nodes(&[1, 3]), ProfileType::Railway);
    assert_eq!(result.err(), Some(ReadError::MissingNode(2)));
    let result = read(&ways, &nodes(&[1, 2, 3]), ProfileType::Railway);
    assert_eq!(result.err(), Some(ReadError::MissingNode(9)));
    let result = read(&ways, &Vec::new(), ProfileType::Railway);
    assert_eq!(result.err(), Some(ReadError::MissingNode(1)));
}

#[test]
fn a_node_given_twice_is_read_once() {
    let ways = vec![way(1, &[1, 2], &RAIL)];
    let twice = vec![
        OsmNode { id: 1, lon: 10, lat: 100 },
        OsmNode { id: 2, lon: 20, lat: 200 },
        OsmNode { id: 1, lon: 11, lat: 111 },
    ];
    let (vertices, edges) = read(&ways, &twice, ProfileType::Railway).unwrap();
    assert_eq!(
        vertices,
        vec![
            Node { id: 1, coord: Coord { lon: 10, lat: 100 }, uses: 2 },
            Node { id: 2, coord: Coord { lon: 20, lat: 200 }, uses: 2 },
        ]
    );
    assert_eq!(edges[0].geometry, vec![Coord { lon: 10, lat: 100 }, Coord { lon: 20, lat: 200 }]);
}

#[test]
fn a_rule_excludes_a_value_or_every_value() {
    let ways = vec![
        way(1, &[1, 2], &[("railway", "rail"), ("service", "yard")]),
        way(2, &[2, 3], &[("railway", "rail"), ("service", "siding")]),
        way(3, &[3, 4], &[("railway", "rail"), ("usage", "tourism")]),
        way(4, &[4, 5], &[("railway", "rail")]),
    ];
    let all = nodes(&[1, 2, 3, 4, 5]);
    let kept = |reader: Reader| -> Vec<i64> {
        let (_, edges) = reader.read(&ways, &all).unwrap();
        edges.iter().map(|e| e.osm_id).collect()
    };
    assert_eq!(kept(Reader::new(ProfileType::Railway)), vec![1, 2, 3, 4]);
    assert_eq!(kept(Reader::new(ProfileType::Railway).reject("service", "yard")), vec![2, 3, 4]);
    assert_eq!(kept(Reader::new(ProfileType::Railway).reject("service", "*")), vec![3, 4]);
    assert_eq!(
        kept(Reader::new(ProfileType::Railway).reject("service", "*").reject("usage", "tourism")),
        vec![4]
    );
    assert_eq!(kept(Reader::new(ProfileType::Railway).reject("railway", "*")), Vec::<i64>::new());
    assert_eq!(kept(Reader::new(ProfileType::Railway).reject("yard", "service")), vec![1, 2, 3, 4]);
    assert_eq!(kept(Reader::new(ProfileType::Railway).reject("*", "yard")), vec![1, 2, 3, 4]);
}

#[test]
fn an_excluded_way_asks_for_no_node() {
    let ways = vec![
        way(1, &[1, 2], &[("railway", "rail"), ("service", "yard")]),
        way(2, &[2, 3], &RAIL),
    ];
    let reader = Reader::new(ProfileType::Railway).reject("railway", "rail").reject("service", "*");
    let (vertices, edges) = reader.read(&ways, &Vec::new()).unwrap();
    assert!(vertices.is_empty());
    assert!(edges.is_empty());
    // Node 1 is only on the excluded way: it is not missed.
    let reader = Reader::new(ProfileType::Railway).reject("service", "yard");
    let (vertices, edges) = reader.read(&ways, &nodes(&[2, 3])).unwrap();
    let ids: Vec<i64> = vertices.iter().map(|n| n.id).collect();
    assert_eq!(ids, vec![2, 3]);
    assert_eq!(edges.len(), 1);
    assert_eq!(edges[0].id, "2-0");
}

#[test]
fn the_passes_can_be_made_one_by_one() {
    let mut reader = Reader::new(ProfileType::Road);
    reader.read_way(&way(1, &[1, 2, 3], &[("highway", "residential")]));
    reader.read_ways(&vec![way(2, &[3, 4], &[("highway", "footway")]), way(3, &[8, 9], &[])]);
    reader.read_node(&node(4));
    reader.read_nodes(&nodes(&[3, 2, 1, 8]));
    let (vertices, edges) = reader.finish().unwrap();
    let seen: Vec<(i64, u128)> = vertices.iter().map(|n| (n.id, n.uses)).collect();
    assert_eq!(seen, vec![(4, 2), (3, 4), (1, 2)]);
    let found: Vec<(String, i64, i64)> =
        edges.iter().map(|e| (e.id.clone(), e.source, e.target)).collect();
    assert_eq!(found, vec![(String::from("1-0"), 1, 3), (String::from("2-0"), 3, 4)]);
    match &edges[1].properties {
        EdgeProperties::RoadEdgeProperties(p) => assert!(p.accessible()),
        EdgeProperties::RailwayEdgeProperties(_) => panic!("a railway"),
    }
}

#[test]
fn edge_ids_count_from_zero_for_each_way() {
    let ways = vec![
        way(i64::MIN, &[1, 2, 3], &RAIL),
        way(i64::MAX, &[2, 4], &RAIL),
        way(0, &[4, 2, 1], &RAIL),
    ];
    let (_, edges) = read(&ways, &nodes(&[1, 2, 3, 4]), ProfileType::Railway).unwrap();
    let ids: Vec<String> = edges.iter().map(|e| e.id.clone()).collect();
    assert_eq!(
        ids,
        vec![
            String::from("-9223372036854775808-0"),
            String::from("-9223372036854775808-1"),
            String::from("9223372036854775807-0"),
            String::from("0-0"),
            String::from("0-1"),
        ]
    );
    for edge in edges.iter() {
        assert!(edge.geometry.len() >= 2);
    }
}

#[test]
fn a_long_way_numbers_its_edges_in_decimal() {
    let ids: Vec<i64> = (1..=25).collect();
    let mut ways = vec![way(42, &ids, &RAIL)];
    for id in 2..25 {
        ways.push(way(100 + id, &[id], &RAIL));
    }
    let (vertices, edges) = read(&ways, &nodes(&ids), ProfileType::Railway).unwrap();
    assert_eq!(vertices.len(), 25);
    assert_eq!(edges.len(), 24);
    for (k, edge) in edges.iter().enumerate() {
        assert_eq!(edge.id, format!("42-{}", k));
        assert_eq!(edge.source, k as i64 + 1);
        assert_eq!(edge.target, k as i64 + 2);
    }
}

#[test]
fn the_edges_of_a_way_join_into_the_way() {
    let ids: Vec<i64> = vec![1, 2, 3, 4, 5, 6, 7, 8, 9];
    let ways = vec![
        way(1, &ids, &RAIL),
        way(2, &[3, 20], &RAIL),
        way(3, &[21, 6, 22], &RAIL),
        way(4, &[8], &RAIL),
    ];
    let mut all = ids.clone();
    all.extend([20, 21, 22]);
    let (vertices, edges) = read(&ways, &nodes(&all), ProfileType::Railway).unwrap();
    let of_the_way: Vec<&Edge> = edges.iter().filter(|e| e.osm_id == 1).collect();
    let ends: Vec<(i64, i64)> = of_the_way.iter().map(|e| (e.source, e.target)).collect();
    assert_eq!(ends, vec![(1, 3), (3, 6), (6, 8), (8, 9)]);
    for pair in of_the_way.windows(2) {
        assert_eq!(pair[0].target, pair[1].source);
    }
    let mut joined: Vec<Coord> = of_the_way[0].geometry.clone();
    for e in of_the_way[1..].iter() {
        assert_eq!(e.geometry[0], *joined.last().unwrap());
        joined.extend(e.geometry[1..].iter().copied());
    }
    let whole: Vec<Coord> = ids.iter().map(|&id| coord(id)).collect();
    assert_eq!(joined, whole);
    for v in vertices.iter() {
        assert!(v.uses > 1);
    }
    let kept: Vec<i64> = vertices.iter().map(|n| n.id).collect();
    assert_eq!(kept, vec![1, 3, 6, 8, 9, 20, 21, 22]);
}

#[test]
fn the_steps_of_the_graph_one_by_one() {
    let mut reader = Reader::new(ProfileType::Railway);
    reader.read_ways(&vec![way(7, &[1, 2, 3, 4], &RAIL), way(8, &[2], &RAIL)]);
    reader.read_nodes(&nodes(&[4, 3, 2, 1]));
    assert_eq!(reader.count_nodes_uses(), Ok(()));
    let edges = reader.edges();
    let found: Vec<(String, i64, i64, usize)> =
        edges.iter().map(|e| (e.id.clone(), e.source, e.target, e.geometry.len())).collect();
    assert_eq!(found, vec![(String::from("7-0"), 1, 2, 2), (String::from("7-1"), 2, 4, 3)]);
    let other = Way {
        id: 9,
        nodes: vec![3, 2, 1, 4],
        properties: EdgeProperties::RailwayEdgeProperties(RailwayEdgeProperties::default()),
    };
    let split = reader.split_way(&other);
    let found: Vec<(String, i64, i64, Vec<Coord>)> =
        split.iter().map(|e| (e.id.clone(), e.source, e.target, e.geometry.clone())).collect();
    assert_eq!(
        found,
        vec![
            (String::from("9-0"), 3, 2, vec![coord(3), coord(2)]),
            (String::from("9-1"), 2, 1, vec![coord(2), coord(1)]),
            (String::from("9-2"), 1, 4, vec![coord(1), coord(4)]),
        ]
    );
    for edge in split.iter() {
        assert_eq!(edge.geometry[0], coord(edge.source));
        assert_eq!(*edge.geometry.last().unwrap(), coord(edge.target));
    }
    let vertices = reader.nodes();
    let seen: Vec<(i64, u128)> = vertices.iter().map(|n| (n.id, n.uses)).collect();
    assert_eq!(seen, vec![(4, 2), (2, 3), (1, 2)]);
}

#[test]
fn counting_stops_at_the_first_missing_node() {
    let mut reader = Reader::new(ProfileType::Railway);
    reader.read_ways(&vec![way(7, &[1, 2, 3], &RAIL)]);
    reader.read_nodes(&nodes(&[1, 3]));
    assert_eq!(reader.count_nodes_uses(), Err(ReadError::MissingNode(2)));
}

#[test]
fn before_the_count_no_node_is_a_vertex() {
    let mut reader = Reader::new(ProfileType::Railway);
    reader.read_ways(&vec![way(7, &[1, 2, 3], &RAIL)]);
    reader.read_nodes(&nodes(&[1, 2, 3]));
    assert!(reader.edges().is_empty());
    assert!(reader.nodes().is_empty());
}
