use osm4routing::categorize::edge_properties::EdgeProperties;
use osm4routing::categorize::railway::edge_properties::EdgeProperties as RailwayEdgeProperties;
use osm4routing::geohash::{decode, encode};
use osm4routing::models::coord::Coord;
use osm4routing::models::edge::Edge;
use osm4routing::sorted::sort_distinct;
use osm4routing::writers::geohashes::{
    create_geohashes, tile_codes, Tile, TilingError, MAX_ALLOWED_FEATURES_IN_GEOHASH,
};
use osm4routing::writers::writer::{Writer, GEOHASH_PRECISION};
use osm4routing::ProfileType;

fn codes(list: &[&str]) -> Vec<String> {
    list.iter().map(|code| code.to_string()).collect()
}

fn sorted_codes(tiles: &[Tile]) -> Vec<String> {
    let mut list: Vec<String> = tiles.iter().map(|tile| tile.code.clone()).collect();
    list.sort();
    list
}

fn number(width: u8, value: u64) -> String {
    let text = format!("{:b}", value);
    format!("{}{}", "0".repeat(width as usize - text.len()), text)
}

#[test]
fn sort_distinct_sorts_and_drops_what_comes_twice() {
    assert_eq!(sort_distinct(&vec![]), Vec::<u64>::new());
    assert_eq!(sort_distinct(&vec![7]), vec![7]);
    assert_eq!(sort_distinct(&vec![3, 1, 2, 3, 1, u64::MAX, 0, 2]), vec![0, 1, 2, 3, u64::MAX]);
    assert_eq!(sort_distinct(&vec![5, 5, 5, 5]), vec![5]);
    let many: Vec<u64> = (0..1000u64).map(|i| (i * 7919) % 257).collect();
    let sorted = sort_distinct(&many);
    assert_eq!(sorted, (0..257u64).collect::<Vec<u64>>());
}

#[test]
fn sparse_halves_become_short_tiles() {
    let tiles = tile_codes(&codes(&["000", "001", "010", "011", "100"]), 3, 2).unwrap();
    assert_eq!(sorted_codes(&tiles), codes(&["00", "01", "1"]));
}

#[test]
fn a_crowded_cell_is_split_to_the_full_precision() {
    let tiles = tile_codes(&codes(&["000", "001"]), 3, 1).unwrap();
    assert_eq!(sorted_codes(&tiles), codes(&["000", "001"]));
    let tiles = tile_codes(&codes(&["000", "001", "111"]), 3, 1).unwrap();
    assert_eq!(sorted_codes(&tiles), codes(&["000", "001", "1"]));
}

#[test]
fn a_code_that_comes_twice_counts_once() {
    let tiles = tile_codes(&codes(&["000", "000", "000", "001"]), 3, 2).unwrap();
    assert_eq!(sorted_codes(&tiles), codes(&["0"]));
    let tiles = tile_codes(&codes(&["101", "101"]), 3, 1).unwrap();
    assert_eq!(sorted_codes(&tiles), codes(&["1"]));
}

#[test]
fn no_code_no_tile() {
    let tiles = tile_codes(&Vec::new(), 24, 1000).unwrap();
    assert!(tiles.is_empty());
}

#[test]
fn with_no_room_every_code_is_a_tile() {
    let list = codes(&["0000", "0110", "1111", "0110"]);
    let tiles = tile_codes(&list, 4, 0).unwrap();
    assert_eq!(sorted_codes(&tiles), codes(&["0000", "0110", "1111"]));
}

#[test]
fn the_precision_is_from_two_to_sixty_four() {
    assert_eq!(tile_codes(&codes(&["0"]), 1, 1000).err(), Some(TilingError::Precision));
    assert_eq!(tile_codes(&Vec::new(), 0, 1000).err(), Some(TilingError::Precision));
    assert_eq!(tile_codes(&Vec::new(), 65, 1000).err(), Some(TilingError::Precision));
    assert_eq!(create_geohashes(&Vec::new(), 255).err(), Some(TilingError::Precision));
    assert!(tile_codes(&codes(&["01"]), 2, 1000).is_ok());
    let long = vec!["1".repeat(64), format!("{}0", "1".repeat(63))];
    let tiles = tile_codes(&long, 64, 1).unwrap();
    assert_eq!(sorted_codes(&tiles), vec![format!("{}0", "1".repeat(63)), "1".repeat(64)]);
}

#[test]
fn a_malformed_code_is_named_by_its_place() {
    assert_eq!(
        tile_codes(&codes(&["000", "0a0", "00"]), 3, 5).err(),
        Some(TilingError::MalformedCode(1))
    );
    assert_eq!(
        tile_codes(&codes(&["000", "010", "00"]), 3, 5).err(),
        Some(TilingError::MalformedCode(2))
    );
    assert_eq!(
        tile_codes(&codes(&["0000"]), 3, 5).err(),
        Some(TilingError::MalformedCode(0))
    );
    assert_eq!(
        create_geohashes(&codes(&["wtw3"]), 4).err(),
        Some(TilingError::MalformedCode(0))
    );
}

#[test]
fn a_tile_has_the_box_of_its_code() {
    let tiles = tile_codes(&codes(&["11100", "11101", "00000"]), 5, 1).unwrap();
    assert_eq!(sorted_codes(&tiles), codes(&["0", "11100", "11101"]));
    for tile in tiles.iter() {
        assert_eq!(Some(tile.bounding_box), decode(&tile.code));
    }
    let tile = tiles.iter().find(|tile| tile.code == "11100").unwrap();
    assert_eq!(f64::from_bits(tile.bounding_box.min_lon), 90.0);
    assert_eq!(f64::from_bits(tile.bounding_box.max_lon), 135.0);
    assert_eq!(f64::from_bits(tile.bounding_box.min_lat), 0.0);
    assert_eq!(f64::from_bits(tile.bounding_box.max_lat), 45.0);
}

#[test]
fn the_thousand_and_first_code_splits_a_tile() {
    assert_eq!(MAX_ALLOWED_FEATURES_IN_GEOHASH, 1000);
    let full: Vec<String> = (0..1000u64).map(|i| number(12, i)).collect();
    let tiles = create_geohashes(&full, 12).unwrap();
    // All the codes begin with 00: a thousand are not too many for the tile 0.
    assert_eq!(sorted_codes(&tiles), codes(&["0"]));
    let more: Vec<String> = (0..1001u64).map(|i| number(12, i)).collect();
    let tiles = create_geohashes(&more, 12).unwrap();
    // 1001 codes begin with 0 and with 00; 512 begin with 000 and 489 with 001.
    assert_eq!(sorted_codes(&tiles), codes(&["000", "001"]));
}

#[test]
fn the_tiles_part_the_codes() {
    let list: Vec<String> =
        (0..4096u64).filter(|i| i % 3 != 0 || *i < 700).map(|i| number(12, i)).collect();
    for limit in [0usize, 1, 2, 5, 17, 100, 1000, 5000] {
        let tiles = tile_codes(&list, 12, limit).unwrap();
        let mut seen = sorted_codes(&tiles);
        seen.dedup();
        assert_eq!(seen.len(), tiles.len());
        for code in list.iter() {
            let covering = tiles.iter().filter(|tile| code.starts_with(&tile.code)).count();
            assert_eq!(covering, 1);
        }
        for tile in tiles.iter() {
            let covered = list.iter().filter(|code| code.starts_with(&tile.code)).count();
            assert!(covered >= 1);
            if tile.code.len() < 12 {
                assert!(covered <= limit);
                for shorter in 1..tile.code.len() {
                    let crowd =
                        list.iter().filter(|code| code.starts_with(&tile.code[..shorter])).count();
                    assert!(crowd > limit);
                }
            } else {
                for shorter in 1..12 {
                    let crowd =
                        list.iter().filter(|code| code.starts_with(&tile.code[..shorter])).count();
                    assert!(crowd > limit);
                }
            }
        }
    }
}

fn edge(id: &str, points: &[(i32, i32)]) -> Edge {
    Edge {
        id: String::from(id),
        osm_id: 1,
        source: 1,
        target: 2,
        geometry: points.iter().map(|&(lon, lat)| Coord { lon, lat }).collect(),
        properties: EdgeProperties::RailwayEdgeProperties(RailwayEdgeProperties::default()),
    }
}

#[test]
fn writer_collects_the_codes_edge_by_edge() {
    assert_eq!(GEOHASH_PRECISION, 24);
    let a = (23_522_219, 488_566_140);
    let b = (23_522_220, 488_566_141);
    let c = (-740_059_700, 407_127_800);
    let writer = Writer::new(
        Vec::new(),
        vec![edge("1-0", &[a, b, c]), edge("1-1", &[c, a])],
        ProfileType::Railway,
    );
    assert_eq!(writer.profile_type, ProfileType::Railway);
    assert_eq!(writer.edges.len(), 2);
    let code_a = encode(a.0, a.1, 24).unwrap();
    let code_c = encode(c.0, c.1, 24).unwrap();
    assert_eq!(encode(b.0, b.1, 24).unwrap(), code_a);
    assert!(code_c < code_a);
    assert_eq!(
        writer.geohashes(),
        vec![code_c.clone(), code_a.clone(), code_c.clone(), code_a.clone()]
    );
    let tiles = writer.tiles();
    assert_eq!(sorted_codes(&tiles), codes(&["0", "1"]));
    let empty = Writer::new(Vec::new(), Vec::new(), ProfileType::Road);
    assert!(empty.geohashes().is_empty());
    assert!(empty.tiles().is_empty());
}

#[test]
fn tiles_come_shorter_first_and_then_by_their_bits() {
    let tiles = tile_codes(&codes(&["100", "011", "000", "010", "001"]), 3, 2).unwrap();
    let found: Vec<String> = tiles.iter().map(|tile| tile.code.clone()).collect();
    assert_eq!(found, codes(&["1", "00", "01"]));
    let tiles = tile_codes(&codes(&["111", "110", "000", "100", "101"]), 3, 1).unwrap();
    let found: Vec<String> = tiles.iter().map(|tile| tile.code.clone()).collect();
    assert_eq!(found, codes(&["0", "100", "101", "110", "111"]));
}
