//! The graph that is to be written, and the tiles of its geometry.

use crate::geohash::{box_of, cell_box, cell_code, code_value, is_binary, is_code};
use crate::models::coord::Coord;
use crate::models::edge::{ascending, cell_codes, texts, Edge};
use crate::models::node::Node;
use crate::writers::geohashes::{
    cells_of, code_values, create_geohashes, has_one_head, parts, tiling, Tile,
    MAX_ALLOWED_FEATURES_IN_GEOHASH,
};
use crate::ProfileType;
use vstd::prelude::*;

verus! {

/// The number of bits of the geohash codes that the tiles are made of.
pub const GEOHASH_PRECISION: u8 = 24;

/// A graph with the profile it was made under.
#[derive(Debug)]
pub struct Writer {
    pub nodes: Vec<Node>,
    pub edges: Vec<Edge>,
    pub profile_type: ProfileType,
}

/// The geohash codes of `edges`, edge by edge: of each edge the codes of the
/// cells it passes through, each once and in ascending order.
pub open spec fn edge_codes(edges: Seq<Edge>, precision: int) -> Seq<Seq<char>>
    decreases edges.len(),
{
    if edges.len() == 0 {
        Seq::empty()
    } else {
        edge_codes(edges.drop_last(), precision) + ascending(
            cell_codes(edges.last().geometry@, precision),
        )
    }
}

/// The numbers that the codes `codes` spell, as a set.
pub open spec fn text_values(codes: Seq<Seq<char>>) -> Set<nat> {
    Set::new(|v: nat| exists|k: int| 0 <= k < codes.len() && code_value(#[trigger] codes[k]) == v)
}

/// The geohash code of a point.
pub open spec fn point_code(point: Coord, precision: int) -> Seq<char> {
    cell_code(point.lon as int, point.lat as int, precision)
}

/// Whether every point of every one of `edges` lies in one of `tiles` and in
/// no other: its geohash code begins with the code of that tile only.
pub open spec fn points_parted(tiles: Seq<Tile>, edges: Seq<Edge>, precision: int) -> bool {
    forall|e: int, k: int|
        0 <= e < edges.len() && 0 <= k < edges[e].geometry@.len() ==> has_one_head(
            tiles,
            point_code(#[trigger] edges[e].geometry@[k], precision),
        )
}

/// Whether `codes` holds the geohash code of every point of every one of
/// `edges`.
pub open spec fn holds_points(codes: Seq<Seq<char>>, edges: Seq<Edge>, precision: int) -> bool {
    forall|e: int, k: int|
        0 <= e < edges.len() && 0 <= k < edges[e].geometry@.len() ==> codes.contains(
            point_code(#[trigger] edges[e].geometry@[k], precision),
        )
}

impl Writer {
    /// The graph of `nodes` and `edges`, made under `profile_type`.
    pub fn new(nodes: Vec<Node>, edges: Vec<Edge>, profile_type: ProfileType) -> (writer: Writer)
        ensures
            writer.nodes == nodes,
            writer.edges == edges,
            writer.profile_type == profile_type,
    {
        Writer { nodes, edges, profile_type }
    }

    /// The geohash codes, of `GEOHASH_PRECISION` bits, of all the edges, edge
    /// by edge.
    pub fn geohashes(&self) -> (geohashes: Vec<String>)
        ensures
            texts(geohashes@) == edge_codes(self.edges@, GEOHASH_PRECISION as int),
            holds_points(texts(geohashes@), self.edges@, GEOHASH_PRECISION as int),
            forall|k: int|
                0 <= k < geohashes.len() ==> is_code(
                    (#[trigger] geohashes[k])@,
                    GEOHASH_PRECISION as nat,
                ),
    {
        let mut geohashes: Vec<String> = Vec::new();
        let mut i: usize = 0;
        proof {
            assert(self.edges@.take(0) =~= Seq::empty());
            assert(texts(geohashes@) =~= edge_codes(
                self.edges@.take(0),
                GEOHASH_PRECISION as int,
            ));
        }
        while i < self.edges.len()
            invariant
                i <= self.edges.len(),
                texts(geohashes@) == edge_codes(
                    self.edges@.take(i as int),
                    GEOHASH_PRECISION as int,
                ),
                holds_points(
                    texts(geohashes@),
                    self.edges@.take(i as int),
                    GEOHASH_PRECISION as int,
                ),
                forall|k: int|
                    0 <= k < geohashes.len() ==> is_code(
                        (#[trigger] geohashes[k])@,
                        GEOHASH_PRECISION as nat,
                    ),
            decreases self.edges.len() - i,
        {
            let mut codes = self.edges[i].get_geohashes(GEOHASH_PRECISION);
            let ghost before = geohashes@;
            let ghost added = codes@;
            geohashes.append(&mut codes);
            proof {
                assert(geohashes@ =~= before + added);
                assert(texts(geohashes@) =~= texts(before) + texts(added));
                assert(self.edges@.take(i + 1).drop_last() =~= self.edges@.take(i as int));
                assert(self.edges@.take(i + 1).last() == self.edges@[i as int]);
                let precision = GEOHASH_PRECISION as int;
                let past = self.edges@.take(i as int);
                let next = self.edges@.take(i + 1);
                let all = texts(geohashes@);
                assert forall|e: int, k: int|
                    0 <= e < next.len() && 0 <= k < next[e].geometry@.len() implies all.contains(
                    point_code(#[trigger] next[e].geometry@[k], precision),
                ) by {
                    let code = point_code(next[e].geometry@[k], precision);
                    if e < i {
                        assert(past[e] == next[e]);
                        let old_codes = texts(before);
                        assert(old_codes.contains(point_code(past[e].geometry@[k], precision)));
                        let n = choose|n: int| 0 <= n < old_codes.len() && old_codes[n] == code;
                        assert(all[n] == code);
                    } else {
                        let here = cell_codes(self.edges@[i as int].geometry@, precision);
                        assert(here[k] == code);
                        assert(here.contains(code));
                        let new_codes = texts(added);
                        assert(new_codes.contains(code));
                        let n = choose|n: int| 0 <= n < new_codes.len() && new_codes[n] == code;
                        assert(all[before.len() + n] == code);
                    }
                }
                assert forall|k: int| 0 <= k < geohashes.len() implies is_code(
                    (#[trigger] geohashes[k])@,
                    GEOHASH_PRECISION as nat,
                ) by {
                    if k < before.len() {
                        assert(geohashes[k] == before[k]);
                    } else {
                        assert(geohashes[k] == added[k - before.len()]);
                    }
                }
            }
            i = i + 1;
        }
        assert(self.edges@.take(i as int) =~= self.edges@);
        geohashes
    }

    /// The tiles of the graph: the tiling of the geohash codes of all the
    /// edges, with at most `MAX_ALLOWED_FEATURES_IN_GEOHASH` codes to a tile
    /// shorter than `GEOHASH_PRECISION` bits.
    pub fn tiles(&self) -> (tiles: Vec<Tile>)
        ensures
            tiling(
                cells_of(tiles@),
                text_values(edge_codes(self.edges@, GEOHASH_PRECISION as int)),
                GEOHASH_PRECISION as nat,
                MAX_ALLOWED_FEATURES_IN_GEOHASH as nat,
            ),
            parts(
                cells_of(tiles@),
                text_values(edge_codes(self.edges@, GEOHASH_PRECISION as int)),
                GEOHASH_PRECISION as nat,
                MAX_ALLOWED_FEATURES_IN_GEOHASH as nat,
            ),
            points_parted(tiles@, self.edges@, GEOHASH_PRECISION as int),
            forall|n: int|
                0 <= n < tiles.len() ==> {
                    &&& is_binary((#[trigger] tiles[n]).code@)
                    &&& 1 <= tiles[n].code@.len() <= GEOHASH_PRECISION
                    &&& tiles[n].bounding_box == box_of(cell_box(tiles[n].code@))
                },
    {
        let geohashes = self.geohashes();
        proof {
            let codes = edge_codes(self.edges@, GEOHASH_PRECISION as int);
            assert forall|v: nat| code_values(geohashes@).contains(v) <==> text_values(
                codes,
            ).contains(v) by {
                if code_values(geohashes@).contains(v) {
                    let k = choose|k: int|
                        0 <= k < geohashes.len() && code_value((#[trigger] geohashes[k])@) == v;
                    assert(codes[k] == geohashes[k]@);
                }
                if text_values(codes).contains(v) {
                    let k = choose|k: int|
                        0 <= k < codes.len() && code_value(#[trigger] codes[k]) == v;
                    assert(codes[k] == geohashes[k]@);
                }
            }
            assert(code_values(geohashes@) =~= text_values(codes));
        }
        match create_geohashes(&geohashes, GEOHASH_PRECISION) {
            Ok(tiles) => {
                proof {
                    let precision = GEOHASH_PRECISION as int;
                    assert forall|e: int, k: int|
                        0 <= e < self.edges@.len() && 0 <= k
                            < self.edges@[e].geometry@.len() implies has_one_head(
                        tiles@,
                        point_code(#[trigger] self.edges@[e].geometry@[k], precision),
                    ) by {
                        let code = point_code(self.edges@[e].geometry@[k], precision);
                        let all = texts(geohashes@);
                        assert(all.contains(code));
                        let i = choose|i: int| 0 <= i < all.len() && all[i] == code;
                        assert(geohashes[i]@ == code);
                    }
                }
                tiles
            },
            Err(_) => vstd::pervasive::unreached(),
        }
    }
}

} // verus!
