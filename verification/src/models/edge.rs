//! Edges.

use crate::categorize::edge_properties::{EdgeProperties, Properties};
use crate::geohash::{
    cell_code, code_text, code_value, encode_cell, is_code, lemma_code_value_text, parse_code,
    render_code, MAX_PRECISION,
};
use crate::models::coord::Coord;
use crate::sorted::sort_distinct;
use crate::text::{decimal, padded_decimal, push_decimal, push_padded_decimal};
use vstd::arithmetic::power2::pow2;
use vstd::prelude::*;

verus! {

/// A segment of a way between two vertices of the graph, with the way's
/// geometry between them.
#[derive(Clone, Debug)]
pub struct Edge {
    pub id: String,
    pub osm_id: i64,
    pub source: i64,
    pub target: i64,
    pub geometry: Vec<Coord>,
    pub properties: EdgeProperties,
}

/// An edge as plain values.
pub struct EdgeData {
    pub id: Seq<char>,
    pub osm_id: i64,
    pub source: i64,
    pub target: i64,
    pub geometry: Seq<Coord>,
    pub properties: Properties,
}

impl View for Edge {
    type V = EdgeData;

    open spec fn view(&self) -> EdgeData {
        EdgeData {
            id: self.id@,
            osm_id: self.osm_id,
            source: self.source,
            target: self.target,
            geometry: self.geometry@,
            properties: self.properties@,
        }
    }
}

/// A number of 10⁻⁷ degree written in degrees, with exactly seven decimal
/// places.
pub open spec fn fixed7(x: int) -> Seq<char> {
    let magnitude = if x < 0 {
        -x
    } else {
        x
    };
    let sign = if x < 0 {
        seq!['-']
    } else {
        Seq::empty()
    };
    sign + decimal((magnitude / 10_000_000) as nat) + seq!['.'] + padded_decimal(
        (magnitude % 10_000_000) as nat,
        7,
    )
}

/// A point in well-known text: longitude, a space, latitude.
pub open spec fn point_text(coord: Coord) -> Seq<char> {
    fixed7(coord.lon as int) + seq![' '] + fixed7(coord.lat as int)
}

/// The points of a line in well-known text, with a comma and a space between
/// two points.
pub open spec fn points_text(geometry: Seq<Coord>) -> Seq<char>
    decreases geometry.len(),
{
    if geometry.len() == 0 {
        Seq::empty()
    } else if geometry.len() == 1 {
        point_text(geometry[0])
    } else {
        points_text(geometry.drop_last()) + seq![',', ' '] + point_text(geometry.last())
    }
}

/// A line in well-known text.
pub open spec fn wkt(geometry: Seq<Coord>) -> Seq<char> {
    "LINESTRING("@ + points_text(geometry) + ")"@
}

/// Whether `codes` is strictly ascending by the numbers that the codes
/// spell, so that no code comes twice. For binary codes of one length this
/// is the order of the texts.
pub open spec fn is_ascending(codes: Seq<Seq<char>>) -> bool {
    forall|a: int, b: int|
        0 <= a < b < codes.len() ==> code_value(#[trigger] codes[a]) < code_value(
            #[trigger] codes[b],
        )
}

/// Whether two lists hold the same codes, however often and in whatever
/// order.
pub open spec fn same_codes(a: Seq<Seq<char>>, b: Seq<Seq<char>>) -> bool {
    forall|code: Seq<char>| a.contains(code) <==> b.contains(code)
}

/// The codes of `codes` in ascending order, each once. It is meant for
/// binary codes of one length, of which there is one such list.
pub open spec fn ascending(codes: Seq<Seq<char>>) -> Seq<Seq<char>> {
    choose|sorted: Seq<Seq<char>>| is_ascending(sorted) && same_codes(sorted, codes)
}

/// Two ascending lists of the same codes are one list.
pub proof fn lemma_ascending_unique(a: Seq<Seq<char>>, b: Seq<Seq<char>>)
    requires
        is_ascending(a),
        is_ascending(b),
        same_codes(a, b),
    ensures
        a == b,
    decreases a.len(),
{
    if a.len() == 0 {
        if b.len() > 0 {
            assert(b.contains(b[0]));
            let i = choose|i: int| 0 <= i < a.len() && a[i] == b[0];
        }
        assert(a =~= b);
    } else {
        let last_a = a.last();
        assert(a.contains(a[a.len() - 1]));
        let j = choose|j: int| 0 <= j < b.len() && b[j] == last_a;
        let last_b = b.last();
        assert(b.contains(b[b.len() - 1]));
        let i = choose|i: int| 0 <= i < a.len() && a[i] == last_b;
        if i < a.len() - 1 {
            assert(code_value(a[i]) < code_value(a[a.len() - 1]));
        }
        if j < b.len() - 1 {
            assert(code_value(b[j]) < code_value(b[b.len() - 1]));
        }
        assert(last_a == last_b);
        let head_a = a.drop_last();
        let head_b = b.drop_last();
        assert forall|code: Seq<char>| head_a.contains(code) <==> head_b.contains(code) by {
            if head_a.contains(code) {
                let m = choose|m: int| 0 <= m < head_a.len() && head_a[m] == code;
                assert(a[m] == code);
                assert(code_value(a[m]) < code_value(a[a.len() - 1]));
                assert(a.contains(code));
                let n = choose|n: int| 0 <= n < b.len() && b[n] == code;
                assert(head_b[n] == code);
            }
            if head_b.contains(code) {
                let m = choose|m: int| 0 <= m < head_b.len() && head_b[m] == code;
                assert(b[m] == code);
                assert(code_value(b[m]) < code_value(b[b.len() - 1]));
                assert(b.contains(code));
                let n = choose|n: int| 0 <= n < a.len() && a[n] == code;
                assert(head_a[n] == code);
            }
        }
        assert(is_ascending(head_a)) by {
            assert forall|x: int, y: int| 0 <= x < y < head_a.len() implies code_value(
                #[trigger] head_a[x],
            ) < code_value(#[trigger] head_a[y]) by {
                assert(code_value(a[x]) < code_value(a[y]));
            }
        }
        assert(is_ascending(head_b)) by {
            assert forall|x: int, y: int| 0 <= x < y < head_b.len() implies code_value(
                #[trigger] head_b[x],
            ) < code_value(#[trigger] head_b[y]) by {
                assert(code_value(b[x]) < code_value(b[y]));
            }
        }
        lemma_ascending_unique(head_a, head_b);
        assert(a =~= head_a.push(last_a));
        assert(b =~= head_b.push(last_b));
    }
}

/// An ascending list of the codes of `codes` is the ascending list of them.
pub proof fn lemma_ascending_is(sorted: Seq<Seq<char>>, codes: Seq<Seq<char>>)
    requires
        is_ascending(sorted),
        same_codes(sorted, codes),
    ensures
        ascending(codes) == sorted,
{
    let chosen = ascending(codes);
    assert(is_ascending(chosen) && same_codes(chosen, codes));
    lemma_ascending_unique(chosen, sorted);
}

/// The geohash code of each point of `geometry`.
pub open spec fn cell_codes(geometry: Seq<Coord>, precision: int) -> Seq<Seq<char>> {
    Seq::new(
        geometry.len(),
        |i: int| cell_code(geometry[i].lon as int, geometry[i].lat as int, precision),
    )
}

/// What each of `strings` holds.
pub open spec fn texts(strings: Seq<String>) -> Seq<Seq<char>> {
    Seq::new(strings.len(), |i: int| strings[i]@)
}

/// Appends `x`, a number of 10⁻⁷ degree, in degrees with seven decimal places.
fn push_fixed7(text: &mut String, x: i32)
    ensures
        final(text)@ == old(text)@ + fixed7(x as int),
{
    proof {
        reveal_strlit("-");
        reveal_strlit(".");
    }
    let magnitude: u64 = if x < 0 {
        text.append("-");
        (-(x as i64)) as u64
    } else {
        x as u64
    };
    push_decimal(text, magnitude / 10_000_000);
    text.append(".");
    push_padded_decimal(text, magnitude % 10_000_000, 7);
    assert(text@ =~= old(text)@ + fixed7(x as int));
}

impl Edge {
    /// The geometry in well-known text: `LINESTRING(lon lat, lon lat, ...)`,
    /// in degrees with seven decimal places, in the order of the points.
    pub fn as_wkt(&self) -> (text: String)
        ensures
            text@ == wkt(self.geometry@),
    {
        proof {
            reveal_strlit(" ");
            reveal_strlit(", ");
        }
        let mut text = String::from_str("LINESTRING(");
        let ghost head = text@;
        let mut i: usize = 0;
        assert(self.geometry@.take(0) =~= Seq::empty());
        assert(text@ =~= head + points_text(self.geometry@.take(0)));
        while i < self.geometry.len()
            invariant
                i <= self.geometry.len(),
                head == "LINESTRING("@,
                " "@ == seq![' '],
                ", "@ == seq![',', ' '],
                text@ == head + points_text(self.geometry@.take(i as int)),
            decreases self.geometry.len() - i,
        {
            let ghost before = self.geometry@.take(i as int);
            let ghost after = self.geometry@.take(i + 1);
            if i > 0 {
                text.append(", ");
            }
            let coord = self.geometry[i];
            push_fixed7(&mut text, coord.lon);
            text.append(" ");
            push_fixed7(&mut text, coord.lat);
            proof {
                assert(after.drop_last() =~= before);
                assert(after.last() == coord);
                if i == 0 {
                    assert(after[0] == coord);
                    assert(points_text(before) =~= Seq::empty());
                    assert(text@ =~= head + point_text(coord));
                } else {
                    assert(text@ =~= head + (points_text(before) + seq![',', ' '] + point_text(
                        coord,
                    )));
                }
            }
            i = i + 1;
        }
        assert(self.geometry@.take(i as int) =~= self.geometry@);
        text.append(")");
        text
    }

    /// The binary geohash codes, of `precision` bits, of the cells that the
    /// points of the geometry lie in: each cell once, in ascending order.
    pub fn get_geohashes(&self, precision: u8) -> (geohashes: Vec<String>)
        requires
            precision <= MAX_PRECISION,
        ensures
            is_ascending(texts(geohashes@)),
            same_codes(texts(geohashes@), cell_codes(self.geometry@, precision as int)),
            texts(geohashes@) == ascending(cell_codes(self.geometry@, precision as int)),
            geohashes.len() <= self.geometry.len(),
            forall|k: int|
                0 <= k < geohashes.len() ==> is_code((#[trigger] geohashes[k])@, precision as nat),
    {
        let ghost all = cell_codes(self.geometry@, precision as int);
        let ghost p = precision as nat;
        let mut values: Vec<u64> = Vec::new();
        let mut i: usize = 0;
        while i < self.geometry.len()
            invariant
                i <= self.geometry.len(),
                precision <= MAX_PRECISION,
                p == precision,
                all == cell_codes(self.geometry@, precision as int),
                values.len() == i,
                forall|j: int|
                    0 <= j < i ==> is_code(#[trigger] all[j], p) && values[j] == code_value(all[j])
                        && values[j] < pow2(p),
            decreases self.geometry.len() - i,
        {
            let coord = self.geometry[i];
            let code = encode_cell(coord.lon, coord.lat, precision);
            assert(all[i as int] == code@);
            let ghost before = values@;
            match parse_code(code.as_str(), precision) {
                Some(value) => values.push(value),
                None => vstd::pervasive::unreached(),
            }
            assert forall|j: int| 0 <= j < i + 1 implies is_code(#[trigger] all[j], p)
                && values[j] == code_value(all[j]) && values[j] < pow2(p) by {
                if j < i {
                    assert(values[j] == before[j]);
                }
            }
            i = i + 1;
        }
        let sorted = sort_distinct(&values);
        let mut geohashes: Vec<String> = Vec::new();
        let mut k: usize = 0;
        while k < sorted.len()
            invariant
                k <= sorted.len(),
                geohashes.len() == k,
                p == precision,
                forall|j: int|
                    0 <= j < k ==> (#[trigger] geohashes[j])@ == code_text(sorted[j] as nat, p),
            decreases sorted.len() - k,
        {
            let ghost before = geohashes@;
            geohashes.push(render_code(sorted[k], precision));
            assert forall|j: int| 0 <= j < k + 1 implies (#[trigger] geohashes[j])@ == code_text(
                sorted[j] as nat,
                p,
            ) by {
                if j < k {
                    assert(geohashes[j] == before[j]);
                }
            }
            k = k + 1;
        }
        proof {
            let found = texts(geohashes@);
            assert forall|n: int| 0 <= n < found.len() implies all.contains(#[trigger] found[n])
                && is_code(found[n], p) && code_value(found[n]) == sorted[n] by {
                assert(sorted@.contains(sorted[n]));
                let j = choose|j: int| 0 <= j < values.len() && values[j] == sorted[n];
                assert(values[j] == code_value(all[j]));
                lemma_code_value_text(all[j]);
                assert(found[n] == geohashes[n]@);
                assert(all[j] == found[n]);
            }
            assert forall|code: Seq<char>| found.contains(code) <==> all.contains(code) by {
                if found.contains(code) {
                    let n = choose|n: int| 0 <= n < found.len() && found[n] == code;
                    assert(all.contains(found[n]));
                }
                if all.contains(code) {
                    let j = choose|j: int| 0 <= j < all.len() && all[j] == code;
                    assert(values@.contains(values[j]));
                    let n = choose|n: int| 0 <= n < sorted.len() && sorted[n] == values[j];
                    lemma_code_value_text(all[j]);
                    assert(found[n] == geohashes[n]@);
                    assert(found[n] == code);
                }
            }
            assert forall|a: int, b: int| 0 <= a < b < found.len() implies code_value(
                #[trigger] found[a],
            ) < code_value(#[trigger] found[b]) by {
                assert(sorted[a] < sorted[b]);
            }
            assert forall|n: int| 0 <= n < geohashes.len() implies is_code(
                (#[trigger] geohashes[n])@,
                p,
            ) by {
                assert(found[n] == geohashes[n]@);
            }
            lemma_ascending_is(found, all);
        }
        geohashes
    }
}

} // verus!
