//! The edge table: its columns and its records, as text.

use crate::categorize::edge_properties::{EdgeProperties, Properties};
use crate::categorize::{
    BikeAccessibility, CarAccessibility, FootAccessibility, TrainAccessibility,
};
use crate::models::edge::{texts, wkt, Edge, EdgeData};
use crate::text::{push_signed_decimal, signed_decimal};
use crate::ProfileType;
use vstd::prelude::*;

verus! {

/// The name of a level of access for pedestrians.
pub open spec fn foot_name(foot: FootAccessibility) -> Seq<char> {
    match foot {
        FootAccessibility::Unknown => "Unknown"@,
        FootAccessibility::Forbidden => "Forbidden"@,
        FootAccessibility::Allowed => "Allowed"@,
    }
}

/// The name of a level of access for cars.
pub open spec fn car_name(car: CarAccessibility) -> Seq<char> {
    match car {
        CarAccessibility::Unknown => "Unknown"@,
        CarAccessibility::Forbidden => "Forbidden"@,
        CarAccessibility::Residential => "Residential"@,
        CarAccessibility::Tertiary => "Tertiary"@,
        CarAccessibility::Secondary => "Secondary"@,
        CarAccessibility::Primary => "Primary"@,
        CarAccessibility::Trunk => "Trunk"@,
        CarAccessibility::Motorway => "Motorway"@,
    }
}

/// The name of a level of access for bicycles.
pub open spec fn bike_name(bike: BikeAccessibility) -> Seq<char> {
    match bike {
        BikeAccessibility::Unknown => "Unknown"@,
        BikeAccessibility::Forbidden => "Forbidden"@,
        BikeAccessibility::Allowed => "Allowed"@,
        BikeAccessibility::Lane => "Lane"@,
        BikeAccessibility::Busway => "Busway"@,
        BikeAccessibility::Track => "Track"@,
    }
}

/// The name of a level of access for trains.
pub open spec fn train_name(train: TrainAccessibility) -> Seq<char> {
    match train {
        TrainAccessibility::Unknown => "Unknown"@,
        TrainAccessibility::Forbidden => "Forbidden"@,
        TrainAccessibility::Allowed => "Allowed"@,
    }
}

/// The columns of the edge table under `profile`: the edge's id, the id of
/// its way, its source and its target; then what the profile keeps of the
/// way; last the geometry.
pub open spec fn columns(profile: ProfileType) -> Seq<Seq<char>> {
    match profile {
        ProfileType::Railway => seq![
            "id"@,
            "osm_id"@,
            "source"@,
            "target"@,
            "railway_type"@,
            "usage"@,
            "service"@,
            "geometry"@,
        ],
        ProfileType::Road => seq![
            "id"@,
            "osm_id"@,
            "source"@,
            "target"@,
            "foot"@,
            "car_forward"@,
            "car_backward"@,
            "bike_forward"@,
            "bike_backward"@,
            "train"@,
            "wkt"@,
        ],
    }
}

/// The record of an edge: a text for each column of the edge's profile.
pub open spec fn record(edge: EdgeData) -> Seq<Seq<char>> {
    match edge.properties {
        Properties::Railway(properties) => seq![
            edge.id,
            signed_decimal(edge.osm_id as int),
            signed_decimal(edge.source as int),
            signed_decimal(edge.target as int),
            properties.railway_type,
            properties.usage,
            properties.service,
            wkt(edge.geometry),
        ],
        Properties::Road(properties) => seq![
            edge.id,
            signed_decimal(edge.osm_id as int),
            signed_decimal(edge.source as int),
            signed_decimal(edge.target as int),
            foot_name(properties.foot),
            car_name(properties.car_forward),
            car_name(properties.car_backward),
            bike_name(properties.bike_forward),
            bike_name(properties.bike_backward),
            train_name(properties.train),
            wkt(edge.geometry),
        ],
    }
}

/// What each of `names` holds.
pub open spec fn name_texts(names: Seq<&'static str>) -> Seq<Seq<char>> {
    Seq::new(names.len(), |i: int| names[i]@)
}

impl FootAccessibility {
    /// The name of the level.
    pub fn name(self) -> (name: &'static str)
        ensures
            name@ == foot_name(self),
    {
        match self {
            FootAccessibility::Unknown => "Unknown",
            FootAccessibility::Forbidden => "Forbidden",
            FootAccessibility::Allowed => "Allowed",
        }
    }
}

impl CarAccessibility {
    /// The name of the level.
    pub fn name(self) -> (name: &'static str)
        ensures
            name@ == car_name(self),
    {
        match self {
            CarAccessibility::Unknown => "Unknown",
            CarAccessibility::Forbidden => "Forbidden",
            CarAccessibility::Residential => "Residential",
            CarAccessibility::Tertiary => "Tertiary",
            CarAccessibility::Secondary => "Secondary",
            CarAccessibility::Primary => "Primary",
            CarAccessibility::Trunk => "Trunk",
            CarAccessibility::Motorway => "Motorway",
        }
    }
}

impl BikeAccessibility {
    /// The name of the level.
    pub fn name(self) -> (name: &'static str)
        ensures
            name@ == bike_name(self),
    {
        match self {
            BikeAccessibility::Unknown => "Unknown",
            BikeAccessibility::Forbidden => "Forbidden",
            BikeAccessibility::Allowed => "Allowed",
            BikeAccessibility::Lane => "Lane",
            BikeAccessibility::Busway => "Busway",
            BikeAccessibility::Track => "Track",
        }
    }
}

impl TrainAccessibility {
    /// The name of the level.
    pub fn name(self) -> (name: &'static str)
        ensures
            name@ == train_name(self),
    {
        match self {
            TrainAccessibility::Unknown => "Unknown",
            TrainAccessibility::Forbidden => "Forbidden",
            TrainAccessibility::Allowed => "Allowed",
        }
    }
}

/// The decimal numeral of an id.
fn id_text(id: i64) -> (text: String)
    ensures
        text@ == signed_decimal(id as int),
{
    let mut text = String::new();
    push_signed_decimal(&mut text, id);
    assert(text@ =~= signed_decimal(id as int));
    text
}

/// The columns of the edge table under `profile_type`.
pub fn edges_csv_columns(profile_type: ProfileType) -> (names: Vec<&'static str>)
    ensures
        name_texts(names@) == columns(profile_type),
{
    let mut names: Vec<&'static str> = Vec::new();
    match profile_type {
        ProfileType::Railway => {
            names.push("id");
            names.push("osm_id");
            names.push("source");
            names.push("target");
            names.push("railway_type");
            names.push("usage");
            names.push("service");
            names.push("geometry");
        },
        ProfileType::Road => {
            names.push("id");
            names.push("osm_id");
            names.push("source");
            names.push("target");
            names.push("foot");
            names.push("car_forward");
            names.push("car_backward");
            names.push("bike_forward");
            names.push("bike_backward");
            names.push("train");
            names.push("wkt");
        },
    }
    assert(name_texts(names@) =~= columns(profile_type));
    names
}

/// The record of an edge in the edge table: the edge's id, the id of its
/// way, its source and its target; then, under the railway profile, the kind
/// of railway, the usage and the service, and under the road profile who may
/// use the edge in which direction; last the geometry.
pub fn edge_record(edge: &Edge) -> (fields: Vec<String>)
    ensures
        texts(fields@) == record(edge@),
{
    let mut fields: Vec<String> = Vec::new();
    fields.push(edge.id.clone());
    fields.push(id_text(edge.osm_id));
    fields.push(id_text(edge.source));
    fields.push(id_text(edge.target));
    match &edge.properties {
        EdgeProperties::RailwayEdgeProperties(properties) => {
            fields.push(properties.railway_type.clone());
            fields.push(properties.usage.clone());
            fields.push(properties.service.clone());
            fields.push(edge.as_wkt());
        },
        EdgeProperties::RoadEdgeProperties(properties) => {
            fields.push(properties.foot.name().to_owned());
            fields.push(properties.car_forward.name().to_owned());
            fields.push(properties.car_backward.name().to_owned());
            fields.push(properties.bike_forward.name().to_owned());
            fields.push(properties.bike_backward.name().to_owned());
            fields.push(properties.train.name().to_owned());
            fields.push(edge.as_wkt());
        },
    }
    assert(texts(fields@) =~= record(edge@));
    fields
}

/// The edge table as text: its columns, then the record of every edge, in
/// the order of the edges and none left out.
pub open spec fn table(edges: Seq<Edge>, profile: ProfileType) -> Seq<Seq<Seq<char>>> {
    seq![columns(profile)] + Seq::new(edges.len(), |i: int| record(edges[i]@))
}

/// What each of `rows` holds.
pub open spec fn row_texts(rows: Seq<Vec<String>>) -> Seq<Seq<Seq<char>>> {
    Seq::new(rows.len(), |i: int| texts(rows[i]@))
}

/// The rows of the edge table: first the columns under `profile_type`, then
/// one record for every edge, in the order of the edges.
pub fn edges_table(edges: &Vec<Edge>, profile_type: ProfileType) -> (rows: Vec<Vec<String>>)
    ensures
        row_texts(rows@) == table(edges@, profile_type),
{
    let names = edges_csv_columns(profile_type);
    let mut header: Vec<String> = Vec::new();
    let mut n: usize = 0;
    while n < names.len()
        invariant
            n <= names.len(),
            header.len() == n,
            forall|j: int| 0 <= j < n ==> (#[trigger] header[j])@ == names[j]@,
        decreases names.len() - n,
    {
        let ghost before = header@;
        header.push(names[n].to_owned());
        assert forall|j: int| 0 <= j < n + 1 implies (#[trigger] header[j])@ == names[j]@ by {
            if j < n {
                assert(header[j] == before[j]);
            }
        }
        n = n + 1;
    }
    assert(texts(header@) =~= name_texts(names@));
    let mut rows: Vec<Vec<String>> = Vec::new();
    rows.push(header);
    let mut i: usize = 0;
    while i < edges.len()
        invariant
            i <= edges.len(),
            rows.len() == i + 1,
            texts(rows[0]@) == columns(profile_type),
            forall|j: int| 0 <= j < i ==> texts((#[trigger] rows[j + 1])@) == record(edges[j]@),
        decreases edges.len() - i,
    {
        let ghost before = rows@;
        rows.push(edge_record(&edges[i]));
        assert forall|j: int| 0 <= j < i + 1 implies texts((#[trigger] rows[j + 1])@) == record(
            edges[j]@,
        ) by {
            if j < i {
                assert(rows[j + 1] == before[j + 1]);
            }
        }
        assert(rows[0] == before[0]);
        i = i + 1;
    }
    proof {
        let found = row_texts(rows@);
        let whole = table(edges@, profile_type);
        assert(whole.len() == edges.len() + 1);
        assert forall|k: int| 0 <= k < found.len() implies found[k] == whole[k] by {
            if k == 0 {
                assert(whole[0] == columns(profile_type));
            } else {
                assert(texts(rows[(k - 1) + 1]@) == record(edges[k - 1]@));
                assert(whole[k] == record(edges[k - 1]@));
            }
        }
        assert(found =~= whole);
    }
    rows
}

} // verus!
