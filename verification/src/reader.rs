//! The graph extractor: which ways are kept, which nodes are materialized,
//! how often each node is used, and where the ways are split into edges.

use crate::categorize::edge_properties::{EdgeProperties, Properties};
use crate::categorize::{classified_accessible, classified_properties, classify};
use crate::models::coord::Coord;
use crate::models::edge::{Edge, EdgeData};
use crate::models::node::Node;
use crate::text::{decimal, push_decimal, push_signed_decimal, signed_decimal, str_eq};
use crate::ProfileType;
use std::collections::{HashMap, HashSet};
use vstd::prelude::*;

verus! {

broadcast use vstd::std_specs::hash::group_hash_axioms;

/// A way as the source hands it over: its nodes in order, and its tags.
#[derive(Debug)]
pub struct OsmWay {
    pub id: i64,
    pub nodes: Vec<i64>,
    pub tags: Vec<(String, String)>,
}

/// A node as the source hands it over, with its position in units of 10⁻⁷
/// degree.
#[derive(Clone, Copy, Debug, PartialEq, Eq, Structural)]
pub struct OsmNode {
    pub id: i64,
    pub lon: i32,
    pub lat: i32,
}

/// A way that was kept: its nodes in order, and what the profile keeps of
/// its tags.
#[derive(Debug)]
pub struct Way {
    pub id: i64,
    pub nodes: Vec<i64>,
    pub properties: EdgeProperties,
}

/// A kept way as plain values.
pub struct WayData {
    pub id: i64,
    pub nodes: Seq<i64>,
    pub properties: Properties,
}

impl View for Way {
    type V = WayData;

    open spec fn view(&self) -> WayData {
        WayData { id: self.id, nodes: self.nodes@, properties: self.properties@ }
    }
}

/// Why no graph could be made.
#[derive(Clone, Copy, Debug, PartialEq, Eq, Structural)]
pub enum ReadError {
    /// A kept way passes through this node, and the source never gave it.
    MissingNode(i64),
}

/// Exclusion rules: pairs of a key and a value.
pub type Rules = Seq<(Seq<char>, Seq<char>)>;

/// Whether the rule `rule` excludes a tag: the keys are the same, and the
/// rule's value is the tag's or `*`.
pub open spec fn rule_matches(
    rule: (Seq<char>, Seq<char>),
    key: Seq<char>,
    val: Seq<char>,
) -> bool {
    rule.0 == key && (rule.1 == val || rule.1 == "*"@)
}

/// Whether one of `rules` excludes the tag.
pub open spec fn tag_forbidden(rules: Rules, key: Seq<char>, val: Seq<char>) -> bool {
    exists|r: int| 0 <= r < rules.len() && rule_matches(#[trigger] rules[r], key, val)
}

/// Whether one of `rules` excludes one of `tags`.
pub open spec fn way_forbidden(rules: Rules, tags: Seq<(String, String)>) -> bool {
    exists|t: int| 0 <= t < tags.len() && tag_forbidden(rules, (#[trigger] tags[t]).0@, tags[t].1@)
}

/// Whether a way is kept: it is accessible under the profile, and no rule
/// excludes one of its tags.
pub open spec fn is_kept(rules: Rules, profile: ProfileType, way: OsmWay) -> bool {
    classified_accessible(way.tags@, profile) && !way_forbidden(rules, way.tags@)
}

/// What is kept of a way.
pub open spec fn way_data(way: OsmWay, profile: ProfileType) -> WayData {
    WayData {
        id: way.id,
        nodes: way.nodes@,
        properties: classified_properties(way.tags@, profile),
    }
}

/// The ways of `input` that are kept, in order.
pub open spec fn kept_of(
    rules: Rules,
    profile: ProfileType,
    input: Seq<OsmWay>,
) -> Seq<WayData>
    decreases input.len(),
{
    if input.len() == 0 {
        Seq::empty()
    } else if is_kept(rules, profile, input.last()) {
        kept_of(rules, profile, input.drop_last()).push(way_data(input.last(), profile))
    } else {
        kept_of(rules, profile, input.drop_last())
    }
}

/// Whether `table` holds a node with this id.
pub open spec fn has_node(table: Seq<Node>, id: i64) -> bool {
    exists|i: int| 0 <= i < table.len() && (#[trigger] table[i]).id == id
}

/// The node of `table` with this id.
pub open spec fn node_of(table: Seq<Node>, id: i64) -> Node {
    table[choose|i: int| 0 <= i < table.len() && (#[trigger] table[i]).id == id]
}

/// The nodes that the kept ways of `input` pass through and `table` lacks.
pub open spec fn wanted_of(
    rules: Rules,
    profile: ProfileType,
    input: Seq<OsmWay>,
    table: Seq<Node>,
) -> Set<i64> {
    Set::new(
        |id: i64|
            !has_node(table, id) && exists|w: int|
                0 <= w < input.len() && is_kept(rules, profile, #[trigger] input[w])
                    && input[w].nodes@.contains(id),
    )
}

/// The node that is materialized for a node of the source: not used yet.
pub open spec fn fresh_node(node: OsmNode) -> Node {
    Node { id: node.id, coord: Coord { lon: node.lon, lat: node.lat }, uses: 0 }
}

/// The keep-set and the table after the nodes of `input` have been read in
/// order: a node whose id is in the keep-set leaves it and joins the table.
pub open spec fn node_pass(keep: Set<i64>, table: Seq<Node>, input: Seq<OsmNode>) -> (
    Set<i64>,
    Seq<Node>,
)
    decreases input.len(),
{
    if input.len() == 0 {
        (keep, table)
    } else {
        let (keep, table) = node_pass(keep, table, input.drop_last());
        if keep.contains(input.last().id) {
            (keep.remove(input.last().id), table.push(fresh_node(input.last())))
        } else {
            (keep, table)
        }
    }
}

/// What one pass through a node counts for: an end of a way counts twice.
pub open spec fn use_weight(len: nat, place: nat) -> nat {
    if place == 0 || place + 1 == len {
        2
    } else {
        1
    }
}

/// How often the first `n` nodes of a way pass through the node `id`.
pub open spec fn uses_in_way(nodes: Seq<i64>, n: nat, id: i64) -> nat
    decreases n,
{
    if n == 0 {
        0
    } else {
        uses_in_way(nodes, (n - 1) as nat, id) + if nodes[n - 1] == id {
            use_weight(nodes.len(), (n - 1) as nat)
        } else {
            0
        }
    }
}

/// How often `ways` pass through the node `id`.
pub open spec fn uses_in(ways: Seq<WayData>, id: i64) -> nat
    decreases ways.len(),
{
    if ways.len() == 0 {
        0
    } else {
        uses_in(ways.drop_last(), id) + uses_in_way(
            ways.last().nodes,
            ways.last().nodes.len(),
            id,
        )
    }
}

/// The table with the uses of each node by `ways` counted.
pub open spec fn counted(table: Seq<Node>, ways: Seq<WayData>) -> Seq<Node> {
    Seq::new(table.len(), |i: int| Node { uses: uses_in(ways, table[i].id) as u128, ..table[i] })
}

/// The first of the first `n` nodes of a way that `table` lacks.
pub open spec fn missing_in_way(nodes: Seq<i64>, n: nat, table: Seq<Node>) -> Option<i64>
    decreases n,
{
    if n == 0 {
        None
    } else {
        match missing_in_way(nodes, (n - 1) as nat, table) {
            Some(id) => Some(id),
            None => if has_node(table, nodes[n - 1]) {
                None
            } else {
                Some(nodes[n - 1])
            },
        }
    }
}

/// The first node, in the order of the ways and of their nodes, that a way
/// passes through and `table` lacks.
pub open spec fn first_missing(ways: Seq<WayData>, table: Seq<Node>) -> Option<i64>
    decreases ways.len(),
{
    if ways.len() == 0 {
        None
    } else {
        match first_missing(ways.drop_last(), table) {
            Some(id) => Some(id),
            None => missing_in_way(ways.last().nodes, ways.last().nodes.len(), table),
        }
    }
}

/// The table while the uses are counted: `done` ways are counted, and the
/// first `n` nodes of the next.
pub open spec fn counting(table: Seq<Node>, ways: Seq<WayData>, done: int, n: nat) -> Seq<Node> {
    Seq::new(
        table.len(),
        |i: int|
            Node {
                uses: (uses_in(ways.take(done), table[i].id) + uses_in_way(
                    ways[done].nodes,
                    n,
                    table[i].id,
                )) as u128,
                ..table[i]
            },
    )
}

/// The first `n` nodes of a way pass through a node `n + 1` times at most,
/// and the whole way twice more than it has nodes.
pub proof fn lemma_uses_in_way_bound(nodes: Seq<i64>, n: nat, id: i64)
    requires
        n <= nodes.len(),
    ensures
        uses_in_way(nodes, n, id) <= if n < nodes.len() {
            n + 1
        } else {
            n + 2
        },
    decreases n,
{
    if n > 0 {
        lemma_uses_in_way_bound(nodes, (n - 1) as nat, id);
        if n == 1 {
            assert(uses_in_way(nodes, 0, id) == 0);
        }
    }
}

/// Ways of at most `longest` nodes each pass through a node `longest + 2`
/// times each at most.
pub proof fn lemma_uses_in_bound(ways: Seq<WayData>, id: i64, longest: nat)
    requires
        forall|w: int| 0 <= w < ways.len() ==> (#[trigger] ways[w]).nodes.len() <= longest,
    ensures
        uses_in(ways, id) <= ways.len() * (longest + 2),
    decreases ways.len(),
{
    if ways.len() > 0 {
        lemma_uses_in_bound(ways.drop_last(), id, longest);
        lemma_uses_in_way_bound(ways.last().nodes, ways.last().nodes.len(), id);
        assert(ways.drop_last().len() * (longest + 2) + (longest + 2) == ways.len() * (longest + 2))
            by (nonlinear_arith)
            requires
                ways.drop_last().len() + 1 == ways.len(),
        ;
    }
}

/// Whether the node `id` is a vertex of the graph: more than one use.
pub open spec fn is_vertex(table: Seq<Node>, id: i64) -> bool {
    has_node(table, id) && node_of(table, id).uses > 1
}

/// The place of the node at which the edge begins that is open after the
/// first `n` nodes of a way: the last vertex among them that is not the
/// first node, or the first node.
pub open spec fn open_from(nodes: Seq<i64>, table: Seq<Node>, n: nat) -> nat
    decreases n,
{
    if n <= 1 {
        0
    } else if is_vertex(table, nodes[n - 1]) {
        (n - 1) as nat
    } else {
        open_from(nodes, table, (n - 1) as nat)
    }
}

/// The coordinates of the nodes of a way from `from` to `to`, both included.
pub open spec fn coords(nodes: Seq<i64>, table: Seq<Node>, from: int, to: int) -> Seq<Coord> {
    Seq::new((to - from + 1) as nat, |k: int| node_of(table, nodes[from + k]).coord)
}

/// The id of the edge number `k` of a way: the way's id, a hyphen, `k`.
pub open spec fn edge_id(way_id: i64, k: nat) -> Seq<char> {
    signed_decimal(way_id as int) + seq!['-'] + decimal(k)
}

/// The edge number `k` of a way, from its node at `from` to its node at `to`.
pub open spec fn edge_between(
    way: WayData,
    table: Seq<Node>,
    from: int,
    to: int,
    k: nat,
) -> EdgeData {
    EdgeData {
        id: edge_id(way.id, k),
        osm_id: way.id,
        source: way.nodes[from],
        target: way.nodes[to],
        geometry: coords(way.nodes, table, from, to),
        properties: way.properties,
    }
}

/// The edges that are closed within the first `n` nodes of a way: one ends
/// at every vertex but the first node, and begins where the one before ended.
pub open spec fn edges_of(way: WayData, table: Seq<Node>, n: nat) -> Seq<EdgeData>
    decreases n,
{
    if n <= 1 {
        Seq::empty()
    } else {
        let before = edges_of(way, table, (n - 1) as nat);
        if is_vertex(table, way.nodes[n - 1]) {
            before.push(
                edge_between(
                    way,
                    table,
                    open_from(way.nodes, table, (n - 1) as nat) as int,
                    n - 1,
                    before.len(),
                ),
            )
        } else {
            before
        }
    }
}

/// The edges of a way.
pub open spec fn split(way: WayData, table: Seq<Node>) -> Seq<EdgeData> {
    edges_of(way, table, way.nodes.len())
}

/// The edges of `ways`, way by way.
pub open spec fn all_edges(ways: Seq<WayData>, table: Seq<Node>) -> Seq<EdgeData>
    decreases ways.len(),
{
    if ways.len() == 0 {
        Seq::empty()
    } else {
        all_edges(ways.drop_last(), table) + split(ways.last(), table)
    }
}

/// The nodes of `table` with more than one use, in order.
pub open spec fn vertices(table: Seq<Node>) -> Seq<Node>
    decreases table.len(),
{
    if table.len() == 0 {
        Seq::empty()
    } else if table.last().uses > 1 {
        vertices(table.drop_last()).push(table.last())
    } else {
        vertices(table.drop_last())
    }
}

/// What each of `edges` holds.
pub open spec fn edge_views(edges: Seq<Edge>) -> Seq<EdgeData> {
    Seq::new(edges.len(), |i: int| edges[i]@)
}

/// The graph of the kept ways and the materialized nodes: the vertices and
/// the edges, or the first node that a way passes through and the table
/// lacks.
pub open spec fn graph(ways: Seq<WayData>, table: Seq<Node>) -> Result<
    (Seq<Node>, Seq<EdgeData>),
    ReadError,
> {
    match first_missing(ways, table) {
        Some(id) => Err(ReadError::MissingNode(id)),
        None => Ok(
            (vertices(counted(table, ways)), all_edges(ways, counted(table, ways))),
        ),
    }
}

/// What a result of the extractor holds.
pub open spec fn outcome(result: Result<(Vec<Node>, Vec<Edge>), ReadError>) -> Result<
    (Seq<Node>, Seq<EdgeData>),
    ReadError,
> {
    match result {
        Ok((nodes, edges)) => Ok((nodes@, edge_views(edges@))),
        Err(error) => Err(error),
    }
}

/// The open edge begins before the last of the nodes read.
pub proof fn lemma_open_from_before(nodes: Seq<i64>, table: Seq<Node>, n: nat)
    requires
        n >= 1,
    ensures
        open_from(nodes, table, n) < n,
    decreases n,
{
    if n > 1 && !is_vertex(table, nodes[n - 1]) {
        lemma_open_from_before(nodes, table, (n - 1) as nat);
    }
}

/// Whether the geometry of `edge` has two points or more, begins at the
/// coordinate of its source and ends at the coordinate of its target.
pub open spec fn spans(edge: EdgeData, table: Seq<Node>) -> bool {
    &&& edge.geometry.len() >= 2
    &&& edge.geometry[0] == node_of(table, edge.source).coord
    &&& edge.geometry.last() == node_of(table, edge.target).coord
}

/// Every edge of a way has two points or more, from the coordinate of its
/// source to the coordinate of its target.
pub proof fn lemma_edges_span(way: WayData, table: Seq<Node>, n: nat)
    ensures
        forall|j: int|
            0 <= j < edges_of(way, table, n).len() ==> spans(
                #[trigger] edges_of(way, table, n)[j],
                table,
            ),
    decreases n,
{
    if n > 1 {
        lemma_edges_span(way, table, (n - 1) as nat);
        lemma_open_from_before(way.nodes, table, (n - 1) as nat);
        let before = edges_of(way, table, (n - 1) as nat);
        assert forall|j: int| 0 <= j < edges_of(way, table, n).len() implies spans(
            #[trigger] edges_of(way, table, n)[j],
            table,
        ) by {
            if j < before.len() {
                assert(edges_of(way, table, n)[j] == before[j]);
            }
        }
    }
}

/// Every edge of a list of ways has two points or more, from the coordinate
/// of its source to the coordinate of its target.
pub proof fn lemma_all_edges_span(ways: Seq<WayData>, table: Seq<Node>)
    ensures
        forall|j: int|
            0 <= j < all_edges(ways, table).len() ==> spans(
                #[trigger] all_edges(ways, table)[j],
                table,
            ),
    decreases ways.len(),
{
    if ways.len() > 0 {
        lemma_all_edges_span(ways.drop_last(), table);
        lemma_edges_span(ways.last(), table, ways.last().nodes.len());
        let before = all_edges(ways.drop_last(), table);
        assert forall|j: int| 0 <= j < all_edges(ways, table).len() implies spans(
            #[trigger] all_edges(ways, table)[j],
            table,
        ) by {
            if j < before.len() {
                assert(all_edges(ways, table)[j] == before[j]);
            } else {
                assert(all_edges(ways, table)[j] == split(ways.last(), table)[j - before.len()]);
            }
        }
    }
}

/// Whether no two nodes of `nodes` have one id.
pub open spec fn distinct_ids(nodes: Seq<Node>) -> bool {
    forall|a: int, b: int|
        0 <= a < b < nodes.len() ==> (#[trigger] nodes[a]).id != (#[trigger] nodes[b]).id
}

/// Every vertex is a node of the table; and where no two nodes of the table
/// have one id, no two vertices have.
pub proof fn lemma_vertices_of_table(table: Seq<Node>)
    ensures
        forall|i: int|
            0 <= i < vertices(table).len() ==> table.contains(#[trigger] vertices(table)[i]),
        distinct_ids(table) ==> distinct_ids(vertices(table)),
    decreases table.len(),
{
    if table.len() > 0 {
        let rest = table.drop_last();
        let before = vertices(rest);
        let found = vertices(table);
        lemma_vertices_of_table(rest);
        assert forall|i: int| 0 <= i < found.len() implies table.contains(#[trigger] found[i]) by {
            if i < before.len() {
                assert(found[i] == before[i]);
                assert(rest.contains(before[i]));
                let j = choose|j: int| 0 <= j < rest.len() && rest[j] == before[i];
                assert(table[j] == found[i]);
            } else {
                assert(table[table.len() - 1] == found[i]);
            }
        }
        if distinct_ids(table) {
            assert(distinct_ids(rest)) by {
                assert forall|a: int, b: int| 0 <= a < b < rest.len() implies (#[trigger] rest[a]).id
                    != (#[trigger] rest[b]).id by {
                    assert(table[a].id != table[b].id);
                }
            }
            assert forall|a: int, b: int| 0 <= a < b < found.len() implies (#[trigger] found[a]).id
                != (#[trigger] found[b]).id by {
                if b < before.len() {
                    assert(before[a].id != before[b].id);
                } else {
                    assert(found[a] == before[a]);
                    assert(rest.contains(before[a]));
                    let j = choose|j: int| 0 <= j < rest.len() && rest[j] == before[a];
                    assert(table[j].id != table[table.len() - 1].id);
                }
            }
        }
    }
}

/// Every vertex has more than one use.
pub proof fn lemma_vertices_are_used(table: Seq<Node>)
    ensures
        forall|i: int| 0 <= i < vertices(table).len() ==> (#[trigger] vertices(table)[i]).uses > 1,
    decreases table.len(),
{
    if table.len() > 0 {
        lemma_vertices_are_used(table.drop_last());
        let before = vertices(table.drop_last());
        assert forall|i: int| 0 <= i < vertices(table).len() implies (#[trigger] vertices(
            table,
        )[i]).uses > 1 by {
            if i < before.len() {
                assert(vertices(table)[i] == before[i]);
            }
        }
    }
}

/// Whether `index` gives, for each node of `table` and for no other id, the
/// place of the node in the table.
pub open spec fn indexed(table: Seq<Node>, index: Map<i64, usize>) -> bool {
    &&& forall|id: i64| #[trigger]
        index.contains_key(id) ==> index[id] < table.len() && table[index[id] as int].id == id
    &&& forall|i: int|
        0 <= i < table.len() ==> index.contains_key((#[trigger] table[i]).id) && index[table[i].id]
            == i
}

/// The graph extractor. Ways are read first, then nodes; `finish` makes the
/// graph of what was read.
pub struct Reader {
    nodes: Vec<Node>,
    index: HashMap<i64, usize>,
    ways: Vec<Way>,
    nodes_to_keep: HashSet<i64>,
    forbidden: Vec<(String, String)>,
    profile_type: ProfileType,
}

impl Reader {
    /// The exclusion rules, in the order in which they were registered.
    pub closed spec fn rules(&self) -> Rules {
        Seq::new(self.forbidden@.len(), |i: int| (self.forbidden@[i].0@, self.forbidden@[i].1@))
    }

    /// The profile.
    pub closed spec fn profile(&self) -> ProfileType {
        self.profile_type
    }

    /// The ways kept so far, in the order in which they were read.
    pub closed spec fn kept_ways(&self) -> Seq<WayData> {
        Seq::new(self.ways@.len(), |i: int| self.ways@[i]@)
    }

    /// The ids of the nodes that kept ways pass through and that are not
    /// materialized yet.
    pub closed spec fn keep_set(&self) -> Set<i64> {
        self.nodes_to_keep@
    }

    /// The nodes materialized so far, in the order in which they were read.
    pub closed spec fn table(&self) -> Seq<Node> {
        self.nodes@
    }

    /// Whether the extractor is consistent: every materialized node is
    /// indexed once, is not used yet, and has left the keep-set.
    pub closed spec fn wf(&self) -> bool {
        &&& indexed(self.nodes@, self.index@)
        &&& forall|i: int| 0 <= i < self.nodes@.len() ==> (#[trigger] self.nodes@[i]).uses == 0
        &&& forall|id: i64| #[trigger]
            self.nodes_to_keep@.contains(id) ==> !self.index@.contains_key(id)
    }

    /// Whether every materialized node is indexed once. It holds of a
    /// consistent extractor, and still once the uses are counted.
    pub closed spec fn is_indexed(&self) -> bool {
        indexed(self.nodes@, self.index@)
    }

    /// A consistent extractor is indexed.
    pub proof fn lemma_wf_is_indexed(&self)
        requires
            self.wf(),
        ensures
            self.is_indexed(),
    {
    }

    /// An extractor for `profile` that has read nothing and excludes nothing.
    pub fn new(profile: ProfileType) -> (reader: Reader)
        ensures
            reader.wf(),
            reader.profile() == profile,
            reader.rules() == Seq::<(Seq<char>, Seq<char>)>::empty(),
            reader.kept_ways() == Seq::<WayData>::empty(),
            reader.keep_set() == Set::<i64>::empty(),
            reader.table() == Seq::<Node>::empty(),
    {
        let reader = Reader {
            nodes: Vec::new(),
            index: HashMap::new(),
            ways: Vec::new(),
            nodes_to_keep: HashSet::new(),
            forbidden: Vec::new(),
            profile_type: profile,
        };
        assert(reader.rules() =~= Seq::empty());
        assert(reader.kept_ways() =~= Seq::empty());
        reader
    }

    /// Registers an exclusion rule: ways with a tag `key` of value `value`,
    /// or of any value where `value` is `*`, are not kept.
    pub fn reject(self, key: &str, value: &str) -> (reader: Reader)
        requires
            self.wf(),
        ensures
            reader.wf(),
            reader.rules() == self.rules().push((key@, value@)),
            reader.profile() == self.profile(),
            reader.kept_ways() == self.kept_ways(),
            reader.keep_set() == self.keep_set(),
            reader.table() == self.table(),
    {
        let mut reader = self;
        reader.forbidden.push((key.to_owned(), value.to_owned()));
        assert(reader.rules() =~= self.rules().push((key@, value@)));
        reader
    }

    /// Whether one of the rules excludes the tag.
    fn excludes_tag(&self, key: &str, val: &str) -> (excluded: bool)
        ensures
            excluded == tag_forbidden(self.rules(), key@, val@),
    {
        let mut r: usize = 0;
        while r < self.forbidden.len()
            invariant
                r <= self.forbidden.len(),
                forall|q: int| 0 <= q < r ==> !rule_matches(#[trigger] self.rules()[q], key@, val@),
            decreases self.forbidden.len() - r,
        {
            let rule = &self.forbidden[r];
            assert(self.rules()[r as int] == (rule.0@, rule.1@));
            if str_eq(rule.0.as_str(), key) && (str_eq(rule.1.as_str(), val) || str_eq(
                rule.1.as_str(),
                "*",
            )) {
                return true;
            }
            r = r + 1;
        }
        false
    }

    /// Whether one of the rules excludes one of the tags.
    fn excludes(&self, tags: &Vec<(String, String)>) -> (excluded: bool)
        ensures
            excluded == way_forbidden(self.rules(), tags@),
    {
        let mut t: usize = 0;
        while t < tags.len()
            invariant
                t <= tags.len(),
                forall|s: int|
                    0 <= s < t ==> !tag_forbidden(
                        self.rules(),
                        (#[trigger] tags[s]).0@,
                        tags[s].1@,
                    ),
            decreases tags.len() - t,
        {
            let tag = &tags[t];
            if self.excludes_tag(tag.0.as_str(), tag.1.as_str()) {
                return true;
            }
            t = t + 1;
        }
        false
    }

    /// Reads one way: where it is kept, it joins the kept ways, and the
    /// nodes it passes through that are not materialized join the keep-set.
    pub fn read_way(&mut self, way: &OsmWay)
        requires
            old(self).wf(),
        ensures
            final(self).wf(),
            final(self).rules() == old(self).rules(),
            final(self).profile() == old(self).profile(),
            final(self).table() == old(self).table(),
            final(self).kept_ways() == if is_kept(old(self).rules(), old(self).profile(), *way) {
                old(self).kept_ways().push(way_data(*way, old(self).profile()))
            } else {
                old(self).kept_ways()
            },
            final(self).keep_set() == if is_kept(old(self).rules(), old(self).profile(), *way) {
                old(self).keep_set().union(
                    Set::new(|id: i64| way.nodes@.contains(id) && !has_node(old(self).table(), id)),
                )
            } else {
                old(self).keep_set()
            },
    {
        let (accessible, properties) = classify(&way.tags, self.profile_type);
        if accessible && !self.excludes(&way.tags) {
            let ghost keep = self.nodes_to_keep@;
            let ghost ways = self.kept_ways();
            let mut nodes: Vec<i64> = Vec::new();
            let mut k: usize = 0;
            while k < way.nodes.len()
                invariant
                    k <= way.nodes.len(),
                    nodes@ == way.nodes@.take(k as int),
                    self.nodes == old(self).nodes,
                    self.index == old(self).index,
                    self.ways == old(self).ways,
                    self.forbidden == old(self).forbidden,
                    self.profile_type == old(self).profile_type,
                    old(self).wf(),
                    keep == old(self).nodes_to_keep@,
                    self.nodes_to_keep@ == keep.union(
                        Set::new(
                            |id: i64|
                                way.nodes@.take(k as int).contains(id) && !self.index@.contains_key(
                                    id,
                                ),
                        ),
                    ),
                decreases way.nodes.len() - k,
            {
                let id = way.nodes[k];
                if !self.index.contains_key(&id) {
                    self.nodes_to_keep.insert(id);
                }
                nodes.push(id);
                proof {
                    let past = way.nodes@.take(k as int);
                    let next = way.nodes@.take(k + 1);
                    assert(next =~= past.push(id));
                    assert forall|x: i64| next.contains(x) <==> past.contains(x) || x == id by {
                        if past.contains(x) {
                            let m = choose|m: int| 0 <= m < past.len() && past[m] == x;
                            assert(next[m] == x);
                        }
                        if x == id {
                            assert(next[k as int] == x);
                        }
                        if next.contains(x) {
                            let m = choose|m: int| 0 <= m < next.len() && next[m] == x;
                            if m < k {
                                assert(past[m] == x);
                            }
                        }
                    }
                    assert(self.nodes_to_keep@ =~= keep.union(
                        Set::new(|x: i64| next.contains(x) && !self.index@.contains_key(x)),
                    ));
                }
                k = k + 1;
            }
            self.ways.push(Way { id: way.id, nodes, properties });
            proof {
                assert(way.nodes@.take(k as int) =~= way.nodes@);
                assert(self.kept_ways() =~= ways.push(way_data(*way, self.profile_type)));
                lemma_indexed_has(self.nodes@, self.index@);
                assert(self.nodes_to_keep@ =~= keep.union(
                    Set::new(|id: i64| way.nodes@.contains(id) && !has_node(self.nodes@, id)),
                ));
            }
        }
    }

    /// Reads the ways of `ways` in order.
    pub fn read_ways(&mut self, ways: &Vec<OsmWay>)
        requires
            old(self).wf(),
        ensures
            final(self).wf(),
            final(self).rules() == old(self).rules(),
            final(self).profile() == old(self).profile(),
            final(self).table() == old(self).table(),
            final(self).kept_ways() == old(self).kept_ways() + kept_of(
                old(self).rules(),
                old(self).profile(),
                ways@,
            ),
            final(self).keep_set() == old(self).keep_set().union(
                wanted_of(old(self).rules(), old(self).profile(), ways@, old(self).table()),
            ),
    {
        let ghost rules = self.rules();
        let ghost profile = self.profile();
        let ghost table = self.table();
        let ghost before = self.kept_ways();
        let ghost keep = self.keep_set();
        let mut w: usize = 0;
        proof {
            assert(ways@.take(0) =~= Seq::empty());
            assert(self.kept_ways() =~= before + kept_of(rules, profile, ways@.take(0)));
            assert(self.keep_set() =~= keep.union(wanted_of(rules, profile, ways@.take(0), table)));
        }
        while w < ways.len()
            invariant
                w <= ways.len(),
                self.wf(),
                self.rules() == rules,
                self.profile() == profile,
                self.table() == table,
                self.kept_ways() == before + kept_of(rules, profile, ways@.take(w as int)),
                self.keep_set() == keep.union(
                    wanted_of(rules, profile, ways@.take(w as int), table),
                ),
            decreases ways.len() - w,
        {
            self.read_way(&ways[w]);
            proof {
                let past = ways@.take(w as int);
                let next = ways@.take(w + 1);
                let way = ways@[w as int];
                assert(next.drop_last() =~= past);
                assert(next.last() == way);
                assert(self.kept_ways() =~= before + kept_of(rules, profile, next));
                let here = Set::new(|id: i64| way.nodes@.contains(id) && !has_node(table, id));
                assert forall|id: i64|
                    wanted_of(rules, profile, next, table).contains(id) <==> wanted_of(
                        rules,
                        profile,
                        past,
                        table,
                    ).contains(id) || (is_kept(rules, profile, way) && here.contains(id)) by {
                    if wanted_of(rules, profile, next, table).contains(id) {
                        let v = choose|v: int|
                            0 <= v < next.len() && is_kept(rules, profile, #[trigger] next[v])
                                && next[v].nodes@.contains(id);
                        if v < w {
                            assert(past[v] == next[v]);
                        }
                    }
                    if wanted_of(rules, profile, past, table).contains(id) {
                        let v = choose|v: int|
                            0 <= v < past.len() && is_kept(rules, profile, #[trigger] past[v])
                                && past[v].nodes@.contains(id);
                        assert(next[v] == past[v]);
                    }
                    if is_kept(rules, profile, way) && here.contains(id) {
                        assert(next[w as int] == way);
                    }
                }
                assert(self.keep_set() =~= keep.union(wanted_of(rules, profile, next, table)));
            }
            w = w + 1;
        }
        assert(ways@.take(w as int) =~= ways@);
    }

    /// Reads one node: where its id is in the keep-set, it leaves the set
    /// and joins the table, not used yet.
    pub fn read_node(&mut self, node: &OsmNode)
        requires
            old(self).wf(),
        ensures
            final(self).wf(),
            final(self).rules() == old(self).rules(),
            final(self).profile() == old(self).profile(),
            final(self).kept_ways() == old(self).kept_ways(),
            (final(self).keep_set(), final(self).table()) == node_pass(
                old(self).keep_set(),
                old(self).table(),
                seq![*node],
            ),
    {
        let ghost input = seq![*node];
        assert(input.drop_last() =~= Seq::empty());
        assert(node_pass(self.keep_set(), self.table(), input.drop_last()) == (
            self.keep_set(),
            self.table(),
        ));
        if self.nodes_to_keep.contains(&node.id) {
            self.nodes_to_keep.remove(&node.id);
            let place = self.nodes.len();
            self.index.insert(node.id, place);
            self.nodes.push(
                Node { id: node.id, coord: Coord { lon: node.lon, lat: node.lat }, uses: 0 },
            );
        }
    }

    /// Reads the nodes of `nodes` in order.
    pub fn read_nodes(&mut self, nodes: &Vec<OsmNode>)
        requires
            old(self).wf(),
        ensures
            final(self).wf(),
            final(self).rules() == old(self).rules(),
            final(self).profile() == old(self).profile(),
            final(self).kept_ways() == old(self).kept_ways(),
            (final(self).keep_set(), final(self).table()) == node_pass(
                old(self).keep_set(),
                old(self).table(),
                nodes@,
            ),
    {
        let ghost keep = self.keep_set();
        let ghost table = self.table();
        let mut n: usize = 0;
        assert(nodes@.take(0) =~= Seq::empty());
        while n < nodes.len()
            invariant
                n <= nodes.len(),
                self.wf(),
                self.rules() == old(self).rules(),
                self.profile() == old(self).profile(),
                self.kept_ways() == old(self).kept_ways(),
                keep == old(self).keep_set(),
                table == old(self).table(),
                (self.keep_set(), self.table()) == node_pass(keep, table, nodes@.take(n as int)),
            decreases nodes.len() - n,
        {
            let ghost here = (self.keep_set(), self.table());
            self.read_node(&nodes[n]);
            proof {
                let one = seq![nodes@[n as int]];
                assert(one.drop_last() =~= Seq::empty());
                assert(node_pass(here.0, here.1, one.drop_last()) == here);
                assert(nodes@.take(n + 1).drop_last() =~= nodes@.take(n as int));
            }
            n = n + 1;
        }
        assert(nodes@.take(n as int) =~= nodes@);
    }

    /// Counts, for every node, how often the kept ways pass through it: an
    /// end of a way counts twice, so that the first and the last node of
    /// every way end with two uses or more. Nothing but the uses changes.
    /// It fails at the first node that a way passes through and the table
    /// lacks.
    pub fn count_nodes_uses(&mut self) -> (result: Result<(), ReadError>)
        requires
            old(self).wf(),
        ensures
            final(self).rules() == old(self).rules(),
            final(self).profile() == old(self).profile(),
            final(self).kept_ways() == old(self).kept_ways(),
            final(self).keep_set() == old(self).keep_set(),
            match result {
                Ok(()) => {
                    &&& first_missing(old(self).kept_ways(), old(self).table()) is None
                    &&& final(self).table() == counted(old(self).table(), old(self).kept_ways())
                    &&& final(self).is_indexed()
                    &&& forall|i: int|
                        #![trigger final(self).table()[i]]
                        0 <= i < old(self).table().len() ==> final(self).table()[i].uses >= old(
                            self,
                        ).table()[i].uses
                    &&& forall|w: int, k: int|
                        0 <= w < old(self).kept_ways().len() && 0 <= k < old(
                            self,
                        ).kept_ways()[w].nodes.len() && (k == 0 || k == old(
                            self,
                        ).kept_ways()[w].nodes.len() - 1) ==> is_vertex(
                            final(self).table(),
                            #[trigger] old(self).kept_ways()[w].nodes[k],
                        )
                },
                Err(ReadError::MissingNode(id)) => first_missing(
                    old(self).kept_ways(),
                    old(self).table(),
                ) == Some(id),
            },
    {
        let ghost table = self.nodes@;
        let ghost ways = self.kept_ways();
        let ghost longest = usize::MAX as nat;
        let mut w: usize = 0;
        proof {
            assert(ways.take(0) =~= Seq::empty());
            assert(self.nodes@ =~= counting(table, ways, 0, 0));
        }
        while w < self.ways.len()
            invariant
                w <= self.ways.len(),
                self.index == old(self).index,
                self.ways == old(self).ways,
                self.nodes_to_keep == old(self).nodes_to_keep,
                self.forbidden == old(self).forbidden,
                self.profile_type == old(self).profile_type,
                ways == self.kept_ways(),
                ways.len() == self.ways.len(),
                table == old(self).nodes@,
                longest == usize::MAX,
                indexed(table, self.index@),
                indexed(self.nodes@, self.index@),
                self.nodes@ == counting(table, ways, w as int, 0),
                first_missing(ways.take(w as int), table) is None,
            decreases self.ways.len() - w,
        {
            let len = self.ways[w].nodes.len();
            let ghost nodes = ways[w as int].nodes;
            assert(nodes == self.ways[w as int].nodes@);
            let mut k: usize = 0;
            while k < len
                invariant
                    k <= len,
                    w < self.ways.len(),
                    len == self.ways[w as int].nodes.len(),
                    nodes == self.ways[w as int].nodes@,
                    nodes == ways[w as int].nodes,
                    self.index == old(self).index,
                    self.ways == old(self).ways,
                    self.nodes_to_keep == old(self).nodes_to_keep,
                    self.forbidden == old(self).forbidden,
                    self.profile_type == old(self).profile_type,
                    ways == self.kept_ways(),
                    ways.len() == self.ways.len(),
                    table == old(self).nodes@,
                    longest == usize::MAX,
                    indexed(table, self.index@),
                    indexed(self.nodes@, self.index@),
                    self.nodes@ == counting(table, ways, w as int, k as nat),
                    first_missing(ways.take(w as int), table) is None,
                    missing_in_way(nodes, k as nat, table) is None,
                decreases len - k,
            {
                let id = self.ways[w].nodes[k];
                proof {
                    lemma_indexed_has(table, self.index@);
                }
                let place = match self.index.get(&id) {
                    Some(place) => *place,
                    None => {
                        proof {
                            lemma_first_missing_found(ways, w as int, (k + 1) as nat, table);
                        }
                        return Err(ReadError::MissingNode(id));
                    },
                };
                let weight: u128 = if k == 0 || k == len - 1 {
                    2
                } else {
                    1
                };
                let mut node = self.nodes[place];
                proof {
                    assert(weight == use_weight(nodes.len(), k as nat));
                    assert(table[place as int].id == id);
                    lemma_uses_in_way_bound(nodes, (k + 1) as nat, id);
                    assert forall|v: int| 0 <= v < ways.take(w as int).len() implies (
                    #[trigger] ways.take(w as int)[v]).nodes.len() <= longest by {
                        assert(ways.take(w as int)[v] == self.ways[v]@);
                        assert(self.ways@[v].nodes.len() == self.ways@[v].nodes@.len());
                    }
                    lemma_uses_in_bound(ways.take(w as int), id, longest);
                    lemma_count_fits(w as nat, (k + 1) as nat, longest);
                }
                node.uses = node.uses + weight;
                let ghost before = self.nodes@;
                self.nodes.set(place, node);
                proof {
                    assert forall|i: int| 0 <= i < table.len() implies self.nodes@[i] == counting(
                        table,
                        ways,
                        w as int,
                        (k + 1) as nat,
                    )[i] by {
                        if i != place {
                            assert(table[i].id != id) by {
                                if table[i].id == id {
                                    assert(self.index@[table[i].id] == i);
                                }
                            }
                            assert(self.nodes@[i] == before[i]);
                        }
                    }
                    assert(self.nodes@ =~= counting(table, ways, w as int, (k + 1) as nat));
                    assert forall|i: int| 0 <= i < self.nodes@.len() implies self.index@.contains_key(
                        (#[trigger] self.nodes@[i]).id,
                    ) && self.index@[self.nodes@[i].id] == i by {
                        assert(self.nodes@[i].id == table[i].id);
                    }
                }
                k = k + 1;
            }
            proof {
                let next = ways.take(w + 1);
                assert(next.drop_last() =~= ways.take(w as int));
                assert(next.last() == ways[w as int]);
                assert forall|i: int| 0 <= i < table.len() implies counting(
                    table,
                    ways,
                    w as int,
                    len as nat,
                )[i] == counting(table, ways, w + 1, 0)[i] by {}
                assert(self.nodes@ =~= counting(table, ways, w + 1, 0));
            }
            w = w + 1;
        }
        proof {
            assert(ways.take(w as int) =~= ways);
            assert(self.nodes@ =~= counted(table, ways));
            assert forall|v: int| 0 <= v < ways.len() implies (#[trigger] ways[v]).nodes.len()
                <= usize::MAX by {
                assert(ways[v] == self.ways[v]@);
                assert(self.ways@[v].nodes.len() == self.ways@[v].nodes@.len());
            }
            assert forall|v: int, k: int|
                0 <= v < ways.len() && 0 <= k < ways[v].nodes.len() && (k == 0 || k
                    == ways[v].nodes.len() - 1) implies is_vertex(
                self.nodes@,
                #[trigger] ways[v].nodes[k],
            ) by {
                lemma_end_is_vertex(ways, table, v, k);
            }
        }
        Ok(())
    }

    /// The materialized node with this id.
    fn node(&self, id: i64) -> (node: Node)
        requires
            indexed(self.nodes@, self.index@),
            has_node(self.nodes@, id),
        ensures
            node == node_of(self.nodes@, id),
    {
        proof {
            lemma_indexed_has(self.nodes@, self.index@);
        }
        match self.index.get(&id) {
            Some(place) => self.nodes[*place],
            None => vstd::pervasive::unreached(),
        }
    }

    /// Splits a way into edges: an edge ends, and the next begins, at every
    /// node with more than one use but the first. Every edge has two points
    /// or more, from the coordinate of its source to that of its target; and
    /// where the way has two nodes or more and ends at a node with more
    /// than one use, the edges are a chain from its first node to its last
    /// whose geometries joined are the coordinates of its nodes.
    pub fn split_way(&self, way: &Way) -> (result: Vec<Edge>)
        requires
            self.is_indexed(),
            forall|k: int|
                0 <= k < way.nodes@.len() ==> has_node(self.table(), #[trigger] way.nodes@[k]),
        ensures
            edge_views(result@) == split(way@, self.table()),
            forall|j: int| 0 <= j < result.len() ==> spans((#[trigger] result[j])@, self.table()),
            way.nodes@.len() >= 2 && is_vertex(self.table(), way.nodes@.last()) ==> is_chain(
                edge_views(result@),
                way@,
                self.table(),
                way.nodes@.len() - 1,
            ),
    {
        proof {
            lemma_edges_span(way@, self.nodes@, way.nodes@.len());
            lemma_edges_chain(way@, self.nodes@, way.nodes@.len());
            if way.nodes@.len() >= 2 && is_vertex(self.nodes@, way.nodes@.last()) {
                let last = way.nodes@.len() - 1;
                assert(open_from(way@.nodes, self.nodes@, way.nodes@.len()) == last);
            }
        }
        let ghost table = self.nodes@;
        let ghost data = way@;
        let mut result: Vec<Edge> = Vec::new();
        let mut source: i64 = 0;
        let mut geometry: Vec<Coord> = Vec::new();
        let mut i: usize = 0;
        assert(edge_views(result@) =~= edges_of(data, table, 0));
        while i < way.nodes.len()
            invariant
                i <= way.nodes.len(),
                table == self.nodes@,
                data == way@,
                data.nodes == way.nodes@,
                indexed(self.nodes@, self.index@),
                forall|k: int|
                    0 <= k < way.nodes@.len() ==> has_node(self.nodes@, #[trigger] way.nodes@[k]),
                edge_views(result@) == edges_of(data, table, i as nat),
                i >= 1 ==> open_from(data.nodes, table, i as nat) < i,
                i >= 1 ==> source == data.nodes[open_from(data.nodes, table, i as nat) as int],
                i >= 1 ==> geometry@ == coords(
                    data.nodes,
                    table,
                    open_from(data.nodes, table, i as nat) as int,
                    i - 1,
                ),
                i == 0 ==> geometry@.len() == 0,
            decreases way.nodes.len() - i,
        {
            let node_id = way.nodes[i];
            let node = self.node(node_id);
            let ghost from = open_from(data.nodes, table, i as nat) as int;
            let ghost before = edge_views(result@);
            if i == 0 {
                source = node_id;
                geometry.push(node.coord);
                assert(geometry@ =~= coords(data.nodes, table, 0, 0));
                assert(edge_views(result@) =~= edges_of(data, table, 1));
            } else {
                geometry.push(node.coord);
                assert(geometry@ =~= coords(data.nodes, table, from, i as int));
                if node.uses > 1 {
                    proof {
                        reveal_strlit("-");
                    }
                    let mut id = String::new();
                    push_signed_decimal(&mut id, way.id);
                    id.append("-");
                    push_decimal(&mut id, result.len() as u64);
                    assert(id@ =~= edge_id(way.id, result.len() as nat));
                    let edge = Edge {
                        id,
                        osm_id: way.id,
                        source,
                        target: node_id,
                        geometry,
                        properties: way.properties.duplicate(),
                    };
                    assert(edge@ == edge_between(data, table, from, i as int, before.len()));
                    result.push(edge);
                    assert(edge_views(result@) =~= before.push(
                        edge_between(data, table, from, i as int, before.len()),
                    ));
                    source = node_id;
                    geometry = Vec::new();
                    geometry.push(node.coord);
                    assert(geometry@ =~= coords(data.nodes, table, i as int, i as int));
                }
            }
            i = i + 1;
        }
        proof {
            assert forall|j: int| 0 <= j < result.len() implies spans(
                (#[trigger] result[j])@,
                table,
            ) by {
                assert(edge_views(result@)[j] == result[j]@);
            }
        }
        result
    }

    /// The edges of all the kept ways, way by way. Every edge has two points
    /// or more, from the coordinate of its source to that of its target.
    pub fn edges(&self) -> (result: Vec<Edge>)
        requires
            self.is_indexed(),
            first_missing(self.kept_ways(), self.table()) is None,
        ensures
            edge_views(result@) == all_edges(self.kept_ways(), self.table()),
            forall|j: int| 0 <= j < result.len() ==> spans((#[trigger] result[j])@, self.table()),
    {
        let ghost table = self.nodes@;
        let ghost ways = self.kept_ways();
        let mut result: Vec<Edge> = Vec::new();
        let mut w: usize = 0;
        proof {
            assert(ways.take(0) =~= Seq::empty());
            assert(edge_views(result@) =~= all_edges(ways.take(0), table));
        }
        while w < self.ways.len()
            invariant
                w <= self.ways.len(),
                table == self.nodes@,
                ways == self.kept_ways(),
                ways.len() == self.ways.len(),
                indexed(self.nodes@, self.index@),
                first_missing(ways, table) is None,
                edge_views(result@) == all_edges(ways.take(w as int), table),
            decreases self.ways.len() - w,
        {
            proof {
                lemma_nothing_missing(ways, table, w as int);
                assert(ways[w as int] == self.ways[w as int]@);
                assert forall|k: int| 0 <= k < self.ways[w as int].nodes@.len() implies has_node(
                    table,
                    #[trigger] self.ways[w as int].nodes@[k],
                ) by {
                    assert(has_node(table, ways[w as int].nodes[k]));
                }
            }
            let mut edges = self.split_way(&self.ways[w]);
            let ghost before = edge_views(result@);
            let ghost added = edge_views(edges@);
            result.append(&mut edges);
            proof {
                assert(edge_views(result@) =~= before + added);
                assert(ways.take(w + 1).drop_last() =~= ways.take(w as int));
                assert(ways.take(w + 1).last() == ways[w as int]);
            }
            w = w + 1;
        }
        assert(ways.take(w as int) =~= ways);
        proof {
            lemma_all_edges_span(ways, table);
            assert forall|j: int| 0 <= j < result.len() implies spans(
                (#[trigger] result[j])@,
                table,
            ) by {
                assert(edge_views(result@)[j] == result[j]@);
            }
        }
        result
    }

    /// The materialized nodes with more than one use, each as it stands in
    /// the table and in the order of the table.
    pub fn nodes(self) -> (result: Vec<Node>)
        ensures
            result@ == vertices(self.table()),
            forall|i: int| 0 <= i < result.len() ==> (#[trigger] result[i]).uses > 1,
            forall|i: int| 0 <= i < result.len() ==> self.table().contains(#[trigger] result[i]),
            self.is_indexed() ==> distinct_ids(result@),
    {
        proof {
            lemma_vertices_are_used(self.nodes@);
            lemma_vertices_of_table(self.nodes@);
            if self.is_indexed() {
                assert(distinct_ids(self.nodes@)) by {
                    assert forall|a: int, b: int| 0 <= a < b < self.nodes@.len() implies (
                    #[trigger] self.nodes@[a]).id != (#[trigger] self.nodes@[b]).id by {
                        assert(self.index@[self.nodes@[a].id] == a);
                        assert(self.index@[self.nodes@[b].id] == b);
                    }
                }
            }
        }
        let mut result: Vec<Node> = Vec::new();
        let mut i: usize = 0;
        assert(self.nodes@.take(0) =~= Seq::empty());
        while i < self.nodes.len()
            invariant
                i <= self.nodes.len(),
                result@ == vertices(self.nodes@.take(i as int)),
            decreases self.nodes.len() - i,
        {
            let node = self.nodes[i];
            assert(self.nodes@.take(i + 1).drop_last() =~= self.nodes@.take(i as int));
            if node.uses > 1 {
                result.push(node);
            }
            i = i + 1;
        }
        assert(self.nodes@.take(i as int) =~= self.nodes@);
        result
    }

    /// Makes the graph of what was read: counts the uses of the nodes,
    /// splits the kept ways at the nodes with more than one use, and keeps
    /// those nodes. It fails where a kept way passes through a node that was
    /// not read, and then names the first such node.
    pub fn finish(self) -> (result: Result<(Vec<Node>, Vec<Edge>), ReadError>)
        requires
            self.wf(),
        ensures
            outcome(result) == graph(self.kept_ways(), self.table()),
            result matches Ok((nodes, edges)) ==> {
                &&& forall|i: int| 0 <= i < nodes.len() ==> (#[trigger] nodes[i]).uses > 1
                &&& distinct_ids(nodes@)
                &&& forall|j: int|
                    0 <= j < edges.len() ==> (#[trigger] edges[j]).geometry.len() >= 2
                &&& forall|j: int|
                    0 <= j < edges.len() ==> spans(
                        (#[trigger] edges[j])@,
                        counted(self.table(), self.kept_ways()),
                    )
            },
    {
        let mut reader = self;
        match reader.count_nodes_uses() {
            Err(error) => Err(error),
            Ok(()) => {
                proof {
                    lemma_missing_by_ids(self.kept_ways(), self.table(), reader.table());
                }
                let edges = reader.edges();
                let nodes = reader.nodes();
                proof {
                    let table = counted(self.table(), self.kept_ways());
                    lemma_vertices_are_used(table);
                    assert forall|j: int| 0 <= j < edges.len() implies (
                    #[trigger] edges[j]).geometry.len() >= 2 by {
                        assert(spans(edges[j]@, table));
                    }
                }
                Ok((nodes, edges))
            },
        }
    }

    /// Reads the ways, then the nodes, and makes the graph.
    pub fn read(self, ways: &Vec<OsmWay>, nodes: &Vec<OsmNode>) -> (result: Result<
        (Vec<Node>, Vec<Edge>),
        ReadError,
    >)
        requires
            self.wf(),
        ensures
            outcome(result) == graph(
                self.kept_ways() + kept_of(self.rules(), self.profile(), ways@),
                node_pass(
                    self.keep_set().union(
                        wanted_of(self.rules(), self.profile(), ways@, self.table()),
                    ),
                    self.table(),
                    nodes@,
                ).1,
            ),
            result matches Ok((nodes, edges)) ==> {
                &&& forall|i: int| 0 <= i < nodes.len() ==> (#[trigger] nodes[i]).uses > 1
                &&& forall|j: int|
                    0 <= j < edges.len() ==> (#[trigger] edges[j]).geometry.len() >= 2
            },
    {
        let mut reader = self;
        reader.read_ways(ways);
        reader.read_nodes(nodes);
        reader.finish()
    }
}

/// Where no way lacks a node, the way at `place` lacks none.
proof fn lemma_nothing_missing(ways: Seq<WayData>, table: Seq<Node>, place: int)
    requires
        0 <= place < ways.len(),
        first_missing(ways, table) is None,
    ensures
        forall|k: int|
            0 <= k < ways[place].nodes.len() ==> has_node(table, #[trigger] ways[place].nodes[k]),
    decreases ways.len(),
{
    if place == ways.len() - 1 {
        let nodes = ways[place].nodes;
        assert forall|k: int| 0 <= k < nodes.len() implies has_node(table, #[trigger] nodes[k]) by {
            lemma_nothing_missing_in_way(nodes, nodes.len(), table, k);
        }
    } else {
        lemma_nothing_missing(ways.drop_last(), table, place);
    }
}

/// Where the first `n` nodes of a way are all in the table, each is.
proof fn lemma_nothing_missing_in_way(nodes: Seq<i64>, n: nat, table: Seq<Node>, k: int)
    requires
        0 <= k < n,
        missing_in_way(nodes, n, table) is None,
    ensures
        has_node(table, nodes[k]),
    decreases n,
{
    if k < n - 1 {
        lemma_nothing_missing_in_way(nodes, (n - 1) as nat, table, k);
    }
}

/// Which node is missing depends on the ids in the table only.
proof fn lemma_missing_by_ids(ways: Seq<WayData>, table: Seq<Node>, other: Seq<Node>)
    requires
        table.len() == other.len(),
        forall|i: int| 0 <= i < table.len() ==> (#[trigger] table[i]).id == other[i].id,
    ensures
        first_missing(ways, other) == first_missing(ways, table),
    decreases ways.len(),
{
    if ways.len() > 0 {
        lemma_missing_by_ids(ways.drop_last(), table, other);
        lemma_missing_in_way_by_ids(ways.last().nodes, ways.last().nodes.len(), table, other);
    }
}

/// Which node of a way is missing depends on the ids in the table only.
proof fn lemma_missing_in_way_by_ids(nodes: Seq<i64>, n: nat, table: Seq<Node>, other: Seq<Node>)
    requires
        table.len() == other.len(),
        forall|i: int| 0 <= i < table.len() ==> (#[trigger] table[i]).id == other[i].id,
    ensures
        missing_in_way(nodes, n, other) == missing_in_way(nodes, n, table),
    decreases n,
{
    if n > 0 {
        lemma_missing_in_way_by_ids(nodes, (n - 1) as nat, table, other);
        let id = nodes[n - 1];
        if has_node(table, id) {
            let i = choose|i: int| 0 <= i < table.len() && (#[trigger] table[i]).id == id;
            assert(other[i].id == id);
        }
        if has_node(other, id) {
            let i = choose|i: int| 0 <= i < other.len() && (#[trigger] other[i]).id == id;
            assert(table[i].id == id);
        }
    }
}

/// Where the first `n` nodes of the way at `place` lack their last node only,
/// and the ways before lack none, that node is the first missing one.
proof fn lemma_first_missing_found(ways: Seq<WayData>, place: int, n: nat, table: Seq<Node>)
    requires
        0 <= place < ways.len(),
        1 <= n <= ways[place].nodes.len(),
        first_missing(ways.take(place), table) is None,
        missing_in_way(ways[place].nodes, (n - 1) as nat, table) is None,
        !has_node(table, ways[place].nodes[n - 1]),
    ensures
        first_missing(ways, table) == Some(ways[place].nodes[n - 1]),
{
    let id = ways[place].nodes[n - 1];
    let nodes = ways[place].nodes;
    assert(missing_in_way(nodes, n, table) == Some(id));
    lemma_missing_in_way_stays(nodes, n, nodes.len(), table);
    lemma_first_missing_stays(ways, place + 1, ways.len() as int, table, id);
    assert(ways.take(ways.len() as int) =~= ways);
}

/// What the first `n` nodes of a way lack first, more of its nodes lack first
/// too.
proof fn lemma_missing_in_way_stays(nodes: Seq<i64>, n: nat, more: nat, table: Seq<Node>)
    requires
        n <= more,
        missing_in_way(nodes, n, table) is Some,
    ensures
        missing_in_way(nodes, more, table) == missing_in_way(nodes, n, table),
    decreases more,
{
    if n < more {
        lemma_missing_in_way_stays(nodes, n, (more - 1) as nat, table);
    }
}

/// What the first `n` ways lack first, more of the ways lack first too.
proof fn lemma_first_missing_stays(ways: Seq<WayData>, n: int, more: int, table: Seq<Node>, id: i64)
    requires
        1 <= n <= more <= ways.len(),
        first_missing(ways.take(n - 1), table) is None,
        missing_in_way(ways[n - 1].nodes, ways[n - 1].nodes.len(), table) == Some(id),
    ensures
        first_missing(ways.take(more), table) == Some(id),
    decreases more,
{
    if n < more {
        lemma_first_missing_stays(ways, n, more - 1, table, id);
        assert(ways.take(more).drop_last() =~= ways.take(more - 1));
    } else {
        assert(ways.take(n).drop_last() =~= ways.take(n - 1));
        assert(ways.take(n).last() == ways[n - 1]);
    }
}

/// The count of a node's uses fits in 128 bits: with `done` ways counted and
/// `n` nodes of the next, of at most `longest` nodes each.
proof fn lemma_count_fits(done: nat, n: nat, longest: nat)
    requires
        done < longest,
        n <= longest,
        longest <= u64::MAX,
    ensures
        done * (longest + 2) + n + 2 <= u128::MAX,
{
    assert(done * (longest + 2) + n + 2 <= longest * (longest + 2)) by (nonlinear_arith)
        requires
            done + 1 <= longest,
            n <= longest,
    ;
    assert(longest * (longest + 2) <= 0xffff_ffff_ffff_ffff * 0x1_0000_0000_0000_0001)
        by (nonlinear_arith)
        requires
            longest <= 0xffff_ffff_ffff_ffff,
    ;
}

/// An indexed table holds a node for exactly the ids of its index.
pub proof fn lemma_indexed_has(table: Seq<Node>, index: Map<i64, usize>)
    requires
        indexed(table, index),
    ensures
        forall|id: i64| has_node(table, id) <==> #[trigger] index.contains_key(id),
        forall|id: i64| #[trigger]
            index.contains_key(id) ==> node_of(table, id) == table[index[id] as int],
{
    assert forall|id: i64| #[trigger] index.contains_key(id) implies has_node(table, id) && node_of(
        table,
        id,
    ) == table[index[id] as int] by {
        let place = index[id] as int;
        assert(table[place].id == id);
        let i = choose|i: int| 0 <= i < table.len() && (#[trigger] table[i]).id == id;
        assert(index[table[i].id] == i);
    }
    assert forall|id: i64| has_node(table, id) implies #[trigger] index.contains_key(id) by {
        let i = choose|i: int| 0 <= i < table.len() && (#[trigger] table[i]).id == id;
        assert(index.contains_key(table[i].id));
    }
}

/// Reads the ways and the nodes of a source, and makes the graph of the ways
/// that `profile_type` keeps: the nodes with more than one use, and the edges
/// between them.
pub fn read(ways: &Vec<OsmWay>, nodes: &Vec<OsmNode>, profile_type: ProfileType) -> (result: Result<
    (Vec<Node>, Vec<Edge>),
    ReadError,
>)
    ensures
        outcome(result) == graph(
            kept_of(Seq::empty(), profile_type, ways@),
            node_pass(
                wanted_of(Seq::empty(), profile_type, ways@, Seq::empty()),
                Seq::empty(),
                nodes@,
            ).1,
        ),
        result matches Ok((nodes, edges)) ==> {
            &&& forall|i: int| 0 <= i < nodes.len() ==> (#[trigger] nodes[i]).uses > 1
            &&& forall|j: int| 0 <= j < edges.len() ==> (#[trigger] edges[j]).geometry.len() >= 2
        },
{
    let reader = Reader::new(profile_type);
    proof {
        let kept = kept_of(Seq::empty(), profile_type, ways@);
        let wanted = wanted_of(Seq::empty(), profile_type, ways@, Seq::empty());
        assert(reader.kept_ways() + kept =~= kept);
        assert(reader.keep_set().union(wanted) =~= wanted);
    }
    reader.read(ways, nodes)
}

/// A way whose every tag is excluded by a rule is not kept: it adds no way,
/// hence no edge, and no node to the keep-set.
pub proof fn lemma_excluded_way_is_dropped(
    rules: Rules,
    profile: ProfileType,
    input: Seq<OsmWay>,
    way: OsmWay,
    table: Seq<Node>,
)
    requires
        forall|t: int|
            0 <= t < way.tags@.len() ==> tag_forbidden(
                rules,
                (#[trigger] way.tags@[t]).0@,
                way.tags@[t].1@,
            ),
    ensures
        !is_kept(rules, profile, way),
        kept_of(rules, profile, input.push(way)) == kept_of(rules, profile, input),
        wanted_of(rules, profile, input.push(way), table) == wanted_of(
            rules,
            profile,
            input,
            table,
        ),
{
    if way.tags@.len() > 0 {
        assert(tag_forbidden(rules, way.tags@[0].0@, way.tags@[0].1@));
    }
    let more = input.push(way);
    assert(more.drop_last() =~= input);
    assert forall|id: i64|
        wanted_of(rules, profile, more, table).contains(id) <==> wanted_of(
            rules,
            profile,
            input,
            table,
        ).contains(id) by {
        if wanted_of(rules, profile, more, table).contains(id) {
            let w = choose|w: int|
                0 <= w < more.len() && is_kept(rules, profile, #[trigger] more[w])
                    && more[w].nodes@.contains(id);
            assert(input[w] == more[w]);
        }
        if wanted_of(rules, profile, input, table).contains(id) {
            let w = choose|w: int|
                0 <= w < input.len() && is_kept(rules, profile, #[trigger] input[w])
                    && input[w].nodes@.contains(id);
            assert(more[w] == input[w]);
        }
    }
    assert(wanted_of(rules, profile, more, table) =~= wanted_of(rules, profile, input, table));
}

/// The geometry of a chain of edges: the points of the first, then of each
/// other edge the points after its first.
pub open spec fn joined(edges: Seq<EdgeData>) -> Seq<Coord>
    decreases edges.len(),
{
    if edges.len() == 0 {
        Seq::empty()
    } else if edges.len() == 1 {
        edges[0].geometry
    } else {
        joined(edges.drop_last()) + edges.last().geometry.drop_first()
    }
}

/// Whether `edges` is a chain along the nodes of `way` from the first node
/// to the node at `last`: it begins at the first node and ends at the node at
/// `last`, each edge begins where the one before ends, and the geometries
/// joined are the coordinates of the nodes in between, each once.
pub open spec fn is_chain(edges: Seq<EdgeData>, way: WayData, table: Seq<Node>, last: int) -> bool {
    &&& edges.len() > 0
    &&& edges[0].source == way.nodes[0]
    &&& edges.last().target == way.nodes[last]
    &&& forall|j: int|
        0 <= j < edges.len() - 1 ==> (#[trigger] edges[j]).target == edges[j + 1].source
    &&& joined(edges) == coords(way.nodes, table, 0, last)
}

/// The edges closed within the first `n` nodes of a way are a chain up to
/// the node at which the open edge begins.
pub proof fn lemma_edges_chain(way: WayData, table: Seq<Node>, n: nat)
    ensures
        edges_of(way, table, n).len() == 0 ==> open_from(way.nodes, table, n) == 0,
        edges_of(way, table, n).len() > 0 ==> is_chain(
            edges_of(way, table, n),
            way,
            table,
            open_from(way.nodes, table, n) as int,
        ),
    decreases n,
{
    if n > 1 {
        lemma_edges_chain(way, table, (n - 1) as nat);
        lemma_open_from_before(way.nodes, table, (n - 1) as nat);
        let before = edges_of(way, table, (n - 1) as nat);
        let from = open_from(way.nodes, table, (n - 1) as nat) as int;
        if is_vertex(table, way.nodes[n - 1]) {
            let edge = edge_between(way, table, from, n - 1, before.len());
            let edges = before.push(edge);
            assert(edges.drop_last() =~= before);
            if before.len() == 0 {
                assert(joined(edges) =~= coords(way.nodes, table, 0, n - 1));
            } else {
                assert(joined(edges) =~= coords(way.nodes, table, 0, n - 1));
                assert forall|j: int| 0 <= j < edges.len() - 1 implies (#[trigger] edges[j]).target
                    == edges[j + 1].source by {
                    if j < before.len() - 1 {
                        assert(before[j].target == before[j + 1].source);
                    }
                }
            }
        }
    }
}

/// A way counts its last node twice or more.
pub proof fn lemma_way_uses_its_end(nodes: Seq<i64>, n: nat, k: int)
    requires
        0 <= k < n <= nodes.len(),
    ensures
        uses_in_way(nodes, n, nodes[k]) >= use_weight(nodes.len(), k as nat),
    decreases n,
{
    if k < n - 1 {
        lemma_way_uses_its_end(nodes, (n - 1) as nat, k);
    }
}

/// The ways count every node that one of them passes through as often as
/// that way does, or more.
pub proof fn lemma_ways_use_their_nodes(ways: Seq<WayData>, place: int, id: i64)
    requires
        0 <= place < ways.len(),
    ensures
        uses_in(ways, id) >= uses_in_way(ways[place].nodes, ways[place].nodes.len(), id),
    decreases ways.len(),
{
    if place < ways.len() - 1 {
        lemma_ways_use_their_nodes(ways.drop_last(), place, id);
    }
}

/// Once the uses are counted, the first and the last node of every way
/// have more than one use.
pub proof fn lemma_end_is_vertex(ways: Seq<WayData>, table: Seq<Node>, place: int, k: int)
    requires
        0 <= place < ways.len(),
        0 <= k < ways[place].nodes.len(),
        k == 0 || k == ways[place].nodes.len() - 1,
        first_missing(ways, table) is None,
        ways.len() <= usize::MAX,
        forall|w: int| 0 <= w < ways.len() ==> (#[trigger] ways[w]).nodes.len() <= usize::MAX,
    ensures
        is_vertex(counted(table, ways), ways[place].nodes[k]),
{
    let way = ways[place];
    let used = counted(table, ways);
    let id = way.nodes[k];
    lemma_nothing_missing(ways, table, place);
    assert(has_node(table, way.nodes[k]));
    let i = choose|i: int| 0 <= i < table.len() && (#[trigger] table[i]).id == id;
    assert(used[i].id == id);
    assert(has_node(used, id));
    let j = choose|j: int| 0 <= j < used.len() && (#[trigger] used[j]).id == id;
    assert(table[j].id == id);
    lemma_way_uses_its_end(way.nodes, way.nodes.len(), k);
    lemma_ways_use_their_nodes(ways, place, id);
    assert(uses_in(ways, id) <= u128::MAX) by {
        lemma_uses_in_bound(ways, id, usize::MAX as nat);
        assert(ways.len() * (usize::MAX + 2) == (ways.len() - 1) * (usize::MAX + 2) + (usize::MAX
            + 2)) by (nonlinear_arith);
        lemma_count_fits((ways.len() - 1) as nat, usize::MAX as nat, usize::MAX as nat);
    }
}

/// Once the uses are counted, a kept way of two nodes or more is split into
/// a chain of edges from its first node to its last: nothing of the way is
/// left out, and nothing comes twice.
pub proof fn lemma_split_covers_the_way(ways: Seq<WayData>, table: Seq<Node>, place: int)
    requires
        0 <= place < ways.len(),
        ways[place].nodes.len() >= 2,
        first_missing(ways, table) is None,
        ways.len() <= usize::MAX,
        forall|w: int| 0 <= w < ways.len() ==> (#[trigger] ways[w]).nodes.len() <= usize::MAX,
    ensures
        is_chain(
            split(ways[place], counted(table, ways)),
            ways[place],
            counted(table, ways),
            ways[place].nodes.len() - 1,
        ),
{
    let way = ways[place];
    lemma_end_is_vertex(ways, table, place, way.nodes.len() - 1);
    lemma_edges_chain(way, counted(table, ways), way.nodes.len());
}

/// The ids of the nodes that `ways` pass through.
pub open spec fn passed(ways: Seq<WayData>) -> Set<i64> {
    Set::new(
        |id: i64|
            exists|w: int, k: int|
                0 <= w < ways.len() && 0 <= k < ways[w].nodes.len() && #[trigger] ways[w].nodes[k]
                    == id,
    )
}

/// Whether `table` holds the first `n` nodes of a way.
pub open spec fn holds_way(nodes: Seq<i64>, n: nat, table: Seq<Node>) -> bool {
    forall|k: int| 0 <= k < n ==> has_node(table, #[trigger] nodes[k])
}

/// No node of the first `n` of a way is missing where the table holds them
/// all, and only there.
pub proof fn lemma_missing_in_way_none(nodes: Seq<i64>, n: nat, table: Seq<Node>)
    requires
        n <= nodes.len(),
    ensures
        missing_in_way(nodes, n, table) is None <==> holds_way(nodes, n, table),
    decreases n,
{
    if n > 0 {
        lemma_missing_in_way_none(nodes, (n - 1) as nat, table);
        if holds_way(nodes, n, table) {
            assert(has_node(table, nodes[n - 1]));
            assert(holds_way(nodes, (n - 1) as nat, table));
        }
        if missing_in_way(nodes, n, table) is None {
            assert forall|k: int| 0 <= k < n implies has_node(table, #[trigger] nodes[k]) by {
                if k < n - 1 {
                    assert(holds_way(nodes, (n - 1) as nat, table));
                }
            }
        }
    }
}

/// No node is missing where the table holds every node that the ways pass
/// through, and only there.
pub proof fn lemma_first_missing_none(ways: Seq<WayData>, table: Seq<Node>)
    ensures
        first_missing(ways, table) is None <==> forall|id: i64| #[trigger]
            passed(ways).contains(id) ==> has_node(table, id),
    decreases ways.len(),
{
    if ways.len() > 0 {
        let before = ways.drop_last();
        let last = ways.last();
        lemma_first_missing_none(before, table);
        lemma_missing_in_way_none(last.nodes, last.nodes.len(), table);
        if first_missing(ways, table) is None {
            assert forall|id: i64| #[trigger] passed(ways).contains(id) implies has_node(
                table,
                id,
            ) by {
                let (w, k) = choose|w: int, k: int|
                    0 <= w < ways.len() && 0 <= k < ways[w].nodes.len() && #[trigger] ways[w].nodes[k]
                        == id;
                if w < before.len() {
                    assert(before[w].nodes[k] == id);
                    assert(passed(before).contains(id));
                } else {
                    assert(has_node(table, last.nodes[k]));
                }
            }
        }
        if forall|id: i64| #[trigger] passed(ways).contains(id) ==> has_node(table, id) {
            assert forall|id: i64| #[trigger] passed(before).contains(id) implies has_node(
                table,
                id,
            ) by {
                let (w, k) = choose|w: int, k: int|
                    0 <= w < before.len() && 0 <= k < before[w].nodes.len()
                        && #[trigger] before[w].nodes[k] == id;
                assert(ways[w].nodes[k] == id);
                assert(passed(ways).contains(id));
            }
            assert forall|k: int| 0 <= k < last.nodes.len() implies has_node(
                table,
                #[trigger] last.nodes[k],
            ) by {
                assert(ways[ways.len() - 1].nodes[k] == last.nodes[k]);
                assert(passed(ways).contains(last.nodes[k]));
            }
        }
    }
}

/// The nodes that the kept ways pass through are those of the ways of the
/// source that are kept.
pub proof fn lemma_passed_by_kept(rules: Rules, profile: ProfileType, input: Seq<OsmWay>)
    ensures
        forall|id: i64|
            passed(kept_of(rules, profile, input)).contains(id) <==> (exists|w: int|
                0 <= w < input.len() && is_kept(rules, profile, #[trigger] input[w])
                    && input[w].nodes@.contains(id)),
    decreases input.len(),
{
    let kept = kept_of(rules, profile, input);
    if input.len() == 0 {
        assert forall|id: i64| !passed(kept).contains(id) by {}
    } else {
        let before = input.drop_last();
        let last = input.last();
        let kept_before = kept_of(rules, profile, before);
        lemma_passed_by_kept(rules, profile, before);
        assert forall|id: i64|
            passed(kept).contains(id) <==> (exists|w: int|
                0 <= w < input.len() && is_kept(rules, profile, #[trigger] input[w])
                    && input[w].nodes@.contains(id)) by {
            if passed(kept).contains(id) {
                let (v, k) = choose|v: int, k: int|
                    0 <= v < kept.len() && 0 <= k < kept[v].nodes.len() && #[trigger] kept[v].nodes[k]
                        == id;
                if v < kept_before.len() {
                    assert(kept_before[v].nodes[k] == id);
                    assert(passed(kept_before).contains(id));
                    let w = choose|w: int|
                        0 <= w < before.len() && is_kept(rules, profile, #[trigger] before[w])
                            && before[w].nodes@.contains(id);
                    assert(input[w] == before[w]);
                } else {
                    assert(last.nodes@[k] == id);
                    assert(input[input.len() - 1] == last);
                }
            }
            if exists|w: int|
                0 <= w < input.len() && is_kept(rules, profile, #[trigger] input[w])
                    && input[w].nodes@.contains(id) {
                let w = choose|w: int|
                    0 <= w < input.len() && is_kept(rules, profile, #[trigger] input[w])
                        && input[w].nodes@.contains(id);
                if w < before.len() {
                    assert(before[w] == input[w]);
                    assert(passed(kept_before).contains(id));
                    let (v, k) = choose|v: int, k: int|
                        0 <= v < kept_before.len() && 0 <= k < kept_before[v].nodes.len()
                            && #[trigger] kept_before[v].nodes[k] == id;
                    assert(kept[v].nodes[k] == id);
                } else {
                    let k = choose|k: int| 0 <= k < last.nodes@.len() && last.nodes@[k] == id;
                    assert(kept[kept.len() - 1].nodes[k] == id);
                }
            }
        }
    }
}

/// The node pass moves ids from the keep-set to the table: an id is in one
/// of the two after the pass where it was in one of them before, and never
/// in both.
pub proof fn lemma_node_pass_moves(keep: Set<i64>, table: Seq<Node>, input: Seq<OsmNode>)
    requires
        forall|id: i64| keep.contains(id) ==> !has_node(table, id),
    ensures
        forall|id: i64|
            #![trigger node_pass(keep, table, input).0.contains(id)]
            #![trigger has_node(node_pass(keep, table, input).1, id)]
            {
                let after = node_pass(keep, table, input);
                &&& (after.0.contains(id) || has_node(after.1, id)) <==> (keep.contains(id)
                    || has_node(table, id))
                &&& !(after.0.contains(id) && has_node(after.1, id))
            },
    decreases input.len(),
{
    if input.len() > 0 {
        lemma_node_pass_moves(keep, table, input.drop_last());
        let before = node_pass(keep, table, input.drop_last());
        let after = node_pass(keep, table, input);
        let node = input.last();
        assert forall|id: i64|
            #![trigger after.0.contains(id)]
            #![trigger has_node(after.1, id)]
            ((after.0.contains(id) || has_node(after.1, id)) <==> (keep.contains(id) || has_node(
                table,
                id,
            ))) && !(after.0.contains(id) && has_node(after.1, id)) by {
            assert(before.0.contains(id) || !before.0.contains(id));
            assert(has_node(before.1, id) || !has_node(before.1, id));
            if before.0.contains(node.id) {
                let pushed = before.1.push(fresh_node(node));
                if has_node(before.1, id) {
                    let i = choose|i: int| 0 <= i < before.1.len() && (#[trigger] before.1[i]).id == id;
                    assert(pushed[i].id == id);
                }
                if has_node(pushed, id) {
                    let i = choose|i: int| 0 <= i < pushed.len() && (#[trigger] pushed[i]).id == id;
                    if i < before.1.len() {
                        assert(before.1[i].id == id);
                    }
                }
                assert(pushed[before.1.len() as int].id == node.id);
            }
        }
    }
}

/// After the two passes, a node is missing where the keep-set is not empty,
/// and only there: every id that the way pass asks for and the node pass does
/// not find stays in the keep-set.
pub proof fn lemma_missing_where_keep_left(
    rules: Rules,
    profile: ProfileType,
    ways: Seq<OsmWay>,
    nodes: Seq<OsmNode>,
)
    ensures
        ({
            let kept = kept_of(rules, profile, ways);
            let wanted = wanted_of(rules, profile, ways, Seq::empty());
            let after = node_pass(wanted, Seq::empty(), nodes);
            first_missing(kept, after.1) is None <==> after.0 == Set::<i64>::empty()
        }),
{
    let kept = kept_of(rules, profile, ways);
    let none = Seq::<Node>::empty();
    let wanted = wanted_of(rules, profile, ways, none);
    let after = node_pass(wanted, none, nodes);
    lemma_passed_by_kept(rules, profile, ways);
    lemma_node_pass_moves(wanted, none, nodes);
    lemma_first_missing_none(kept, after.1);
    assert forall|id: i64| passed(kept).contains(id) <==> wanted.contains(id) by {}
    if first_missing(kept, after.1) is None {
        assert forall|id: i64| !after.0.contains(id) by {
            if after.0.contains(id) {
                assert(wanted.contains(id));
                assert(passed(kept).contains(id));
            }
        }
        assert(after.0 =~= Set::<i64>::empty());
    }
    if after.0 == Set::<i64>::empty() {
        assert forall|id: i64| #[trigger] passed(kept).contains(id) implies has_node(
            after.1,
            id,
        ) by {
            assert(wanted.contains(id));
            assert(!after.0.contains(id));
        }
    }
}

} // verus!
