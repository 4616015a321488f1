//! Elements to anchored, tagged features.
//!
//! An extract is read in two passes. The first places every node. The second
//! takes the elements: a tagged node is anchored where it is, a way at the
//! integer centroid of its nodes, a relation at its `via` member, or at the
//! centroid of its members where it has none. Elements without tags become no
//! feature; they are geometry, and only the members that refer to them need
//! them.

use crate::order::{
    in_order, lemma_mapped_multiset, lemma_same_distinct, lemma_same_elements, sort, Ranked,
};
use crate::tags::{keys_seen, values_seen, TagSpan, TagStore};
use crate::text::{begins_with, has_prefix, listed, one_of, pairs, same_text, tag, value_of};
use crate::tms::{centroid, mean_cell, TileXy};
pub use crate::vocab::{OSM_NODE, OSM_RELATION, OSM_STREET_NODE, OSM_WAY};
use std::collections::HashMap;
use vstd::prelude::*;
use vstd::slice::slice_to_vec;
use vstd::std_specs::hash::*;

verus! {

broadcast use group_hash_axioms;

/// Whether a relation of this type is a turn restriction.
pub open spec fn names_restriction(kind: Option<Seq<char>>) -> bool {
    kind matches Some(t) && begins_with(t, "restriction"@)
}

/// Whether a relation of this type is a turn restriction.
pub fn is_restriction(t: Option<&str>) -> (r: bool)
    ensures
        r == (t matches Some(s) && names_restriction(Some(s@))),
{
    match t {
        Some(s) => has_prefix(s, "restriction"),
        None => false,
    }
}

/// Where a feature sits, and under which contract.
#[derive(Debug, Clone, Copy, PartialEq, Eq, Structural)]
pub enum Anchor {
    /// The cell of a coordinate that OSM itself publishes.
    Published(TileXy),
    /// A cell that was computed from the cells of members.
    Derived(TileXy),
}

/// The cell of an anchor.
pub open spec fn anchor_cell(a: Anchor) -> TileXy {
    match a {
        Anchor::Published(c) => c,
        Anchor::Derived(c) => c,
    }
}

impl Anchor {
    /// The cell that this anchor keys to.
    pub fn cell(self) -> (c: TileXy)
        ensures
            c == anchor_cell(self),
    {
        match self {
            Anchor::Published(c) => c,
            Anchor::Derived(c) => c,
        }
    }
}

/// One tagged feature, reduced to what a row needs.
#[derive(Debug, Clone, Copy, PartialEq, Eq, Structural)]
pub struct Feature {
    pub anchor: Anchor,
    pub entity_type: u16,
    /// The OSM id. It is not stored in the row.
    pub osm_id: i64,
    /// The feature's tags, as a span into the tag store.
    pub tags: TagSpan,
}

/// What a read covered.
#[derive(Debug, Clone, Copy, PartialEq, Eq, Structural)]
pub struct ReadStats {
    pub nodes_indexed: u64,
    pub tagged_nodes: u64,
    pub tagged_ways: u64,
    /// Relations that became a feature.
    pub relations_anchored: u64,
    /// Relations of whose members none could be placed.
    pub relations_unanchorable: u64,
    /// Restrictions that became a feature.
    pub restrictions: u64,
    /// Restrictions anchored at a `via` node, the junction itself.
    pub restrictions_via_node: u64,
    /// Restrictions anchored at the centroid of a `via` way.
    pub restrictions_via_way: u64,
    /// Restrictions without a `via` member that could be placed; these are anchored
    /// at the centroid of their members.
    pub restrictions_no_via: u64,
    /// Tagged ways of whose nodes none could be placed.
    pub ways_unresolved: u64,
    /// Tag pairs of all features. A relation that could not be anchored has no
    /// feature, and adds none.
    pub tag_pairs: u64,
    /// Distinct tag keys in the store.
    pub distinct_tag_keys: u64,
    /// Distinct tag values in the store.
    pub distinct_tag_values: u64,
}

impl Default for ReadStats {
    fn default() -> (s: Self)
        ensures
            s.nodes_indexed == 0 && s.tagged_nodes == 0 && s.tagged_ways == 0,
            s.relations_anchored == 0 && s.relations_unanchorable == 0,
            s.restrictions == 0 && s.restrictions_via_node == 0,
            s.restrictions_via_way == 0 && s.restrictions_no_via == 0,
            s.ways_unresolved == 0 && s.tag_pairs == 0,
            s.distinct_tag_keys == 0 && s.distinct_tag_values == 0,
    {
        ReadStats {
            nodes_indexed: 0,
            tagged_nodes: 0,
            tagged_ways: 0,
            relations_anchored: 0,
            relations_unanchorable: 0,
            restrictions: 0,
            restrictions_via_node: 0,
            restrictions_via_way: 0,
            restrictions_no_via: 0,
            ways_unresolved: 0,
            tag_pairs: 0,
            distinct_tag_keys: 0,
            distinct_tag_values: 0,
        }
    }
}

/// The cell of every element that could be placed, by id.
pub type PosMap = HashMap<i64, TileXy>;

// ── Relations ───────────────────────────────────────────────────────
/// What a member of a relation refers to.
#[derive(Debug, Clone, Copy, PartialEq, Eq, Structural)]
pub enum MemberKind {
    Node,
    Way,
    Relation,
}

/// A member of a relation as an extract states it. The role is absent where it
/// is not readable text.
#[derive(Debug, Clone, Copy)]
pub struct RawMember<'a> {
    pub kind: MemberKind,
    pub id: i64,
    pub role: Option<&'a str>,
}

/// A member of a relation, reduced to what anchoring needs.
#[derive(Debug, Clone, Copy, PartialEq, Eq, Structural)]
pub struct Member {
    pub is_node: bool,
    pub id: i64,
    pub via: bool,
}

/// A member that can anchor a relation; a relation cannot, it has no geometry of
/// its own.
pub open spec fn candidate(m: RawMember) -> Option<Member> {
    let via = m.role matches Some(r) && r@ == "via"@;
    match m.kind {
        MemberKind::Node => Some(Member { is_node: true, id: m.id, via }),
        MemberKind::Way => Some(Member { is_node: false, id: m.id, via }),
        MemberKind::Relation => None,
    }
}

/// The members that can anchor a relation, in order.
pub open spec fn candidates(members: Seq<RawMember>) -> Seq<Member>
    decreases members.len(),
{
    if members.len() == 0 {
        Seq::empty()
    } else {
        match candidate(members.last()) {
            Some(m) => candidates(members.drop_last()).push(m),
            None => candidates(members.drop_last()),
        }
    }
}

/// Reduces the members of a relation to those that can anchor it.
pub fn anchor_members(members: &[RawMember]) -> (out: Vec<Member>)
    ensures
        out@ == candidates(members@),
{
    let mut out: Vec<Member> = Vec::new();
    let mut i: usize = 0;
    assert(members@.take(0) =~= Seq::<RawMember>::empty());
    while i < members.len()
        invariant
            i <= members@.len(),
            out@ == candidates(members@.take(i as int)),
        decreases members@.len() - i,
    {
        let m: RawMember = members[i];
        proof {
            assert(members@.take(i + 1).drop_last() =~= members@.take(i as int));
            assert(members@.take(i + 1).last() == m);
        }
        let via: bool = match m.role {
            Some(r) => same_text(r, "via"),
            None => false,
        };
        match m.kind {
            MemberKind::Node => {
                out.push(Member { is_node: true, id: m.id, via });
            },
            MemberKind::Way => {
                out.push(Member { is_node: false, id: m.id, via });
            },
            MemberKind::Relation => {},
        }
        i = i + 1;
    }
    assert(members@.take(members@.len() as int) =~= members@);
    out
}

/// A relation held until every way has been placed.
#[derive(Debug)]
pub struct RawRelation {
    pub restriction: bool,
    pub members: Vec<Member>,
    pub tags: TagSpan,
}

/// Which branch of the anchor rule decided.
#[derive(Debug, Clone, Copy, PartialEq, Eq, Structural)]
pub enum AnchorVia {
    /// A `via` node: the junction itself.
    Node,
    /// The centroid of a `via` way.
    Way,
    /// No `via` member could be placed.
    Absent,
}

/// What a map says of an id.
pub open spec fn lookup<V>(m: Map<i64, V>, id: i64) -> Option<V> {
    if m.contains_key(id) {
        Some(m[id])
    } else {
        None
    }
}

/// The position of a member: a node's own cell, or a way's centroid.
pub open spec fn member_cell(m: Member, coords: Map<i64, TileXy>, ways: Map<i64, TileXy>) -> Option<
    TileXy,
> {
    lookup(
        if m.is_node {
            coords
        } else {
            ways
        },
        m.id,
    )
}

/// The cell under an id.
fn cell_of(m: &PosMap, id: i64) -> (c: Option<TileXy>)
    ensures
        c == lookup(m@, id),
{
    match m.get(&id) {
        Some(c) => Some(*c),
        None => None,
    }
}

/// The position of a member: a node's own cell, or a way's centroid.
pub fn member_pos(m: &Member, coords: &PosMap, ways: &PosMap) -> (c: Option<TileXy>)
    ensures
        c == member_cell(*m, coords@, ways@),
{
    if m.is_node {
        cell_of(coords, m.id)
    } else {
        cell_of(ways, m.id)
    }
}

/// The first `via` member.
pub open spec fn first_via(members: Seq<Member>) -> Option<Member>
    decreases members.len(),
{
    if members.len() == 0 {
        None
    } else {
        match first_via(members.drop_last()) {
            Some(m) => Some(m),
            None => if members.last().via {
                Some(members.last())
            } else {
                None
            },
        }
    }
}

/// The positions of the members that can be placed, in order.
pub open spec fn placed(
    members: Seq<Member>,
    coords: Map<i64, TileXy>,
    ways: Map<i64, TileXy>,
) -> Seq<TileXy>
    decreases members.len(),
{
    if members.len() == 0 {
        Seq::empty()
    } else {
        let front = placed(members.drop_last(), coords, ways);
        match member_cell(members.last(), coords, ways) {
            Some(c) => front.push(c),
            None => front,
        }
    }
}

/// The anchor of a relation: its `via` member where it has one that can be
/// placed, else the centroid of the members that can.
pub open spec fn relation_anchor(
    members: Seq<Member>,
    coords: Map<i64, TileXy>,
    ways: Map<i64, TileXy>,
) -> (Option<TileXy>, AnchorVia) {
    match first_via(members) {
        Some(via) => match member_cell(via, coords, ways) {
            Some(c) => (
                Some(c),
                if via.is_node {
                    AnchorVia::Node
                } else {
                    AnchorVia::Way
                },
            ),
            None => (centroid(placed(members, coords, ways)), AnchorVia::Absent),
        },
        None => (centroid(placed(members, coords, ways)), AnchorVia::Absent),
    }
}

/// Finds the first `via` member.
fn find_via(members: &[Member]) -> (m: Option<Member>)
    ensures
        m == first_via(members@),
{
    let mut found: Option<Member> = None;
    let mut i: usize = 0;
    assert(members@.take(0) =~= Seq::<Member>::empty());
    while i < members.len()
        invariant
            i <= members@.len(),
            found == first_via(members@.take(i as int)),
        decreases members@.len() - i,
    {
        proof {
            assert(members@.take(i + 1).drop_last() =~= members@.take(i as int));
            assert(members@.take(i + 1).last() == members@[i as int]);
        }
        if found.is_none() && members[i].via {
            found = Some(members[i]);
        }
        i = i + 1;
    }
    assert(members@.take(members@.len() as int) =~= members@);
    found
}

/// Anchors a relation. The `via` member wins where it can be placed: for a turn
/// restriction it is the junction itself. A relation has no anchor where none of
/// its members can be placed.
pub fn anchor_relation(rel: &RawRelation, coords: &PosMap, ways: &PosMap) -> (r: (
    Option<TileXy>,
    AnchorVia,
))
    ensures
        r == relation_anchor(rel.members@, coords@, ways@),
{
    let members: &[Member] = rel.members.as_slice();
    match find_via(members) {
        Some(via) => {
            match member_pos(&via, coords, ways) {
                Some(c) => {
                    let how: AnchorVia = if via.is_node {
                        AnchorVia::Node
                    } else {
                        AnchorVia::Way
                    };
                    return (Some(c), how);
                },
                None => {},
            }
        },
        None => {},
    }
    let mut cells: Vec<TileXy> = Vec::new();
    let mut i: usize = 0;
    assert(members@.take(0) =~= Seq::<Member>::empty());
    while i < members.len()
        invariant
            i <= members@.len(),
            cells@ == placed(members@.take(i as int), coords@, ways@),
        decreases members@.len() - i,
    {
        proof {
            assert(members@.take(i + 1).drop_last() =~= members@.take(i as int));
            assert(members@.take(i + 1).last() == members@[i as int]);
        }
        match member_pos(&members[i], coords, ways) {
            Some(c) => {
                cells.push(c);
            },
            None => {},
        }
        i = i + 1;
    }
    assert(members@.take(members@.len() as int) =~= members@);
    (mean_cell(cells.as_slice()), AnchorVia::Absent)
}

/// The `via` member is found by its role, wherever it stands: where exactly one
/// member is a `via` and it can be placed, the relation is anchored there.
pub proof fn law_via_wins(
    members: Seq<Member>,
    coords: Map<i64, TileXy>,
    ways: Map<i64, TileXy>,
    at: int,
)
    requires
        0 <= at < members.len(),
        forall|i: int| 0 <= i < members.len() ==> (#[trigger] members[i]).via == (i == at),
        member_cell(members[at], coords, ways) is Some,
    ensures
        relation_anchor(members, coords, ways).0 == member_cell(members[at], coords, ways),
        relation_anchor(members, coords, ways).1 == if members[at].is_node {
            AnchorVia::Node
        } else {
            AnchorVia::Way
        },
{
    lemma_first_via(members, at);
}

proof fn lemma_first_via(members: Seq<Member>, at: int)
    requires
        0 <= at < members.len(),
        forall|i: int| 0 <= i < members.len() ==> (#[trigger] members[i]).via == (i == at),
    ensures
        first_via(members) == Some(members[at]),
    decreases members.len(),
{
    let front = members.drop_last();
    if at < front.len() {
        lemma_first_via(front, at);
    } else {
        assert(members[members.len() - 1].via);
        lemma_no_via(front);
    }
}

proof fn lemma_no_via(members: Seq<Member>)
    requires
        forall|i: int| 0 <= i < members.len() ==> !(#[trigger] members[i]).via,
    ensures
        first_via(members) is None,
    decreases members.len(),
{
    if members.len() > 0 {
        assert(!members[members.len() - 1].via);
        lemma_no_via(members.drop_last());
    }
}

/// A relation goes without an anchor exactly where none of its members can be
/// placed.
pub proof fn law_anchor_needs_a_placed_member(
    members: Seq<Member>,
    coords: Map<i64, TileXy>,
    ways: Map<i64, TileXy>,
)
    ensures
        relation_anchor(members, coords, ways).0 is None <==> forall|i: int|
            0 <= i < members.len() ==> member_cell(#[trigger] members[i], coords, ways) is None,
{
    lemma_placed_empty(members, coords, ways);
    lemma_via_is_member(members);
}

proof fn lemma_via_is_member(members: Seq<Member>)
    ensures
        first_via(members) matches Some(m) ==> exists|i: int|
            0 <= i < members.len() && #[trigger] members[i] == m,
    decreases members.len(),
{
    if members.len() > 0 {
        let front = members.drop_last();
        lemma_via_is_member(front);
        match first_via(front) {
            Some(m) => {
                let i = choose|i: int| 0 <= i < front.len() && #[trigger] front[i] == m;
                assert(members[i] == m);
            },
            None => {
                assert(members[members.len() - 1] == members.last());
            },
        }
    }
}

proof fn lemma_placed_empty(
    members: Seq<Member>,
    coords: Map<i64, TileXy>,
    ways: Map<i64, TileXy>,
)
    ensures
        placed(members, coords, ways).len() == 0 <==> forall|i: int|
            0 <= i < members.len() ==> member_cell(#[trigger] members[i], coords, ways) is None,
    decreases members.len(),
{
    if members.len() > 0 {
        let front = members.drop_last();
        lemma_placed_empty(front, coords, ways);
        assert(members[members.len() - 1] == members.last());
        if placed(front, coords, ways).len() > 0 {
            let i = choose|i: int|
                0 <= i < front.len() && member_cell(#[trigger] front[i], coords, ways) is Some;
            assert(member_cell(members[i], coords, ways) is Some);
        } else if member_cell(members.last(), coords, ways) is None {
            assert forall|i: int| 0 <= i < members.len() implies member_cell(
                #[trigger] members[i],
                coords,
                ways,
            ) is None by {
                if i < front.len() {
                    assert(front[i] == members[i]);
                }
            }
        }
    }
}

// ── Junctions ───────────────────────────────────────────────────────
/// Values of `highway` that carry no traffic of any mode.
pub const NON_ROUTABLE: [&'static str; 9] = [
    "construction",
    "proposed",
    "platform",
    "raceway",
    "bus_stop",
    "street_lamp",
    "traffic_sign",
    "rest_area",
    "services",
];

/// Whether an element with these tags carries traffic: it has a `highway` tag,
/// and its first is not one of [`NON_ROUTABLE`].
pub open spec fn routable(tags: Seq<(Seq<char>, Seq<char>)>) -> bool {
    value_of(tags, "highway"@) matches Some(v) && !listed(v, NON_ROUTABLE@)
}

/// Whether an element with these tags carries traffic.
pub fn is_routable(tags: &[(&str, &str)]) -> (r: bool)
    ensures
        r == routable(pairs(tags@)),
{
    match tag(tags, "highway") {
        Some(v) => !one_of(v, NON_ROUTABLE.as_slice()),
        None => false,
    }
}

/// A node that the routable ways reference at least twice.
#[derive(Debug)]
pub struct Junction {
    pub node_id: i64,
    pub cell: TileXy,
    /// The ways that touch the node, one entry per occurrence, by way id and
    /// then by place in the way.
    pub edge_ways: Vec<i64>,
    /// The place of each occurrence in its way.
    pub edge_way_index: Vec<usize>,
}

impl Ranked for (i64, Vec<i64>) {
    open spec fn ranks_before(&self, other: &Self) -> bool {
        self.0 <= other.0
    }

    proof fn lemma_total(a: &Self, b: &Self) {
    }

    proof fn lemma_transitive(a: &Self, b: &Self, c: &Self) {
    }

    fn before(&self, other: &Self) -> (r: bool) {
        self.0 <= other.0
    }
}

/// Ways as their ids and their nodes.
pub open spec fn ways_of(ways: Seq<(i64, Vec<i64>)>) -> Seq<(i64, Seq<i64>)> {
    ways.map_values(|w: (i64, Vec<i64>)| (w.0, w.1@))
}

/// Where a way touches a node: its id and the place, for every place.
pub open spec fn touches(id: i64, nodes: Seq<i64>, n: i64) -> Seq<(i64, int)>
    decreases nodes.len(),
{
    if nodes.len() == 0 {
        Seq::empty()
    } else if nodes.last() == n {
        touches(id, nodes.drop_last(), n).push((id, nodes.len() - 1))
    } else {
        touches(id, nodes.drop_last(), n)
    }
}

/// Where ways touch a node, way by way.
pub open spec fn occurrences(ways: Seq<(i64, Seq<i64>)>, n: i64) -> Seq<(i64, int)>
    decreases ways.len(),
{
    if ways.len() == 0 {
        Seq::empty()
    } else {
        occurrences(ways.drop_last(), n) + touches(ways.last().0, ways.last().1, n)
    }
}

/// Whether `j` is the junction at its node: the node is touched at least twice
/// and could be placed, and every touch is an edge.
pub open spec fn is_junction_at(
    j: Junction,
    ways: Seq<(i64, Seq<i64>)>,
    coords: Map<i64, TileXy>,
) -> bool {
    let occ = occurrences(ways, j.node_id);
    &&& occ.len() >= 2
    &&& lookup(coords, j.node_id) == Some(j.cell)
    &&& j.edge_ways@.len() == occ.len()
    &&& j.edge_way_index@.len() == occ.len()
    &&& forall|i: int| 0 <= i < occ.len() ==> #[trigger] j.edge_ways@[i] == occ[i].0
    &&& forall|i: int| 0 <= i < occ.len() ==> #[trigger] j.edge_way_index@[i] == occ[i].1
}

/// Whether a list holds every junction of these ways, by node id.
pub open spec fn are_junctions(
    list: Seq<Junction>,
    ways: Seq<(i64, Seq<i64>)>,
    coords: Map<i64, TileXy>,
) -> bool {
    &&& forall|i: int| 0 <= i < list.len() ==> is_junction_at(#[trigger] list[i], ways, coords)
    &&& forall|i: int, j: int|
        #![trigger list[i], list[j]]
        0 <= i < j < list.len() ==> list[i].node_id < list[j].node_id
    &&& forall|n: i64|
        #![trigger occurrences(ways, n)]
        occurrences(ways, n).len() >= 2 && coords.contains_key(n) ==> exists|i: int|
            0 <= i < list.len() && (#[trigger] list[i]).node_id == n
}

/// The touches that a table holds for a node.
spec fn held(edges: Map<i64, Vec<(i64, usize)>>, n: i64) -> Seq<(i64, int)> {
    if edges.contains_key(n) {
        edges[n]@.map_values(|o: (i64, usize)| (o.0, o.1 as int))
    } else {
        Seq::empty()
    }
}

/// The nodes of a table, each once.
spec fn keyed_by(nodes: Seq<i64>, edges: Map<i64, Vec<(i64, usize)>>) -> bool {
    &&& nodes.no_duplicates()
    &&& forall|n: i64| #[trigger] nodes.contains(n) <==> edges.contains_key(n)
}

/// Adds one touch to the table.
fn record_touch(
    edges: &mut HashMap<i64, Vec<(i64, usize)>>,
    nodes: &mut Vec<i64>,
    n: i64,
    way: i64,
    place: usize,
)
    requires
        keyed_by(old(nodes)@, old(edges)@),
    ensures
        keyed_by(final(nodes)@, final(edges)@),
        forall|m: i64| #[trigger]
            held(final(edges)@, m) == if m == n {
                held(old(edges)@, m).push((way, place as int))
            } else {
                held(old(edges)@, m)
            },
{
    let ghost (e0, n0) = (edges@, nodes@);
    let mut list: Vec<(i64, usize)> = match edges.remove(&n) {
        Some(list) => list,
        None => {
            nodes.push(n);
            Vec::new()
        },
    };
    list.push((way, place));
    let ghost l1 = list;
    edges.insert(n, list);
    proof {
        assert(edges@ =~= e0.insert(n, l1));
        assert forall|m: i64| #[trigger] held(edges@, m) == if m == n {
            held(e0, m).push((way, place as int))
        } else {
            held(e0, m)
        } by {
            if m == n {
                assert(held(edges@, m) =~= held(e0, m).push((way, place as int)));
            }
        }
        assert forall|m: i64| #[trigger] nodes@.contains(m) <==> edges@.contains_key(m) by {
            assert(n0.contains(m) <==> e0.contains_key(m));
            if !e0.contains_key(n) {
                assert(nodes@ == n0.push(n));
                if m == n {
                    assert(nodes@[n0.len() as int] == n);
                }
                if n0.contains(m) {
                    let i = choose|i: int| 0 <= i < n0.len() && n0[i] == m;
                    assert(nodes@[i] == m);
                }
                if nodes@.contains(m) && m != n {
                    let i = choose|i: int| 0 <= i < nodes@.len() && nodes@[i] == m;
                    assert(n0[i] == m);
                }
            }
        }
        if !e0.contains_key(n) {
            assert(!n0.contains(n));
            assert forall|i: int, j: int|
                0 <= i < nodes@.len() && 0 <= j < nodes@.len() && i != j implies nodes@[i]
                != nodes@[j] by {
                if i == n0.len() {
                    assert(n0.contains(n0[j]));
                } else if j == n0.len() {
                    assert(n0.contains(n0[i]));
                }
            }
        }
    }
}

/// The junction at a node, from its touches.
fn junction_at(node_id: i64, cell: TileXy, touched: &Vec<(i64, usize)>) -> (j: Junction)
    ensures
        j.node_id == node_id,
        j.cell == cell,
        j.edge_ways@.len() == touched@.len(),
        j.edge_way_index@.len() == touched@.len(),
        forall|i: int| 0 <= i < touched@.len() ==> #[trigger] j.edge_ways@[i] == touched@[i].0,
        forall|i: int| 0 <= i < touched@.len() ==> #[trigger] j.edge_way_index@[i] == touched@[i].1,
{
    let mut edge_ways: Vec<i64> = Vec::new();
    let mut edge_way_index: Vec<usize> = Vec::new();
    let mut i: usize = 0;
    while i < touched.len()
        invariant
            i <= touched@.len(),
            edge_ways@.len() == i,
            edge_way_index@.len() == i,
            forall|k: int| 0 <= k < i ==> #[trigger] edge_ways@[k] == touched@[k].0,
            forall|k: int| 0 <= k < i ==> #[trigger] edge_way_index@[k] == touched@[k].1,
        decreases touched@.len() - i,
    {
        let (way, place): (i64, usize) = touched[i];
        edge_ways.push(way);
        edge_way_index.push(place);
        i = i + 1;
    }
    Junction { node_id, cell, edge_ways, edge_way_index }
}

/// Sorts ways by id and finds their junctions: the nodes that they touch at
/// least twice, in all. A node that could not be placed is left out rather than
/// given a position.
pub fn build_junctions(routable_ways: &mut Vec<(i64, Vec<i64>)>, coords: &PosMap) -> (out: Vec<
    Junction,
>)
    ensures
        in_order(final(routable_ways)@),
        final(routable_ways)@.to_multiset() == old(routable_ways)@.to_multiset(),
        are_junctions(out@, ways_of(final(routable_ways)@), coords@),
{
    let mut taken: Vec<(i64, Vec<i64>)> = Vec::new();
    core::mem::swap(routable_ways, &mut taken);
    let sorted: Vec<(i64, Vec<i64>)> = sort(taken);
    *routable_ways = sorted;
    let ghost ways = ways_of(routable_ways@);
    let (edges, nodes): (HashMap<i64, Vec<(i64, usize)>>, Vec<i64>) = touch_table(
        routable_ways.as_slice(),
    );
    let order: Vec<i64> = sort(nodes);
    proof {
        lemma_same_distinct(nodes@, order@);
        assert forall|n: i64| #[trigger] order@.contains(n) <==> edges@.contains_key(n) by {
            lemma_same_elements(nodes@, order@, n);
            assert(nodes@.contains(n) <==> edges@.contains_key(n));
        }
        assert forall|k: int| 0 <= k < order@.len() implies edges@.contains_key(
            #[trigger] order@[k],
        ) by {
            assert(order@.contains(order@[k]));
        }
    }
    let mut out: Vec<Junction> = Vec::new();
    let mut i: usize = 0;
    while i < order.len()
        invariant
            i <= order@.len(),
            in_order(order@),
            order@.no_duplicates(),
            forall|n: i64| #[trigger] held(edges@, n) == occurrences(ways, n),
            forall|k: int| 0 <= k < order@.len() ==> edges@.contains_key(#[trigger] order@[k]),
            forall|k: int|
                0 <= k < out@.len() ==> is_junction_at(#[trigger] out@[k], ways, coords@),
            forall|j: int, k: int|
                #![trigger out@[j], out@[k]]
                0 <= j < k < out@.len() ==> out@[j].node_id < out@[k].node_id,
            forall|j: int, k: int|
                #![trigger out@[j], order@[k]]
                0 <= j < out@.len() && i <= k < order@.len() ==> out@[j].node_id < order@[k],
            forall|k: int|
                0 <= k < i && occurrences(ways, #[trigger] order@[k]).len() >= 2
                    && coords@.contains_key(order@[k]) ==> exists|j: int|
                    0 <= j < out@.len() && (#[trigger] out@[j]).node_id == order@[k],
        decreases order@.len() - i,
    {
        let n: i64 = order[i];
        let ghost before = out@;
        assert(edges@.contains_key(order@[i as int]));
        assert(held(edges@, n) == occurrences(ways, n));
        match (edges.get(&n), cell_of(coords, n)) {
            (Some(touched), Some(cell)) => {
                if touched.len() >= 2 {
                    let j: Junction = junction_at(n, cell, touched);
                    proof {
                        let occ = occurrences(ways, n);
                        assert forall|k: int| 0 <= k < occ.len() implies #[trigger] j.edge_ways@[k]
                            == occ[k].0 by {
                            assert(held(edges@, n)[k].0 == touched@[k].0);
                        }
                        assert forall|k: int|
                            0 <= k < occ.len() implies #[trigger] j.edge_way_index@[k]
                            == occ[k].1 by {
                            assert(held(edges@, n)[k].1 == touched@[k].1);
                        }
                        assert(is_junction_at(j, ways, coords@));
                    }
                    out.push(j);
                    assert(out@[before.len() as int].node_id == n);
                }
            },
            _ => {},
        }
        proof {
            assert forall|k: int|
                0 <= k < i + 1 && occurrences(ways, #[trigger] order@[k]).len() >= 2
                    && coords@.contains_key(order@[k]) implies exists|j: int|
                0 <= j < out@.len() && (#[trigger] out@[j]).node_id == order@[k] by {
                if k < i {
                    let j = choose|j: int|
                        0 <= j < before.len() && (#[trigger] before[j]).node_id == order@[k];
                    assert(out@[j].node_id == order@[k]);
                }
            }
            assert forall|j: int, k: int|
                #![trigger out@[j], order@[k]]
                0 <= j < out@.len() && i + 1 <= k < order@.len() implies out@[j].node_id
                < order@[k] by {
                assert(order@[i as int].ranks_before(&order@[k]));
                assert(order@[i as int] != order@[k]);
            }
        }
        i = i + 1;
    }
    proof {
        assert forall|n: i64|
            #![trigger occurrences(ways, n)]
            occurrences(ways, n).len() >= 2 && coords@.contains_key(n) implies exists|j: int|
            0 <= j < out@.len() && (#[trigger] out@[j]).node_id == n by {
            assert(held(edges@, n) == occurrences(ways, n));
            assert(order@.contains(n));
            let k = choose|k: int| 0 <= k < order@.len() && order@[k] == n;
            assert(occurrences(ways, order@[k]).len() >= 2);
        }
    }
    out
}

/// Every touch of every node, and the nodes.
fn touch_table(routable_ways: &[(i64, Vec<i64>)]) -> (r: (
    HashMap<i64, Vec<(i64, usize)>>,
    Vec<i64>,
))
    ensures
        keyed_by(r.1@, r.0@),
        forall|n: i64| #[trigger]
            held(r.0@, n) == occurrences(ways_of(routable_ways@), n),
{
    let ghost ways = ways_of(routable_ways@);
    let mut edges: HashMap<i64, Vec<(i64, usize)>> = HashMap::new();
    let mut nodes: Vec<i64> = Vec::new();
    let mut w: usize = 0;
    assert(ways.take(0) =~= Seq::<(i64, Seq<i64>)>::empty());
    while w < routable_ways.len()
        invariant
            w <= routable_ways@.len(),
            ways == ways_of(routable_ways@),
            keyed_by(nodes@, edges@),
            forall|n: i64| #[trigger]
                held(edges@, n) == occurrences(ways.take(w as int), n),
        decreases routable_ways@.len() - w,
    {
        let id: i64 = routable_ways[w].0;
        let refs: &Vec<i64> = &routable_ways[w].1;
        let ghost base = ways.take(w as int);
        let mut i: usize = 0;
        assert(refs@.take(0) =~= Seq::<i64>::empty());
        assert forall|n: i64| #[trigger] held(edges@, n) == occurrences(base, n) + touches(
            id,
            refs@.take(0),
            n,
        ) by {
            assert(occurrences(base, n) + touches(id, refs@.take(0), n) =~= occurrences(base, n));
        }
        while i < refs.len()
            invariant
                i <= refs@.len(),
                keyed_by(nodes@, edges@),
                forall|n: i64| #[trigger]
                    held(edges@, n) == occurrences(base, n) + touches(id, refs@.take(i as int), n),
            decreases refs@.len() - i,
        {
            let ghost e0 = edges@;
            let node: i64 = refs[i];
            record_touch(&mut edges, &mut nodes, node, id, i);
            proof {
                let next = refs@.take(i + 1);
                assert(next.drop_last() =~= refs@.take(i as int));
                assert(next.last() == node);
                assert forall|n: i64| #[trigger] held(edges@, n) == occurrences(base, n) + touches(
                    id,
                    next,
                    n,
                ) by {
                    assert(held(e0, n) == occurrences(base, n) + touches(
                        id,
                        refs@.take(i as int),
                        n,
                    ));
                    assert(held(edges@, n) =~= occurrences(base, n) + touches(id, next, n));
                }
            }
            i = i + 1;
        }
        proof {
            assert(refs@.take(refs@.len() as int) =~= refs@);
            assert(ways.take(w + 1).drop_last() =~= base);
            assert(ways.take(w + 1).last() == (id, refs@));
        }
        w = w + 1;
    }
    assert(ways.take(ways.len() as int) =~= ways);
    (edges, nodes)
}

/// An edge of a junction for every place at which a way touches it, and for
/// nothing else: a way that comes back through the node has an edge for each
/// time.
pub proof fn law_every_touch_is_an_edge(ways: Seq<(i64, Seq<i64>)>, n: i64, id: i64, place: int)
    ensures
        occurrences(ways, n).contains((id, place)) <==> exists|w: int|
            0 <= w < ways.len() && (#[trigger] ways[w]).0 == id && 0 <= place < ways[w].1.len()
                && ways[w].1[place] == n,
    decreases ways.len(),
{
    let all = occurrences(ways, n);
    let item = (id, place);
    if ways.len() > 0 {
        let front = ways.drop_last();
        let last = ways.last();
        let (a, b) = (occurrences(front, n), touches(last.0, last.1, n));
        law_every_touch_is_an_edge(front, n, id, place);
        lemma_touches(last.0, last.1, n, item);
        lemma_concat_contains(a, b, item);
        if a.contains(item) {
            let w = choose|w: int|
                0 <= w < front.len() && (#[trigger] front[w]).0 == id && 0 <= place
                    < front[w].1.len() && front[w].1[place] == n;
            assert(ways[w] == front[w]);
        }
        if b.contains(item) {
            assert(ways[ways.len() - 1].1[place] == n);
        }
        if exists|w: int|
            0 <= w < ways.len() && (#[trigger] ways[w]).0 == id && 0 <= place < ways[w].1.len()
                && ways[w].1[place] == n {
            let w = choose|w: int|
                0 <= w < ways.len() && (#[trigger] ways[w]).0 == id && 0 <= place < ways[w].1.len()
                    && ways[w].1[place] == n;
            if w < front.len() {
                assert(front[w] == ways[w]);
            }
        }
    }
}

proof fn lemma_concat_contains<T>(a: Seq<T>, b: Seq<T>, x: T)
    ensures
        (a + b).contains(x) <==> a.contains(x) || b.contains(x),
{
    if a.contains(x) {
        let i = choose|i: int| 0 <= i < a.len() && a[i] == x;
        assert((a + b)[i] == x);
    }
    if b.contains(x) {
        let i = choose|i: int| 0 <= i < b.len() && b[i] == x;
        assert((a + b)[a.len() + i] == x);
    }
    if (a + b).contains(x) {
        let i = choose|i: int| 0 <= i < (a + b).len() && (a + b)[i] == x;
        if i < a.len() {
            assert(a[i] == x);
        } else {
            assert(b[i - a.len()] == x);
        }
    }
}

proof fn lemma_touches(id: i64, nodes: Seq<i64>, n: i64, item: (i64, int))
    ensures
        touches(id, nodes, n).contains(item) <==> item.0 == id && 0 <= item.1 < nodes.len()
            && nodes[item.1] == n,
    decreases nodes.len(),
{
    if nodes.len() > 0 {
        let front = nodes.drop_last();
        lemma_touches(id, front, n, item);
        let (a, all) = (touches(id, front, n), touches(id, nodes, n));
        if nodes.last() == n {
            let new = (id, nodes.len() - 1);
            assert(all =~= a + seq![new]);
            lemma_concat_contains(a, seq![new], item);
            assert(seq![new].contains(item) <==> item == new) by {
                assert(seq![new][0] == new);
            }
        }
    }
}

/// Ways in strictly ascending order of their ids.
pub open spec fn by_way_id(ways: Seq<(i64, Seq<i64>)>) -> bool {
    forall|i: int, j: int|
        #![trigger ways[i], ways[j]]
        0 <= i < j < ways.len() ==> ways[i].0 < ways[j].0
}

/// Where way ids are unique, the order in which ways come in plays no part: there
/// is one way to sort them, so there is one list of junctions.
pub proof fn law_way_order_is_fixed(a: Seq<(i64, Seq<i64>)>, b: Seq<(i64, Seq<i64>)>)
    requires
        by_way_id(a),
        by_way_id(b),
        a.to_multiset() == b.to_multiset(),
    ensures
        a == b,
    decreases a.len(),
{
    broadcast use vstd::seq_lib::group_to_multiset_ensures;

    assert(a.len() == a.to_multiset().len());
    assert(b.len() == b.to_multiset().len());
    if a.len() > 0 {
        let (m, k) = (a.len() - 1, b.len() - 1);
        assert(a.contains(a[m]));
        assert(b.contains(b[k]));
        lemma_same_elements(a, b, a[m]);
        lemma_same_elements(a, b, b[k]);
        let i = choose|i: int| 0 <= i < b.len() && b[i] == a[m];
        let j = choose|j: int| 0 <= j < a.len() && a[j] == b[k];
        if i < k {
            assert(b[i].0 < b[k].0);
            if j < m {
                assert(a[j].0 < a[m].0);
            }
        }
        assert(a[m] == b[k]);
        let (x, y) = (a.drop_last(), b.drop_last());
        assert(x =~= a.remove(m));
        assert(y =~= b.remove(k));
        assert(x.to_multiset() =~= y.to_multiset());
        law_way_order_is_fixed(x, y);
        assert(a =~= x.push(a[m]));
        assert(b =~= y.push(b[k]));
    } else {
        assert(a =~= b);
    }
}

// ── Reading an extract ──────────────────────────────────────────────
/// An element of an extract.
#[derive(Debug, Clone, Copy)]
pub enum Element<'a> {
    Node { id: i64, cell: TileXy, tags: &'a [(&'a str, &'a str)] },
    Way { id: i64, refs: &'a [i64], tags: &'a [(&'a str, &'a str)] },
    Relation { id: i64, members: &'a [RawMember<'a>], tags: &'a [(&'a str, &'a str)] },
}

/// A relation that waits for its anchor.
pub struct Waiting {
    pub id: i64,
    pub restriction: bool,
    pub members: Seq<Member>,
    pub tags: TagSpan,
}

/// What has been read of an extract.
#[verifier::ext_equal]
pub struct ReadSoFar {
    /// The cells of the nodes.
    pub coords: Map<i64, TileXy>,
    /// The features of nodes and ways, in the order of their elements.
    pub features: Seq<Feature>,
    /// The tags in the store: those of all features, and of the relations that wait
    /// for an anchor.
    pub tags: Seq<(Seq<char>, Seq<char>)>,
    /// The distinct keys and values among them, in the order of first sight.
    pub keys: Seq<Seq<char>>,
    pub values: Seq<Seq<char>>,
    /// The centroids of the ways that could be placed.
    pub ways: Map<i64, TileXy>,
    /// The shapes of the tagged ones.
    pub chains: Map<i64, Seq<TileXy>>,
    /// The tagged relations.
    pub waiting: Seq<Waiting>,
    /// The ways that carry traffic.
    pub routes: Seq<(i64, Seq<i64>)>,
    /// Tagged ways that could not be placed.
    pub unresolved: nat,
}

/// The tags of an element.
pub open spec fn tags_of(e: Element) -> Seq<(Seq<char>, Seq<char>)> {
    match e {
        Element::Node { tags, .. } => pairs(tags@),
        Element::Way { tags, .. } => pairs(tags@),
        Element::Relation { tags, .. } => pairs(tags@),
    }
}

/// `s` with tags taken into the store.
pub open spec fn with_stored(s: ReadSoFar, tags: Seq<(Seq<char>, Seq<char>)>) -> ReadSoFar {
    ReadSoFar {
        tags: s.tags + tags,
        keys: keys_seen(s.keys, tags),
        values: values_seen(s.values, tags),
        ..s
    }
}

/// The span of tags that are taken into the store next.
pub open spec fn next_span(s: ReadSoFar, tags: Seq<(Seq<char>, Seq<char>)>) -> TagSpan {
    TagSpan { start: s.tags.len() as u32, len: tags.len() as u32 }
}

/// `s` after a node: a tagged one is a feature where it is.
pub open spec fn after_node(
    s: ReadSoFar,
    id: i64,
    cell: TileXy,
    tags: Seq<(Seq<char>, Seq<char>)>,
) -> ReadSoFar {
    if tags.len() == 0 {
        s
    } else {
        let f = Feature {
            anchor: Anchor::Published(cell),
            entity_type: OSM_NODE,
            osm_id: id,
            tags: next_span(s, tags),
        };
        with_stored(ReadSoFar { features: s.features.push(f), ..s }, tags)
    }
}

/// The cells of the nodes that could be placed, in order.
pub open spec fn located(refs: Seq<i64>, coords: Map<i64, TileXy>) -> Seq<TileXy>
    decreases refs.len(),
{
    if refs.len() == 0 {
        Seq::empty()
    } else {
        match lookup(coords, refs.last()) {
            Some(c) => located(refs.drop_last(), coords).push(c),
            None => located(refs.drop_last(), coords),
        }
    }
}

/// `s` with a way kept for junctions, where it carries traffic.
pub open spec fn with_route(
    s: ReadSoFar,
    id: i64,
    refs: Seq<i64>,
    tags: Seq<(Seq<char>, Seq<char>)>,
) -> ReadSoFar {
    if routable(tags) {
        ReadSoFar { routes: s.routes.push((id, refs)), ..s }
    } else {
        s
    }
}

/// `s` after a way: every way that can be placed has a centroid, tagged or not,
/// since a relation may refer to it; a tagged one is a feature there, and its
/// shape is kept.
pub open spec fn after_way(
    s: ReadSoFar,
    id: i64,
    refs: Seq<i64>,
    tags: Seq<(Seq<char>, Seq<char>)>,
) -> ReadSoFar {
    let cells = located(refs, s.coords);
    let s1 = with_route(s, id, refs, tags);
    match centroid(cells) {
        None => if tags.len() == 0 {
            s1
        } else {
            ReadSoFar { unresolved: s1.unresolved + 1, ..s1 }
        },
        Some(c) => {
            let s2 = ReadSoFar { ways: s1.ways.insert(id, c), ..s1 };
            if tags.len() == 0 {
                s2
            } else {
                let f = Feature {
                    anchor: Anchor::Derived(c),
                    entity_type: OSM_WAY,
                    osm_id: id,
                    tags: next_span(s, tags),
                };
                with_stored(
                    ReadSoFar {
                        features: s2.features.push(f),
                        chains: s2.chains.insert(id, cells),
                        ..s2
                    },
                    tags,
                )
            }
        },
    }
}

/// `s` after a relation: a tagged one waits until every way has been placed.
pub open spec fn after_relation(
    s: ReadSoFar,
    id: i64,
    members: Seq<RawMember>,
    tags: Seq<(Seq<char>, Seq<char>)>,
) -> ReadSoFar {
    if tags.len() == 0 {
        s
    } else {
        let r = Waiting {
            id,
            restriction: names_restriction(value_of(tags, "type"@)),
            members: candidates(members),
            tags: next_span(s, tags),
        };
        with_stored(ReadSoFar { waiting: s.waiting.push(r), ..s }, tags)
    }
}

/// `s` after an element.
pub open spec fn after(s: ReadSoFar, e: Element) -> ReadSoFar {
    match e {
        Element::Node { id, cell, tags } => after_node(s, id, cell, pairs(tags@)),
        Element::Way { id, refs, tags } => after_way(s, id, refs@, pairs(tags@)),
        Element::Relation { id, members, tags } => after_relation(s, id, members@, pairs(tags@)),
    }
}

/// How many tag pairs features have between them.
pub open spec fn pairs_of(features: Seq<Feature>) -> nat
    decreases features.len(),
{
    if features.len() == 0 {
        0
    } else {
        pairs_of(features.drop_last()) + features.last().tags.len as nat
    }
}

/// How many tag pairs the relations that wait have between them.
pub open spec fn pairs_waiting(waiting: Seq<Waiting>) -> nat
    decreases waiting.len(),
{
    if waiting.len() == 0 {
        0
    } else {
        pairs_waiting(waiting.drop_last()) + waiting.last().tags.len as nat
    }
}

/// An element adds no more pairs to features and to what waits than it stores.
proof fn lemma_pairs_are_stored(s: ReadSoFar, e: Element)
    requires
        s.tags.len() + tags_of(e).len() <= u32::MAX,
    ensures
        pairs_of(after(s, e).features) + pairs_waiting(after(s, e).waiting) - after(
            s,
            e,
        ).tags.len() <= pairs_of(s.features) + pairs_waiting(s.waiting) - s.tags.len(),
{
    let r = after(s, e);
    if r.features.len() > s.features.len() {
        assert(r.features.drop_last() =~= s.features);
    }
    if r.waiting.len() > s.waiting.len() {
        assert(r.waiting.drop_last() =~= s.waiting);
    }
}

/// An extract, while it is read.
pub struct Extract {
    coords: PosMap,
    features: Vec<Feature>,
    store: TagStore,
    way_centroid: PosMap,
    way_chains: HashMap<i64, Vec<TileXy>>,
    waiting: Vec<(i64, RawRelation)>,
    routable_ways: Vec<(i64, Vec<i64>)>,
    ways_unresolved: u64,
}

/// A relation that waits.
pub open spec fn waiting_of(r: (i64, RawRelation)) -> Waiting {
    Waiting { id: r.0, restriction: r.1.restriction, members: r.1.members@, tags: r.1.tags }
}

impl View for Extract {
    type V = ReadSoFar;

    closed spec fn view(&self) -> ReadSoFar {
        ReadSoFar {
            coords: self.coords@,
            features: self.features@,
            tags: self.store@,
            keys: self.store.key_texts(),
            values: self.store.value_texts(),
            ways: self.way_centroid@,
            chains: self.way_chains@.map_values(|c: Vec<TileXy>| c@),
            waiting: self.waiting@.map_values(|r: (i64, RawRelation)| waiting_of(r)),
            routes: ways_of(self.routable_ways@),
            unresolved: self.ways_unresolved as nat,
        }
    }
}

/// Nothing read yet.
pub open spec fn nothing_read() -> ReadSoFar {
    ReadSoFar {
        coords: Map::empty(),
        features: Seq::empty(),
        tags: Seq::empty(),
        keys: Seq::empty(),
        values: Seq::empty(),
        ways: Map::empty(),
        chains: Map::empty(),
        waiting: Seq::empty(),
        routes: Seq::empty(),
        unresolved: 0,
    }
}

impl Extract {
    /// The tag store is sound, and holds the pairs of every feature and of every
    /// relation that waits.
    pub closed spec fn wf(&self) -> bool {
        &&& self.store.wf()
        &&& self@.tags.len() <= u32::MAX
        &&& pairs_of(self@.features) + pairs_waiting(self@.waiting) <= self@.tags.len()
    }

    /// Starts a read.
    pub fn new() -> (x: Self)
        ensures
            x.wf(),
            x@ == nothing_read(),
    {
        let x: Extract = Extract {
            coords: HashMap::new(),
            features: Vec::new(),
            store: TagStore::default(),
            way_centroid: HashMap::new(),
            way_chains: HashMap::new(),
            waiting: Vec::new(),
            routable_ways: Vec::new(),
            ways_unresolved: 0,
        };
        assert(x@ =~= nothing_read());
        x
    }

    /// First pass: places a node. A node that comes twice has its last place.
    pub fn index_node(&mut self, id: i64, cell: TileXy)
        requires
            old(self).wf(),
        ensures
            final(self).wf(),
            final(self)@ == (ReadSoFar { coords: old(self)@.coords.insert(id, cell), ..old(self)@ }),
    {
        self.coords.insert(id, cell);
        assert(self@ =~= (ReadSoFar { coords: old(self)@.coords.insert(id, cell), ..old(self)@ }));
    }

    /// Second pass: takes a node.
    pub fn add_node(&mut self, id: i64, cell: TileXy, tags: &[(&str, &str)])
        requires
            old(self).wf(),
            old(self)@.tags.len() + tags@.len() <= u32::MAX,
        ensures
            final(self).wf(),
            final(self)@ == after_node(old(self)@, id, cell, pairs(tags@)),
    {
        if tags.len() > 0 {
            let span: TagSpan = self.store.push(tags);
            self.features.push(
                Feature {
                    anchor: Anchor::Published(cell),
                    entity_type: OSM_NODE,
                    osm_id: id,
                    tags: span,
                },
            );
        }
        assert(self@ =~= after_node(old(self)@, id, cell, pairs(tags@)));
        proof {
            lemma_pairs_are_stored(old(self)@, Element::Node { id, cell, tags });
        }
    }

    /// The cells of the nodes that could be placed.
    fn locate(&self, refs: &[i64]) -> (cells: Vec<TileXy>)
        ensures
            cells@ == located(refs@, self@.coords),
    {
        let mut cells: Vec<TileXy> = Vec::new();
        let mut i: usize = 0;
        assert(refs@.take(0) =~= Seq::<i64>::empty());
        while i < refs.len()
            invariant
                i <= refs@.len(),
                cells@ == located(refs@.take(i as int), self@.coords),
            decreases refs@.len() - i,
        {
            proof {
                assert(refs@.take(i + 1).drop_last() =~= refs@.take(i as int));
                assert(refs@.take(i + 1).last() == refs@[i as int]);
            }
            match cell_of(&self.coords, refs[i]) {
                Some(c) => {
                    cells.push(c);
                },
                None => {},
            }
            i = i + 1;
        }
        assert(refs@.take(refs@.len() as int) =~= refs@);
        cells
    }

    /// Second pass: takes a way.
    pub fn add_way(&mut self, id: i64, refs: &[i64], tags: &[(&str, &str)])
        requires
            old(self).wf(),
            old(self)@.tags.len() + tags@.len() <= u32::MAX,
            old(self)@.unresolved < u64::MAX,
        ensures
            final(self).wf(),
            final(self)@ == after_way(old(self)@, id, refs@, pairs(tags@)),
    {
        proof {
            lemma_pairs_are_stored(self@, Element::Way { id, refs, tags });
        }
        let cells: Vec<TileXy> = self.locate(refs);
        let tagged: bool = tags.len() > 0;
        if is_routable(tags) {
            self.routable_ways.push((id, slice_to_vec(refs)));
        }
        assert(self@ =~= with_route(old(self)@, id, refs@, pairs(tags@)));
        let c: TileXy = match mean_cell(cells.as_slice()) {
            Some(c) => c,
            None => {
                if tagged {
                    self.ways_unresolved = self.ways_unresolved + 1;
                }
                assert(self@ =~= after_way(old(self)@, id, refs@, pairs(tags@)));
                return;
            },
        };
        self.way_centroid.insert(id, c);
        if tagged {
            let span: TagSpan = self.store.push(tags);
            self.features.push(
                Feature {
                    anchor: Anchor::Derived(c),
                    entity_type: OSM_WAY,
                    osm_id: id,
                    tags: span,
                },
            );
            self.way_chains.insert(id, cells);
        }
        assert(self@ =~= after_way(old(self)@, id, refs@, pairs(tags@)));
    }

    /// Second pass: takes a relation.
    pub fn add_relation(&mut self, id: i64, members: &[RawMember], tags: &[(&str, &str)])
        requires
            old(self).wf(),
            old(self)@.tags.len() + tags@.len() <= u32::MAX,
        ensures
            final(self).wf(),
            final(self)@ == after_relation(old(self)@, id, members@, pairs(tags@)),
    {
        if tags.len() > 0 {
            let restriction: bool = is_restriction(tag(tags, "type"));
            let span: TagSpan = self.store.push(tags);
            let kept: Vec<Member> = anchor_members(members);
            self.waiting.push((id, RawRelation { restriction, members: kept, tags: span }));
        }
        assert(self@ =~= after_relation(old(self)@, id, members@, pairs(tags@)));
        proof {
            lemma_pairs_are_stored(old(self)@, Element::Relation { id, members, tags });
        }
    }
}

// ── Finishing a read ────────────────────────────────────────────────
/// How many elements of a list have a property.
pub open spec fn count<T>(s: Seq<T>, p: spec_fn(T) -> bool) -> nat
    decreases s.len(),
{
    if s.len() == 0 {
        0
    } else {
        count(s.drop_last(), p) + if p(s.last()) {
            1nat
        } else {
            0
        }
    }
}

/// The anchor of a relation that waited, and how it was found.
pub open spec fn anchor_of(s: ReadSoFar, r: Waiting) -> (Option<TileXy>, AnchorVia) {
    relation_anchor(r.members, s.coords, s.ways)
}

/// The features of the relations that could be anchored, in order.
pub open spec fn relation_features(s: ReadSoFar, waiting: Seq<Waiting>) -> Seq<Feature>
    decreases waiting.len(),
{
    if waiting.len() == 0 {
        Seq::empty()
    } else {
        let front = relation_features(s, waiting.drop_last());
        let r = waiting.last();
        match anchor_of(s, r).0 {
            Some(cell) => front.push(
                Feature {
                    anchor: Anchor::Derived(cell),
                    entity_type: OSM_RELATION,
                    osm_id: r.id,
                    tags: r.tags,
                },
            ),
            None => front,
        }
    }
}

/// How many relations could be anchored.
pub open spec fn anchored(s: ReadSoFar, waiting: Seq<Waiting>) -> nat {
    count(waiting, |r: Waiting| anchor_of(s, r).0 is Some)
}

/// How many could not.
pub open spec fn unanchored(s: ReadSoFar, waiting: Seq<Waiting>) -> nat {
    count(waiting, |r: Waiting| anchor_of(s, r).0 is None)
}

/// How many restrictions could be anchored.
pub open spec fn restrictions(s: ReadSoFar, waiting: Seq<Waiting>) -> nat {
    count(waiting, |r: Waiting| r.restriction && anchor_of(s, r).0 is Some)
}

/// How many restrictions were anchored by a branch of the anchor rule.
pub open spec fn restrictions_by(s: ReadSoFar, waiting: Seq<Waiting>, how: AnchorVia) -> nat {
    count(
        waiting,
        |r: Waiting| r.restriction && anchor_of(s, r).0 is Some && anchor_of(s, r).1 == how,
    )
}

/// How many features are of a kind.
pub open spec fn of_kind(features: Seq<Feature>, kind: u16) -> nat {
    count(features, |f: Feature| f.entity_type == kind)
}

/// What a read of `s` covered.
pub open spec fn are_stats(st: ReadStats, s: ReadSoFar) -> bool {
    &&& st.nodes_indexed == s.coords.len()
    &&& st.tagged_nodes == of_kind(s.features, OSM_NODE)
    &&& st.tagged_ways == of_kind(s.features, OSM_WAY)
    &&& st.relations_anchored == anchored(s, s.waiting)
    &&& st.relations_unanchorable == unanchored(s, s.waiting)
    &&& st.restrictions == restrictions(s, s.waiting)
    &&& st.restrictions_via_node == restrictions_by(s, s.waiting, AnchorVia::Node)
    &&& st.restrictions_via_way == restrictions_by(s, s.waiting, AnchorVia::Way)
    &&& st.restrictions_no_via == restrictions_by(s, s.waiting, AnchorVia::Absent)
    &&& st.ways_unresolved == s.unresolved
    &&& st.tag_pairs == pairs_of(s.features + relation_features(s, s.waiting))
    &&& st.distinct_tag_keys == s.keys.len()
    &&& st.distinct_tag_values == s.values.len()
}

/// Whether a list holds the junctions of routes, sorted by way id.
pub open spec fn are_junctions_of(
    list: Seq<Junction>,
    routes: Seq<(i64, Seq<i64>)>,
    coords: Map<i64, TileXy>,
) -> bool {
    exists|sorted: Seq<(i64, Seq<i64>)>|
        #![trigger are_junctions(list, sorted, coords)]
        {
            &&& sorted.to_multiset() == routes.to_multiset()
            &&& forall|i: int, j: int|
                #![trigger sorted[i], sorted[j]]
                0 <= i < j < sorted.len() ==> sorted[i].0 <= sorted[j].0
            &&& are_junctions(list, sorted, coords)
        }
}

/// What a read gives: the features, the tags that their spans address, what was
/// covered, the shape of every tagged way by its id, and the junctions.
pub type ReadWithChains = (
    Vec<Feature>,
    TagStore,
    ReadStats,
    HashMap<i64, Vec<TileXy>>,
    Vec<Junction>,
);

/// Whether `r` is what a read of `s` gives.
pub open spec fn is_read(r: ReadWithChains, s: ReadSoFar) -> bool {
    &&& r.0@ == s.features + relation_features(s, s.waiting)
    &&& r.1.wf()
    &&& r.1@ == s.tags
    &&& r.1.key_texts() == s.keys
    &&& r.1.value_texts() == s.values
    &&& are_stats(r.2, s)
    &&& r.3@.map_values(|c: Vec<TileXy>| c@) == s.chains
    &&& are_junctions_of(r.4@, s.routes, s.coords)
}

/// Counts the features of nodes and of ways.
fn count_kinds(features: &Vec<Feature>) -> (n: (u64, u64))
    ensures
        n.0 == of_kind(features@, OSM_NODE),
        n.1 == of_kind(features@, OSM_WAY),
{
    let mut nodes: u64 = 0;
    let mut ways: u64 = 0;
    let mut i: usize = 0;
    assert(features@.take(0) =~= Seq::<Feature>::empty());
    while i < features.len()
        invariant
            i <= features@.len(),
            nodes <= i,
            ways <= i,
            nodes == of_kind(features@.take(i as int), OSM_NODE),
            ways == of_kind(features@.take(i as int), OSM_WAY),
        decreases features@.len() - i,
    {
        proof {
            assert(features@.take(i + 1).drop_last() =~= features@.take(i as int));
            assert(features@.take(i + 1).last() == features@[i as int]);
        }
        if features[i].entity_type == OSM_NODE {
            nodes = nodes + 1;
        } else if features[i].entity_type == OSM_WAY {
            ways = ways + 1;
        }
        i = i + 1;
    }
    assert(features@.take(features@.len() as int) =~= features@);
    (nodes, ways)
}

/// Counts the tag pairs of features.
fn count_pairs(features: &Vec<Feature>) -> (n: u64)
    requires
        pairs_of(features@) <= u64::MAX,
    ensures
        n == pairs_of(features@),
{
    let mut n: u64 = 0;
    let mut i: usize = 0;
    assert(features@.take(0) =~= Seq::<Feature>::empty());
    while i < features.len()
        invariant
            i <= features@.len(),
            pairs_of(features@) <= u64::MAX,
            n == pairs_of(features@.take(i as int)),
        decreases features@.len() - i,
    {
        proof {
            assert(features@.take(i + 1).drop_last() =~= features@.take(i as int));
            assert(features@.take(i + 1).last() == features@[i as int]);
            lemma_pairs_of_both(
                features@.take(i + 1),
                features@.subrange(i + 1, features@.len() as int),
            );
            assert(features@.take(i + 1) + features@.subrange(i + 1, features@.len() as int)
                =~= features@);
        }
        n = n + features[i].tags.len as u64;
        i = i + 1;
    }
    assert(features@.take(features@.len() as int) =~= features@);
    n
}

proof fn lemma_pairs_of_both(a: Seq<Feature>, b: Seq<Feature>)
    ensures
        pairs_of(a + b) == pairs_of(a) + pairs_of(b),
    decreases b.len(),
{
    if b.len() == 0 {
        assert(a + b =~= a);
    } else {
        assert((a + b).drop_last() =~= a + b.drop_last());
        lemma_pairs_of_both(a, b.drop_last());
    }
}

/// Anchoring adds no pairs.
proof fn lemma_pairs_anchored(s: ReadSoFar, waiting: Seq<Waiting>)
    ensures
        pairs_of(relation_features(s, waiting)) <= pairs_waiting(waiting),
    decreases waiting.len(),
{
    if waiting.len() > 0 {
        lemma_pairs_anchored(s, waiting.drop_last());
        let (front, all) = (
            relation_features(s, waiting.drop_last()),
            relation_features(s, waiting),
        );
        if anchor_of(s, waiting.last()).0 is Some {
            assert(all.drop_last() =~= front);
        }
    }
}

impl Extract {
    /// Anchors the relations, now that every way has been placed, and counts.
    fn anchor_waiting(&self) -> (r: (Vec<Feature>, ReadStats))
        ensures
            r.0@ == relation_features(self@, self@.waiting),
            r.1.relations_anchored == anchored(self@, self@.waiting),
            r.1.relations_unanchorable == unanchored(self@, self@.waiting),
            r.1.restrictions == restrictions(self@, self@.waiting),
            r.1.restrictions_via_node == restrictions_by(self@, self@.waiting, AnchorVia::Node),
            r.1.restrictions_via_way == restrictions_by(self@, self@.waiting, AnchorVia::Way),
            r.1.restrictions_no_via == restrictions_by(self@, self@.waiting, AnchorVia::Absent),
    {
        let mut stats: ReadStats = ReadStats::default();
        let mut out: Vec<Feature> = Vec::new();
        let ghost all = self@.waiting;
        let mut i: usize = 0;
        assert(all.take(0) =~= Seq::<Waiting>::empty());
        while i < self.waiting.len()
            invariant
                i <= all.len(),
                all == self@.waiting,
                all.len() == self.waiting@.len(),
                stats.relations_anchored <= i,
                stats.relations_unanchorable <= i,
                stats.restrictions <= i,
                stats.restrictions_via_node <= i,
                stats.restrictions_via_way <= i,
                stats.restrictions_no_via <= i,
                out@ == relation_features(self@, all.take(i as int)),
                stats.relations_anchored == anchored(self@, all.take(i as int)),
                stats.relations_unanchorable == unanchored(self@, all.take(i as int)),
                stats.restrictions == restrictions(self@, all.take(i as int)),
                stats.restrictions_via_node == restrictions_by(
                    self@,
                    all.take(i as int),
                    AnchorVia::Node,
                ),
                stats.restrictions_via_way == restrictions_by(
                    self@,
                    all.take(i as int),
                    AnchorVia::Way,
                ),
                stats.restrictions_no_via == restrictions_by(
                    self@,
                    all.take(i as int),
                    AnchorVia::Absent,
                ),
            decreases all.len() - i,
        {
            let id: i64 = self.waiting[i].0;
            let rel: &RawRelation = &self.waiting[i].1;
            let (anchor, how): (Option<TileXy>, AnchorVia) = anchor_relation(
                rel,
                &self.coords,
                &self.way_centroid,
            );
            proof {
                assert(all.take(i + 1).drop_last() =~= all.take(i as int));
                assert(all.take(i + 1).last() == all[i as int]);
                assert(all[i as int] == waiting_of(self.waiting@[i as int]));
                assert(anchor_of(self@, all[i as int]) == (anchor, how));
            }
            match anchor {
                Some(cell) => {
                    stats.relations_anchored = stats.relations_anchored + 1;
                    if rel.restriction {
                        stats.restrictions = stats.restrictions + 1;
                        match how {
                            AnchorVia::Node => {
                                stats.restrictions_via_node = stats.restrictions_via_node + 1;
                            },
                            AnchorVia::Way => {
                                stats.restrictions_via_way = stats.restrictions_via_way + 1;
                            },
                            AnchorVia::Absent => {
                                stats.restrictions_no_via = stats.restrictions_no_via + 1;
                            },
                        }
                    }
                    out.push(
                        Feature {
                            anchor: Anchor::Derived(cell),
                            entity_type: OSM_RELATION,
                            osm_id: id,
                            tags: rel.tags,
                        },
                    );
                },
                None => {
                    stats.relations_unanchorable = stats.relations_unanchorable + 1;
                },
            }
            i = i + 1;
        }
        assert(all.take(all.len() as int) =~= all);
        (out, stats)
    }

    /// Ends the read.
    pub fn finish(self) -> (r: ReadWithChains)
        requires
            self.wf(),
        ensures
            is_read(r, self@),
    {
        let (mut relations, mut stats): (Vec<Feature>, ReadStats) = self.anchor_waiting();
        let (nodes, ways): (u64, u64) = count_kinds(&self.features);
        stats.nodes_indexed = self.coords.len() as u64;
        stats.tagged_nodes = nodes;
        stats.tagged_ways = ways;
        stats.ways_unresolved = self.ways_unresolved;
        stats.distinct_tag_keys = self.store.distinct_keys() as u64;
        stats.distinct_tag_values = self.store.distinct_values() as u64;
        let mut features: Vec<Feature> = self.features;
        features.append(&mut relations);
        proof {
            lemma_pairs_of_both(self@.features, relation_features(self@, self@.waiting));
            lemma_pairs_anchored(self@, self@.waiting);
        }
        stats.tag_pairs = count_pairs(&features);
        let mut routes: Vec<(i64, Vec<i64>)> = self.routable_ways;
        let junctions: Vec<Junction> = build_junctions(&mut routes, &self.coords);
        proof {
            let f = |w: (i64, Vec<i64>)| (w.0, w.1@);
            let sorted = ways_of(routes@);
            lemma_mapped_multiset(routes@, self.routable_ways@, f);
            assert(sorted.to_multiset() == self@.routes.to_multiset());
            assert forall|i: int, j: int|
                #![trigger sorted[i], sorted[j]]
                0 <= i < j < sorted.len() implies sorted[i].0 <= sorted[j].0 by {
                assert(routes@[i].ranks_before(&routes@[j]));
            }
            assert(are_junctions(junctions@, sorted, self@.coords));
        }
        (features, self.store, stats, self.way_chains, junctions)
    }
}

/// What has been read after the first pass.
pub open spec fn indexed(nodes: Seq<(i64, TileXy)>) -> ReadSoFar
    decreases nodes.len(),
{
    if nodes.len() == 0 {
        nothing_read()
    } else {
        let s = indexed(nodes.drop_last());
        ReadSoFar { coords: s.coords.insert(nodes.last().0, nodes.last().1), ..s }
    }
}

/// What has been read after the second pass.
pub open spec fn after_all(s: ReadSoFar, elements: Seq<Element>) -> ReadSoFar
    decreases elements.len(),
{
    if elements.len() == 0 {
        s
    } else {
        after(after_all(s, elements.drop_last()), elements.last())
    }
}

/// How many tags elements have.
pub open spec fn tag_total(elements: Seq<Element>) -> nat
    decreases elements.len(),
{
    if elements.len() == 0 {
        0
    } else {
        tag_total(elements.drop_last()) + tags_of(elements.last()).len()
    }
}

proof fn lemma_tag_total(elements: Seq<Element>, n: int)
    requires
        0 <= n <= elements.len(),
    ensures
        tag_total(elements.take(n)) <= tag_total(elements),
    decreases elements.len(),
{
    if n < elements.len() {
        assert(elements.take(n) =~= elements.drop_last().take(n));
        lemma_tag_total(elements.drop_last(), n);
    } else {
        assert(elements.take(n) =~= elements);
    }
}

/// A read stores no more tags than there are, and cannot leave more ways
/// unresolved than there are elements.
proof fn lemma_read_bounds(s: ReadSoFar, elements: Seq<Element>)
    ensures
        after_all(s, elements).tags.len() <= s.tags.len() + tag_total(elements),
        after_all(s, elements).unresolved <= s.unresolved + elements.len(),
    decreases elements.len(),
{
    if elements.len() > 0 {
        lemma_read_bounds(s, elements.drop_last());
    }
}

/// Reads an extract from the places of its nodes and its elements.
pub fn read_features_with_chains(nodes: &[(i64, TileXy)], elements: &[Element]) -> (r:
    ReadWithChains)
    requires
        tag_total(elements@) <= u32::MAX,
    ensures
        is_read(r, after_all(indexed(nodes@), elements@)),
{
    let mut x: Extract = Extract::new();
    let mut i: usize = 0;
    assert(nodes@.take(0) =~= Seq::<(i64, TileXy)>::empty());
    while i < nodes.len()
        invariant
            i <= nodes@.len(),
            x.wf(),
            x@ == indexed(nodes@.take(i as int)),
            x@.tags.len() == 0,
            x@.unresolved == 0,
        decreases nodes@.len() - i,
    {
        proof {
            assert(nodes@.take(i + 1).drop_last() =~= nodes@.take(i as int));
            assert(nodes@.take(i + 1).last() == nodes@[i as int]);
        }
        x.index_node(nodes[i].0, nodes[i].1);
        i = i + 1;
    }
    assert(nodes@.take(nodes@.len() as int) =~= nodes@);
    let ghost start = indexed(nodes@);
    let mut j: usize = 0;
    assert(elements@.take(0) =~= Seq::<Element>::empty());
    while j < elements.len()
        invariant
            j <= elements@.len(),
            tag_total(elements@) <= u32::MAX,
            start.tags.len() == 0,
            start.unresolved == 0,
            x.wf(),
            x@ == after_all(start, elements@.take(j as int)),
        decreases elements@.len() - j,
    {
        proof {
            let done = elements@.take(j as int);
            let next = elements@.take(j + 1);
            assert(next.drop_last() =~= done);
            assert(next.last() == elements@[j as int]);
            lemma_read_bounds(start, done);
            lemma_tag_total(elements@, j + 1);
            assert(tag_total(next) == tag_total(done) + tags_of(elements@[j as int]).len());
        }
        match elements[j] {
            Element::Node { id, cell, tags } => {
                x.add_node(id, cell, tags);
            },
            Element::Way { id, refs, tags } => {
                x.add_way(id, refs, tags);
            },
            Element::Relation { id, members, tags } => {
                x.add_relation(id, members, tags);
            },
        }
        j = j + 1;
    }
    assert(elements@.take(elements@.len() as int) =~= elements@);
    x.finish()
}

/// Reads an extract, and keeps the features, their tags and what was covered.
pub fn read_features(nodes: &[(i64, TileXy)], elements: &[Element]) -> (r: (
    Vec<Feature>,
    TagStore,
    ReadStats,
))
    requires
        tag_total(elements@) <= u32::MAX,
    ensures
        ({
            let s = after_all(indexed(nodes@), elements@);
            &&& r.0@ == s.features + relation_features(s, s.waiting)
            &&& r.1.wf()
            &&& r.1@ == s.tags
            &&& r.1.key_texts() == s.keys
            &&& r.1.value_texts() == s.values
            &&& are_stats(r.2, s)
        }),
{
    let (features, store, stats, _chains, _junctions): ReadWithChains = read_features_with_chains(
        nodes,
        elements,
    );
    (features, store, stats)
}

// ── Laws of a read ──────────────────────────────────────────────────
/// Every tagged relation is accounted for: it is anchored or counted as
/// unanchorable, and a restriction that is anchored is counted under one branch
/// of the rule.
pub proof fn law_relations_are_accounted_for(s: ReadSoFar, waiting: Seq<Waiting>)
    ensures
        anchored(s, waiting) + unanchored(s, waiting) == waiting.len(),
        relation_features(s, waiting).len() == anchored(s, waiting),
        restrictions_by(s, waiting, AnchorVia::Node) + restrictions_by(s, waiting, AnchorVia::Way)
            + restrictions_by(s, waiting, AnchorVia::Absent) == restrictions(s, waiting),
        restrictions(s, waiting) <= anchored(s, waiting),
    decreases waiting.len(),
{
    if waiting.len() > 0 {
        law_relations_are_accounted_for(s, waiting.drop_last());
    }
}

/// Every tagged node, and every tagged way that could be placed, is a feature;
/// the other tagged ways are counted. No element is dropped in silence.
pub proof fn law_tagged_elements_are_accounted_for(s: ReadSoFar, elements: Seq<Element>)
    ensures
        ({
            let r = after_all(s, elements);
            r.features.len() + r.unresolved + r.waiting.len() == s.features.len() + s.unresolved
                + s.waiting.len() + count(elements, |e: Element| tags_of(e).len() > 0)
        }),
    decreases elements.len(),
{
    if elements.len() > 0 {
        law_tagged_elements_are_accounted_for(s, elements.drop_last());
    }
}

/// The features that a read gives are those of nodes, of ways and of anchored
/// relations, and no others.
pub proof fn law_features_are_counted_by_kind(
    nodes: Seq<(i64, TileXy)>,
    elements: Seq<Element>,
)
    ensures
        ({
            let s = after_all(indexed(nodes), elements);
            (s.features + relation_features(s, s.waiting)).len() == of_kind(s.features, OSM_NODE)
                + of_kind(s.features, OSM_WAY) + anchored(s, s.waiting)
        }),
{
    lemma_only_nodes_and_ways(nodes, elements);
    let s = after_all(indexed(nodes), elements);
    law_relations_are_accounted_for(s, s.waiting);
}

proof fn lemma_only_nodes_and_ways(nodes: Seq<(i64, TileXy)>, elements: Seq<Element>)
    ensures
        ({
            let f = after_all(indexed(nodes), elements).features;
            f.len() == of_kind(f, OSM_NODE) + of_kind(f, OSM_WAY)
        }),
    decreases nodes.len() + elements.len(),
{
    if elements.len() > 0 {
        lemma_only_nodes_and_ways(nodes, elements.drop_last());
        let s = after_all(indexed(nodes), elements.drop_last());
        let r = after(s, elements.last());
        if r.features.len() > s.features.len() {
            assert(r.features.drop_last() =~= s.features);
        }
    } else if nodes.len() > 0 {
        lemma_only_nodes_and_ways(nodes.drop_last(), elements);
        assert(indexed(nodes).features == indexed(nodes.drop_last()).features);
    }
}

/// Every pair in the store belongs to a feature or to a relation that could not be
/// anchored.
pub proof fn law_pairs_are_accounted_for(nodes: Seq<(i64, TileXy)>, elements: Seq<Element>)
    requires
        tag_total(elements) <= u32::MAX,
    ensures
        ({
            let s = after_all(indexed(nodes), elements);
            pairs_of(s.features + relation_features(s, s.waiting)) + pairs_waiting(
                s.waiting.filter(|r: Waiting| anchor_of(s, r).0 is None),
            ) == s.tags.len()
        }),
{
    lemma_every_pair_is_stored(nodes, elements);
    let s = after_all(indexed(nodes), elements);
    lemma_pairs_of_both(s.features, relation_features(s, s.waiting));
    lemma_pairs_left_over(s, s.waiting);
}

proof fn lemma_every_pair_is_stored(nodes: Seq<(i64, TileXy)>, elements: Seq<Element>)
    requires
        tag_total(elements) <= u32::MAX,
    ensures
        ({
            let s = after_all(indexed(nodes), elements);
            pairs_of(s.features) + pairs_waiting(s.waiting) == s.tags.len()
        }),
    decreases nodes.len() + elements.len(),
{
    if elements.len() > 0 {
        lemma_every_pair_is_stored(nodes, elements.drop_last());
        let s = after_all(indexed(nodes), elements.drop_last());
        let r = after(s, elements.last());
        if r.features.len() > s.features.len() {
            assert(r.features.drop_last() =~= s.features);
        }
        if r.waiting.len() > s.waiting.len() {
            assert(r.waiting.drop_last() =~= s.waiting);
        }
    } else if nodes.len() > 0 {
        lemma_every_pair_is_stored(nodes.drop_last(), elements);
        assert(after_all(indexed(nodes), elements) == indexed(nodes));
        assert(after_all(indexed(nodes.drop_last()), elements) == indexed(nodes.drop_last()));
    }
}

proof fn lemma_pairs_left_over(s: ReadSoFar, waiting: Seq<Waiting>)
    ensures
        pairs_of(relation_features(s, waiting)) + pairs_waiting(
            waiting.filter(|r: Waiting| anchor_of(s, r).0 is None),
        ) == pairs_waiting(waiting),
    decreases waiting.len(),
{
    reveal(Seq::filter);
    let p = |r: Waiting| anchor_of(s, r).0 is None;
    if waiting.len() > 0 {
        lemma_pairs_left_over(s, waiting.drop_last());
        if anchor_of(s, waiting.last()).0 is Some {
            assert(relation_features(s, waiting).drop_last() =~= relation_features(
                s,
                waiting.drop_last(),
            ));
        } else {
            assert(waiting.filter(p).drop_last() =~= waiting.drop_last().filter(p));
        }
    }
}

/// The order of elements in a file plays no part in anchoring: a relation that
/// comes before a way has the same anchor as one that comes after it.
pub proof fn law_relations_wait_for_ways(
    s: ReadSoFar,
    id: i64,
    members: Seq<RawMember>,
    tags: Seq<(Seq<char>, Seq<char>)>,
    way: i64,
    refs: Seq<i64>,
    way_tags: Seq<(Seq<char>, Seq<char>)>,
    r: Waiting,
)
    ensures
        ({
            let first = after_way(after_relation(s, id, members, tags), way, refs, way_tags);
            let last = after_relation(after_way(s, way, refs, way_tags), id, members, tags);
            &&& first.ways == last.ways
            &&& first.coords == last.coords
            &&& anchor_of(first, r) == anchor_of(last, r)
        }),
{
}

/// The span of a feature addresses the tags that its element was read with.
pub proof fn law_spans_address_their_tags(
    s: ReadSoFar,
    tags: Seq<(Seq<char>, Seq<char>)>,
    more: Seq<(Seq<char>, Seq<char>)>,
)
    requires
        s.tags.len() + tags.len() <= u32::MAX,
    ensures
        next_span(s, tags).of(with_stored(s, tags).tags + more) == tags,
{
    assert(next_span(s, tags).of(with_stored(s, tags).tags + more) =~= tags);
}

// ── Laws of placing and anchoring ───────────────────────────────────
/// The cells of a way are those of its references that have one: one for each
/// reference, in the order of the references, a repeated one as often as it occurs.
pub proof fn law_every_placed_ref_is_a_vertex(refs: Seq<i64>, coords: Map<i64, TileXy>)
    ensures
        located(refs, coords) == refs.filter(|r: i64| coords.contains_key(r)).map_values(
            |r: i64| coords[r],
        ),
    decreases refs.len(),
{
    reveal(Seq::filter);
    let p = |r: i64| coords.contains_key(r);
    let f = |r: i64| coords[r];
    if refs.len() > 0 {
        law_every_placed_ref_is_a_vertex(refs.drop_last(), coords);
        assert(refs.filter(p).map_values(f) =~= located(refs, coords));
    } else {
        assert(refs.filter(p).map_values(f) =~= located(refs, coords));
    }
}

/// Where every reference of a way has a cell, the way has as many cells as
/// references, and each stands where its reference does: a closed way stays closed.
pub proof fn law_placed_way_keeps_every_vertex(refs: Seq<i64>, coords: Map<i64, TileXy>)
    requires
        forall|i: int| 0 <= i < refs.len() ==> coords.contains_key(#[trigger] refs[i]),
    ensures
        located(refs, coords).len() == refs.len(),
        forall|i: int|
            0 <= i < refs.len() ==> #[trigger] located(refs, coords)[i] == coords[refs[i]],
    decreases refs.len(),
{
    if refs.len() > 0 {
        assert(coords.contains_key(refs[refs.len() - 1]));
        let front = refs.drop_last();
        assert forall|i: int| 0 <= i < front.len() implies coords.contains_key(
            #[trigger] front[i],
        ) by {
            assert(coords.contains_key(refs[i]));
        }
        law_placed_way_keeps_every_vertex(front, coords);
    }
}

/// A tagged way that can be placed is one more feature, of its own id and kind,
/// anchored at the centroid of its vertices; its shape is kept under its id; and
/// nothing that was read before it changes. Only a way without a tag is no feature,
/// and it has a place all the same.
pub proof fn law_placed_way_is_kept(
    s: ReadSoFar,
    id: i64,
    refs: Seq<i64>,
    tags: Seq<(Seq<char>, Seq<char>)>,
)
    requires
        exists|i: int| 0 <= i < refs.len() && s.coords.contains_key(#[trigger] refs[i]),
        s.tags.len() + tags.len() <= u32::MAX,
    ensures
        ({
            let r = after_way(s, id, refs, tags);
            let cells = refs.filter(|n: i64| s.coords.contains_key(n)).map_values(
                |n: i64| s.coords[n],
            );
            &&& centroid(cells) matches Some(c)
            &&& r.ways == s.ways.insert(id, c)
            &&& r.coords == s.coords
            &&& r.waiting == s.waiting
            &&& r.unresolved == s.unresolved
            &&& tags.len() == 0 ==> r.features == s.features && r.chains == s.chains && r.tags
                == s.tags
            &&& tags.len() > 0 ==> {
                &&& r.chains == s.chains.insert(id, cells)
                &&& r.features.len() == s.features.len() + 1
                &&& r.features.take(s.features.len() as int) == s.features
                &&& r.features.last().anchor == Anchor::Derived(c)
                &&& r.features.last().entity_type == OSM_WAY
                &&& r.features.last().osm_id == id
                &&& r.features.last().tags.of(r.tags) == tags
                &&& r.tags == s.tags + tags
            }
        }),
{
    law_every_placed_ref_is_a_vertex(refs, s.coords);
    lemma_some_vertex(refs, s.coords);
    let r = after_way(s, id, refs, tags);
    if tags.len() > 0 {
        assert(r.features.take(s.features.len() as int) =~= s.features);
        assert(r.features.last().tags.of(r.tags) =~= tags);
    }
}

proof fn lemma_some_vertex(refs: Seq<i64>, coords: Map<i64, TileXy>)
    ensures
        located(refs, coords).len() > 0 <==> exists|i: int|
            0 <= i < refs.len() && coords.contains_key(#[trigger] refs[i]),
    decreases refs.len(),
{
    if refs.len() > 0 {
        let front = refs.drop_last();
        lemma_some_vertex(front, coords);
        if exists|i: int| 0 <= i < front.len() && coords.contains_key(#[trigger] front[i]) {
            let i = choose|i: int| 0 <= i < front.len() && coords.contains_key(#[trigger] front[i]);
            assert(coords.contains_key(refs[i]));
        }
        if exists|i: int| 0 <= i < refs.len() && coords.contains_key(#[trigger] refs[i]) {
            let i = choose|i: int| 0 <= i < refs.len() && coords.contains_key(#[trigger] refs[i]);
            if i < front.len() {
                assert(coords.contains_key(front[i]));
            }
        }
        if coords.contains_key(refs.last()) {
            assert(coords.contains_key(refs[refs.len() - 1]));
        }
    }
}

/// A way of whose nodes none has a cell is no feature and has no place; where it is
/// tagged it is counted.
pub proof fn law_unplaced_way_is_counted(
    s: ReadSoFar,
    id: i64,
    refs: Seq<i64>,
    tags: Seq<(Seq<char>, Seq<char>)>,
)
    requires
        forall|i: int| 0 <= i < refs.len() ==> !s.coords.contains_key(#[trigger] refs[i]),
    ensures
        ({
            let r = after_way(s, id, refs, tags);
            &&& r.features == s.features && r.ways == s.ways && r.chains == s.chains
            &&& r.tags == s.tags && r.waiting == s.waiting && r.coords == s.coords
            &&& r.unresolved == s.unresolved + if tags.len() > 0 {
                1int
            } else {
                0
            }
        }),
{
    lemma_some_vertex(refs, s.coords);
}

/// A tagged node is one more feature, of its own id and kind, at its own cell; a node
/// without a tag changes nothing.
pub proof fn law_tagged_node_is_kept(
    s: ReadSoFar,
    id: i64,
    cell: TileXy,
    tags: Seq<(Seq<char>, Seq<char>)>,
)
    requires
        s.tags.len() + tags.len() <= u32::MAX,
    ensures
        ({
            let r = after_node(s, id, cell, tags);
            &&& tags.len() == 0 ==> r == s
            &&& tags.len() > 0 ==> {
                &&& r.features.len() == s.features.len() + 1
                &&& r.features.take(s.features.len() as int) == s.features
                &&& r.features.last().anchor == Anchor::Published(cell)
                &&& r.features.last().entity_type == OSM_NODE
                &&& r.features.last().osm_id == id
                &&& r.features.last().tags.of(r.tags) == tags
                &&& r.tags == s.tags + tags
                &&& r.coords == s.coords && r.ways == s.ways && r.chains == s.chains
                &&& r.routes == s.routes && r.waiting == s.waiting && r.unresolved == s.unresolved
            }
        }),
{
    let r = after_node(s, id, cell, tags);
    if tags.len() > 0 {
        assert(r.features.take(s.features.len() as int) =~= s.features);
        assert(r.features.last().tags.of(r.tags) =~= tags);
    }
}

/// The first pass places every node where it was last given.
pub proof fn law_last_place_counts(nodes: Seq<(i64, TileXy)>, at: int)
    ensures
        forall|id: i64| #[trigger]
            indexed(nodes).coords.contains_key(id) <==> exists|i: int|
                0 <= i < nodes.len() && (#[trigger] nodes[i]).0 == id,
        0 <= at < nodes.len() && (forall|i: int|
            at < i < nodes.len() ==> (#[trigger] nodes[i]).0 != nodes[at].0) ==> indexed(
            nodes,
        ).coords[nodes[at].0] == nodes[at].1,
    decreases nodes.len(),
{
    if nodes.len() > 0 {
        let front = nodes.drop_last();
        assert forall|i: int| 0 <= i < front.len() implies #[trigger] front[i] == nodes[i] by {}
        law_last_place_counts(front, at);
        let n = nodes.len() - 1;
        assert forall|id: i64| #[trigger] indexed(nodes).coords.contains_key(id) <==> exists|i: int|
            0 <= i < nodes.len() && (#[trigger] nodes[i]).0 == id by {
            if indexed(front).coords.contains_key(id) {
                let i = choose|i: int| 0 <= i < front.len() && (#[trigger] front[i]).0 == id;
                assert(nodes[i].0 == id);
            }
            if nodes[n].0 == id {
                assert(indexed(nodes).coords.contains_key(id));
            }
            if exists|i: int| 0 <= i < nodes.len() && (#[trigger] nodes[i]).0 == id {
                let i = choose|i: int| 0 <= i < nodes.len() && (#[trigger] nodes[i]).0 == id;
                if i < n {
                    assert(front[i].0 == id);
                }
            }
        }
        if 0 <= at < n && forall|i: int| at < i < nodes.len() ==> (#[trigger] nodes[i]).0
            != nodes[at].0 {
            assert(nodes[n].0 != nodes[at].0);
        }
    }
}

/// Elements are read one after the other: reading a list is reading its front and
/// then its back.
pub proof fn law_reading_goes_on(s: ReadSoFar, front: Seq<Element>, back: Seq<Element>)
    ensures
        after_all(s, front + back) == after_all(after_all(s, front), back),
    decreases back.len(),
{
    if back.len() == 0 {
        assert(front + back =~= front);
    } else {
        assert((front + back).drop_last() =~= front + back.drop_last());
        law_reading_goes_on(s, front, back.drop_last());
    }
}

/// Every member of a relation but those that are relations themselves can anchor it:
/// a node or a way, under its own id, a `via` where its role says so.
pub proof fn law_members_are_kept(members: Seq<RawMember>)
    ensures
        candidates(members) == members.filter(
            |m: RawMember| m.kind == MemberKind::Node || m.kind == MemberKind::Way,
        ).map_values(
            |m: RawMember|
                Member {
                    is_node: m.kind == MemberKind::Node,
                    id: m.id,
                    via: m.role is Some && m.role->0@ == "via"@,
                },
        ),
    decreases members.len(),
{
    reveal(Seq::filter);
    let p = |m: RawMember| m.kind == MemberKind::Node || m.kind == MemberKind::Way;
    let f = |m: RawMember|
        Member {
            is_node: m.kind == MemberKind::Node,
            id: m.id,
            via: m.role is Some && m.role->0@ == "via"@,
        };
    if members.len() > 0 {
        law_members_are_kept(members.drop_last());
        assert(members.filter(p).map_values(f) =~= candidates(members));
    } else {
        assert(members.filter(p).map_values(f) =~= candidates(members));
    }
}

/// The positions that a centroid is taken of are those of all members that have one,
/// in order: a node's own cell, a way's centroid.
pub proof fn law_every_placed_member_counts(
    members: Seq<Member>,
    coords: Map<i64, TileXy>,
    ways: Map<i64, TileXy>,
)
    ensures
        placed(members, coords, ways) == members.filter(
            |m: Member|
                if m.is_node {
                    coords.contains_key(m.id)
                } else {
                    ways.contains_key(m.id)
                },
        ).map_values(
            |m: Member|
                if m.is_node {
                    coords[m.id]
                } else {
                    ways[m.id]
                },
        ),
    decreases members.len(),
{
    reveal(Seq::filter);
    let p = |m: Member|
        if m.is_node {
            coords.contains_key(m.id)
        } else {
            ways.contains_key(m.id)
        };
    let f = |m: Member|
        if m.is_node {
            coords[m.id]
        } else {
            ways[m.id]
        };
    if members.len() > 0 {
        law_every_placed_member_counts(members.drop_last(), coords, ways);
        assert(members.filter(p).map_values(f) =~= placed(members, coords, ways));
    } else {
        assert(members.filter(p).map_values(f) =~= placed(members, coords, ways));
    }
}

/// A relation without a `via` of whose members each, node or way, has a position is
/// anchored at the centroid of all of them, whatever their kinds and their order.
pub proof fn law_centroid_of_all_members(
    members: Seq<Member>,
    coords: Map<i64, TileXy>,
    ways: Map<i64, TileXy>,
)
    requires
        members.len() > 0,
        forall|i: int| 0 <= i < members.len() ==> !(#[trigger] members[i]).via,
        forall|i: int|
            0 <= i < members.len() ==> if (#[trigger] members[i]).is_node {
                coords.contains_key(members[i].id)
            } else {
                ways.contains_key(members[i].id)
            },
    ensures
        ({
            let cells = Seq::new(
                members.len(),
                |i: int|
                    if members[i].is_node {
                        coords[members[i].id]
                    } else {
                        ways[members[i].id]
                    },
            );
            relation_anchor(members, coords, ways) == (centroid(cells), AnchorVia::Absent)
        }),
{
    lemma_no_via(members);
    lemma_all_placed(members, coords, ways);
    let cells = Seq::new(
        members.len(),
        |i: int|
            if members[i].is_node {
                coords[members[i].id]
            } else {
                ways[members[i].id]
            },
    );
    assert(placed(members, coords, ways) =~= cells);
}

proof fn lemma_all_placed(members: Seq<Member>, coords: Map<i64, TileXy>, ways: Map<i64, TileXy>)
    requires
        forall|i: int|
            0 <= i < members.len() ==> if (#[trigger] members[i]).is_node {
                coords.contains_key(members[i].id)
            } else {
                ways.contains_key(members[i].id)
            },
    ensures
        placed(members, coords, ways).len() == members.len(),
        forall|i: int|
            0 <= i < members.len() ==> #[trigger] placed(members, coords, ways)[i]
                == if members[i].is_node {
                coords[members[i].id]
            } else {
                ways[members[i].id]
            },
    decreases members.len(),
{
    if members.len() > 0 {
        let front = members.drop_last();
        assert(members[members.len() - 1] == members.last());
        assert forall|i: int| 0 <= i < front.len() implies if (#[trigger] front[i]).is_node {
            coords.contains_key(front[i].id)
        } else {
            ways.contains_key(front[i].id)
        } by {
            assert(front[i] == members[i]);
        }
        lemma_all_placed(front, coords, ways);
    }
}

/// The first `via` member decides: where it has a position the relation is anchored
/// there, and where it has none the relation is anchored at the centroid of the
/// members that have one, as if it had no `via`.
pub proof fn law_first_via_decides(
    members: Seq<Member>,
    coords: Map<i64, TileXy>,
    ways: Map<i64, TileXy>,
    at: int,
)
    requires
        0 <= at < members.len(),
        members[at].via,
        forall|i: int| 0 <= i < at ==> !(#[trigger] members[i]).via,
    ensures
        ({
            let m = members[at];
            let positions = members.filter(
                |m: Member|
                    if m.is_node {
                        coords.contains_key(m.id)
                    } else {
                        ways.contains_key(m.id)
                    },
            ).map_values(
                |m: Member|
                    if m.is_node {
                        coords[m.id]
                    } else {
                        ways[m.id]
                    },
            );
            relation_anchor(members, coords, ways) == if m.is_node && coords.contains_key(m.id) {
                (Some(coords[m.id]), AnchorVia::Node)
            } else if !m.is_node && ways.contains_key(m.id) {
                (Some(ways[m.id]), AnchorVia::Way)
            } else {
                (centroid(positions), AnchorVia::Absent)
            }
        }),
{
    lemma_via_is_first(members, at);
    law_every_placed_member_counts(members, coords, ways);
}

proof fn lemma_via_is_first(members: Seq<Member>, at: int)
    requires
        0 <= at < members.len(),
        members[at].via,
        forall|i: int| 0 <= i < at ==> !(#[trigger] members[i]).via,
    ensures
        first_via(members) == Some(members[at]),
    decreases members.len(),
{
    let front = members.drop_last();
    if at < front.len() {
        assert(front[at] == members[at]);
        lemma_via_is_first(front, at);
    } else {
        assert forall|i: int| 0 <= i < front.len() implies !(#[trigger] front[i]).via by {
            assert(front[i] == members[i]);
        }
        lemma_no_via(front);
    }
}

/// A tagged relation waits with its members, marked as a restriction where its first
/// `type` begins so; one without a tag is not kept.
pub proof fn law_tagged_relation_waits(
    s: ReadSoFar,
    id: i64,
    members: Seq<RawMember>,
    tags: Seq<(Seq<char>, Seq<char>)>,
    at: int,
)
    requires
        s.tags.len() + tags.len() <= u32::MAX,
        0 <= at < tags.len(),
        tags[at].0 == "type"@,
        forall|i: int| 0 <= i < at ==> (#[trigger] tags[i]).0 != "type"@,
    ensures
        ({
            let r = after_relation(s, id, members, tags);
            &&& r.waiting.len() == s.waiting.len() + 1
            &&& r.waiting.take(s.waiting.len() as int) == s.waiting
            &&& r.waiting.last().id == id
            &&& r.waiting.last().restriction <==> "restriction"@.is_prefix_of(tags[at].1)
            &&& r.waiting.last().members == candidates(members)
            &&& r.waiting.last().tags.of(r.tags) == tags
            &&& r.features == s.features && r.coords == s.coords && r.ways == s.ways
            &&& r.chains == s.chains && r.routes == s.routes && r.unresolved == s.unresolved
        }),
{
    crate::text::law_first_tag_counts(tags, "type"@, at);
    let r = after_relation(s, id, members, tags);
    assert(r.waiting.take(s.waiting.len() as int) =~= s.waiting);
    assert(r.waiting.last().tags.of(r.tags) =~= tags);
    let (t, p) = (tags[at].1, "restriction"@);
    if p.len() <= t.len() {
        assert(t.take(p.len() as int) =~= t.subrange(0, p.len() as int));
    }
}

/// The features of relations are those of the relations that have an anchor, in order,
/// each with its own id and tags at its own anchor.
pub proof fn law_anchored_relations_are_features(s: ReadSoFar, waiting: Seq<Waiting>)
    ensures
        relation_features(s, waiting) == waiting.filter(
            |r: Waiting| relation_anchor(r.members, s.coords, s.ways).0 is Some,
        ).map_values(
            |r: Waiting|
                Feature {
                    anchor: Anchor::Derived(relation_anchor(r.members, s.coords, s.ways).0->0),
                    entity_type: OSM_RELATION,
                    osm_id: r.id,
                    tags: r.tags,
                },
        ),
    decreases waiting.len(),
{
    reveal(Seq::filter);
    let p = |r: Waiting| relation_anchor(r.members, s.coords, s.ways).0 is Some;
    let f = |r: Waiting|
        Feature {
            anchor: Anchor::Derived(relation_anchor(r.members, s.coords, s.ways).0->0),
            entity_type: OSM_RELATION,
            osm_id: r.id,
            tags: r.tags,
        };
    if waiting.len() > 0 {
        law_anchored_relations_are_features(s, waiting.drop_last());
        assert(waiting.filter(p).map_values(f) =~= relation_features(s, waiting));
    } else {
        assert(waiting.filter(p).map_values(f) =~= relation_features(s, waiting));
    }
}

/// A count is the number of elements that have the property.
pub proof fn law_count_is_of_elements<T>(s: Seq<T>, p: spec_fn(T) -> bool)
    ensures
        count(s, p) == s.filter(p).len(),
    decreases s.len(),
{
    reveal(Seq::filter);
    if s.len() > 0 {
        law_count_is_of_elements(s.drop_last(), p);
    }
}

// ── Laws of the routable network ────────────────────────────────────
/// A way carries traffic exactly where it has a `highway` tag and the value of the
/// first is none of the nine that carry none. Every other value does, footways and
/// cycleways among them: pedestrians route.
pub proof fn law_every_other_highway_is_routable(tags: Seq<(Seq<char>, Seq<char>)>, at: int)
    requires
        0 <= at < tags.len(),
        tags[at].0 == "highway"@,
        forall|i: int| 0 <= i < at ==> (#[trigger] tags[i]).0 != "highway"@,
    ensures
        routable(tags) <==> {
            let v = tags[at].1;
            &&& v != "construction"@ && v != "proposed"@ && v != "platform"@
            &&& v != "raceway"@ && v != "bus_stop"@ && v != "street_lamp"@
            &&& v != "traffic_sign"@ && v != "rest_area"@ && v != "services"@
        },
{
    crate::text::law_first_tag_counts(tags, "highway"@, at);
    let (v, all) = (tags[at].1, NON_ROUTABLE@);
    assert(all[0]@ == "construction"@ && all[1]@ == "proposed"@ && all[2]@ == "platform"@);
    assert(all[3]@ == "raceway"@ && all[4]@ == "bus_stop"@ && all[5]@ == "street_lamp"@);
    assert(all[6]@ == "traffic_sign"@ && all[7]@ == "rest_area"@ && all[8]@ == "services"@);
    if listed(v, all) {
        let i = choose|i: int| 0 <= i < all.len() && (#[trigger] all[i])@ == v;
        assert(i == 0 || i == 1 || i == 2 || i == 3 || i == 4 || i == 5 || i == 6 || i == 7 || i
            == 8);
    }
}

/// What is no highway carries no traffic.
pub proof fn law_only_highways_are_routable(tags: Seq<(Seq<char>, Seq<char>)>)
    requires
        forall|i: int| 0 <= i < tags.len() ==> (#[trigger] tags[i]).0 != "highway"@,
    ensures
        !routable(tags),
{
    crate::text::law_first_tag_counts(tags, "highway"@, 0);
}

/// Every way that carries traffic is kept for junctions with all its references,
/// whether it can be placed or not, and no other is.
pub proof fn law_routable_ways_are_kept(
    s: ReadSoFar,
    id: i64,
    refs: Seq<i64>,
    tags: Seq<(Seq<char>, Seq<char>)>,
)
    ensures
        routable(tags) ==> after_way(s, id, refs, tags).routes == s.routes.push((id, refs)),
        !routable(tags) ==> after_way(s, id, refs, tags).routes == s.routes,
{
}

/// How often ways touch a node is how often it occurs among their nodes.
pub proof fn law_touches_are_occurrences(ways: Seq<(i64, Seq<i64>)>, n: i64)
    ensures
        occurrences(ways, n).len() == ways.fold_left(
            0int,
            |sum: int, w: (i64, Seq<i64>)| sum + w.1.filter(|x: i64| x == n).len(),
        ),
    decreases ways.len(),
{
    let g = |sum: int, w: (i64, Seq<i64>)| sum + w.1.filter(|x: i64| x == n).len();
    reveal_with_fuel(Seq::fold_left, 2);
    if ways.len() > 0 {
        law_touches_are_occurrences(ways.drop_last(), n);
        lemma_touch_count(ways.last().0, ways.last().1, n);
    }
}

proof fn lemma_touch_count(id: i64, nodes: Seq<i64>, n: i64)
    ensures
        touches(id, nodes, n).len() == nodes.filter(|x: i64| x == n).len(),
    decreases nodes.len(),
{
    reveal(Seq::filter);
    if nodes.len() > 0 {
        lemma_touch_count(id, nodes.drop_last(), n);
    }
}

/// A node is a junction exactly where it has a cell and ways pass it at two places, of
/// two ways or of one.
pub proof fn law_junctions_are_where_ways_meet(
    list: Seq<Junction>,
    ways: Seq<(i64, Seq<i64>)>,
    coords: Map<i64, TileXy>,
    n: i64,
)
    requires
        are_junctions(list, ways, coords),
    ensures
        (exists|i: int| 0 <= i < list.len() && (#[trigger] list[i]).node_id == n)
            <==> coords.contains_key(n) && exists|a: int, i: int, b: int, j: int|
            #![trigger ways[a].1[i], ways[b].1[j]]
            {
                &&& 0 <= a < ways.len() && 0 <= i < ways[a].1.len() && ways[a].1[i] == n
                &&& 0 <= b < ways.len() && 0 <= j < ways[b].1.len() && ways[b].1[j] == n
                &&& (a, i) != (b, j)
            },
{
    lemma_meet_twice(ways, n);
    if exists|i: int| 0 <= i < list.len() && (#[trigger] list[i]).node_id == n {
        let i = choose|i: int| 0 <= i < list.len() && (#[trigger] list[i]).node_id == n;
        assert(is_junction_at(list[i], ways, coords));
    }
}

proof fn lemma_touch_exists(id: i64, nodes: Seq<i64>, n: i64)
    ensures
        touches(id, nodes, n).len() >= 1 <==> exists|i: int|
            0 <= i < nodes.len() && #[trigger] nodes[i] == n,
        touches(id, nodes, n).len() >= 2 <==> exists|i: int, j: int|
            #![trigger nodes[i], nodes[j]]
            0 <= i < j < nodes.len() && nodes[i] == n && nodes[j] == n,
    decreases nodes.len(),
{
    if nodes.len() > 0 {
        let (front, m) = (nodes.drop_last(), nodes.len() - 1);
        lemma_touch_exists(id, front, n);
        assert forall|i: int| 0 <= i < front.len() implies #[trigger] front[i] == nodes[i] by {}
        if touches(id, front, n).len() >= 1 {
            let i = choose|i: int| 0 <= i < front.len() && #[trigger] front[i] == n;
            assert(nodes[i] == n);
            if nodes[m] == n {
                assert(0 <= i < m < nodes.len() && nodes[i] == n && nodes[m] == n);
            }
        }
        if touches(id, front, n).len() >= 2 {
            let (i, j) = choose|i: int, j: int|
                #![trigger front[i], front[j]]
                0 <= i < j < front.len() && front[i] == n && front[j] == n;
            assert(0 <= i < j < nodes.len() && nodes[i] == n && nodes[j] == n);
        }
        if exists|i: int| 0 <= i < nodes.len() && #[trigger] nodes[i] == n {
            let i = choose|i: int| 0 <= i < nodes.len() && #[trigger] nodes[i] == n;
            if i < m {
                assert(front[i] == n);
            }
        }
        if exists|i: int, j: int|
            #![trigger nodes[i], nodes[j]]
            0 <= i < j < nodes.len() && nodes[i] == n && nodes[j] == n {
            let (i, j) = choose|i: int, j: int|
                #![trigger nodes[i], nodes[j]]
                0 <= i < j < nodes.len() && nodes[i] == n && nodes[j] == n;
            assert(front[i] == n);
            if j < m {
                assert(front[j] == n);
            }
        }
    }
}

/// Whether a way passes a node at a place.
spec fn passes(ways: Seq<(i64, Seq<i64>)>, n: i64, a: int, i: int) -> bool {
    0 <= a < ways.len() && 0 <= i < ways[a].1.len() && ways[a].1[i] == n
}

proof fn lemma_meet_once(ways: Seq<(i64, Seq<i64>)>, n: i64)
    ensures
        occurrences(ways, n).len() >= 1 <==> exists|a: int, i: int| passes(ways, n, a, i),
    decreases ways.len(),
{
    if ways.len() > 0 {
        let (front, m) = (ways.drop_last(), ways.len() - 1);
        lemma_meet_once(front, n);
        lemma_touch_exists(ways[m].0, ways[m].1, n);
        if exists|a: int, i: int| passes(front, n, a, i) {
            let (a, i) = choose|a: int, i: int| passes(front, n, a, i);
            assert(passes(ways, n, a, i));
        }
        if touches(ways[m].0, ways[m].1, n).len() >= 1 {
            let i = choose|i: int| 0 <= i < ways[m].1.len() && #[trigger] ways[m].1[i] == n;
            assert(passes(ways, n, m, i));
        }
        if exists|a: int, i: int| passes(ways, n, a, i) {
            let (a, i) = choose|a: int, i: int| passes(ways, n, a, i);
            if a < m {
                assert(passes(front, n, a, i));
            }
        }
    }
}

pub proof fn lemma_meet_twice(ways: Seq<(i64, Seq<i64>)>, n: i64)
    ensures
        occurrences(ways, n).len() >= 2 <==> exists|a: int, i: int, b: int, j: int|
            #![trigger ways[a].1[i], ways[b].1[j]]
            {
                &&& 0 <= a < ways.len() && 0 <= i < ways[a].1.len() && ways[a].1[i] == n
                &&& 0 <= b < ways.len() && 0 <= j < ways[b].1.len() && ways[b].1[j] == n
                &&& (a, i) != (b, j)
            },
    decreases ways.len(),
{
    if ways.len() > 0 {
        let (front, m) = (ways.drop_last(), ways.len() - 1);
        let here = touches(ways[m].0, ways[m].1, n).len();
        assert forall|a: int| 0 <= a < m implies #[trigger] front[a] == ways[a] by {}
        lemma_meet_once(front, n);
        lemma_meet_twice(front, n);
        lemma_touch_exists(ways[m].0, ways[m].1, n);
        if occurrences(front, n).len() >= 2 {
            let (a, i, b, j) = choose|a: int, i: int, b: int, j: int|
                #![trigger front[a].1[i], front[b].1[j]]
                {
                    &&& 0 <= a < front.len() && 0 <= i < front[a].1.len() && front[a].1[i] == n
                    &&& 0 <= b < front.len() && 0 <= j < front[b].1.len() && front[b].1[j] == n
                    &&& (a, i) != (b, j)
                };
            assert(ways[a].1[i] == n && ways[b].1[j] == n);
        } else if occurrences(front, n).len() == 1 && here >= 1 {
            let (a, i) = choose|a: int, i: int| passes(front, n, a, i);
            let j = choose|j: int| 0 <= j < ways[m].1.len() && #[trigger] ways[m].1[j] == n;
            assert(ways[a].1[i] == n && ways[m].1[j] == n);
        } else if here >= 2 {
            let w = ways[m].1;
            let (i, j) = choose|i: int, j: int|
                #![trigger w[i], w[j]]
                0 <= i < j < w.len() && w[i] == n && w[j] == n;
            assert(ways[m].1[i] == n && ways[m].1[j] == n);
        }
        if exists|a: int, i: int, b: int, j: int|
            #![trigger ways[a].1[i], ways[b].1[j]]
            {
                &&& 0 <= a < ways.len() && 0 <= i < ways[a].1.len() && ways[a].1[i] == n
                &&& 0 <= b < ways.len() && 0 <= j < ways[b].1.len() && ways[b].1[j] == n
                &&& (a, i) != (b, j)
            } {
            let (a, i, b, j) = choose|a: int, i: int, b: int, j: int|
                #![trigger ways[a].1[i], ways[b].1[j]]
                {
                    &&& 0 <= a < ways.len() && 0 <= i < ways[a].1.len() && ways[a].1[i] == n
                    &&& 0 <= b < ways.len() && 0 <= j < ways[b].1.len() && ways[b].1[j] == n
                    &&& (a, i) != (b, j)
                };
            let w = ways[m].1;
            if a < m && b < m {
                assert(front[a].1[i] == n && front[b].1[j] == n);
            } else if a < m {
                assert(passes(front, n, a, i));
                assert(w[j] == n);
            } else if b < m {
                assert(passes(front, n, b, j));
                assert(w[i] == n);
            } else if i < j {
                assert(w[i] == n && w[j] == n);
            } else {
                assert(w[j] == n && w[i] == n);
            }
        }
    }
}

/// A relation is a turn restriction exactly where its type begins so: `restriction`, and
/// every type that goes on behind it.
pub proof fn law_restrictions_are_named(t: Seq<char>, more: Seq<char>)
    ensures
        names_restriction(Some(t)) <==> "restriction"@.is_prefix_of(t),
        names_restriction(Some("restriction"@ + more)),
        !names_restriction(None),
{
    let p = "restriction"@;
    if p.len() <= t.len() {
        assert(t.take(p.len() as int) =~= t.subrange(0, p.len() as int));
    }
    assert((p + more).take(p.len() as int) =~= p);
}

// ── Laws of what a read gives ───────────────────────────────────────
/// An anchor keys to the cell that it names, published or derived.
pub proof fn law_an_anchor_is_its_cell(c: TileXy)
    ensures
        anchor_cell(Anchor::Published(c)) == c,
        anchor_cell(Anchor::Derived(c)) == c,
{
}

/// A relation without a `type` is no restriction, and waits all the same where it is tagged;
/// one without any tag is not kept.
pub proof fn law_untyped_relations(
    s: ReadSoFar,
    id: i64,
    members: Seq<RawMember>,
    tags: Seq<(Seq<char>, Seq<char>)>,
)
    requires
        forall|i: int| 0 <= i < tags.len() ==> (#[trigger] tags[i]).0 != "type"@,
    ensures
        tags.len() == 0 ==> after_relation(s, id, members, tags) == s,
        tags.len() > 0 ==> {
            let r = after_relation(s, id, members, tags);
            &&& r.waiting.len() == s.waiting.len() + 1
            &&& r.waiting.last().id == id
            &&& !r.waiting.last().restriction
            &&& r.waiting.last().members == candidates(members)
            &&& r.tags == s.tags + tags
        },
{
    crate::text::law_first_tag_counts(tags, "type"@, 0);
}

/// The tags that are stored are seen: keys and values are in the lists of those of the
/// store, each once, however often they occur.
pub proof fn law_stored_tags_are_seen(s: ReadSoFar, e: Element)
    ensures
        ({
            let r = after(s, e);
            &&& r.tags == s.tags ==> r.keys == s.keys && r.values == s.values
            &&& r.tags != s.tags ==> r.tags == s.tags + tags_of(e) && r.keys == keys_seen(
                s.keys,
                tags_of(e),
            ) && r.values == values_seen(s.values, tags_of(e))
        }),
{
    let r = after(s, e);
    if r.tags.len() == s.tags.len() {
        assert(r.tags =~= s.tags);
    } else {
        assert(r.tags.len() != s.tags.len());
    }
}

/// The numbers of a read are those of what it gives: nodes that have a cell, features of
/// each kind, relations with and without an anchor, restrictions by where they are anchored,
/// ways without a place, and the pairs, keys and values of tags.
pub proof fn law_stats_are_of_what_was_read(st: ReadStats, s: ReadSoFar)
    requires
        are_stats(st, s),
    ensures
        st.nodes_indexed == s.coords.dom().len(),
        st.tagged_nodes == s.features.filter(|f: Feature| f.entity_type == OSM_NODE).len(),
        st.tagged_ways == s.features.filter(|f: Feature| f.entity_type == OSM_WAY).len(),
        st.relations_anchored + st.relations_unanchorable == s.waiting.len(),
        st.relations_anchored == s.waiting.filter(
            |r: Waiting| relation_anchor(r.members, s.coords, s.ways).0 is Some,
        ).len(),
        st.restrictions == st.restrictions_via_node + st.restrictions_via_way
            + st.restrictions_no_via,
        st.restrictions_via_node == s.waiting.filter(
            |r: Waiting|
                r.restriction && relation_anchor(r.members, s.coords, s.ways).0 is Some
                    && relation_anchor(r.members, s.coords, s.ways).1 == AnchorVia::Node,
        ).len(),
        st.restrictions_via_way == s.waiting.filter(
            |r: Waiting|
                r.restriction && relation_anchor(r.members, s.coords, s.ways).0 is Some
                    && relation_anchor(r.members, s.coords, s.ways).1 == AnchorVia::Way,
        ).len(),
        st.restrictions == s.waiting.filter(
            |r: Waiting|
                r.restriction && relation_anchor(r.members, s.coords, s.ways).0 is Some,
        ).len(),
        st.ways_unresolved == s.unresolved,
        st.tag_pairs == (s.features + relation_features(s, s.waiting)).fold_left(
            0int,
            |sum: int, f: Feature| sum + f.tags.len,
        ),
        st.distinct_tag_keys == s.keys.len(),
        st.distinct_tag_values == s.values.len(),
{
    law_relations_are_accounted_for(s, s.waiting);
    law_count_is_of_elements(s.features, |f: Feature| f.entity_type == OSM_NODE);
    law_count_is_of_elements(s.features, |f: Feature| f.entity_type == OSM_WAY);
    lemma_pairs_fold(s.features + relation_features(s, s.waiting));
    lemma_relation_counts(s, s.waiting);
}

proof fn lemma_pairs_fold(features: Seq<Feature>)
    ensures
        pairs_of(features) == features.fold_left(0int, |sum: int, f: Feature| sum + f.tags.len),
    decreases features.len(),
{
    reveal_with_fuel(Seq::fold_left, 2);
    if features.len() > 0 {
        lemma_pairs_fold(features.drop_last());
    }
}

proof fn lemma_relation_counts(s: ReadSoFar, waiting: Seq<Waiting>)
    ensures
        anchored(s, waiting) == waiting.filter(
            |r: Waiting| relation_anchor(r.members, s.coords, s.ways).0 is Some,
        ).len(),
        restrictions_by(s, waiting, AnchorVia::Node) == waiting.filter(
            |r: Waiting|
                r.restriction && relation_anchor(r.members, s.coords, s.ways).0 is Some
                    && relation_anchor(r.members, s.coords, s.ways).1 == AnchorVia::Node,
        ).len(),
        restrictions_by(s, waiting, AnchorVia::Way) == waiting.filter(
            |r: Waiting|
                r.restriction && relation_anchor(r.members, s.coords, s.ways).0 is Some
                    && relation_anchor(r.members, s.coords, s.ways).1 == AnchorVia::Way,
        ).len(),
        restrictions(s, waiting) == waiting.filter(
            |r: Waiting|
                r.restriction && relation_anchor(r.members, s.coords, s.ways).0 is Some,
        ).len(),
    decreases waiting.len(),
{
    reveal(Seq::filter);
    if waiting.len() > 0 {
        lemma_relation_counts(s, waiting.drop_last());
    }
}

/// A read gives the features of nodes and ways in the order of their elements, then those
/// of relations; the tags that were read; and the shape of every tagged way under its id.
pub proof fn law_a_read_gives_what_was_read(r: ReadWithChains, s: ReadSoFar, i: int, id: i64)
    requires
        is_read(r, s),
    ensures
        r.0@.len() >= s.features.len(),
        0 <= i < s.features.len() ==> r.0@[i] == s.features[i],
        r.0@.skip(s.features.len() as int) == relation_features(s, s.waiting),
        r.1@ == s.tags,
        r.3@.contains_key(id) <==> s.chains.contains_key(id),
        s.chains.contains_key(id) ==> r.3@[id]@ == s.chains[id],
{
    assert(r.0@.skip(s.features.len() as int) =~= relation_features(s, s.waiting));
    let m = r.3@.map_values(|c: Vec<TileXy>| c@);
    assert(m == s.chains);
    assert(m.contains_key(id) <==> r.3@.contains_key(id));
}

/// The edges of a junction stand in the order of their ways, and those of one way in the
/// order in which it passes the node.
pub proof fn law_edges_stand_in_order(ways: Seq<(i64, Seq<i64>)>, n: i64, a: int, b: int)
    requires
        by_way_id(ways),
        0 <= a < b < occurrences(ways, n).len(),
    ensures
        ({
            let (x, y) = (occurrences(ways, n)[a], occurrences(ways, n)[b]);
            x.0 < y.0 || x.0 == y.0 && x.1 < y.1
        }),
    decreases ways.len(),
{
    let (front, last) = (ways.drop_last(), ways.last());
    let (p, q) = (occurrences(front, n), touches(last.0, last.1, n));
    let all = occurrences(ways, n);
    assert(by_way_id(front)) by {
        assert forall|i: int, j: int|
            #![trigger front[i], front[j]]
            0 <= i < j < front.len() implies front[i].0 < front[j].0 by {
            assert(ways[i].0 < ways[j].0);
        }
    }
    lemma_touch_order(last.0, last.1, n);
    if b < p.len() {
        law_edges_stand_in_order(front, n, a, b);
    } else if a < p.len() {
        let item = p[a];
        assert(p.contains(item));
        law_every_touch_is_an_edge(front, n, item.0, item.1);
        let w = choose|w: int|
            0 <= w < front.len() && (#[trigger] front[w]).0 == item.0 && 0 <= item.1
                < front[w].1.len() && front[w].1[item.1] == n;
        assert(ways[w].0 < ways[ways.len() - 1].0);
        assert(all[b] == q[b - p.len()]);
        assert(all[a] == item);
    } else {
        assert(all[a] == q[a - p.len()] && all[b] == q[b - p.len()]);
    }
}

proof fn lemma_touch_order(id: i64, nodes: Seq<i64>, n: i64)
    ensures
        ({
            let t = touches(id, nodes, n);
            &&& forall|a: int|
                0 <= a < t.len() ==> (#[trigger] t[a]).0 == id && 0 <= t[a].1 < nodes.len()
            &&& forall|a: int, b: int|
                #![trigger t[a], t[b]]
                0 <= a < b < t.len() ==> t[a].1 < t[b].1
        }),
    decreases nodes.len(),
{
    if nodes.len() > 0 {
        let front = nodes.drop_last();
        lemma_touch_order(id, front, n);
        let (p, t) = (touches(id, front, n), touches(id, nodes, n));
        assert forall|a: int| 0 <= a < t.len() implies (#[trigger] t[a]).0 == id && 0 <= t[a].1
            < nodes.len() by {
            if a < p.len() {
                assert(t[a] == p[a]);
            }
        }
        assert forall|a: int, b: int|
            #![trigger t[a], t[b]]
            0 <= a < b < t.len() implies t[a].1 < t[b].1 by {
            assert(t[a] == p[a]);
            if b < p.len() {
                assert(t[b] == p[b]);
            }
        }
    }
}

proof fn lemma_occurrences_without(ways: Seq<(i64, Seq<i64>)>, n: i64, i: int)
    requires
        0 <= i < ways.len(),
    ensures
        occurrences(ways, n).len() == occurrences(ways.remove(i), n).len() + touches(
            ways[i].0,
            ways[i].1,
            n,
        ).len(),
    decreases ways.len(),
{
    let front = ways.drop_last();
    if i == ways.len() - 1 {
        assert(ways.remove(i) =~= front);
    } else {
        lemma_occurrences_without(front, n, i);
        assert(front[i] == ways[i]);
        assert(ways.remove(i).drop_last() =~= front.remove(i));
        assert(ways.remove(i).last() == ways.last());
    }
}

proof fn lemma_occurrences_order_free(
    a: Seq<(i64, Seq<i64>)>,
    b: Seq<(i64, Seq<i64>)>,
    n: i64,
)
    requires
        a.to_multiset() == b.to_multiset(),
    ensures
        occurrences(a, n).len() == occurrences(b, n).len(),
    decreases a.len(),
{
    broadcast use vstd::seq_lib::group_to_multiset_ensures;

    assert(a.len() == a.to_multiset().len());
    assert(b.len() == b.to_multiset().len());
    if a.len() > 0 {
        let m = a.len() - 1;
        assert(a.contains(a[m]));
        lemma_same_elements(a, b, a[m]);
        let i = choose|i: int| 0 <= i < b.len() && b[i] == a[m];
        let (x, y) = (a.drop_last(), b.remove(i));
        assert(x =~= a.remove(m));
        assert(x.to_multiset() =~= y.to_multiset());
        lemma_occurrences_order_free(x, y, n);
        lemma_occurrences_without(b, n, i);
    }
}

/// A read finds the junctions of its routable ways: a node is one exactly where it has a
/// cell and these ways pass it at two places, of two ways or of one.
pub proof fn law_a_read_finds_every_junction(r: ReadWithChains, s: ReadSoFar, n: i64)
    requires
        is_read(r, s),
    ensures
        (exists|i: int| 0 <= i < r.4@.len() && (#[trigger] r.4@[i]).node_id == n)
            <==> s.coords.contains_key(n) && exists|a: int, i: int, b: int, j: int|
            #![trigger s.routes[a].1[i], s.routes[b].1[j]]
            {
                &&& 0 <= a < s.routes.len() && 0 <= i < s.routes[a].1.len() && s.routes[a].1[i]
                    == n
                &&& 0 <= b < s.routes.len() && 0 <= j < s.routes[b].1.len() && s.routes[b].1[j]
                    == n
                &&& (a, i) != (b, j)
            },
        forall|i: int|
            0 <= i < r.4@.len() ==> s.coords.contains_key((#[trigger] r.4@[i]).node_id)
                && r.4@[i].cell == s.coords[r.4@[i].node_id],
{
    let list = r.4@;
    let sorted = choose|sorted: Seq<(i64, Seq<i64>)>|
        #![trigger are_junctions(list, sorted, s.coords)]
        {
            &&& sorted.to_multiset() == s.routes.to_multiset()
            &&& forall|i: int, j: int|
                #![trigger sorted[i], sorted[j]]
                0 <= i < j < sorted.len() ==> sorted[i].0 <= sorted[j].0
            &&& are_junctions(list, sorted, s.coords)
        };
    lemma_occurrences_order_free(sorted, s.routes, n);
    lemma_meet_twice(s.routes, n);
    if exists|i: int| 0 <= i < list.len() && (#[trigger] list[i]).node_id == n {
        let i = choose|i: int| 0 <= i < list.len() && (#[trigger] list[i]).node_id == n;
        assert(is_junction_at(list[i], sorted, s.coords));
    }
    assert forall|i: int| 0 <= i < list.len() implies s.coords.contains_key(
        (#[trigger] list[i]).node_id,
    ) && list[i].cell == s.coords[list[i].node_id] by {
        assert(is_junction_at(list[i], sorted, s.coords));
    }
}

/// A junction has an edge for every place at which a way passes it, and for nothing else,
/// each with its way and its place.
pub proof fn law_a_junction_lists_every_touch(
    j: Junction,
    ways: Seq<(i64, Seq<i64>)>,
    coords: Map<i64, TileXy>,
    id: i64,
    place: int,
)
    requires
        is_junction_at(j, ways, coords),
    ensures
        (exists|k: int|
            0 <= k < j.edge_ways@.len() && #[trigger] j.edge_ways@[k] == id && j.edge_way_index@[k]
                == place) <==> exists|w: int|
            0 <= w < ways.len() && (#[trigger] ways[w]).0 == id && 0 <= place < ways[w].1.len()
                && ways[w].1[place] == j.node_id,
        j.edge_ways@.len() == j.edge_way_index@.len(),
        j.edge_ways@.len() >= 2,
{
    let occ = occurrences(ways, j.node_id);
    law_every_touch_is_an_edge(ways, j.node_id, id, place);
    if exists|k: int|
        0 <= k < j.edge_ways@.len() && #[trigger] j.edge_ways@[k] == id && j.edge_way_index@[k]
            == place {
        let k = choose|k: int|
            0 <= k < j.edge_ways@.len() && #[trigger] j.edge_ways@[k] == id && j.edge_way_index@[k]
                == place;
        assert(j.edge_way_index@[k] == occ[k].1);
        assert(occ[k] == (id, place));
    }
    if occ.contains((id, place)) {
        let k = choose|k: int| 0 <= k < occ.len() && occ[k] == (id, place);
        assert(j.edge_ways@[k] == occ[k].0);
        assert(j.edge_way_index@[k] == occ[k].1);
    }
}

} // verus!
