//! Buildings: who refers to a shared node, and which walls buildings share.
//!
//! A node that two ways refer to is a junction only where roads do. Where
//! buildings do, it is a corner that they share.

use crate::tally::{count_of, counts, edge, law_counts_are_exact, tally, Edge};
use crate::text::{has_key, pairs, tag};
use std::collections::HashMap;
use vstd::multiset::*;
use vstd::prelude::*;
use vstd::seq_lib::*;
use vstd::std_specs::hash::*;

verus! {

broadcast use group_hash_axioms;

/// What a way is, as far as shared nodes go.
#[derive(Debug, Clone, Copy, PartialEq, Eq, Structural)]
pub enum WayKind {
    Building,
    Highway,
    Other,
}

/// What tags make of a way: a building, even where it is also a road.
pub open spec fn way_kind_of(tags: Seq<(Seq<char>, Seq<char>)>) -> WayKind {
    if has_key(tags, "building"@) || has_key(tags, "building:part"@) {
        WayKind::Building
    } else if has_key(tags, "highway"@) {
        WayKind::Highway
    } else {
        WayKind::Other
    }
}

/// What tags make of a way.
pub fn way_kind(tags: &[(&str, &str)]) -> (k: WayKind)
    ensures
        k == way_kind_of(pairs(tags@)),
{
    if tag(tags, "building").is_some() || tag(tags, "building:part").is_some() {
        WayKind::Building
    } else if tag(tags, "highway").is_some() {
        WayKind::Highway
    } else {
        WayKind::Other
    }
}

/// A way with what it is.
pub struct KindedWay {
    pub kind: WayKind,
    pub nodes: Vec<i64>,
}

/// A way with what it is.
pub struct KindedView {
    pub kind: WayKind,
    pub nodes: Seq<i64>,
}

impl View for KindedWay {
    type V = KindedView;

    open spec fn view(&self) -> KindedView {
        KindedView { kind: self.kind, nodes: self.nodes@ }
    }
}

/// Who refers to a node.
#[derive(Debug, Clone, Copy, PartialEq, Eq, Structural)]
pub struct Referrers {
    /// How often.
    pub refs: u64,
    pub building: bool,
    pub highway: bool,
}

/// Nobody.
pub open spec fn nobody() -> Referrers {
    Referrers { refs: 0, building: false, highway: false }
}

/// One more reference.
pub open spec fn with_referrer(r: Referrers, kind: WayKind) -> Referrers {
    Referrers {
        refs: (r.refs + 1) as u64,
        building: r.building || kind == WayKind::Building,
        highway: r.highway || kind == WayKind::Highway,
    }
}

/// Who refers to a node among the first `k` nodes of a way, besides those
/// before it.
pub open spec fn referrers_in(w: KindedView, n: i64, k: int, before: Referrers) -> Referrers
    decreases k,
{
    if k <= 0 {
        before
    } else {
        let r = referrers_in(w, n, k - 1, before);
        if w.nodes[k - 1] == n {
            with_referrer(r, w.kind)
        } else {
            r
        }
    }
}

/// Who refers to a node among the first `k` ways.
pub open spec fn referrers_of(ways: Seq<KindedWay>, n: i64, k: int) -> Referrers
    decreases k,
{
    if k <= 0 {
        nobody()
    } else {
        let w = ways[k - 1]@;
        referrers_in(w, n, w.nodes.len() as int, referrers_of(ways, n, k - 1))
    }
}

/// What a map records of a node.
pub open spec fn recorded(m: Map<i64, Referrers>, n: i64) -> Referrers {
    if m.contains_key(n) {
        m[n]
    } else {
        nobody()
    }
}

/// How many nodes the first `k` ways have.
pub open spec fn node_total(ways: Seq<KindedWay>, k: int) -> nat
    decreases k,
{
    if k <= 0 {
        0
    } else {
        node_total(ways, k - 1) + ways[k - 1].nodes@.len()
    }
}

proof fn lemma_node_total_grows(ways: Seq<KindedWay>, k: int)
    requires
        0 <= k <= ways.len(),
    ensures
        node_total(ways, k) <= node_total(ways, ways.len() as int),
    decreases ways.len() - k,
{
    if k < ways.len() {
        lemma_node_total_grows(ways, k + 1);
    }
}

/// Records who refers to each node, and the nodes in the order in which they are
/// first referred to.
pub fn referrers(ways: &[KindedWay]) -> (r: (HashMap<i64, Referrers>, Vec<i64>))
    requires
        node_total(ways@, ways@.len() as int) <= u64::MAX,
    ensures
        forall|n: i64| #[trigger]
            recorded(r.0@, n) == referrers_of(ways@, n, ways@.len() as int),
        forall|n: i64| #[trigger] r.0@.contains_key(n) <==> r.1@.contains(n),
        r.1@.no_duplicates(),
{
    let mut m: HashMap<i64, Referrers> = HashMap::new();
    let mut order: Vec<i64> = Vec::new();
    let mut k: usize = 0;
    while k < ways.len()
        invariant
            k <= ways@.len(),
            node_total(ways@, ways@.len() as int) <= u64::MAX,
            forall|n: i64| #[trigger] recorded(m@, n) == referrers_of(ways@, n, k as int),
            forall|n: i64| #[trigger] recorded(m@, n).refs <= node_total(ways@, k as int),
            forall|n: i64| #[trigger] m@.contains_key(n) <==> order@.contains(n),
            order@.no_duplicates(),
        decreases ways@.len() - k,
    {
        let w: &KindedWay = &ways[k];
        let mut i: usize = 0;
        while i < w.nodes.len()
            invariant
                i <= w.nodes@.len(),
                k < ways@.len(),
                *w == ways@[k as int],
                node_total(ways@, ways@.len() as int) <= u64::MAX,
                forall|n: i64| #[trigger]
                    recorded(m@, n) == referrers_in(
                        w@,
                        n,
                        i as int,
                        referrers_of(ways@, n, k as int),
                    ),
                forall|n: i64| #[trigger] recorded(m@, n).refs <= node_total(ways@, k as int) + i,
                forall|n: i64| #[trigger] m@.contains_key(n) <==> order@.contains(n),
                order@.no_duplicates(),
            decreases w.nodes@.len() - i,
        {
            let n: i64 = w.nodes[i];
            let ghost (m0, o0) = (m@, order@);
            proof {
                lemma_node_total_grows(ways@, k + 1);
                assert(recorded(m@, n).refs <= node_total(ways@, k as int) + i);
            }
            let before: Referrers = match m.get(&n) {
                Some(r) => *r,
                None => {
                    order.push(n);
                    Referrers { refs: 0, building: false, highway: false }
                },
            };
            m.insert(
                n,
                Referrers {
                    refs: before.refs + 1,
                    building: before.building || w.kind == WayKind::Building,
                    highway: before.highway || w.kind == WayKind::Highway,
                },
            );
            proof {
                assert forall|q: i64| #[trigger] recorded(m@, q) == referrers_in(
                    w@,
                    q,
                    i + 1,
                    referrers_of(ways@, q, k as int),
                ) by {
                    assert(q != n ==> recorded(m@, q) == recorded(m0, q));
                }
                assert forall|q: i64| #[trigger] recorded(m@, q).refs <= node_total(
                    ways@,
                    k as int,
                ) + (i + 1) by {
                    assert(q != n ==> recorded(m@, q) == recorded(m0, q));
                }
                lemma_order(m0, m@, o0, order@, n);
            }
            i = i + 1;
        }
        k = k + 1;
    }
    (m, order)
}

proof fn lemma_order(
    m0: Map<i64, Referrers>,
    m1: Map<i64, Referrers>,
    o0: Seq<i64>,
    o1: Seq<i64>,
    n: i64,
)
    requires
        forall|q: i64| #[trigger] m0.contains_key(q) <==> o0.contains(q),
        forall|q: i64| #[trigger] m1.contains_key(q) <==> m0.contains_key(q) || q == n,
        o0.no_duplicates(),
        o1 == if m0.contains_key(n) {
            o0
        } else {
            o0.push(n)
        },
    ensures
        forall|q: i64| #[trigger] m1.contains_key(q) <==> o1.contains(q),
        o1.no_duplicates(),
{
    assert forall|q: i64| #[trigger] m1.contains_key(q) <==> o1.contains(q) by {
        assert(m0.contains_key(q) <==> o0.contains(q));
        if o0.contains(q) {
            let i = choose|i: int| 0 <= i < o0.len() && o0[i] == q;
            assert(o1[i] == q);
        }
        if !m0.contains_key(n) {
            assert(o1[o0.len() as int] == n);
        }
    }
    if !m0.contains_key(n) {
        assert(!o0.contains(n));
        assert forall|a: int, b: int| 0 <= a < o1.len() && 0 <= b < o1.len() && a != b implies o1[a]
            != o1[b] by {
            if a < o0.len() {
                assert(o0.contains(o0[a]));
            }
            if b < o0.len() {
                assert(o0.contains(o0[b]));
            }
        }
    }
}

/// Shared nodes, by who shares them.
#[derive(Debug, Clone, Copy, PartialEq, Eq, Structural)]
pub struct Shared {
    pub total: u64,
    /// Buildings and no road: corners, not junctions.
    pub building_only: u64,
    /// Roads and no building.
    pub highway: u64,
    pub mixed: u64,
    pub other_only: u64,
}

/// How many referrers pass a test.
pub open spec fn number_of(list: Seq<Referrers>, p: spec_fn(Referrers) -> bool) -> nat {
    list.filter(p).len()
}

/// Whether `s` counts shared nodes.
pub open spec fn is_shared(s: Shared, list: Seq<Referrers>) -> bool {
    &&& s.total == number_of(list, |r: Referrers| r.refs >= 2)
    &&& s.building_only == number_of(
        list,
        |r: Referrers| r.refs >= 2 && r.building && !r.highway,
    )
    &&& s.highway == number_of(list, |r: Referrers| r.refs >= 2 && r.highway && !r.building)
    &&& s.mixed == number_of(list, |r: Referrers| r.refs >= 2 && r.building && r.highway)
    &&& s.other_only == number_of(list, |r: Referrers| r.refs >= 2 && !r.building && !r.highway)
}

/// Counts shared nodes, by who shares them.
pub fn shared_nodes(list: &[Referrers]) -> (s: Shared)
    ensures
        is_shared(s, list@),
{
    reveal(Seq::filter);
    let mut s: Shared = Shared { total: 0, building_only: 0, highway: 0, mixed: 0, other_only: 0 };
    let mut i: usize = 0;
    assert(list@.take(0) =~= Seq::<Referrers>::empty());
    while i < list.len()
        invariant
            i <= list@.len(),
            is_shared(s, list@.take(i as int)),
            s.total <= i,
            s.building_only <= i,
            s.highway <= i,
            s.mixed <= i,
            s.other_only <= i,
        decreases list@.len() - i,
    {
        reveal(Seq::filter);
        let r: Referrers = list[i];
        assert(list@.take(i + 1).drop_last() =~= list@.take(i as int));
        assert(list@.take(i + 1).last() == r);
        if r.refs >= 2 {
            s.total = s.total + 1;
            if r.building && !r.highway {
                s.building_only = s.building_only + 1;
            } else if r.highway && !r.building {
                s.highway = s.highway + 1;
            } else if r.building {
                s.mixed = s.mixed + 1;
            } else {
                s.other_only = s.other_only + 1;
            }
        }
        i = i + 1;
    }
    assert(list@.take(list@.len() as int) =~= list@);
    s
}

/// Every shared node is counted in one place.
pub proof fn law_shared_nodes_are_partitioned(s: Shared, list: Seq<Referrers>)
    requires
        is_shared(s, list),
    ensures
        s.total == s.building_only + s.highway + s.mixed + s.other_only,
{
    lemma_partition(list);
}

proof fn lemma_partition(list: Seq<Referrers>)
    ensures
        number_of(list, |r: Referrers| r.refs >= 2) == number_of(
            list,
            |r: Referrers| r.refs >= 2 && r.building && !r.highway,
        ) + number_of(list, |r: Referrers| r.refs >= 2 && r.highway && !r.building) + number_of(
            list,
            |r: Referrers| r.refs >= 2 && r.building && r.highway,
        ) + number_of(list, |r: Referrers| r.refs >= 2 && !r.building && !r.highway),
    decreases list.len(),
{
    reveal(Seq::filter);
    if list.len() > 0 {
        lemma_partition(list.drop_last());
    }
}

// ── Walls ───────────────────────────────────────────────────────────
/// Whether nodes are a closed ring with an area.
pub open spec fn is_closed(nodes: Seq<i64>) -> bool {
    nodes.len() >= 4 && nodes[0] == nodes[nodes.len() - 1]
}

/// Whether a building's nodes are a closed footprint.
pub fn is_footprint(nodes: &[i64]) -> (r: bool)
    ensures
        r == is_closed(nodes@),
{
    nodes.len() >= 4 && nodes[0] == nodes[nodes.len() - 1]
}

/// The edges of a footprint, in order, without a direction.
pub open spec fn walls_of(nodes: Seq<i64>) -> Seq<Edge> {
    Seq::new((nodes.len() - 1) as nat, |i: int| edge(nodes[i], nodes[i + 1]))
}

/// The edges of a footprint.
pub fn walls(nodes: &[i64]) -> (out: Vec<Edge>)
    requires
        nodes@.len() >= 1,
    ensures
        out@ == walls_of(nodes@),
{
    let mut out: Vec<Edge> = Vec::new();
    let mut i: usize = 0;
    while i < nodes.len() - 1
        invariant
            nodes@.len() >= 1,
            i <= nodes@.len() - 1,
            out@.len() == i,
            forall|k: int| 0 <= k < i ==> #[trigger] out@[k] == edge(nodes@[k], nodes@[k + 1]),
        decreases nodes@.len() - i,
    {
        out.push(Edge::between(nodes[i], nodes[i + 1]));
        i = i + 1;
    }
    assert(out@ =~= walls_of(nodes@));
    out
}

/// The edges of the first `k` footprints, one after the other.
pub open spec fn all_walls(footprints: Seq<Vec<i64>>, k: int) -> Seq<Edge>
    decreases k,
{
    if k <= 0 {
        Seq::empty()
    } else {
        all_walls(footprints, k - 1) + walls_of(footprints[k - 1]@)
    }
}

/// Whether a footprint has an edge that is used twice.
pub open spec fn has_shared_wall(nodes: Seq<i64>, used: Multiset<Edge>) -> bool {
    exists|i: int| 0 <= i < walls_of(nodes).len() && used.count(#[trigger] walls_of(nodes)[i]) >= 2
}

/// How many of the first `k` footprints have an edge that is used twice.
pub open spec fn with_shared_wall(
    footprints: Seq<Vec<i64>>,
    used: Multiset<Edge>,
    k: int,
) -> nat
    decreases k,
{
    if k <= 0 {
        0
    } else {
        with_shared_wall(footprints, used, k - 1) + if has_shared_wall(
            footprints[k - 1]@,
            used,
        ) {
            1nat
        } else {
            0
        }
    }
}

/// How walls are shared.
#[derive(Debug, Clone, Copy, PartialEq, Eq, Structural)]
pub struct WallReport {
    /// Edges of all footprints.
    pub slots: usize,
    /// Different ones among them.
    pub distinct: usize,
    /// Edges that are used twice or more.
    pub shared: usize,
    /// Footprints with such an edge.
    pub with_shared: usize,
}

/// How many listed edges are used twice or more.
pub open spec fn shared_edges(t: Seq<(Edge, usize)>, k: int) -> nat
    decreases k,
{
    if k <= 0 {
        0
    } else {
        shared_edges(t, k - 1) + if t[k - 1].1 >= 2 {
            1nat
        } else {
            0
        }
    }
}

/// Whether a report is right: `t` lists the edges that are used, each once.
pub open spec fn is_wall_report(
    r: WallReport,
    footprints: Seq<Vec<i64>>,
    t: Seq<(Edge, usize)>,
) -> bool {
    let all = all_walls(footprints, footprints.len() as int);
    &&& counts(t, all.to_multiset())
    &&& r.slots == all.len()
    &&& r.distinct == t.len()
    &&& r.shared == shared_edges(t, t.len() as int)
    &&& r.with_shared == with_shared_wall(
        footprints,
        all.to_multiset(),
        footprints.len() as int,
    )
}

/// Counts how footprints share walls.
pub fn shared_walls(footprints: &[Vec<i64>]) -> (r: WallReport)
    requires
        forall|k: int| 0 <= k < footprints@.len() ==> is_closed((#[trigger] footprints@[k])@),
    ensures
        exists|t: Seq<(Edge, usize)>| #[trigger] is_wall_report(r, footprints@, t),
{
    let mut used: Vec<Edge> = Vec::new();
    let mut k: usize = 0;
    while k < footprints.len()
        invariant
            k <= footprints@.len(),
            forall|j: int| 0 <= j < footprints@.len() ==> is_closed((#[trigger] footprints@[j])@),
            used@ == all_walls(footprints@, k as int),
        decreases footprints@.len() - k,
    {
        assert(is_closed(footprints@[k as int]@));
        let mut own: Vec<Edge> = walls(footprints[k].as_slice());
        used.append(&mut own);
        k = k + 1;
    }
    let ghost all = used@;
    let slots: usize = used.len();
    let t: Vec<(Edge, usize)> = tally(used);
    let mut shared: usize = 0;
    let mut i: usize = 0;
    while i < t.len()
        invariant
            i <= t@.len(),
            shared == shared_edges(t@, i as int),
            shared <= i,
        decreases t@.len() - i,
    {
        if t[i].1 >= 2 {
            shared = shared + 1;
        }
        i = i + 1;
    }
    let mut with_shared: usize = 0;
    let mut k: usize = 0;
    while k < footprints.len()
        invariant
            k <= footprints@.len(),
            forall|j: int| 0 <= j < footprints@.len() ==> is_closed((#[trigger] footprints@[j])@),
            counts(t@, all.to_multiset()),
            with_shared == with_shared_wall(footprints@, all.to_multiset(), k as int),
            with_shared <= k,
        decreases footprints@.len() - k,
    {
        assert(is_closed(footprints@[k as int]@));
        if shares_wall(footprints[k].as_slice(), t.as_slice(), Ghost(all)) {
            with_shared = with_shared + 1;
        }
        k = k + 1;
    }
    let r: WallReport = WallReport { slots, distinct: t.len(), shared, with_shared };
    assert(is_wall_report(r, footprints@, t@));
    r
}

/// Whether a footprint has an edge that is used twice.
fn shares_wall(nodes: &[i64], t: &[(Edge, usize)], Ghost(all): Ghost<Seq<Edge>>) -> (r: bool)
    requires
        nodes@.len() >= 1,
        counts(t@, all.to_multiset()),
    ensures
        r == has_shared_wall(nodes@, all.to_multiset()),
{
    let own: Vec<Edge> = walls(nodes);
    let mut i: usize = 0;
    while i < own.len()
        invariant
            i <= own@.len(),
            own@ == walls_of(nodes@),
            counts(t@, all.to_multiset()),
            forall|j: int|
                0 <= j < i ==> all.to_multiset().count(#[trigger] walls_of(nodes@)[j]) < 2,
        decreases own@.len() - i,
    {
        let n: usize = count_of(t, own[i]);
        proof {
            law_counts_are_exact(t@, all, own@[i as int], n);
        }
        assert(own@[i as int] == walls_of(nodes@)[i as int]);
        if n >= 2 {
            return true;
        }
        i = i + 1;
    }
    false
}

// ── Laws of buildings ───────────────────────────────────────────────
/// A way is a building where any of its tags says so, though it be a road; a road where
/// a tag says so and none says building; and nothing else is either.
pub proof fn law_a_building_may_be_a_road(tags: Seq<(Seq<char>, Seq<char>)>)
    ensures
        way_kind_of(tags) == WayKind::Building <==> exists|i: int|
            0 <= i < tags.len() && ((#[trigger] tags[i]).0 == "building"@ || tags[i].0
                == "building:part"@),
        way_kind_of(tags) == WayKind::Highway <==> (exists|i: int|
            0 <= i < tags.len() && (#[trigger] tags[i]).0 == "highway"@) && forall|i: int|
            0 <= i < tags.len() ==> (#[trigger] tags[i]).0 != "building"@ && tags[i].0
                != "building:part"@,
{
    crate::text::law_first_tag_counts(tags, "building"@, 0);
    crate::text::law_first_tag_counts(tags, "building:part"@, 0);
    crate::text::law_first_tag_counts(tags, "highway"@, 0);
}

/// How often a node stands among others.
pub open spec fn times_among(nodes: Seq<i64>, n: i64) -> int {
    nodes.filter(|x: i64| x == n).len() as int
}

/// How often a node stands among the nodes of ways.
pub open spec fn times_referred(ways: Seq<KindedWay>, n: i64) -> int {
    ways.fold_left(0int, |sum: int, w: KindedWay| sum + times_among(w.nodes@, n))
}

/// A node is referred to as often as it stands among the nodes of ways, by a building
/// where one of these is a building, and by a road where one is a road.
pub proof fn law_referrers_are_the_ways_of_a_node(ways: Seq<KindedWay>, n: i64)
    requires
        node_total(ways, ways.len() as int) <= u64::MAX,
    ensures
        ({
            let r = referrers_of(ways, n, ways.len() as int);
            &&& r.refs == times_referred(ways, n)
            &&& r.building <==> exists|k: int|
                0 <= k < ways.len() && (#[trigger] ways[k]).kind == WayKind::Building
                    && ways[k].nodes@.contains(n)
            &&& r.highway <==> exists|k: int|
                0 <= k < ways.len() && (#[trigger] ways[k]).kind == WayKind::Highway
                    && ways[k].nodes@.contains(n)
        }),
{
    lemma_referrers(ways, n, ways.len() as int);
    assert(ways.take(ways.len() as int) =~= ways);
}

proof fn lemma_referrers(ways: Seq<KindedWay>, n: i64, k: int)
    requires
        0 <= k <= ways.len(),
        node_total(ways, ways.len() as int) <= u64::MAX,
    ensures
        ({
            let r = referrers_of(ways, n, k);
            &&& r.refs == times_referred(ways.take(k), n)
            &&& r.refs <= node_total(ways, k)
            &&& r.building <==> exists|j: int|
                0 <= j < k && (#[trigger] ways[j]).kind == WayKind::Building
                    && ways[j].nodes@.contains(n)
            &&& r.highway <==> exists|j: int|
                0 <= j < k && (#[trigger] ways[j]).kind == WayKind::Highway
                    && ways[j].nodes@.contains(n)
        }),
    decreases k,
{
    reveal_with_fuel(Seq::fold_left, 2);
    if k > 0 {
        lemma_referrers(ways, n, k - 1);
        lemma_total_grows(ways, k);
        let (w, before) = (ways[k - 1]@, referrers_of(ways, n, k - 1));
        lemma_referrers_in(w, n, w.nodes.len() as int, before);
        assert(w.nodes.take(w.nodes.len() as int) =~= w.nodes);
        assert(ways.take(k).drop_last() =~= ways.take(k - 1));
        assert(ways.take(k).last() == ways[k - 1]);
        let times = times_among(w.nodes, n);
        assert(times_referred(ways.take(k), n) == times_referred(ways.take(k - 1), n) + times);
        assert(times > 0 <==> ways[k - 1].nodes@.contains(n));
        assert(ways[k - 1].kind == w.kind);
    } else {
        assert(ways.take(0).len() == 0);
    }
}

proof fn lemma_total_grows(ways: Seq<KindedWay>, k: int)
    requires
        0 <= k <= ways.len(),
    ensures
        node_total(ways, k) <= node_total(ways, ways.len() as int),
    decreases ways.len() - k,
{
    if k < ways.len() {
        lemma_total_grows(ways, k + 1);
    }
}

proof fn lemma_referrers_in(w: KindedView, n: i64, k: int, before: Referrers)
    requires
        0 <= k <= w.nodes.len(),
        before.refs + w.nodes.len() <= u64::MAX,
    ensures
        ({
            let r = referrers_in(w, n, k, before);
            let times = times_among(w.nodes.take(k), n);
            &&& r.refs == before.refs + times
            &&& times <= k
            &&& times > 0 <==> w.nodes.take(k).contains(n)
            &&& r.building <==> before.building || times > 0 && w.kind == WayKind::Building
            &&& r.highway <==> before.highway || times > 0 && w.kind == WayKind::Highway
        }),
    decreases k,
{
    reveal(Seq::filter);
    let here = w.nodes.take(k);
    if k > 0 {
        lemma_referrers_in(w, n, k - 1, before);
        assert(here.drop_last() =~= w.nodes.take(k - 1));
        let front = w.nodes.take(k - 1);
        if front.contains(n) {
            let i = choose|i: int| 0 <= i < front.len() && front[i] == n;
            assert(here[i] == n);
        }
        if here.contains(n) {
            let i = choose|i: int| 0 <= i < here.len() && here[i] == n;
            if i < k - 1 {
                assert(front[i] == n);
            }
        }
        if w.nodes[k - 1] == n {
            assert(here[k - 1] == n);
        }
    }
}

/// A footprint is a ring: its last node is its first, and it has three corners at least.
pub proof fn law_footprints_are_rings(nodes: Seq<i64>)
    ensures
        is_closed(nodes) <==> nodes.len() >= 4 && nodes.first() == nodes.last(),
{
}

/// An edge of a footprint is shared exactly where it is used twice: two neighbouring
/// nodes of one are neighbours, in either order, at another place.
pub proof fn law_walls_are_shared_by_neighbours(
    footprints: Seq<Vec<i64>>,
    a: int,
    i: int,
    b: int,
    j: int,
)
    requires
        0 <= a < footprints.len(),
        0 <= i < footprints[a]@.len() - 1,
        0 <= b < footprints.len(),
        0 <= j < footprints[b]@.len() - 1,
        (a, i) != (b, j),
        footprints[a]@[i] == footprints[b]@[j] && footprints[a]@[i + 1] == footprints[b]@[j + 1]
            || footprints[a]@[i] == footprints[b]@[j + 1] && footprints[a]@[i + 1]
            == footprints[b]@[j],
    ensures
        has_shared_wall(
            footprints[a]@,
            all_walls(footprints, footprints.len() as int).to_multiset(),
        ),
{
    let n = footprints.len() as int;
    let all = all_walls(footprints, n);
    let e = edge(footprints[a]@[i], footprints[a]@[i + 1]);
    let x = lemma_wall_place(footprints, n, a, i);
    let y = lemma_wall_place(footprints, n, b, j);
    if a < b {
        lemma_wall_places_differ(footprints, n, a, i, b, j);
    } else if b < a {
        lemma_wall_places_differ(footprints, n, b, j, a, i);
    } else if i < j {
        lemma_wall_places_differ(footprints, n, a, i, b, j);
    } else {
        lemma_wall_places_differ(footprints, n, b, j, a, i);
    }
    lemma_two_places(all, e, wall_place(footprints, a, i), wall_place(footprints, b, j));
    assert(walls_of(footprints[a]@)[i] == e);
}

/// Where an edge of a footprint stands among all edges.
spec fn wall_place(footprints: Seq<Vec<i64>>, a: int, i: int) -> int {
    all_walls(footprints, a).len() + i
}

proof fn lemma_wall_place(footprints: Seq<Vec<i64>>, n: int, a: int, i: int) -> (x: int)
    requires
        0 <= a < n <= footprints.len(),
        0 <= i < footprints[a]@.len() - 1,
    ensures
        x == wall_place(footprints, a, i),
        0 <= x < all_walls(footprints, n).len(),
        all_walls(footprints, n)[x] == edge(footprints[a]@[i], footprints[a]@[i + 1]),
    decreases n,
{
    if a < n - 1 {
        lemma_wall_place(footprints, n - 1, a, i)
    } else {
        wall_place(footprints, a, i)
    }
}

proof fn lemma_wall_places_differ(
    footprints: Seq<Vec<i64>>,
    n: int,
    a: int,
    i: int,
    b: int,
    j: int,
)
    requires
        0 <= a <= b < n <= footprints.len(),
        0 <= i < footprints[a]@.len() - 1,
        0 <= j < footprints[b]@.len() - 1,
        a < b || i < j,
    ensures
        wall_place(footprints, a, i) < wall_place(footprints, b, j),
    decreases b,
{
    if a < b {
        if a < b - 1 {
            lemma_walls_grow(footprints, a + 1, b);
        }
        assert(all_walls(footprints, a + 1).len() == all_walls(footprints, a).len()
            + footprints[a]@.len() - 1);
    }
}

proof fn lemma_walls_grow(footprints: Seq<Vec<i64>>, a: int, b: int)
    requires
        0 <= a <= b <= footprints.len(),
    ensures
        all_walls(footprints, a).len() <= all_walls(footprints, b).len(),
    decreases b - a,
{
    if a < b {
        lemma_walls_grow(footprints, a, b - 1);
    }
}

/// What stands at two places occurs twice.
proof fn lemma_two_places(s: Seq<Edge>, e: Edge, x: int, y: int)
    requires
        0 <= x < s.len(),
        0 <= y < s.len(),
        x != y,
        s[x] == e,
        s[y] == e,
    ensures
        s.to_multiset().count(e) >= 2,
{
    broadcast use vstd::seq_lib::group_to_multiset_ensures;

    let rest = s.remove(x);
    let z = if y < x {
        y
    } else {
        y - 1
    };
    assert(rest[z] == e);
    assert(rest.contains(e));
    assert(rest.to_multiset().count(e) > 0);
    assert(rest.to_multiset() =~= s.to_multiset().remove(e));
}

/// A footprint has an edge between every two neighbours of its ring, in order, and all
/// footprints together have the edges of each.
pub proof fn law_walls_are_between_neighbours(
    footprints: Seq<Vec<i64>>,
    nodes: Seq<i64>,
    i: int,
    k: int,
)
    requires
        0 <= i < nodes.len() - 1,
        0 <= k < footprints.len(),
    ensures
        walls_of(nodes).len() == nodes.len() - 1,
        walls_of(nodes)[i] == edge(nodes[i], nodes[i + 1]),
        all_walls(footprints, k + 1) == all_walls(footprints, k) + walls_of(footprints[k]@),
{
}

/// A node counts as shared where two references meet in it, and then once: with buildings
/// alone, with roads alone, with both, or with neither. One more node counts in its own
/// place and nowhere else.
pub proof fn law_a_shared_node_counts_once(s: Shared, t: Shared, list: Seq<Referrers>, r: Referrers)
    requires
        is_shared(s, list),
        is_shared(t, list.push(r)),
    ensures
        r.refs < 2 ==> t == s,
        r.refs >= 2 ==> t.total == s.total + 1,
        r.refs >= 2 ==> t.building_only == s.building_only + if r.building && !r.highway {
            1int
        } else {
            0
        },
        r.refs >= 2 ==> t.highway == s.highway + if r.highway && !r.building {
            1int
        } else {
            0
        },
        r.refs >= 2 ==> t.mixed == s.mixed + if r.building && r.highway {
            1int
        } else {
            0
        },
        r.refs >= 2 ==> t.other_only == s.other_only + if !r.building && !r.highway {
            1int
        } else {
            0
        },
{
    reveal(Seq::filter);
    assert(list.push(r).drop_last() =~= list);
}

/// No node, no shared node.
pub proof fn law_no_node_is_shared(s: Shared)
    requires
        is_shared(s, Seq::empty()),
    ensures
        s.total == 0 && s.building_only == 0 && s.highway == 0 && s.mixed == 0 && s.other_only == 0,
{
    reveal(Seq::filter);
}

proof fn lemma_slots(footprints: Seq<Vec<i64>>, k: int)
    requires
        0 <= k <= footprints.len(),
        forall|j: int| 0 <= j < footprints.len() ==> (#[trigger] footprints[j])@.len() >= 1,
    ensures
        all_walls(footprints, k).len() == footprints.take(k).fold_left(
            0int,
            |sum: int, f: Vec<i64>| sum + f@.len() - 1,
        ),
    decreases k,
{
    reveal_with_fuel(Seq::fold_left, 2);
    if k > 0 {
        lemma_slots(footprints, k - 1);
        assert(footprints.take(k).drop_last() =~= footprints.take(k - 1));
        assert(footprints[k - 1]@.len() >= 1);
    }
}

/// A report on walls has an edge for every two neighbours of every footprint, counts the
/// different ones, those that are used twice or more, and the footprints that have one.
pub proof fn law_a_wall_report_adds_up(
    r: WallReport,
    footprints: Seq<Vec<i64>>,
    t: Seq<(Edge, usize)>,
)
    requires
        is_wall_report(r, footprints, t),
        forall|j: int| 0 <= j < footprints.len() ==> (#[trigger] footprints[j])@.len() >= 1,
    ensures
        r.slots == footprints.fold_left(0int, |sum: int, f: Vec<i64>| sum + f@.len() - 1),
        r.distinct == t.len(),
        r.shared == t.filter(|e: (Edge, usize)| e.1 >= 2).len(),
        r.with_shared == footprints.filter(
            |f: Vec<i64>|
                has_shared_wall(
                    f@,
                    all_walls(footprints, footprints.len() as int).to_multiset(),
                ),
        ).len(),
        forall|i: int|
            0 <= i < t.len() ==> (#[trigger] t[i]).1 == all_walls(
                footprints,
                footprints.len() as int,
            ).to_multiset().count(t[i].0),
{
    let n = footprints.len() as int;
    let used = all_walls(footprints, n).to_multiset();
    lemma_slots(footprints, n);
    assert(footprints.take(n) =~= footprints);
    lemma_shared_count(t, t.len() as int);
    assert(t.take(t.len() as int) =~= t);
    lemma_with_shared_count(footprints, used, n);
}

proof fn lemma_shared_count(t: Seq<(Edge, usize)>, k: int)
    requires
        0 <= k <= t.len(),
    ensures
        shared_edges(t, k) == t.take(k).filter(|e: (Edge, usize)| e.1 >= 2).len(),
    decreases k,
{
    reveal(Seq::filter);
    if k > 0 {
        lemma_shared_count(t, k - 1);
        assert(t.take(k).drop_last() =~= t.take(k - 1));
    }
}

proof fn lemma_with_shared_count(footprints: Seq<Vec<i64>>, used: Multiset<Edge>, k: int)
    requires
        0 <= k <= footprints.len(),
    ensures
        with_shared_wall(footprints, used, k) == footprints.take(k).filter(
            |f: Vec<i64>| has_shared_wall(f@, used),
        ).len(),
    decreases k,
{
    reveal(Seq::filter);
    if k > 0 {
        lemma_with_shared_count(footprints, used, k - 1);
        assert(footprints.take(k).drop_last() =~= footprints.take(k - 1));
    }
}

} // verus!
