//! Corridors: ways stitched together by connectivity alone.
//!
//! A way ends where a tag changes or an extract ends, not only at junctions.
//! Where exactly two ways end at a node and nothing else passes through, the
//! split is an artefact and the two are one corridor. A third end, or a way that
//! passes through, makes the node a junction, and the corridor stops there.

use crate::order::{in_order, sort};
use crate::text::{listed, one_of, same_text};
use crate::tms::TileXy;
use std::collections::HashMap;
use vstd::prelude::*;
use vstd::slice::slice_to_vec;
use vstd::std_specs::hash::*;

verus! {

broadcast use group_hash_axioms;

/// A routable way: its nodes and its class.
#[derive(Debug)]
pub struct Way {
    pub nodes: Vec<i64>,
    pub class: &'static str,
}

/// A way, as its nodes and its class.
pub struct WayView {
    pub nodes: Seq<i64>,
    pub class: Seq<char>,
}

impl View for Way {
    type V = WayView;

    open spec fn view(&self) -> WayView {
        WayView { nodes: self.nodes@, class: self.class@ }
    }
}

/// Ways as their nodes and their classes.
pub open spec fn views(ways: Seq<Way>) -> Seq<WayView> {
    ways.map_values(|w: Way| w@)
}

/// Every way has a node.
pub open spec fn have_nodes(ways: Seq<WayView>) -> bool {
    forall|i: int| 0 <= i < ways.len() ==> (#[trigger] ways[i]).nodes.len() > 0
}

// ── Where ways meet ─────────────────────────────────────────────────
/// The node at one end of a way.
pub open spec fn end_node(w: WayView, tail: bool) -> i64 {
    if tail {
        w.nodes.last()
    } else {
        w.nodes[0]
    }
}

/// The ends at a node, way by way, the head of a way before its tail.
pub open spec fn ends_at(ways: Seq<WayView>, n: i64) -> Seq<(int, bool)>
    decreases ways.len(),
{
    if ways.len() == 0 {
        Seq::empty()
    } else {
        let i = ways.len() - 1;
        let front = ends_at(ways.drop_last(), n);
        let with_head = if end_node(ways[i], false) == n {
            front.push((i, false))
        } else {
            front
        };
        if end_node(ways[i], true) == n {
            with_head.push((i, true))
        } else {
            with_head
        }
    }
}

/// Whether exactly two ways end at a node, nothing else references it, and they
/// are two ways. A closed way has both its ends at one node: that is a ring, not
/// a meeting.
pub open spec fn is_meeting(ways: Seq<WayView>, refs: Map<i64, u32>, n: i64) -> bool {
    let e = ends_at(ways, n);
    &&& e.len() == 2
    &&& refs.contains_key(n) && refs[n] == 2
    &&& e[0].0 != e[1].0
}

/// Whether the two ways that meet at a node are of one class.
pub open spec fn is_merge(ways: Seq<WayView>, refs: Map<i64, u32>, n: i64) -> bool {
    &&& is_meeting(ways, refs, n)
    &&& ways[ends_at(ways, n)[0].0].class == ways[ends_at(ways, n)[1].0].class
}

/// The way that an end is merged with, if it is.
pub open spec fn link(ways: Seq<WayView>, refs: Map<i64, u32>, i: int, tail: bool) -> Option<int> {
    let n = end_node(ways[i], tail);
    let e = ends_at(ways, n);
    if is_merge(ways, refs, n) {
        Some(
            if e[0] == (i, tail) {
                e[1].0
            } else {
                e[0].0
            },
        )
    } else {
        None
    }
}

/// Whether an end is the first at a node where two ways meet that are of
/// different classes.
pub open spec fn declines(ways: Seq<WayView>, refs: Map<i64, u32>, i: int, tail: bool) -> bool {
    let n = end_node(ways[i], tail);
    &&& is_meeting(ways, refs, n)
    &&& !is_merge(ways, refs, n)
    &&& ends_at(ways, n)[0] == (i, tail)
}

/// How many merges are declined for their classes alone, counted at the first
/// end of each, among the first `k` ways.
pub open spec fn declined(ways: Seq<WayView>, refs: Map<i64, u32>, k: int) -> nat
    decreases k,
{
    if k <= 0 {
        0
    } else {
        declined(ways, refs, k - 1) + (if declines(ways, refs, k - 1, false) {
            1nat
        } else {
            0
        }) + (if declines(ways, refs, k - 1, true) {
            1nat
        } else {
            0
        })
    }
}

/// The ends at a node are those that lie there, each once.
proof fn lemma_ends(ways: Seq<WayView>, n: i64, i: int, tail: bool)
    ensures
        ends_at(ways, n).contains((i, tail)) <==> 0 <= i < ways.len() && end_node(ways[i], tail)
            == n,
    decreases ways.len(),
{
    if ways.len() > 0 {
        let front = ways.drop_last();
        let last = ways.len() - 1;
        lemma_ends(front, n, i, tail);
        if 0 <= i < front.len() {
            assert(front[i] == ways[i]);
        }
        let a = ends_at(front, n);
        let b = if end_node(ways[last], false) == n {
            a.push((last, false))
        } else {
            a
        };
        let c = ends_at(ways, n);
        lemma_pushed(a, b, (last, false), end_node(ways[last], false) == n, (i, tail));
        lemma_pushed(b, c, (last, true), end_node(ways[last], true) == n, (i, tail));
    }
}

proof fn lemma_pushed<T>(a: Seq<T>, b: Seq<T>, x: T, pushed: bool, y: T)
    requires
        b == if pushed {
            a.push(x)
        } else {
            a
        },
    ensures
        b.contains(y) <==> a.contains(y) || (pushed && x == y),
{
    if pushed {
        if a.contains(y) {
            let k = choose|k: int| 0 <= k < a.len() && a[k] == y;
            assert(b[k] == y);
        }
        if x == y {
            assert(b[a.len() as int] == y);
        }
        if b.contains(y) && x != y {
            let k = choose|k: int| 0 <= k < b.len() && b[k] == y;
            assert(a[k] == y);
        }
    }
}

/// A merge is mutual: the other way has one end at the node, that end is linked
/// back, and neither way has its other end there.
proof fn lemma_link(ways: Seq<WayView>, refs: Map<i64, u32>, i: int, tail: bool)
    requires
        0 <= i < ways.len(),
        link(ways, refs, i, tail) is Some,
    ensures
        ({
            let j = link(ways, refs, i, tail)->0;
            let n = end_node(ways[i], tail);
            &&& 0 <= j < ways.len()
            &&& j != i
            &&& end_node(ways[i], !tail) != n
            &&& end_node(ways[j], true) == n || end_node(ways[j], false) == n
            &&& forall|t: bool|
                #![trigger end_node(ways[j], t)]
                end_node(ways[j], t) == n ==> link(ways, refs, j, t) == Some(i) && end_node(
                    ways[j],
                    !t,
                ) != n
        }),
{
    let n = end_node(ways[i], tail);
    let e = ends_at(ways, n);
    let j = link(ways, refs, i, tail)->0;
    lemma_ends(ways, n, i, tail);
    let at = choose|at: int| 0 <= at < e.len() && e[at] == (i, tail);
    assert(at == 0 || at == 1);
    let other = e[1 - at];
    assert(e.contains(e[0]));
    assert(e.contains(e[1]));
    lemma_ends(ways, n, e[0].0, e[0].1);
    lemma_ends(ways, n, e[1].0, e[1].1);
    assert(other.0 == j);
    lemma_only_end(ways, n, i, tail, j, other.1, e, i);
    lemma_only_end(ways, n, i, tail, j, other.1, e, j);
    assert forall|t: bool|
        #![trigger end_node(ways[j], t)]
        end_node(ways[j], t) == n implies link(ways, refs, j, t) == Some(i) && end_node(
        ways[j],
        !t,
    ) != n by {
        assert(t == other.1);
    }
}

/// Where two ends lie at a node, their ways have no other end there.
proof fn lemma_only_end(
    ways: Seq<WayView>,
    n: i64,
    i: int,
    ti: bool,
    j: int,
    tj: bool,
    e: Seq<(int, bool)>,
    which: int,
)
    requires
        e == ends_at(ways, n),
        e.len() == 2,
        i != j,
        (e[0] == (i, ti) && e[1] == (j, tj)) || (e[0] == (j, tj) && e[1] == (i, ti)),
        0 <= i < ways.len(),
        0 <= j < ways.len(),
        which == i || which == j,
    ensures
        which == i ==> end_node(ways[i], !ti) != n,
        which == j ==> end_node(ways[j], !tj) != n,
{
    let t = if which == i {
        !ti
    } else {
        !tj
    };
    lemma_ends(ways, n, which, t);
    if end_node(ways[which], t) == n {
        let k = choose|k: int| 0 <= k < e.len() && e[k] == (which, t);
        assert(k == 0 || k == 1);
    }
}

// ── Legs ────────────────────────────────────────────────────────────
/// The nodes of a way as a corridor runs through it: backwards where the way is
/// turned round.
pub open spec fn oriented(ways: Seq<WayView>, leg: (int, bool)) -> Seq<i64> {
    if leg.1 {
        ways[leg.0].nodes.reverse()
    } else {
        ways[leg.0].nodes
    }
}

/// The nodes of a corridor: its legs joined, without repeating a shared node.
pub open spec fn route(ways: Seq<WayView>, legs: Seq<(int, bool)>) -> Seq<i64>
    decreases legs.len(),
{
    if legs.len() == 0 {
        Seq::empty()
    } else if legs.len() == 1 {
        oriented(ways, legs[0])
    } else {
        let last = oriented(ways, legs.last());
        route(ways, legs.drop_last()) + last.subrange(1, last.len() as int)
    }
}

/// Whether every leg is merged with the next, at the node where the one ends
/// and the other begins.
pub open spec fn chained(ways: Seq<WayView>, refs: Map<i64, u32>, legs: Seq<(int, bool)>) -> bool {
    forall|k: int|
        #![trigger legs[k]]
        0 <= k < legs.len() - 1 ==> {
            &&& link(ways, refs, legs[k].0, !legs[k].1) == Some(legs[k + 1].0)
            &&& end_node(ways[legs[k + 1].0], legs[k + 1].1) == end_node(
                ways[legs[k].0],
                !legs[k].1,
            )
        }
}

/// Whether legs are ways, each at most once.
pub open spec fn distinct_ways(ways: Seq<WayView>, legs: Seq<(int, bool)>) -> bool {
    &&& forall|k: int| 0 <= k < legs.len() ==> 0 <= (#[trigger] legs[k]).0 < ways.len()
    &&& forall|k: int, m: int|
        #![trigger legs[k], legs[m]]
        0 <= k < m < legs.len() ==> legs[k].0 != legs[m].0
}

/// Whether a corridor closes on itself.
pub open spec fn is_ring(ways: Seq<WayView>, refs: Map<i64, u32>, legs: Seq<(int, bool)>) -> bool {
    &&& link(ways, refs, legs.last().0, !legs.last().1) == Some(legs[0].0)
    &&& link(ways, refs, legs[0].0, legs[0].1) == Some(legs.last().0)
}

/// Whether a corridor ends at both its ends.
pub open spec fn is_open(ways: Seq<WayView>, refs: Map<i64, u32>, legs: Seq<(int, bool)>) -> bool {
    &&& link(ways, refs, legs.last().0, !legs.last().1) is None
    &&& link(ways, refs, legs[0].0, legs[0].1) is None
}

/// Whether legs make a corridor that cannot be made longer.
pub open spec fn is_corridor(
    ways: Seq<WayView>,
    refs: Map<i64, u32>,
    legs: Seq<(int, bool)>,
) -> bool {
    &&& legs.len() > 0
    &&& distinct_ways(ways, legs)
    &&& chained(ways, refs, legs)
    &&& is_open(ways, refs, legs) || is_ring(ways, refs, legs)
}

/// Every leg is linked back to the one before it.
proof fn lemma_back(ways: Seq<WayView>, refs: Map<i64, u32>, legs: Seq<(int, bool)>, k: int)
    requires
        distinct_ways(ways, legs),
        chained(ways, refs, legs),
        0 < k < legs.len(),
    ensures
        link(ways, refs, legs[k].0, legs[k].1) == Some(legs[k - 1].0),
{
    let p = k - 1;
    assert(link(ways, refs, legs[p].0, !legs[p].1) == Some(legs[p + 1].0));
    lemma_link(ways, refs, legs[p].0, !legs[p].1);
    let t = legs[k].1;
    assert(end_node(ways[legs[k].0], t) == end_node(ways[legs[p].0], !legs[p].1));
}

/// A link from the end of a chain into the chain goes to its first leg, and then
/// the chain is a ring.
proof fn lemma_tail_into_chain(
    ways: Seq<WayView>,
    refs: Map<i64, u32>,
    legs: Seq<(int, bool)>,
    m: int,
)
    requires
        distinct_ways(ways, legs),
        chained(ways, refs, legs),
        0 <= m < legs.len(),
        link(ways, refs, legs.last().0, !legs.last().1) == Some(legs[m].0),
    ensures
        m == 0,
        is_ring(ways, refs, legs),
{
    let z = legs.len() - 1;
    let last = legs[z];
    let n = end_node(ways[last.0], !last.1);
    let next = legs[m];
    lemma_link(ways, refs, last.0, !last.1);
    // The end of that leg at the node is linked back to the last leg.
    let t = end_node(ways[next.0], true) == n;
    assert(end_node(ways[next.0], t) == n);
    assert(link(ways, refs, next.0, t) == Some(last.0));
    assert(m != z);
    if t == next.1 {
        // The head of that leg.
        if m > 0 {
            lemma_back(ways, refs, legs, m);
            assert(legs[m - 1].0 == legs[z].0);
        }
    } else {
        // The tail of that leg, which leads to the leg behind it.
        assert(t == !next.1);
        assert(link(ways, refs, next.0, !next.1) == Some(legs[m + 1].0));
        assert(legs[m + 1].0 == legs[z].0);
        assert(m + 1 == z);
        assert(end_node(ways[legs[m + 1].0], legs[m + 1].1) == n);
        assert(end_node(ways[last.0], last.1) == n);
        assert(end_node(ways[last.0], !(!last.1)) != n);
    }
}

/// A link from the start of an open-ended chain never goes into the chain.
proof fn lemma_head_into_chain(
    ways: Seq<WayView>,
    refs: Map<i64, u32>,
    legs: Seq<(int, bool)>,
    m: int,
)
    requires
        distinct_ways(ways, legs),
        chained(ways, refs, legs),
        0 <= m < legs.len(),
        link(ways, refs, legs[0].0, legs[0].1) == Some(legs[m].0),
    ensures
        is_ring(ways, refs, legs),
{
    let first = legs[0];
    let n = end_node(ways[first.0], first.1);
    let prev = legs[m];
    lemma_link(ways, refs, first.0, first.1);
    let t = end_node(ways[prev.0], true) == n;
    assert(end_node(ways[prev.0], t) == n);
    assert(link(ways, refs, prev.0, t) == Some(first.0));
    assert(m != 0);
    if t == prev.1 {
        lemma_back(ways, refs, legs, m);
        assert(legs[m - 1].0 == first.0);
        assert(m == 1);
        assert(end_node(ways[legs[1].0], legs[1].1) == end_node(ways[legs[0].0], !legs[0].1));
        assert(end_node(ways[first.0], !first.1) != n);
    } else {
        assert(t == !prev.1);
        if m < legs.len() - 1 {
            assert(link(ways, refs, prev.0, !prev.1) == Some(legs[m + 1].0));
            assert(legs[m + 1].0 == first.0);
        }
    }
}

/// Whatever a leg of a corridor is linked to belongs to the corridor.
proof fn lemma_links_stay_inside(
    ways: Seq<WayView>,
    refs: Map<i64, u32>,
    legs: Seq<(int, bool)>,
    m: int,
    tail: bool,
)
    requires
        is_corridor(ways, refs, legs),
        0 <= m < legs.len(),
        link(ways, refs, legs[m].0, tail) is Some,
    ensures
        exists|k: int|
            0 <= k < legs.len() && Some((#[trigger] legs[k]).0) == link(
                ways,
                refs,
                legs[m].0,
                tail,
            ),
{
    if tail == legs[m].1 {
        if m > 0 {
            lemma_back(ways, refs, legs, m);
            assert(Some(legs[m - 1].0) == link(ways, refs, legs[m].0, tail));
        } else {
            assert(Some(legs[legs.len() - 1].0) == link(ways, refs, legs[m].0, tail));
        }
    } else {
        assert(tail == !legs[m].1);
        if m < legs.len() - 1 {
            assert(Some(legs[m + 1].0) == link(ways, refs, legs[m].0, tail));
        } else {
            assert(Some(legs[0].0) == link(ways, refs, legs[m].0, tail));
        }
    }
}

/// Where a route begins and ends.
proof fn lemma_route_ends(ways: Seq<WayView>, refs: Map<i64, u32>, legs: Seq<(int, bool)>)
    requires
        have_nodes(ways),
        legs.len() > 0,
        distinct_ways(ways, legs),
        chained(ways, refs, legs),
    ensures
        route(ways, legs).len() > 0,
        route(ways, legs)[0] == end_node(ways[legs[0].0], legs[0].1),
        route(ways, legs).last() == end_node(ways[legs.last().0], !legs.last().1),
    decreases legs.len(),
{
    let z = legs.len() - 1;
    assert(ways[legs[0].0].nodes.len() > 0);
    assert(ways[legs[z].0].nodes.len() > 0);
    if legs.len() > 1 {
        let front = legs.drop_last();
        assert(chained(ways, refs, front)) by {
            assert forall|k: int|
                #![trigger front[k]]
                0 <= k < front.len() - 1 implies {
                &&& link(ways, refs, front[k].0, !front[k].1) == Some(front[k + 1].0)
                &&& end_node(ways[front[k + 1].0], front[k + 1].1) == end_node(
                    ways[front[k].0],
                    !front[k].1,
                )
            } by {
                assert(front[k] == legs[k]);
            }
        }
        lemma_route_ends(ways, refs, front);
        let last = oriented(ways, legs.last());
        assert(front.last() == legs[z - 1]);
        assert(end_node(ways[legs[z].0], legs[z].1) == end_node(
            ways[legs[z - 1].0],
            !legs[z - 1].1,
        ));
    }
}

/// A leg put in front of a route.
proof fn lemma_route_prepend(ways: Seq<WayView>, x: (int, bool), legs: Seq<(int, bool)>)
    requires
        legs.len() > 0,
        route(ways, legs).len() > 0,
        oriented(ways, x).len() > 0,
        oriented(ways, legs[0]).len() > 0,
        oriented(ways, x).last() == oriented(ways, legs[0])[0],
    ensures
        route(ways, seq![x] + legs) == oriented(ways, x).drop_last() + route(ways, legs),
    decreases legs.len(),
{
    let all = seq![x] + legs;
    let a = oriented(ways, x);
    assert(all.drop_last() =~= seq![x] + legs.drop_last());
    assert(all.last() == legs.last());
    let last = oriented(ways, legs.last());
    if legs.len() == 1 {
        assert(all.drop_last() =~= seq![x]);
        assert(route(ways, all.drop_last()) == a);
        assert(route(ways, all) =~= a.drop_last() + last);
    } else {
        let front = legs.drop_last();
        assert(front[0] == legs[0]);
        lemma_route_starts(ways, front);
        lemma_route_prepend(ways, x, front);
        assert(route(ways, all) =~= a.drop_last() + route(ways, legs));
    }
}

proof fn lemma_route_starts(ways: Seq<WayView>, legs: Seq<(int, bool)>)
    requires
        legs.len() > 0,
        oriented(ways, legs[0]).len() > 0,
    ensures
        route(ways, legs).len() > 0,
    decreases legs.len(),
{
    if legs.len() > 1 {
        assert(legs.drop_last()[0] == legs[0]);
        lemma_route_starts(ways, legs.drop_last());
    }
}

// ── Finding the links ───────────────────────────────────────────────
/// The ends that a table holds for a node.
spec fn held(table: Map<i64, Vec<(usize, bool)>>, n: i64) -> Seq<(int, bool)> {
    if table.contains_key(n) {
        table[n]@.map_values(|e: (usize, bool)| (e.0 as int, e.1))
    } else {
        Seq::empty()
    }
}

/// Adds one end to the table.
fn record_end(table: &mut HashMap<i64, Vec<(usize, bool)>>, n: i64, way: usize, tail: bool)
    ensures
        forall|m: i64| #[trigger]
            held(final(table)@, m) == if m == n {
                held(old(table)@, m).push((way as int, tail))
            } else {
                held(old(table)@, m)
            },
{
    let ghost before = table@;
    let mut list: Vec<(usize, bool)> = match table.remove(&n) {
        Some(list) => list,
        None => Vec::new(),
    };
    list.push((way, tail));
    let ghost l1 = list;
    table.insert(n, list);
    proof {
        assert(table@ =~= before.insert(n, l1));
        assert forall|m: i64| #[trigger] held(table@, m) == if m == n {
            held(before, m).push((way as int, tail))
        } else {
            held(before, m)
        } by {
            if m == n {
                assert(held(table@, m) =~= held(before, m).push((way as int, tail)));
            }
        }
    }
}

/// The ends at every node.
fn end_table(ways: &[Way]) -> (table: HashMap<i64, Vec<(usize, bool)>>)
    requires
        have_nodes(views(ways@)),
    ensures
        forall|n: i64| #[trigger] held(table@, n) == ends_at(views(ways@), n),
{
    let ghost all = views(ways@);
    let mut table: HashMap<i64, Vec<(usize, bool)>> = HashMap::new();
    let mut i: usize = 0;
    assert(all.take(0) =~= Seq::<WayView>::empty());
    while i < ways.len()
        invariant
            i <= ways@.len(),
            all == views(ways@),
            have_nodes(all),
            forall|n: i64| #[trigger] held(table@, n) == ends_at(all.take(i as int), n),
        decreases ways@.len() - i,
    {
        let ghost t0 = table@;
        assert(all[i as int].nodes.len() > 0);
        let head: i64 = ways[i].nodes[0];
        let tail: i64 = ways[i].nodes[ways[i].nodes.len() - 1];
        record_end(&mut table, head, i, false);
        let ghost t1 = table@;
        record_end(&mut table, tail, i, true);
        proof {
            let next = all.take(i + 1);
            assert(next.drop_last() =~= all.take(i as int));
            assert(next[i as int] == all[i as int]);
            assert forall|n: i64| #[trigger] held(table@, n) == ends_at(next, n) by {
                assert(held(t0, n) == ends_at(all.take(i as int), n));
                assert(held(t1, n) == if n == head {
                    held(t0, n).push((i as int, false))
                } else {
                    held(t0, n)
                });
            }
        }
        i = i + 1;
    }
    assert(all.take(ways@.len() as int) =~= all);
    table
}

/// Whether a node is referenced exactly twice.
fn twice(refs: &HashMap<i64, u32>, n: i64) -> (r: bool)
    ensures
        r == (refs@.contains_key(n) && refs@[n] == 2),
{
    match refs.get(&n) {
        Some(c) => *c == 2,
        None => false,
    }
}

/// What an end is merged with, and whether it is where a merge is declined.
fn link_of(
    ways: &[Way],
    refs: &HashMap<i64, u32>,
    table: &HashMap<i64, Vec<(usize, bool)>>,
    i: usize,
    tail: bool,
) -> (r: (Option<usize>, bool))
    requires
        have_nodes(views(ways@)),
        i < ways@.len(),
        forall|n: i64| #[trigger] held(table@, n) == ends_at(views(ways@), n),
    ensures
        match r.0 {
            Some(j) => link(views(ways@), refs@, i as int, tail) == Some(j as int) && j
                < ways@.len(),
            None => link(views(ways@), refs@, i as int, tail) is None,
        },
        r.1 == declines(views(ways@), refs@, i as int, tail),
{
    let ghost all = views(ways@);
    assert(all[i as int].nodes.len() > 0);
    let n: i64 = if tail {
        ways[i].nodes[ways[i].nodes.len() - 1]
    } else {
        ways[i].nodes[0]
    };
    let ghost e = ends_at(all, n);
    assert(held(table@, n) == e);
    match table.get(&n) {
        Some(list) => {
            if list.len() == 2 && twice(refs, n) {
                let (a, at): (usize, bool) = list[0];
                let (b, _bt): (usize, bool) = list[1];
                proof {
                    assert(e[0] == (a as int, at));
                    assert(e[1].0 == b);
                    assert(e.contains(e[0]));
                    assert(e.contains(e[1]));
                    lemma_ends(all, n, e[0].0, e[0].1);
                    lemma_ends(all, n, e[1].0, e[1].1);
                }
                if a != b {
                    let first: bool = a == i && at == tail;
                    if same_text(ways[a].class, ways[b].class) {
                        return (
                            Some(
                                if first {
                                    b
                                } else {
                                    a
                                },
                            ),
                            false,
                        );
                    }
                    return (None, first);
                }
            }
            (None, false)
        },
        None => (None, false),
    }
}

/// The links of every way, head and tail.
struct Links {
    heads: Vec<Option<usize>>,
    tails: Vec<Option<usize>>,
}

impl Links {
    /// Whether these are the links of the first `n` ways.
    spec fn hold(&self, ways: Seq<WayView>, refs: Map<i64, u32>, n: int) -> bool {
        &&& self.heads@.len() == n
        &&& self.tails@.len() == n
        &&& forall|i: int|
            0 <= i < n ==> same_link(#[trigger] self.heads@[i], link(ways, refs, i, false))
        &&& forall|i: int|
            0 <= i < n ==> same_link(#[trigger] self.tails@[i], link(ways, refs, i, true))
        &&& forall|i: int|
            0 <= i < n ==> ((#[trigger] self.heads@[i]) matches Some(j) ==> j < ways.len())
        &&& forall|i: int|
            0 <= i < n ==> ((#[trigger] self.tails@[i]) matches Some(j) ==> j < ways.len())
    }

    /// The link of one end.
    fn at(
        &self,
        Ghost(ways): Ghost<Seq<WayView>>,
        Ghost(refs): Ghost<Map<i64, u32>>,
        i: usize,
        tail: bool,
    ) -> (r: Option<usize>)
        requires
            self.hold(ways, refs, ways.len() as int),
            i < ways.len(),
        ensures
            same_link(r, link(ways, refs, i as int, tail)),
            r matches Some(j) ==> j < ways.len(),
    {
        if tail {
            assert(same_link(self.tails@[i as int], link(ways, refs, i as int, true)));
            self.tails[i]
        } else {
            assert(same_link(self.heads@[i as int], link(ways, refs, i as int, false)));
            self.heads[i]
        }
    }
}

/// Whether a stored link is a link.
spec fn same_link(a: Option<usize>, b: Option<int>) -> bool {
    match a {
        Some(j) => b == Some(j as int),
        None => b is None,
    }
}

/// Finds the links of every way, and counts the merges that are declined.
fn find_links(ways: &[Way], refs: &HashMap<i64, u32>) -> (r: (Links, u64))
    requires
        have_nodes(views(ways@)),
        ways@.len() <= 0x7fff_ffff_ffff_ffff,
    ensures
        r.0.hold(views(ways@), refs@, ways@.len() as int),
        r.1 == declined(views(ways@), refs@, ways@.len() as int),
{
    let ghost all = views(ways@);
    let table: HashMap<i64, Vec<(usize, bool)>> = end_table(ways);
    let mut links: Links = Links { heads: Vec::new(), tails: Vec::new() };
    let mut count: u64 = 0;
    let mut i: usize = 0;
    while i < ways.len()
        invariant
            i <= ways@.len() <= 0x7fff_ffff_ffff_ffff,
            all == views(ways@),
            have_nodes(all),
            forall|n: i64| #[trigger] held(table@, n) == ends_at(all, n),
            links.hold(all, refs@, i as int),
            count == declined(all, refs@, i as int),
            count <= 2 * i,
        decreases ways@.len() - i,
    {
        let (head, head_declines): (Option<usize>, bool) = link_of(ways, refs, &table, i, false);
        let (tail, tail_declines): (Option<usize>, bool) = link_of(ways, refs, &table, i, true);
        links.heads.push(head);
        links.tails.push(tail);
        if head_declines {
            count = count + 1;
        }
        if tail_declines {
            count = count + 1;
        }
        i = i + 1;
    }
    (links, count)
}

// ── Walking the corridors ───────────────────────────────────────────
/// How many ways are unused.
spec fn unused(used: Seq<bool>) -> nat
    decreases used.len(),
{
    if used.len() == 0 {
        0
    } else {
        unused(used.drop_last()) + if used.last() {
            0nat
        } else {
            1
        }
    }
}

proof fn lemma_unused(used: Seq<bool>, i: int)
    requires
        0 <= i < used.len(),
        !used[i],
    ensures
        unused(used.update(i, true)) + 1 == unused(used),
        unused(used) <= used.len(),
    decreases used.len(),
{
    let next = used.update(i, true);
    let front = used.drop_last();
    lemma_unused_bound(front);
    if i < front.len() {
        lemma_unused(front, i);
        assert(next.drop_last() =~= front.update(i, true));
    } else {
        assert(next.drop_last() =~= front);
    }
}

proof fn lemma_unused_bound(used: Seq<bool>)
    ensures
        unused(used) <= used.len(),
    decreases used.len(),
{
    if used.len() > 0 {
        lemma_unused_bound(used.drop_last());
    }
}

/// Whether the legs are exactly the ways that were used since.
spec fn used_since(before: Seq<bool>, now: Seq<bool>, legs: Seq<(int, bool)>) -> bool {
    &&& now.len() == before.len()
    &&& forall|i: int|
        0 <= i < now.len() ==> (#[trigger] now[i] <==> before[i] || has_way(legs, i))
    &&& forall|k: int| 0 <= k < legs.len() ==> !before[(#[trigger] legs[k]).0]
}

/// Whether a way is among the legs.
pub open spec fn has_way(legs: Seq<(int, bool)>, i: int) -> bool {
    exists|k: int| 0 <= k < legs.len() && (#[trigger] legs[k]).0 == i
}

/// Whether links never lead from an unused way to a used one.
spec fn sealed(ways: Seq<WayView>, refs: Map<i64, u32>, used: Seq<bool>) -> bool {
    &&& used.len() == ways.len()
    &&& forall|i: int, tail: bool|
        #![trigger link(ways, refs, i, tail)]
        0 <= i < used.len() && !used[i] ==> (link(ways, refs, i, tail) matches Some(j) ==> !used[j])
}

proof fn lemma_still_sealed(
    ways: Seq<WayView>,
    refs: Map<i64, u32>,
    before: Seq<bool>,
    now: Seq<bool>,
    legs: Seq<(int, bool)>,
)
    requires
        sealed(ways, refs, before),
        used_since(before, now, legs),
        is_corridor(ways, refs, legs),
    ensures
        sealed(ways, refs, now),
{
    assert forall|i: int, tail: bool|
        #![trigger link(ways, refs, i, tail)]
        0 <= i < now.len() && !now[i] implies (link(ways, refs, i, tail) matches Some(j)
        ==> !now[j]) by {
        if link(ways, refs, i, tail) is Some {
            let j = link(ways, refs, i, tail)->0;
            lemma_link(ways, refs, i, tail);
            assert(!before[j]);
            if now[j] {
                let k = choose|k: int| 0 <= k < legs.len() && (#[trigger] legs[k]).0 == j;
                let n = end_node(ways[i], tail);
                let t = end_node(ways[j], true) == n;
                assert(end_node(ways[j], t) == n);
                assert(link(ways, refs, j, t) == Some(i));
                lemma_links_stay_inside(ways, refs, legs, k, t);
                let m = choose|m: int|
                    0 <= m < legs.len() && Some((#[trigger] legs[m]).0) == link(
                        ways,
                        refs,
                        legs[k].0,
                        t,
                    );
                assert(has_way(legs, i));
            }
        }
    }
}

/// The nodes of a way as a corridor runs through it.
fn oriented_nodes(ways: &[Way], i: usize, flip: bool) -> (nodes: Vec<i64>)
    requires
        i < ways@.len(),
    ensures
        nodes@ == oriented(views(ways@), (i as int, flip)),
{
    let list: &Vec<i64> = &ways[i].nodes;
    if !flip {
        return slice_to_vec(list.as_slice());
    }
    let mut nodes: Vec<i64> = Vec::new();
    let n: usize = list.len();
    let mut k: usize = 0;
    while k < n
        invariant
            k <= n,
            n == list@.len(),
            nodes@.len() == k,
            forall|m: int| 0 <= m < k ==> #[trigger] nodes@[m] == list@[n - 1 - m],
        decreases n - k,
    {
        nodes.push(list[n - 1 - k]);
        k = k + 1;
    }
    assert(nodes@ =~= list@.reverse());
    nodes
}

/// Appends a leg to a chain.
proof fn lemma_append_leg(
    ways: Seq<WayView>,
    refs: Map<i64, u32>,
    legs: Seq<(int, bool)>,
    x: (int, bool),
)
    requires
        legs.len() > 0,
        distinct_ways(ways, legs),
        chained(ways, refs, legs),
        0 <= x.0 < ways.len(),
        !has_way(legs, x.0),
        link(ways, refs, legs.last().0, !legs.last().1) == Some(x.0),
        end_node(ways[x.0], x.1) == end_node(ways[legs.last().0], !legs.last().1),
    ensures
        distinct_ways(ways, legs.push(x)),
        chained(ways, refs, legs.push(x)),
{
    let next = legs.push(x);
    assert forall|k: int, m: int|
        #![trigger next[k], next[m]]
        0 <= k < m < next.len() implies next[k].0 != next[m].0 by {
        assert(next[k] == legs[k]);
        if m == legs.len() {
            assert(!has_way(legs, x.0));
        }
    }
    assert forall|k: int|
        #![trigger next[k]]
        0 <= k < next.len() - 1 implies {
        &&& link(ways, refs, next[k].0, !next[k].1) == Some(next[k + 1].0)
        &&& end_node(ways[next[k + 1].0], next[k + 1].1) == end_node(
            ways[next[k].0],
            !next[k].1,
        )
    } by {
        assert(next[k] == legs[k]);
    }
}

/// Puts a leg in front of a chain.
proof fn lemma_prepend_leg(
    ways: Seq<WayView>,
    refs: Map<i64, u32>,
    legs: Seq<(int, bool)>,
    x: (int, bool),
)
    requires
        legs.len() > 0,
        distinct_ways(ways, legs),
        chained(ways, refs, legs),
        0 <= x.0 < ways.len(),
        !has_way(legs, x.0),
        link(ways, refs, x.0, !x.1) == Some(legs[0].0),
        end_node(ways[x.0], !x.1) == end_node(ways[legs[0].0], legs[0].1),
    ensures
        distinct_ways(ways, seq![x] + legs),
        chained(ways, refs, seq![x] + legs),
{
    let next = seq![x] + legs;
    assert forall|k: int, m: int|
        #![trigger next[k], next[m]]
        0 <= k < m < next.len() implies next[k].0 != next[m].0 by {
        assert(next[m] == legs[m - 1]);
        if k > 0 {
            assert(next[k] == legs[k - 1]);
        } else {
            assert(!has_way(legs, x.0));
        }
    }
    assert forall|k: int|
        #![trigger next[k]]
        0 <= k < next.len() - 1 implies {
        &&& link(ways, refs, next[k].0, !next[k].1) == Some(next[k + 1].0)
        &&& end_node(ways[next[k + 1].0], next[k + 1].1) == end_node(
            ways[next[k].0],
            !next[k].1,
        )
    } by {
        if k > 0 {
            assert(next[k] == legs[k - 1]);
        }
    }
}

proof fn lemma_used_push(
    before: Seq<bool>,
    now: Seq<bool>,
    legs: Seq<(int, bool)>,
    all: Seq<(int, bool)>,
    x: (int, bool),
)
    requires
        used_since(before, now, legs),
        0 <= x.0 < now.len(),
        !now[x.0],
        all == legs.push(x) || all == seq![x] + legs,
    ensures
        used_since(before, now.update(x.0, true), all),
{
    let next = now.update(x.0, true);
    assert(!before[x.0]);
    assert forall|i: int| 0 <= i < next.len() implies (#[trigger] next[i] <==> before[i]
        || has_way(all, i)) by {
        assert(now[i] <==> before[i] || has_way(legs, i));
        if has_way(legs, i) {
            let k = choose|k: int| 0 <= k < legs.len() && (#[trigger] legs[k]).0 == i;
            if all == legs.push(x) {
                assert(all[k].0 == i);
            } else {
                assert(all[k + 1].0 == i);
            }
        }
        if i == x.0 {
            if all == legs.push(x) {
                assert(all[legs.len() as int].0 == i);
            } else {
                assert(all[0].0 == i);
            }
        }
        if has_way(all, i) && i != x.0 {
            let k = choose|k: int| 0 <= k < all.len() && (#[trigger] all[k]).0 == i;
            if all == legs.push(x) {
                assert(legs[k].0 == i);
            } else {
                assert(legs[k - 1].0 == i);
            }
        }
    }
    assert forall|k: int| 0 <= k < all.len() implies !before[(#[trigger] all[k]).0] by {
        if all == legs.push(x) {
            if k < legs.len() {
                assert(all[k] == legs[k]);
            }
        } else if k > 0 {
            assert(all[k] == legs[k - 1]);
        }
    }
}

/// Walks one corridor from a way: forward from its tail, then backward from its
/// head.
#[verifier::spinoff_prover]
#[verifier::rlimit(60)]
fn walk(
    ways: &[Way],
    links: &Links,
    start: usize,
    used: &mut Vec<bool>,
    Ghost(refs): Ghost<Map<i64, u32>>,
) -> (r: (usize, Vec<i64>, Ghost<Seq<(int, bool)>>))
    requires
        have_nodes(views(ways@)),
        links.hold(views(ways@), refs, ways@.len() as int),
        start < ways@.len(),
        sealed(views(ways@), refs, old(used)@),
        !old(used)@[start as int],
    ensures
        is_corridor(views(ways@), refs, r.2@),
        r.0 == r.2@.len(),
        r.1@ == route(views(ways@), r.2@),
        r.2@.contains((start as int, false)),
        is_ring(views(ways@), refs, r.2@) ==> r.2@[0] == (start as int, false),
        used_since(old(used)@, final(used)@, r.2@),
        sealed(views(ways@), refs, final(used)@),
{
    let ghost all = views(ways@);
    let ghost first_used = used@;
    let mut nodes: Vec<i64> = oriented_nodes(ways, start, false);
    let mut count: usize = 1;
    let ghost mut legs: Seq<(int, bool)> = seq![(start as int, false)];
    proof {
        lemma_unused(used@, start as int);
        lemma_used_push(used@, used@, Seq::empty(), legs, (start as int, false));
        assert(Seq::<(int, bool)>::empty().push((start as int, false)) =~= legs);
    }
    used.set(start, true);
    let mut cur: usize = start;
    let mut flip: bool = false;
    let mut going: bool = true;
    while going
        invariant
            all == views(ways@),
            have_nodes(all),
            links.hold(all, refs, ways@.len() as int),
            sealed(all, refs, first_used),
            used_since(first_used, used@, legs),
            legs.len() > 0,
            legs[0] == (start as int, false),
            distinct_ways(all, legs),
            chained(all, refs, legs),
            legs.last() == (cur as int, flip),
            count == legs.len(),
            legs.len() + unused(used@) == unused(first_used),
            unused(first_used) <= ways@.len(),
            nodes@ == route(all, legs),
            start < ways@.len(),
            cur < ways@.len(),
            !going ==> link(all, refs, cur as int, !flip) is None || is_ring(all, refs, legs),
        decreases
                unused(used@),
                if going {
                    1nat
                } else {
                    0
                },
    {
        match links.at(Ghost(all), Ghost(refs), cur, !flip) {
            Some(next) => {
                proof {
                    lemma_link(all, refs, cur as int, !flip);
                    assert(legs[legs.len() - 1] == (cur as int, flip));
                    assert(!first_used[legs[legs.len() - 1].0]);
                }
                if used[next] {
                    proof {
                        assert(!first_used[next as int]);
                        let m = choose|m: int|
                            0 <= m < legs.len() && (#[trigger] legs[m]).0 == next;
                        lemma_tail_into_chain(all, refs, legs, m);
                    }
                    going = false;
                } else {
                    proof {
                        lemma_route_ends(all, refs, legs);
                    }
                    let join: i64 = nodes[nodes.len() - 1];
                    assert(all[next as int].nodes.len() > 0);
                    let turned: bool = ways[next].nodes[0] != join;
                    let ghost x = (next as int, turned);
                    proof {
                        assert(!has_way(legs, next as int)) by {
                            assert(used@[next as int] <==> first_used[next as int] || has_way(
                                legs,
                                next as int,
                            ));
                        }
                        assert(end_node(all[next as int], turned) == join);
                        lemma_append_leg(all, refs, legs, x);
                        lemma_used_push(first_used, used@, legs, legs.push(x), x);
                        lemma_unused(used@, next as int);
                    }
                    let mut seg: Vec<i64> = oriented_nodes(ways, next, turned);
                    assert(seg@.len() > 0);
                    let mut rest: Vec<i64> = seg.split_off(1);
                    nodes.append(&mut rest);
                    proof {
                        let more = legs.push(x);
                        assert(more.drop_last() =~= legs);
                        let o = oriented(all, x);
                        assert(nodes@ =~= route(all, legs) + o.subrange(1, o.len() as int));
                        legs = more;
                    }
                    used.set(next, true);
                    count = count + 1;
                    cur = next;
                    flip = turned;
                }
            },
            None => {
                going = false;
            },
        }
    }
    let ghost tail_leg = legs.last();
    let mut cur: usize = start;
    let mut flip: bool = false;
    let mut going: bool = true;
    while going
        invariant
            all == views(ways@),
            have_nodes(all),
            links.hold(all, refs, ways@.len() as int),
            sealed(all, refs, first_used),
            used_since(first_used, used@, legs),
            legs.len() > 0,
            legs.contains((start as int, false)),
            distinct_ways(all, legs),
            chained(all, refs, legs),
            legs[0] == (cur as int, flip),
            legs.last() == tail_leg,
            count == legs.len(),
            legs.len() + unused(used@) == unused(first_used),
            unused(first_used) <= ways@.len(),
            nodes@ == route(all, legs),
            start < ways@.len(),
            cur < ways@.len(),
            link(all, refs, tail_leg.0, !tail_leg.1) is None || is_ring(all, refs, legs),
            is_ring(all, refs, legs) ==> legs[0] == (start as int, false),
            !going ==> link(all, refs, cur as int, flip) is None || is_ring(all, refs, legs),
        decreases
                unused(used@),
                if going {
                    1nat
                } else {
                    0
                },
    {
        match links.at(Ghost(all), Ghost(refs), cur, flip) {
            Some(prev) => {
                proof {
                    lemma_link(all, refs, cur as int, flip);
                    assert(!first_used[legs[0].0]);
                }
                if used[prev] {
                    proof {
                        assert(!first_used[prev as int]);
                        let m = choose|m: int|
                            0 <= m < legs.len() && (#[trigger] legs[m]).0 == prev;
                        lemma_head_into_chain(all, refs, legs, m);
                    }
                    going = false;
                } else {
                    proof {
                        lemma_route_ends(all, refs, legs);
                    }
                    let join: i64 = nodes[0];
                    assert(all[prev as int].nodes.len() > 0);
                    let turned: bool = ways[prev].nodes[ways[prev].nodes.len() - 1] != join;
                    let ghost x = (prev as int, turned);
                    let ghost more = seq![x] + legs;
                    proof {
                        assert(!has_way(legs, prev as int)) by {
                            assert(used@[prev as int] <==> first_used[prev as int] || has_way(
                                legs,
                                prev as int,
                            ));
                        }
                        assert(end_node(all[prev as int], !turned) == join);
                        assert(link(all, refs, prev as int, !turned) == Some(cur as int));
                        lemma_prepend_leg(all, refs, legs, x);
                        lemma_used_push(first_used, used@, legs, more, x);
                        lemma_unused(used@, prev as int);
                        let o = oriented(all, x);
                        assert(o.last() == join);
                        assert(oriented(all, legs[0])[0] == join);
                        lemma_route_prepend(all, x, legs);
                        // No ring: its last leg would be linked to a way that is
                        // already part of it.
                        if is_ring(all, refs, legs) {
                            assert(has_way(legs, prev as int)) by {
                                assert(legs[legs.len() - 1].0 == prev);
                            }
                        }
                    }
                    let mut seg: Vec<i64> = oriented_nodes(ways, prev, turned);
                    let _last: Option<i64> = seg.pop();
                    seg.append(&mut nodes);
                    nodes = seg;
                    proof {
                        let at = choose|at: int|
                            0 <= at < legs.len() && legs[at] == (start as int, false);
                        assert(more[at + 1] == (start as int, false));
                        assert(more.last() == legs.last());
                        legs = more;
                    }
                    used.set(prev, true);
                    count = count + 1;
                    cur = prev;
                    flip = turned;
                }
            },
            None => {
                going = false;
            },
        }
    }
    proof {
        lemma_still_sealed(all, refs, first_used, used@, legs);
    }
    (count, nodes, Ghost(legs))
}

// ── All corridors ───────────────────────────────────────────────────
/// Whether a way has an end that is not merged.
pub open spec fn is_free(ways: Seq<WayView>, refs: Map<i64, u32>, i: int) -> bool {
    link(ways, refs, i, false) is None || link(ways, refs, i, true) is None
}

/// Whether a way is in one of the corridors.
pub open spec fn covered(plan: Seq<Seq<(int, bool)>>, i: int) -> bool {
    exists|k: int| 0 <= k < plan.len() && has_way(#[trigger] plan[k], i)
}

/// The end of an open corridor with the smaller way.
pub open spec fn seed(legs: Seq<(int, bool)>) -> (int, bool) {
    if legs[0].0 <= legs.last().0 {
        legs[0]
    } else {
        legs.last()
    }
}

/// Whether corridors are open, each runs with its seed, and they are ordered by
/// it.
pub open spec fn are_open(
    ways: Seq<WayView>,
    refs: Map<i64, u32>,
    plan: Seq<Seq<(int, bool)>>,
) -> bool {
    &&& forall|k: int|
        0 <= k < plan.len() ==> is_corridor(ways, refs, #[trigger] plan[k]) && is_open(
            ways,
            refs,
            plan[k],
        ) && !seed(plan[k]).1
    &&& forall|k: int, m: int|
        #![trigger plan[k], plan[m]]
        0 <= k < m < plan.len() ==> seed(plan[k]).0 < seed(plan[m]).0
}

/// Whether corridors are rings, each begins with its smallest way, running with
/// it, and they are ordered by it.
pub open spec fn are_rings(
    ways: Seq<WayView>,
    refs: Map<i64, u32>,
    plan: Seq<Seq<(int, bool)>>,
) -> bool {
    &&& forall|k: int|
        0 <= k < plan.len() ==> is_corridor(ways, refs, #[trigger] plan[k]) && is_ring(
            ways,
            refs,
            plan[k],
        ) && !plan[k][0].1
    &&& forall|k: int, m: int|
        #![trigger plan[k][m]]
        0 <= k < plan.len() && 0 <= m < plan[k].len() ==> plan[k][0].0 <= plan[k][m].0
    &&& forall|k: int, m: int|
        #![trigger plan[k], plan[m]]
        0 <= k < m < plan.len() ==> plan[k][0].0 < plan[m][0].0
}

/// Whether no way is in two corridors.
pub open spec fn are_apart(plan: Seq<Seq<(int, bool)>>) -> bool {
    forall|k: int, m: int, i: int|
        #![trigger has_way(plan[k], i), has_way(plan[m], i)]
        0 <= k < plan.len() && 0 <= m < plan.len() && has_way(plan[k], i) && has_way(plan[m], i)
            ==> k == m
}

/// Whether corridors are those of the ways: the open ones, then the rings. Every
/// way is in exactly one, and none can be made longer.
pub open spec fn is_plan(
    ways: Seq<WayView>,
    refs: Map<i64, u32>,
    open: Seq<Seq<(int, bool)>>,
    rings: Seq<Seq<(int, bool)>>,
) -> bool {
    &&& are_open(ways, refs, open)
    &&& are_rings(ways, refs, rings)
    &&& are_apart(open + rings)
    &&& forall|i: int| 0 <= i < ways.len() ==> #[trigger] covered(open + rings, i)
}

/// Whether a list holds corridors: of each, how many ways it has and its nodes.
pub open spec fn holds_plan(
    out: Seq<(usize, Vec<i64>)>,
    ways: Seq<WayView>,
    plan: Seq<Seq<(int, bool)>>,
) -> bool {
    &&& out.len() == plan.len()
    &&& forall|k: int| 0 <= k < out.len() ==> (#[trigger] out[k]).0 == plan[k].len()
    &&& forall|k: int| 0 <= k < out.len() ==> (#[trigger] out[k]).1@ == route(ways, plan[k])
}

/// Whether the used ways are those in the corridors.
spec fn used_by(used: Seq<bool>, plan: Seq<Seq<(int, bool)>>) -> bool {
    forall|i: int| 0 <= i < used.len() ==> (#[trigger] used[i] <==> covered(plan, i))
}

proof fn lemma_plan_push(
    before: Seq<bool>,
    now: Seq<bool>,
    plan: Seq<Seq<(int, bool)>>,
    legs: Seq<(int, bool)>,
)
    requires
        used_by(before, plan),
        used_since(before, now, legs),
        are_apart(plan),
        forall|k: int| 0 <= k < legs.len() ==> 0 <= (#[trigger] legs[k]).0 < before.len(),
    ensures
        used_by(now, plan.push(legs)),
        are_apart(plan.push(legs)),
{
    let next = plan.push(legs);
    let z = plan.len() as int;
    assert forall|i: int| 0 <= i < now.len() implies (#[trigger] now[i] <==> covered(next, i)) by {
        assert(before[i] <==> covered(plan, i));
        if covered(plan, i) {
            let k = choose|k: int| 0 <= k < plan.len() && has_way(#[trigger] plan[k], i);
            assert(has_way(next[k], i));
        }
        if has_way(legs, i) {
            assert(has_way(next[z], i));
        }
        if covered(next, i) {
            let k = choose|k: int| 0 <= k < next.len() && has_way(#[trigger] next[k], i);
            if k < z {
                assert(has_way(plan[k], i));
            }
        }
    }
    assert forall|k: int, m: int, i: int|
        #![trigger has_way(next[k], i), has_way(next[m], i)]
        0 <= k < next.len() && 0 <= m < next.len() && has_way(next[k], i) && has_way(
            next[m],
            i,
        ) implies k == m by {
        if k == z && m < z {
            let a = choose|a: int| 0 <= a < legs.len() && (#[trigger] legs[a]).0 == i;
            assert(!before[legs[a].0]);
            assert(has_way(plan[m], i));
            assert(covered(plan, i));
        } else if m == z && k < z {
            let a = choose|a: int| 0 <= a < legs.len() && (#[trigger] legs[a]).0 == i;
            assert(!before[legs[a].0]);
            assert(has_way(plan[k], i));
            assert(covered(plan, i));
        } else if k < z && m < z {
            assert(has_way(plan[k], i) && has_way(plan[m], i));
        }
    }
}

/// A corridor that was walked from a free way is open, and the way is its seed
/// where all smaller free ways were used.
proof fn lemma_walked_open(
    ways: Seq<WayView>,
    refs: Map<i64, u32>,
    legs: Seq<(int, bool)>,
    start: int,
    before: Seq<bool>,
)
    requires
        is_corridor(ways, refs, legs),
        is_free(ways, refs, start),
        legs.contains((start, false)),
        is_ring(ways, refs, legs) ==> legs[0] == (start, false),
        before.len() == ways.len(),
        forall|k: int| 0 <= k < legs.len() ==> !before[(#[trigger] legs[k]).0],
        forall|j: int|
            0 <= j < start ==> (#[trigger] before[j]) || !is_free(ways, refs, j),
    ensures
        is_open(ways, refs, legs),
        seed(legs) == (start, false),
{
    let z = legs.len() - 1;
    if is_ring(ways, refs, legs) {
        lemma_link(ways, refs, legs[z].0, !legs[z].1);
        assert(z > 0);
        assert(link(ways, refs, legs[0].0, !legs[0].1) == Some(legs[1].0));
    }
    let p = choose|p: int| 0 <= p < legs.len() && legs[p] == (start, false);
    if p > 0 {
        lemma_back(ways, refs, legs, p);
    }
    if p < z {
        assert(link(ways, refs, legs[p].0, !legs[p].1) == Some(legs[p + 1].0));
    }
    assert(p == 0 || p == z);
    assert(is_free(ways, refs, legs[0].0));
    assert(is_free(ways, refs, legs[z].0));
    assert(!before[legs[0].0]);
    assert(!before[legs[z].0]);
}

/// Stitches ways into corridors. Returns the corridors, of each how many ways it
/// has and its nodes, and how many merges were declined only because the two
/// ways are of different classes. `routable_ref` says how often each node is
/// referenced.
pub fn build_corridors(ways: &[Way], routable_ref: &HashMap<i64, u32>) -> (r: (
    Vec<(usize, Vec<i64>)>,
    u64,
))
    requires
        have_nodes(views(ways@)),
        ways@.len() <= 0x7fff_ffff_ffff_ffff,
    ensures
        exists|open: Seq<Seq<(int, bool)>>, rings: Seq<Seq<(int, bool)>>|
            #![trigger is_plan(views(ways@), routable_ref@, open, rings)]
            is_plan(views(ways@), routable_ref@, open, rings) && holds_plan(
                r.0@,
                views(ways@),
                open + rings,
            ),
        r.1 == declined(views(ways@), routable_ref@, ways@.len() as int),
{
    let ghost all = views(ways@);
    let ghost refs = routable_ref@;
    let (links, class_declined): (Links, u64) = find_links(ways, routable_ref);
    let mut used: Vec<bool> = Vec::new();
    let mut i: usize = 0;
    while i < ways.len()
        invariant
            i <= ways@.len(),
            used@.len() == i,
            forall|k: int| 0 <= k < i ==> !(#[trigger] used@[k]),
        decreases ways@.len() - i,
    {
        used.push(false);
        i = i + 1;
    }
    let mut out: Vec<(usize, Vec<i64>)> = Vec::new();
    let ghost mut open: Seq<Seq<(int, bool)>> = Seq::empty();
    proof {
        assert forall|j: int, tail: bool|
            #![trigger link(all, refs, j, tail)]
            0 <= j < used@.len() && !used@[j] implies (link(all, refs, j, tail) matches Some(k)
            ==> !used@[k]) by {
            if link(all, refs, j, tail) is Some {
                lemma_link(all, refs, j, tail);
            }
        }
    }
    let mut i: usize = 0;
    while i < ways.len()
        invariant
            i <= ways@.len(),
            all == views(ways@),
            have_nodes(all),
            links.hold(all, refs, ways@.len() as int),
            sealed(all, refs, used@),
            used_by(used@, open),
            are_apart(open),
            are_open(all, refs, open),
            forall|k: int| 0 <= k < open.len() ==> seed(#[trigger] open[k]).0 < i,
            holds_plan(out@, all, open),
            forall|j: int| 0 <= j < i ==> (#[trigger] used@[j]) || !is_free(all, refs, j),
        decreases ways@.len() - i,
    {
        let head: Option<usize> = links.at(Ghost(all), Ghost(refs), i, false);
        let tail: Option<usize> = links.at(Ghost(all), Ghost(refs), i, true);
        if !used[i] && (head.is_none() || tail.is_none()) {
            let ghost before = used@;
            let (count, nodes, legs): (usize, Vec<i64>, Ghost<Seq<(int, bool)>>) = walk(
                ways,
                &links,
                i,
                &mut used,
                Ghost(refs),
            );
            proof {
                lemma_walked_open(all, refs, legs@, i as int, before);
                lemma_plan_push(before, used@, open, legs@);
                assert(has_way(legs@, i as int)) by {
                    let p = choose|p: int| 0 <= p < legs@.len() && legs@[p] == (i as int, false);
                    assert(legs@[p].0 == i);
                }
                assert forall|j: int| 0 <= j < i + 1 implies (#[trigger] used@[j]) || !is_free(
                    all,
                    refs,
                    j,
                ) by {
                    if j < i {
                        assert(before[j] || !is_free(all, refs, j));
                    }
                }
                open = open.push(legs@);
            }
            out.push((count, nodes));
        }
        i = i + 1;
    }
    let ghost mut rings: Seq<Seq<(int, bool)>> = Seq::empty();
    assert(open + rings =~= open);
    let mut i: usize = 0;
    while i < ways.len()
        invariant
            i <= ways@.len(),
            all == views(ways@),
            have_nodes(all),
            links.hold(all, refs, ways@.len() as int),
            sealed(all, refs, used@),
            used_by(used@, open + rings),
            are_apart(open + rings),
            are_open(all, refs, open),
            are_rings(all, refs, rings),
            forall|k: int| 0 <= k < rings.len() ==> (#[trigger] rings[k])[0].0 < i,
            holds_plan(out@, all, open + rings),
            forall|j: int|
                0 <= j < ways@.len() ==> (#[trigger] used@[j]) || !is_free(all, refs, j),
            forall|j: int| 0 <= j < i ==> #[trigger] used@[j],
        decreases ways@.len() - i,
    {
        if !used[i] {
            let ghost before = used@;
            let (count, nodes, legs): (usize, Vec<i64>, Ghost<Seq<(int, bool)>>) = walk(
                ways,
                &links,
                i,
                &mut used,
                Ghost(refs),
            );
            proof {
                let l = legs@;
                if is_open(all, refs, l) {
                    assert(!before[l[0].0]);
                    assert(is_free(all, refs, l[0].0)) by {
                        assert(link(all, refs, l[0].0, l[0].1) is None);
                    }
                }
                assert(is_ring(all, refs, l));
                lemma_plan_push(before, used@, open + rings, l);
                let more = rings.push(l);
                assert(open + more =~= (open + rings).push(l));
                assert forall|k: int, m: int|
                    #![trigger more[k][m]]
                    0 <= k < more.len() && 0 <= m < more[k].len() implies more[k][0].0
                    <= more[k][m].0 by {
                    if k == rings.len() {
                        assert(!before[l[m].0]);
                    } else {
                        assert(more[k] == rings[k]);
                        assert(rings[k][0].0 <= rings[k][m].0);
                    }
                }
                assert(has_way(l, i as int)) by {
                    assert(l[0].0 == i);
                }
                rings = more;
            }
            out.push((count, nodes));
        }
        i = i + 1;
    }
    proof {
        assert forall|i: int| 0 <= i < all.len() implies #[trigger] covered(open + rings, i) by {
            assert(used@[i]);
        }
        assert(is_plan(all, refs, open, rings));
    }
    (out, class_declined)
}

// ── Laws ────────────────────────────────────────────────────────────
/// Whether `part` stands in `s` in one piece, from `at` on.
pub open spec fn stands_at(s: Seq<i64>, at: int, part: Seq<i64>) -> bool {
    &&& 0 <= at
    &&& at + part.len() <= s.len()
    &&& s.subrange(at, at + part.len()) == part
}

/// Stitching loses no geometry: every way stands in the route of its corridor as
/// it is, forwards or backwards, in one piece.
pub proof fn law_route_is_lossless(
    ways: Seq<WayView>,
    refs: Map<i64, u32>,
    legs: Seq<(int, bool)>,
    k: int,
)
    requires
        have_nodes(ways),
        distinct_ways(ways, legs),
        chained(ways, refs, legs),
        0 <= k < legs.len(),
    ensures
        exists|at: int| #[trigger] stands_at(route(ways, legs), at, oriented(ways, legs[k])),
    decreases legs.len(),
{
    let all = route(ways, legs);
    let z = legs.len() - 1;
    let o = oriented(ways, legs[k]);
    assert(ways[legs[k].0].nodes.len() > 0);
    if legs.len() == 1 {
        assert(all.subrange(0, o.len() as int) =~= o);
        assert(stands_at(all, 0, o));
    } else {
        let front = legs.drop_last();
        lemma_front_chained(ways, refs, legs);
        let before = route(ways, front);
        if k < z {
            law_route_is_lossless(ways, refs, front, k);
            assert(front[k] == legs[k]);
            let at = choose|at: int| #[trigger] stands_at(before, at, o);
            assert(all.subrange(at, at + o.len()) =~= before.subrange(at, at + o.len()));
            assert(stands_at(all, at, o));
        } else {
            lemma_route_ends(ways, refs, front);
            assert(front.last() == legs[z - 1]);
            assert(end_node(ways[legs[z].0], legs[z].1) == end_node(
                ways[legs[z - 1].0],
                !legs[z - 1].1,
            ));
            let at = before.len() - 1;
            assert(before[at] == o[0]);
            assert(all.subrange(at, at + o.len()) =~= o);
            assert(stands_at(all, at, o));
        }
    }
}

proof fn lemma_front_chained(ways: Seq<WayView>, refs: Map<i64, u32>, legs: Seq<(int, bool)>)
    requires
        legs.len() > 0,
        distinct_ways(ways, legs),
        chained(ways, refs, legs),
    ensures
        distinct_ways(ways, legs.drop_last()),
        chained(ways, refs, legs.drop_last()),
{
    let front = legs.drop_last();
    assert forall|k: int|
        #![trigger front[k]]
        0 <= k < front.len() - 1 implies {
        &&& link(ways, refs, front[k].0, !front[k].1) == Some(front[k + 1].0)
        &&& end_node(ways[front[k + 1].0], front[k + 1].1) == end_node(
            ways[front[k].0],
            !front[k].1,
        )
    } by {
        assert(front[k] == legs[k]);
    }
}

/// A junction is never merged away: where a node is referenced other than
/// twice, or other than two ends lie at it, no corridor runs on.
pub proof fn law_junctions_stop_corridors(
    ways: Seq<WayView>,
    refs: Map<i64, u32>,
    i: int,
    tail: bool,
)
    requires
        0 <= i < ways.len(),
        ({
            let n = end_node(ways[i], tail);
            !refs.contains_key(n) || refs[n] != 2 || ends_at(ways, n).len() != 2
        }),
    ensures
        link(ways, refs, i, tail) is None,
{
}

/// A merge is mutual, and never of a way with itself.
pub proof fn law_merges_are_mutual(ways: Seq<WayView>, refs: Map<i64, u32>, i: int, tail: bool)
    requires
        0 <= i < ways.len(),
        link(ways, refs, i, tail) is Some,
    ensures
        ({
            let j = link(ways, refs, i, tail)->0;
            &&& 0 <= j < ways.len()
            &&& j != i
            &&& link(ways, refs, j, false) == Some(i) || link(ways, refs, j, true) == Some(i)
        }),
{
    lemma_link(ways, refs, i, tail);
    let j = link(ways, refs, i, tail)->0;
    let n = end_node(ways[i], tail);
    let t = end_node(ways[j], true) == n;
    assert(end_node(ways[j], t) == n);
}

// ── What is measured on a corridor ──────────────────────────────────
/// Values of `highway` for roads with a number or a through function.
pub const CLASSIFIED: [&'static str; 10] = [
    "motorway",
    "trunk",
    "primary",
    "secondary",
    "tertiary",
    "motorway_link",
    "trunk_link",
    "primary_link",
    "secondary_link",
    "tertiary_link",
];

/// Values of `highway` for roads that people live on.
pub const RESIDENTIAL: [&'static str; 3] = ["residential", "unclassified", "living_street"];

/// Values of `highway` for ways that are walked.
pub const ON_FOOT: [&'static str; 7] = [
    "footway",
    "path",
    "steps",
    "pedestrian",
    "track",
    "bridleway",
    "corridor",
];

/// The class of a `highway` value.
pub open spec fn road_class(hw: Seq<char>) -> Seq<char> {
    if listed(hw, CLASSIFIED@) {
        "classified"@
    } else if listed(hw, RESIDENTIAL@) {
        "residential"@
    } else if hw == "service"@ {
        "service"@
    } else if listed(hw, ON_FOOT@) {
        "foot"@
    } else if hw == "cycleway"@ {
        "cycle"@
    } else {
        "other"@
    }
}

/// The class of a `highway` value.
pub fn class_of(hw: &str) -> (c: &'static str)
    ensures
        c@ == road_class(hw@),
{
    if one_of(hw, CLASSIFIED.as_slice()) {
        "classified"
    } else if one_of(hw, RESIDENTIAL.as_slice()) {
        "residential"
    } else if same_text(hw, "service") {
        "service"
    } else if one_of(hw, ON_FOOT.as_slice()) {
        "foot"
    } else if same_text(hw, "cycleway") {
        "cycle"
    } else {
        "other"
    }
}

/// Sorts numbers and returns the one in the middle, the upper one of two; 0 of
/// none.
pub fn median(v: &mut Vec<u64>) -> (m: u64)
    ensures
        in_order(final(v)@),
        final(v)@.to_multiset() == old(v)@.to_multiset(),
        m == if final(v)@.len() == 0 {
            0
        } else {
            final(v)@[final(v)@.len() as int / 2]
        },
{
    let mut taken: Vec<u64> = Vec::new();
    core::mem::swap(v, &mut taken);
    let sorted: Vec<u64> = sort(taken);
    *v = sorted;
    if v.len() == 0 {
        0
    } else {
        v[v.len() / 2]
    }
}

/// Whether values `a..b` are all the same.
pub open spec fn constant(s: Seq<i64>, a: int, b: int) -> bool {
    forall|i: int| a <= i < b ==> #[trigger] s[i] == s[a]
}

/// Whether a value lies in a stretch of at least `floor` equal values.
pub open spec fn in_run(s: Seq<i64>, floor: int, i: int) -> bool {
    exists|a: int, b: int|
        #![trigger constant(s, a, b)]
        0 <= a <= i < b <= s.len() && b - a >= floor && constant(s, a, b)
}

/// How many of the first `n` values lie in a stretch of at least `floor` equal
/// values.
pub open spec fn run_cover_below(s: Seq<i64>, floor: int, n: int) -> nat
    decreases n,
{
    if n <= 0 {
        0
    } else {
        run_cover_below(s, floor, n - 1) + if in_run(s, floor, n - 1) {
            1nat
        } else {
            0
        }
    }
}

proof fn lemma_run_cover_step(s: Seq<i64>, floor: int, from: int, to: int, inside: bool)
    requires
        0 <= from <= to,
        forall|i: int| from <= i < to ==> #[trigger] in_run(s, floor, i) == inside,
    ensures
        run_cover_below(s, floor, to) == run_cover_below(s, floor, from) + if inside {
            to - from
        } else {
            0
        },
    decreases to - from,
{
    if from < to {
        lemma_run_cover_step(s, floor, from, to - 1, inside);
        assert(in_run(s, floor, to - 1) == inside);
    }
}

/// How many turns lie in a run of at least `floor` equal turns: a straight, or
/// an arc.
pub fn run_cover(turns: &[i64], floor: usize) -> (n: u64)
    ensures
        n == run_cover_below(turns@, floor as int, turns@.len() as int),
{
    let ghost s = turns@;
    let len: usize = turns.len();
    let mut n: u64 = 0;
    let mut i: usize = 0;
    while i < len
        invariant
            i <= len,
            len == s.len(),
            s == turns@,
            n <= i,
            n == run_cover_below(s, floor as int, i as int),
            0 < i < len ==> s[i - 1] != s[i as int],
        decreases len - i,
    {
        let mut j: usize = i + 1;
        while j < len && turns[j] == turns[i]
            invariant
                i < j <= len,
                len == s.len(),
                s == turns@,
                constant(s, i as int, j as int),
            decreases len - j,
        {
            j = j + 1;
        }
        let long: bool = j - i >= floor;
        proof {
            assert forall|k: int| i <= k < j implies #[trigger] in_run(s, floor as int, k)
                == long by {
                if long {
                    assert(constant(s, i as int, j as int));
                } else if in_run(s, floor as int, k) {
                    let (a, b) = choose|a: int, b: int|
                        #![trigger constant(s, a, b)]
                        0 <= a <= k < b <= s.len() && b - a >= floor && constant(s, a, b);
                    assert(s[k] == s[a]);
                    assert(s[k] == s[i as int]);
                    if a < i {
                        assert(s[i - 1] == s[a]);
                        assert(s[i as int] == s[a]);
                    }
                    if b > j {
                        assert(s[j as int] == s[a]);
                    }
                }
            }
            lemma_run_cover_step(s, floor as int, i as int, j as int, long);
        }
        if long {
            n = n + (j - i) as u64;
        }
        i = j;
    }
    n
}

/// The tile of a cell, `bits` levels up.
pub open spec fn tile_above(c: TileXy, bits: u32) -> (u32, u32) {
    (c.x >> bits, c.y_xyz >> bits)
}

/// Where a chain enters another tile.
pub open spec fn crossings(cells: Seq<TileXy>, bits: u32, n: int) -> Seq<int>
    decreases n,
{
    if n <= 1 {
        Seq::empty()
    } else if tile_above(cells[n - 1], bits) != tile_above(cells[n - 2], bits) {
        crossings(cells, bits, n - 1).push(n - 1)
    } else {
        crossings(cells, bits, n - 1)
    }
}

/// Where a chain is cut so that every piece lies in one tile: at its start, where
/// it enters another tile, and at its end.
pub fn tile_cuts(cells: &[TileXy], bits: u32) -> (cuts: Vec<usize>)
    requires
        cells@.len() > 0,
        bits < 32,
    ensures
        cuts@.len() == crossings(cells@, bits, cells@.len() as int).len() + 2,
        cuts@[0] == 0,
        forall|k: int|
            0 < k < cuts@.len() - 1 ==> #[trigger] cuts@[k] == crossings(
                cells@,
                bits,
                cells@.len() as int,
            )[k - 1],
        cuts@[cuts@.len() - 1] == cells@.len() - 1,
{
    let mut cuts: Vec<usize> = Vec::new();
    cuts.push(0);
    let mut i: usize = 1;
    while i < cells.len()
        invariant
            1 <= i <= cells@.len(),
            bits < 32,
            cuts@.len() == crossings(cells@, bits, i as int).len() + 1,
            cuts@[0] == 0,
            forall|k: int|
                0 < k < cuts@.len() ==> #[trigger] cuts@[k] == crossings(cells@, bits, i as int)[k
                    - 1],
        decreases cells@.len() - i,
    {
        let (a, b): (TileXy, TileXy) = (cells[i - 1], cells[i]);
        if (b.x >> bits) != (a.x >> bits) || (b.y_xyz >> bits) != (a.y_xyz >> bits) {
            cuts.push(i);
        }
        i = i + 1;
    }
    cuts.push(cells.len() - 1);
    cuts
}

// ── Laws of merging ─────────────────────────────────────────────────
proof fn lemma_ends_once(ways: Seq<WayView>, n: i64)
    ensures
        ends_at(ways, n).no_duplicates(),
        forall|k: int|
            0 <= k < ends_at(ways, n).len() ==> 0 <= (#[trigger] ends_at(ways, n)[k]).0 < ways.len(),
    decreases ways.len(),
{
    if ways.len() > 0 {
        lemma_ends_once(ways.drop_last(), n);
    }
}

proof fn lemma_two_ends(
    ways: Seq<WayView>,
    n: i64,
    a: (int, bool),
    b: (int, bool),
)
    requires
        0 <= a.0 < ways.len(),
        0 <= b.0 < ways.len(),
        a != b,
        end_node(ways[a.0], a.1) == n,
        end_node(ways[b.0], b.1) == n,
        forall|i: int, t: bool|
            #![trigger end_node(ways[i], t)]
            0 <= i < ways.len() && end_node(ways[i], t) == n ==> (i, t) == a || (i, t) == b,
    ensures
        ({
            let e = ends_at(ways, n);
            e.len() == 2 && (e[0] == a && e[1] == b || e[0] == b && e[1] == a)
        }),
{
    let e = ends_at(ways, n);
    lemma_ends_once(ways, n);
    lemma_ends(ways, n, a.0, a.1);
    lemma_ends(ways, n, b.0, b.1);
    let x = choose|x: int| 0 <= x < e.len() && e[x] == a;
    let y = choose|y: int| 0 <= y < e.len() && e[y] == b;
    assert forall|k: int| 0 <= k < e.len() implies #[trigger] e[k] == a || e[k] == b by {
        assert(e.contains(e[k]));
        lemma_ends(ways, n, e[k].0, e[k].1);
        assert(end_node(ways[e[k].0], e[k].1) == n);
        assert(e[k] == (e[k].0, e[k].1));
    }
    if e.len() > 2 {
        assert(e[0] != e[1] && e[1] != e[2] && e[0] != e[2]);
    }
    assert(e.len() == 2) by {
        if e.len() == 1 {
            assert(x == 0 && y == 0);
        }
    }
    assert(e[0] != e[1]);
}

/// Two ways that end at one node, where nothing else ends and which nothing else refers
/// to, are merged there exactly where they are of one class, whichever ends they are; and
/// where they are not, the merge is declined, once.
pub proof fn law_ways_of_one_class_merge_where_they_end(
    ways: Seq<WayView>,
    refs: Map<i64, u32>,
    n: i64,
    a: (int, bool),
    b: (int, bool),
)
    requires
        0 <= a.0 < ways.len(),
        0 <= b.0 < ways.len(),
        a.0 != b.0,
        end_node(ways[a.0], a.1) == n,
        end_node(ways[b.0], b.1) == n,
        forall|i: int, t: bool|
            #![trigger end_node(ways[i], t)]
            0 <= i < ways.len() && end_node(ways[i], t) == n ==> (i, t) == a || (i, t) == b,
        refs.contains_key(n),
        refs[n] == 2,
    ensures
        ways[a.0].class == ways[b.0].class ==> link(ways, refs, a.0, a.1) == Some(b.0) && link(
            ways,
            refs,
            b.0,
            b.1,
        ) == Some(a.0) && !declines(ways, refs, a.0, a.1) && !declines(ways, refs, b.0, b.1),
        ways[a.0].class != ways[b.0].class ==> link(ways, refs, a.0, a.1) is None && link(
            ways,
            refs,
            b.0,
            b.1,
        ) is None && (declines(ways, refs, a.0, a.1) <==> !declines(ways, refs, b.0, b.1)),
{
    lemma_two_ends(ways, n, a, b);
}

/// A way is merged only with another of its class, at a node where both end and which
/// nothing else refers to.
pub proof fn law_merges_are_of_one_class(
    ways: Seq<WayView>,
    refs: Map<i64, u32>,
    i: int,
    tail: bool,
    k: int,
    t: bool,
)
    requires
        0 <= i < ways.len(),
        link(ways, refs, i, tail) is Some,
    ensures
        ({
            let (n, j) = (end_node(ways[i], tail), link(ways, refs, i, tail)->0);
            &&& refs.contains_key(n) && refs[n] == 2
            &&& j != i && ways[j].class == ways[i].class
            &&& 0 <= k < ways.len() && end_node(ways[k], t) == n ==> k == i || k == j
        }),
{
    let n = end_node(ways[i], tail);
    let e = ends_at(ways, n);
    lemma_link(ways, refs, i, tail);
    lemma_ends(ways, n, i, tail);
    if 0 <= k < ways.len() && end_node(ways[k], t) == n {
        lemma_ends(ways, n, k, t);
    }
}

/// Every way is in one corridor, at one place in it, and every corridor is made of ways.
pub proof fn law_every_way_is_in_one_corridor(
    ways: Seq<WayView>,
    refs: Map<i64, u32>,
    open: Seq<Seq<(int, bool)>>,
    rings: Seq<Seq<(int, bool)>>,
    i: int,
)
    requires
        is_plan(ways, refs, open, rings),
        0 <= i < ways.len(),
    ensures
        ({
            let plan = open + rings;
            &&& exists|c: int, k: int|
                #![trigger plan[c][k]]
                0 <= c < plan.len() && 0 <= k < plan[c].len() && plan[c][k].0 == i
            &&& forall|c: int, k: int, d: int, m: int|
                #![trigger plan[c][k], plan[d][m]]
                0 <= c < plan.len() && 0 <= k < plan[c].len() && plan[c][k].0 == i && 0 <= d
                    < plan.len() && 0 <= m < plan[d].len() && plan[d][m].0 == i ==> c == d && k == m
        }),
{
    let plan = open + rings;
    assert(covered(plan, i));
    let c = choose|c: int| 0 <= c < plan.len() && has_way(#[trigger] plan[c], i);
    let legs = plan[c];
    let k = choose|k: int| 0 <= k < legs.len() && (#[trigger] legs[k]).0 == i;
    assert(plan[c][k].0 == i);
    assert forall|c: int, k: int, d: int, m: int|
        #![trigger plan[c][k], plan[d][m]]
        0 <= c < plan.len() && 0 <= k < plan[c].len() && plan[c][k].0 == i && 0 <= d < plan.len()
            && 0 <= m < plan[d].len() && plan[d][m].0 == i implies c == d && k == m by {
        assert(has_way(plan[c], i));
        assert(has_way(plan[d], i));
        let legs = plan[c];
        if c < open.len() {
            assert(is_corridor(ways, refs, open[c]));
        } else {
            assert(is_corridor(ways, refs, rings[c - open.len()]));
        }
        assert(distinct_ways(ways, legs));
        if k < m {
            assert(legs[k].0 != legs[m].0);
        } else if m < k {
            assert(legs[m].0 != legs[k].0);
        }
    }
}

/// A corridor has the nodes of its ways, less one for every place where two are joined.
pub proof fn law_route_has_all_nodes(ways: Seq<WayView>, legs: Seq<(int, bool)>)
    requires
        have_nodes(ways),
        legs.len() > 0,
        forall|k: int| 0 <= k < legs.len() ==> 0 <= (#[trigger] legs[k]).0 < ways.len(),
    ensures
        route(ways, legs).len() == legs.fold_left(
            0int,
            |sum: int, leg: (int, bool)| sum + ways[leg.0].nodes.len(),
        ) - (legs.len() - 1),
    decreases legs.len(),
{
    reveal_with_fuel(Seq::fold_left, 3);
    assert(ways[legs[legs.len() - 1].0].nodes.len() > 0);
    if legs.len() > 1 {
        let front = legs.drop_last();
        assert forall|k: int| 0 <= k < front.len() implies 0 <= (#[trigger] front[k]).0
            < ways.len() by {
            assert(front[k] == legs[k]);
        }
        law_route_has_all_nodes(ways, front);
    } else {
        assert(legs.drop_last() =~= Seq::<(int, bool)>::empty());
        assert(legs.last() == legs[0]);
    }
}

/// A way runs through a corridor from its first node to its last, or back: turned round,
/// node `i` from the front is node `i` from the back.
pub proof fn law_a_turned_way_runs_backwards(ways: Seq<WayView>, i: int, k: int)
    requires
        0 <= i < ways.len(),
        0 <= k < ways[i].nodes.len(),
    ensures
        oriented(ways, (i, false))[k] == ways[i].nodes[k],
        oriented(ways, (i, true))[k] == ways[i].nodes[ways[i].nodes.len() - 1 - k],
        oriented(ways, (i, true)).len() == ways[i].nodes.len(),
        end_node(ways[i], false) == ways[i].nodes.first(),
        end_node(ways[i], true) == ways[i].nodes.last(),
{
}

proof fn lemma_classified_list(v: Seq<char>)
    ensures
        listed(v, CLASSIFIED@) <==> v == "motorway"@ || v == "trunk"@ || v == "primary"@ || v == "secondary"@ || v == "tertiary"@ || v == "motorway_link"@ || v == "trunk_link"@ || v == "primary_link"@ || v == "secondary_link"@ || v == "tertiary_link"@,
{
    let a = CLASSIFIED@;
    assert(a[0]@ == "motorway"@);
    assert(a[1]@ == "trunk"@);
    assert(a[2]@ == "primary"@);
    assert(a[3]@ == "secondary"@);
    assert(a[4]@ == "tertiary"@);
    assert(a[5]@ == "motorway_link"@);
    assert(a[6]@ == "trunk_link"@);
    assert(a[7]@ == "primary_link"@);
    assert(a[8]@ == "secondary_link"@);
    assert(a[9]@ == "tertiary_link"@);
    if listed(v, a) {
        let i = choose|i: int| 0 <= i < a.len() && (#[trigger] a[i])@ == v;
        assert(i == 0 || i == 1 || i == 2 || i == 3 || i == 4 || i == 5 || i == 6 || i == 7 || i == 8 || i == 9);
    }
}

proof fn lemma_residential_list(v: Seq<char>)
    ensures
        listed(v, RESIDENTIAL@) <==> v == "residential"@ || v == "unclassified"@ || v == "living_street"@,
{
    let a = RESIDENTIAL@;
    assert(a[0]@ == "residential"@);
    assert(a[1]@ == "unclassified"@);
    assert(a[2]@ == "living_street"@);
    if listed(v, a) {
        let i = choose|i: int| 0 <= i < a.len() && (#[trigger] a[i])@ == v;
        assert(i == 0 || i == 1 || i == 2);
    }
}

proof fn lemma_on_foot_list(v: Seq<char>)
    ensures
        listed(v, ON_FOOT@) <==> v == "footway"@ || v == "path"@ || v == "steps"@ || v == "pedestrian"@ || v == "track"@ || v == "bridleway"@ || v == "corridor"@,
{
    let a = ON_FOOT@;
    assert(a[0]@ == "footway"@);
    assert(a[1]@ == "path"@);
    assert(a[2]@ == "steps"@);
    assert(a[3]@ == "pedestrian"@);
    assert(a[4]@ == "track"@);
    assert(a[5]@ == "bridleway"@);
    assert(a[6]@ == "corridor"@);
    if listed(v, a) {
        let i = choose|i: int| 0 <= i < a.len() && (#[trigger] a[i])@ == v;
        assert(i == 0 || i == 1 || i == 2 || i == 3 || i == 4 || i == 5 || i == 6);
    }
}

/// Ten values of `highway` are classified roads, three are residential, `service` is
/// service, seven are on foot, `cycleway` is for bicycles, and every other is none of
/// these.
pub proof fn law_classes_of_roads(hw: Seq<char>)
    ensures
        road_class(hw) == "classified"@ <==> hw == "motorway"@ || hw == "trunk"@ || hw == "primary"@ || hw == "secondary"@ || hw == "tertiary"@ || hw == "motorway_link"@ || hw == "trunk_link"@ || hw == "primary_link"@ || hw == "secondary_link"@ || hw == "tertiary_link"@,
        road_class(hw) == "residential"@ <==> hw == "residential"@ || hw == "unclassified"@ || hw == "living_street"@,
        road_class(hw) == "service"@ <==> hw == "service"@,
        road_class(hw) == "foot"@ <==> hw == "footway"@ || hw == "path"@ || hw == "steps"@ || hw == "pedestrian"@ || hw == "track"@ || hw == "bridleway"@ || hw == "corridor"@,
        road_class(hw) == "cycle"@ <==> hw == "cycleway"@,
{
    lemma_classified_list(hw);
    lemma_residential_list(hw);
    lemma_on_foot_list(hw);
    reveal_strlit("motorway");
    reveal_strlit("trunk");
    reveal_strlit("primary");
    reveal_strlit("secondary");
    reveal_strlit("tertiary");
    reveal_strlit("motorway_link");
    reveal_strlit("trunk_link");
    reveal_strlit("primary_link");
    reveal_strlit("secondary_link");
    reveal_strlit("tertiary_link");
    reveal_strlit("residential");
    reveal_strlit("unclassified");
    reveal_strlit("living_street");
    reveal_strlit("footway");
    reveal_strlit("path");
    reveal_strlit("steps");
    reveal_strlit("pedestrian");
    reveal_strlit("track");
    reveal_strlit("bridleway");
    reveal_strlit("corridor");
    reveal_strlit("service");
    reveal_strlit("cycleway");
    reveal_strlit("classified");
    reveal_strlit("foot");
    reveal_strlit("cycle");
    reveal_strlit("other");
    assert("motorway"@.len() == 8);
    assert("trunk"@.len() == 5);
    assert("primary"@.len() == 7);
    assert("secondary"@.len() == 9);
    assert("tertiary"@.len() == 8);
    assert("motorway_link"@.len() == 13);
    assert("trunk_link"@.len() == 10);
    assert("primary_link"@.len() == 12);
    assert("secondary_link"@.len() == 14);
    assert("tertiary_link"@.len() == 13);
    assert("residential"@.len() == 11);
    assert("unclassified"@.len() == 12);
    assert("living_street"@.len() == 13);
    assert("footway"@.len() == 7);
    assert("path"@.len() == 4);
    assert("steps"@.len() == 5);
    assert("pedestrian"@.len() == 10);
    assert("track"@.len() == 5);
    assert("bridleway"@.len() == 9);
    assert("corridor"@.len() == 8);
    assert("service"@.len() == 7);
    assert("cycleway"@.len() == 8);
    assert("classified"@.len() == 10);
    assert("foot"@.len() == 4);
    assert("cycle"@.len() == 5);
    assert("other"@.len() == 5);
    assert("motorway"@[0] == 'm' && "tertiary"@[0] == 't');
    assert("motorway"@[0] == 'm' && "corridor"@[0] == 'c');
    assert("motorway"@[0] == 'm' && "cycleway"@[0] == 'c');
    assert("trunk"@[0] == 't' && "steps"@[0] == 's');
    assert("trunk"@[2] == 'u' && "track"@[2] == 'a');
    assert("trunk"@[0] == 't' && "cycle"@[0] == 'c');
    assert("trunk"@[0] == 't' && "other"@[0] == 'o');
    assert("primary"@[0] == 'p' && "footway"@[0] == 'f');
    assert("primary"@[0] == 'p' && "service"@[0] == 's');
    assert("secondary"@[0] == 's' && "bridleway"@[0] == 'b');
    assert("tertiary"@[0] == 't' && "corridor"@[0] == 'c');
    assert("tertiary"@[0] == 't' && "cycleway"@[0] == 'c');
    assert("motorway_link"@[0] == 'm' && "tertiary_link"@[0] == 't');
    assert("motorway_link"@[0] == 'm' && "living_street"@[0] == 'l');
    assert("trunk_link"@[0] == 't' && "pedestrian"@[0] == 'p');
    assert("trunk_link"@[0] == 't' && "classified"@[0] == 'c');
    assert("primary_link"@[0] == 'p' && "unclassified"@[0] == 'u');
    assert("tertiary_link"@[0] == 't' && "living_street"@[0] == 'l');
    assert("footway"@[0] == 'f' && "service"@[0] == 's');
    assert("path"@[0] == 'p' && "foot"@[0] == 'f');
    assert("steps"@[0] == 's' && "track"@[0] == 't');
    assert("steps"@[0] == 's' && "cycle"@[0] == 'c');
    assert("steps"@[0] == 's' && "other"@[0] == 'o');
    assert("pedestrian"@[0] == 'p' && "classified"@[0] == 'c');
    assert("track"@[0] == 't' && "cycle"@[0] == 'c');
    assert("track"@[0] == 't' && "other"@[0] == 'o');
    assert("corridor"@[1] == 'o' && "cycleway"@[1] == 'y');
    assert("cycle"@[0] == 'c' && "other"@[0] == 'o');
}

/// The turns that are covered are those that lie in a long run, each once.
pub proof fn law_runs_are_covered(s: Seq<i64>, floor: int, n: int)
    requires
        0 <= n <= s.len(),
    ensures
        run_cover_below(s, floor, n) == Seq::new(n as nat, |i: int| in_run(s, floor, i)).filter(
            |b: bool| b,
        ).len(),
    decreases n,
{
    reveal(Seq::filter);
    if n > 0 {
        law_runs_are_covered(s, floor, n - 1);
        assert(Seq::new(n as nat, |i: int| in_run(s, floor, i)).drop_last() =~= Seq::new(
            (n - 1) as nat,
            |i: int| in_run(s, floor, i),
        ));
    }
}

/// A turn between two others is in a run of two exactly where it equals one of them, and
/// every turn is in a run of one.
pub proof fn law_short_runs(s: Seq<i64>, i: int)
    requires
        0 <= i < s.len(),
    ensures
        in_run(s, 1, i),
        in_run(s, 2, i) <==> i > 0 && s[i - 1] == s[i] || i + 1 < s.len() && s[i + 1] == s[i],
        in_run(s, 3, i) ==> in_run(s, 2, i),
{
    assert(constant(s, i, i + 1));
    if i > 0 && s[i - 1] == s[i] {
        assert(constant(s, i - 1, i + 1));
    }
    if i + 1 < s.len() && s[i + 1] == s[i] {
        assert(constant(s, i, i + 2));
    }
    if in_run(s, 2, i) {
        let (a, b) = choose|a: int, b: int|
            #![trigger constant(s, a, b)]
            0 <= a <= i < b <= s.len() && b - a >= 2 && constant(s, a, b);
        assert(s[i] == s[a]);
        if a < i {
            assert(s[i - 1] == s[a]);
        } else {
            assert(s[i + 1] == s[a]);
        }
    }
    if in_run(s, 3, i) {
        let (a, b) = choose|a: int, b: int|
            #![trigger constant(s, a, b)]
            0 <= a <= i < b <= s.len() && b - a >= 3 && constant(s, a, b);
        assert(b - a >= 2);
    }
}

/// A chain is cut exactly where a cell lies in another tile than the one before it: in
/// another column or in another row, `bits` levels up.
pub proof fn law_cuts_are_where_tiles_change(cells: Seq<TileXy>, bits: u32, n: int, i: int)
    requires
        0 <= n <= cells.len(),
        bits < 32,
    ensures
        crossings(cells, bits, n).contains(i) <==> 0 < i < n && (cells[i].x >> bits != cells[i
            - 1].x >> bits || cells[i].y_xyz >> bits != cells[i - 1].y_xyz >> bits),
        forall|a: int, b: int|
            #![trigger crossings(cells, bits, n)[a], crossings(cells, bits, n)[b]]
            0 <= a < b < crossings(cells, bits, n).len() ==> crossings(cells, bits, n)[a]
                < crossings(cells, bits, n)[b],
        forall|a: int|
            0 <= a < crossings(cells, bits, n).len() ==> 0 < #[trigger] crossings(
                cells,
                bits,
                n,
            )[a] < n,
    decreases n,
{
    if n > 1 {
        law_cuts_are_where_tiles_change(cells, bits, n - 1, i);
        let (a, all) = (crossings(cells, bits, n - 1), crossings(cells, bits, n));
        if all.len() > a.len() {
            assert(all =~= a.push(n - 1));
            assert(all[all.len() - 1] == n - 1);
            if a.contains(i) {
                let x = choose|x: int| 0 <= x < a.len() && a[x] == i;
                assert(all[x] == i);
            }
            if all.contains(i) {
                let x = choose|x: int| 0 <= x < all.len() && all[x] == i;
                if x < a.len() {
                    assert(a[x] == i);
                }
            }
        }
    }
}

/// Neighbouring ways of a corridor meet: where the one ends, as the corridor runs, the next
/// begins; and they are of one class.
pub proof fn law_legs_of_a_corridor_meet(
    ways: Seq<WayView>,
    refs: Map<i64, u32>,
    legs: Seq<(int, bool)>,
    k: int,
)
    requires
        have_nodes(ways),
        is_corridor(ways, refs, legs),
        0 <= k < legs.len() - 1,
    ensures
        oriented(ways, legs[k]).last() == oriented(ways, legs[k + 1]).first(),
        ways[legs[k].0].class == ways[legs[k + 1].0].class,
        legs[k].0 != legs[k + 1].0,
{
    assert(0 <= legs[k].0 < ways.len());
    assert(0 <= legs[k + 1].0 < ways.len());
    assert(ways[legs[k].0].nodes.len() > 0);
    assert(ways[legs[k + 1].0].nodes.len() > 0);
    assert(link(ways, refs, legs[k].0, !legs[k].1) == Some(legs[k + 1].0));
    law_merges_are_of_one_class(ways, refs, legs[k].0, !legs[k].1, 0, true);
}

/// A corridor cannot be made longer: at either end of an open one no way could be merged,
/// and a ring closes on itself.
pub proof fn law_corridors_are_as_long_as_can_be(
    ways: Seq<WayView>,
    refs: Map<i64, u32>,
    open: Seq<Seq<(int, bool)>>,
    rings: Seq<Seq<(int, bool)>>,
    c: int,
)
    requires
        is_plan(ways, refs, open, rings),
    ensures
        0 <= c < open.len() ==> {
            let legs = open[c];
            &&& link(ways, refs, legs.first().0, legs.first().1) is None
            &&& link(ways, refs, legs.last().0, !legs.last().1) is None
        },
        0 <= c < rings.len() ==> {
            let legs = rings[c];
            &&& link(ways, refs, legs.first().0, legs.first().1) == Some(legs.last().0)
            &&& link(ways, refs, legs.last().0, !legs.last().1) == Some(legs.first().0)
        },
{
    if 0 <= c < open.len() {
        assert(is_corridor(ways, refs, open[c]));
    }
    if 0 <= c < rings.len() {
        assert(is_corridor(ways, refs, rings[c]));
    }
}

/// The merges that are declined are counted at one end each.
pub proof fn law_declined_merges_are_counted(ways: Seq<WayView>, refs: Map<i64, u32>, k: int)
    requires
        0 <= k <= ways.len(),
    ensures
        declined(ways, refs, k) == Seq::new(k as nat, |i: int| declines(ways, refs, i, false)).filter(
            |b: bool| b,
        ).len() + Seq::new(k as nat, |i: int| declines(ways, refs, i, true)).filter(
            |b: bool| b,
        ).len(),
    decreases k,
{
    reveal(Seq::filter);
    if k > 0 {
        law_declined_merges_are_counted(ways, refs, k - 1);
        assert(Seq::new(k as nat, |i: int| declines(ways, refs, i, false)).drop_last() =~= Seq::new(
            (k - 1) as nat,
            |i: int| declines(ways, refs, i, false),
        ));
        assert(Seq::new(k as nat, |i: int| declines(ways, refs, i, true)).drop_last() =~= Seq::new(
            (k - 1) as nat,
            |i: int| declines(ways, refs, i, true),
        ));
    }
}

/// A corridor is given with the number of its ways and with its nodes.
pub proof fn law_a_corridor_counts_its_ways(
    out: Seq<(usize, Vec<i64>)>,
    ways: Seq<WayView>,
    plan: Seq<Seq<(int, bool)>>,
    k: int,
)
    requires
        have_nodes(ways),
        holds_plan(out, ways, plan),
        0 <= k < plan.len(),
        plan[k].len() > 0,
        forall|m: int| 0 <= m < plan[k].len() ==> 0 <= (#[trigger] plan[k][m]).0 < ways.len(),
    ensures
        out.len() == plan.len(),
        out[k].0 == plan[k].len(),
        out[k].1@.len() == plan[k].fold_left(
            0int,
            |sum: int, leg: (int, bool)| sum + ways[leg.0].nodes.len(),
        ) - (out[k].0 - 1),
{
    law_route_has_all_nodes(ways, plan[k]);
}

} // verus!
