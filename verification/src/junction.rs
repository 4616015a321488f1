//! The junction as a row of its own: how many edges it has, what they cost, and
//! whether its neighbours and its turn restrictions are near.

use crate::network::{bump, counted, node_lists, references, times};
use crate::read::{MemberKind, RawMember};
use crate::text::same_text;
use std::collections::{HashMap, HashSet};
use vstd::prelude::*;
use vstd::std_specs::hash::*;
use vstd::std_specs::iter::IteratorSpec;

verus! {

broadcast use group_hash_axioms;

/// The smallest offset of a signed nibble.
pub const I4_MIN: i64 = -8;

/// The largest offset of a signed nibble.
pub const I4_MAX: i64 = 7;

/// Bytes in a facet: a class and twelve bytes of payload.
pub const FACET_B: u64 = 16;

/// Bytes of one heading.
pub const SIGNED360_B: u64 = 6;

/// Facets that a junction needs: two headings fit one facet, and a junction has
/// at least one.
pub open spec fn facets_needed(deg: nat) -> nat {
    if deg <= 1 {
        1
    } else {
        (deg + 1) / 2
    }
}

/// Facets that a junction of this degree needs.
pub fn facets_for(deg: u32) -> (n: u64)
    ensures
        n == facets_needed(deg as nat),
{
    let d: u64 = if deg < 1 {
        1
    } else {
        deg as u64
    };
    (d + 1) / 2
}

/// A facet carries the headings of two edges exactly, and no more.
pub proof fn law_one_facet_carries_two_headings(deg: nat)
    ensures
        2 * SIGNED360_B == FACET_B - 4,
        facets_needed(deg) == 1 <==> deg <= 2,
        2 * facets_needed(deg) >= deg,
{
}

/// Facets of all junctions of a list.
pub open spec fn facets_of(list: Seq<i64>, degree: Map<i64, u32>) -> nat
    decreases list.len(),
{
    if list.len() == 0 {
        0
    } else {
        facets_of(list.drop_last(), degree) + facets_needed(counted(degree, list.last()))
    }
}

/// Whether a list holds the elements of a set, each once.
pub open spec fn lists_set(list: Seq<i64>, s: Set<i64>) -> bool {
    list.no_duplicates() && list.to_set() == s
}

/// A list of references, each once, lists what they refer to.
proof fn lemma_listed(refs: Seq<&i64>, list: Seq<i64>, s: Set<i64>)
    requires
        refs.no_duplicates(),
        refs.unref().to_set() == s,
    ensures
        list == refs.unref() ==> lists_set(list, s),
{
    if list == refs.unref() {
        assert forall|a: int, b: int|
            0 <= a < list.len() && 0 <= b < list.len() && a != b implies list[a] != list[b] by {
            assert(refs[a] != refs[b]);
        }
    }
}

/// Facets of all junctions. A junction without a recorded degree still costs
/// one.
pub fn facet_total(junctions: &HashSet<i64>, degree: &HashMap<i64, u32>) -> (n: u64)
    requires
        junctions@.len() <= 0x1_ffff_ffff,
    ensures
        exists|list: Seq<i64>| #[trigger]
            lists_set(list, junctions@) && n == facets_of(list, degree@),
{
    let mut n: u64 = 0;
    let ghost mut done: Seq<i64> = Seq::empty();
    proof {
        axiom_spec_hash_keys_iter(junctions);
    }
    assert(junctions@.len() == 0 ==> junctions.iter().remaining().unref() =~= Seq::<i64>::empty());
    for j in it: junctions.iter()
        invariant
            it.seq().no_duplicates(),
            it.seq().unref().to_set() == junctions@,
            it.seq().len() <= 0x1_ffff_ffff,
            done == it.seq().unref().take(it.index()),
            it.index() == it.seq().len() ==> lists_set(done, junctions@),
            n == facets_of(done, degree@),
            n <= 0x8000_0000 * it.index(),
    {
        let d: u32 = match degree.get(j) {
            Some(d) => *d,
            None => 0,
        };
        let ghost before = done;
        proof {
            done = done.push(*j);
        }
        assert(done.drop_last() =~= before);
        assert(done =~= it.seq().unref().take(it.index() + 1));
        assert(it.index() + 1 == it.seq().len() ==> done =~= it.seq().unref());
        proof {
            lemma_listed(it.seq(), done, junctions@);
        }
        n = n + facets_for(d);
    }
    n
}

/// Facets do not depend on the order in which junctions are listed: what a set
/// of junctions costs is one number.
pub proof fn law_facets_are_order_free(a: Seq<i64>, b: Seq<i64>, s: Set<i64>, degree: Map<i64, u32>)
    requires
        lists_set(a, s),
        lists_set(b, s),
    ensures
        facets_of(a, degree) == facets_of(b, degree),
    decreases a.len(),
{
    a.unique_seq_to_set();
    b.unique_seq_to_set();
    if a.len() > 0 {
        let x = a.last();
        let front = a.drop_last();
        assert(a.to_set().contains(a[a.len() - 1]));
        assert(b.to_set().contains(x));
        let i = choose|i: int| 0 <= i < b.len() && b[i] == x;
        lemma_facets_without(b, i, degree);
        let rest = b.remove(i);
        let t = s.remove(x);
        assert(front.to_set() =~= t) by {
            assert forall|y: i64| front.to_set().contains(y) <==> t.contains(y) by {
                if front.contains(y) {
                    let j = choose|j: int| 0 <= j < front.len() && front[j] == y;
                    assert(a[j] == y);
                    assert(a.to_set().contains(y));
                }
                if t.contains(y) {
                    assert(a.to_set().contains(y));
                    let j = choose|j: int| 0 <= j < a.len() && a[j] == y;
                    assert(front[j] == y);
                }
            }
        }
        assert(rest.to_set() =~= t) by {
            assert forall|y: i64| rest.to_set().contains(y) <==> t.contains(y) by {
                if rest.contains(y) {
                    let j = choose|j: int| 0 <= j < rest.len() && rest[j] == y;
                    let m = if j < i {
                        j
                    } else {
                        j + 1
                    };
                    assert(b[m] == y && m != i);
                    assert(b.to_set().contains(y));
                }
                if t.contains(y) {
                    assert(b.to_set().contains(y));
                    let j = choose|j: int| 0 <= j < b.len() && b[j] == y;
                    let m = if j < i {
                        j
                    } else {
                        j - 1
                    };
                    assert(rest[m] == y);
                }
            }
        }
        assert(rest.no_duplicates());
        law_facets_are_order_free(front, rest, t, degree);
    }
}

/// Taking a junction out of a list takes its facets out of the sum.
proof fn lemma_facets_without(b: Seq<i64>, i: int, degree: Map<i64, u32>)
    requires
        0 <= i < b.len(),
    ensures
        facets_of(b, degree) == facets_of(b.remove(i), degree) + facets_needed(
            counted(degree, b[i]),
        ),
    decreases b.len(),
{
    let front = b.drop_last();
    if i == b.len() - 1 {
        assert(b.remove(i) =~= front);
    } else {
        lemma_facets_without(front, i, degree);
        assert(b.remove(i).drop_last() =~= front.remove(i));
        assert(b.remove(i).last() == b.last());
    }
}

// ── Branch degree ───────────────────────────────────────────────────
/// How many segments of a way end at its node `i`: one at either end, two in
/// between. The last node of a ring is its first, and counts there.
pub open spec fn ends_at(nodes: Seq<i64>, i: int) -> nat {
    let last = nodes.len() - 1;
    let ring = nodes[0] == nodes[last];
    if ring && i == last {
        0
    } else if !ring && (i == 0 || i == last) {
        1
    } else {
        2
    }
}

/// How many segments end at a node, over the first `k` nodes of a way.
pub open spec fn ends_in(nodes: Seq<i64>, n: i64, k: int) -> nat
    decreases k,
{
    if k <= 0 {
        0
    } else {
        ends_in(nodes, n, k - 1) + if nodes[k - 1] == n {
            ends_at(nodes, k - 1)
        } else {
            0
        }
    }
}

/// How many segments of the first `k` ways end at a node.
pub open spec fn branches(ways: Seq<Seq<i64>>, n: i64, k: int) -> nat
    decreases k,
{
    if k <= 0 {
        0
    } else {
        branches(ways, n, k - 1) + ends_in(ways[k - 1], n, ways[k - 1].len() as int)
    }
}

proof fn lemma_branches_grow(ways: Seq<Seq<i64>>, n: i64, k: int, i: int)
    requires
        0 <= k < ways.len(),
        0 <= i <= ways[k].len(),
    ensures
        branches(ways, n, k) + ends_in(ways[k], n, i) <= branches(ways, n, ways.len() as int),
    decreases ways.len() - k, ways[k].len() - i,
{
    if i < ways[k].len() {
        lemma_branches_grow(ways, n, k, i + 1);
    } else if k + 1 < ways.len() {
        lemma_branches_grow(ways, n, k + 1, 0);
    }
}

/// The degree of every node: how many segments end there.
pub fn branch_degrees(ways: &[Vec<i64>]) -> (m: HashMap<i64, u32>)
    requires
        forall|k: int| 0 <= k < ways@.len() ==> (#[trigger] ways@[k])@.len() >= 2,
        forall|n: i64| #[trigger] branches(node_lists(ways@), n, ways@.len() as int) <= u32::MAX,
    ensures
        forall|n: i64| #[trigger]
            counted(m@, n) == branches(node_lists(ways@), n, ways@.len() as int),
{
    let ghost lists = node_lists(ways@);
    let mut m: HashMap<i64, u32> = HashMap::new();
    let mut k: usize = 0;
    while k < ways.len()
        invariant
            k <= ways@.len(),
            lists == node_lists(ways@),
            forall|j: int| 0 <= j < ways@.len() ==> (#[trigger] ways@[j])@.len() >= 2,
            forall|n: i64| #[trigger] branches(lists, n, ways@.len() as int) <= u32::MAX,
            forall|n: i64| #[trigger] counted(m@, n) == branches(lists, n, k as int),
        decreases ways@.len() - k,
    {
        let nodes: &Vec<i64> = &ways[k];
        assert(lists[k as int] == nodes@);
        assert(ways@[k as int]@.len() >= 2);
        let last: usize = nodes.len() - 1;
        let ring: bool = nodes[0] == nodes[last];
        let mut i: usize = 0;
        while i < nodes.len()
            invariant
                i <= nodes@.len(),
                nodes@.len() >= 2,
                last == nodes@.len() - 1,
                ring == (nodes@[0] == nodes@[last as int]),
                k < ways@.len(),
                lists == node_lists(ways@),
                lists[k as int] == nodes@,
                forall|n: i64| #[trigger] branches(lists, n, ways@.len() as int) <= u32::MAX,
                forall|n: i64| #[trigger]
                    counted(m@, n) == branches(lists, n, k as int) + ends_in(nodes@, n, i as int),
            decreases nodes@.len() - i,
        {
            let n: i64 = nodes[i];
            let ends: u32 = if ring && i == last {
                0
            } else if !ring && (i == 0 || i == last) {
                1
            } else {
                2
            };
            let ghost before = m@;
            proof {
                assert(ends == ends_at(nodes@, i as int));
                lemma_branches_grow(lists, n, k as int, i + 1);
                assert(branches(lists, n, ways@.len() as int) <= u32::MAX);
                assert(counted(m@, n) == branches(lists, n, k as int) + ends_in(
                    nodes@,
                    n,
                    i as int,
                ));
            }
            bump(&mut m, n, ends);
            assert forall|q: i64| #[trigger] counted(m@, q) == branches(lists, q, k as int)
                + ends_in(nodes@, q, i + 1) by {
                assert(q != n ==> counted(m@, q) == counted(before, q));
            }
            i = i + 1;
        }
        k = k + 1;
    }
    m
}

/// The segments of a way have two ends each, and no other: over its distinct
/// nodes the degrees add up to twice its segments.
pub proof fn law_segments_have_two_ends(nodes: Seq<i64>)
    requires
        nodes.len() >= 2,
    ensures
        all_ends(nodes, nodes.len() as int) == 2 * (nodes.len() - 1),
{
    lemma_all_ends(nodes, nodes.len() - 1);
}

/// The ends at the first `k` nodes of a way.
pub open spec fn all_ends(nodes: Seq<i64>, k: int) -> nat
    decreases k,
{
    if k <= 0 {
        0
    } else {
        all_ends(nodes, k - 1) + ends_at(nodes, k - 1)
    }
}

proof fn lemma_all_ends(nodes: Seq<i64>, k: int)
    requires
        nodes.len() >= 2,
        0 <= k < nodes.len(),
    ensures
        all_ends(nodes, k) == if k == 0 {
            0
        } else if nodes[0] == nodes[nodes.len() - 1] {
            2 * k
        } else {
            2 * k - 1
        },
    decreases k,
{
    if k > 0 {
        lemma_all_ends(nodes, k - 1);
    }
}

// ── Neighbours as offsets ───────────────────────────────────────────
/// The offsets, in ranks along the curve, from each junction of a way to the
/// next, over the first `k` nodes; a pair with a junction that has no rank is
/// left out. With them the last junction that was passed.
pub open spec fn steps(
    nodes: Seq<i64>,
    junctions: Set<i64>,
    rank: Map<i64, i64>,
    k: int,
) -> (Seq<int>, Option<i64>)
    decreases k,
{
    if k <= 0 {
        (Seq::empty(), None)
    } else {
        let (offsets, prev) = steps(nodes, junctions, rank, k - 1);
        let n = nodes[k - 1];
        if !junctions.contains(n) {
            (offsets, prev)
        } else {
            match prev {
                Some(p) => if rank.contains_key(p) && rank.contains_key(n) {
                    (offsets.push(rank[n] - rank[p]), Some(n))
                } else {
                    (offsets, Some(n))
                },
                None => (offsets, Some(n)),
            }
        }
    }
}

/// The offsets of the first `k` ways, one after the other.
pub open spec fn offsets(
    ways: Seq<Seq<i64>>,
    junctions: Set<i64>,
    rank: Map<i64, i64>,
    k: int,
) -> Seq<int>
    decreases k,
{
    if k <= 0 {
        Seq::empty()
    } else {
        offsets(ways, junctions, rank, k - 1) + steps(
            ways[k - 1],
            junctions,
            rank,
            ways[k - 1].len() as int,
        ).0
    }
}

/// How many offsets lie in a window.
pub open spec fn in_window(s: Seq<int>, lo: int, hi: int) -> nat
    decreases s.len(),
{
    if s.len() == 0 {
        0
    } else {
        in_window(s.drop_last(), lo, hi) + if lo <= s.last() <= hi {
            1nat
        } else {
            0
        }
    }
}

/// The lengths of offsets, added up.
pub open spec fn distance(s: Seq<int>) -> nat
    decreases s.len(),
{
    if s.len() == 0 {
        0
    } else {
        distance(s.drop_last()) + if s.last() < 0 {
            (-s.last()) as nat
        } else {
            s.last() as nat
        }
    }
}

/// How near the neighbours of junctions are.
#[derive(Debug, Clone, Copy, PartialEq, Eq, Structural)]
pub struct Locality {
    /// Pairs of junctions that follow each other on a way.
    pub edges: u64,
    /// Those whose offset fits a signed nibble.
    pub within_i4: u64,
    /// Those whose offset fits a signed byte.
    pub within_i8: u64,
    /// The lengths of all offsets, added up.
    pub sum_abs: u128,
}

/// Whether a locality is that of these offsets.
pub open spec fn is_locality(l: Locality, s: Seq<int>) -> bool {
    &&& l.edges == s.len()
    &&& l.within_i4 == in_window(s, -8, 7)
    &&& l.within_i8 == in_window(s, -128, 127)
    &&& l.sum_abs == distance(s)
}

impl Locality {
    /// The locality with one offset more.
    fn step(self, d: i128, Ghost(s): Ghost<Seq<int>>) -> (l: Self)
        requires
            is_locality(self, s),
            -0xffff_ffff_ffff_ffff <= d <= 0xffff_ffff_ffff_ffff,
            s.len() < u64::MAX,
            distance(s) <= s.len() * 0xffff_ffff_ffff_ffff,
        ensures
            is_locality(l, s.push(d as int)),
            distance(s.push(d as int)) <= (s.len() + 1) * 0xffff_ffff_ffff_ffff,
    {
        let ghost t = s.push(d as int);
        assert(t.drop_last() =~= s);
        proof {
            lemma_window_at_most(s, -8, 7);
            lemma_window_at_most(s, -128, 127);
            assert(s.len() * 0xffff_ffff_ffff_ffff + 0xffff_ffff_ffff_ffff <= u128::MAX)
                by (nonlinear_arith)
                requires
                    s.len() < u64::MAX,
            ;
        }
        let abs: u128 = if d < 0 {
            (-d) as u128
        } else {
            d as u128
        };
        Locality {
            edges: self.edges + 1,
            within_i4: self.within_i4 + if I4_MIN as i128 <= d && d <= I4_MAX as i128 {
                1
            } else {
                0
            },
            within_i8: self.within_i8 + if -128 <= d && d <= 127 {
                1
            } else {
                0
            },
            sum_abs: self.sum_abs + abs,
        }
    }
}

proof fn lemma_window_at_most(s: Seq<int>, lo: int, hi: int)
    ensures
        in_window(s, lo, hi) <= s.len(),
    decreases s.len(),
{
    if s.len() > 0 {
        lemma_window_at_most(s.drop_last(), lo, hi);
    }
}

/// The nodes of the first `k` ways.
pub open spec fn vertices(ways: Seq<Seq<i64>>, k: int) -> nat
    decreases k,
{
    if k <= 0 {
        0
    } else {
        vertices(ways, k - 1) + ways[k - 1].len()
    }
}

proof fn lemma_vertices_grow(ways: Seq<Seq<i64>>, k: int)
    requires
        0 <= k <= ways.len(),
    ensures
        vertices(ways, k) <= vertices(ways, ways.len() as int),
    decreases ways.len() - k,
{
    if k < ways.len() {
        lemma_vertices_grow(ways, k + 1);
    }
}

/// Measures how near the neighbours of junctions are, in ranks.
pub fn locality(
    ways: &[Vec<i64>],
    junctions: &HashSet<i64>,
    rank: &HashMap<i64, i64>,
) -> (l: Locality)
    requires
        vertices(node_lists(ways@), ways@.len() as int) <= u64::MAX,
    ensures
        is_locality(l, offsets(node_lists(ways@), junctions@, rank@, ways@.len() as int)),
{
    let ghost lists = node_lists(ways@);
    let mut l: Locality = Locality { edges: 0, within_i4: 0, within_i8: 0, sum_abs: 0 };
    let ghost mut all: Seq<int> = Seq::empty();
    let mut k: usize = 0;
    while k < ways.len()
        invariant
            k <= ways@.len(),
            lists == node_lists(ways@),
            vertices(lists, ways@.len() as int) <= u64::MAX,
            all == offsets(lists, junctions@, rank@, k as int),
            is_locality(l, all),
            all.len() <= vertices(lists, k as int),
            distance(all) <= all.len() * 0xffff_ffff_ffff_ffff,
        decreases ways@.len() - k,
    {
        let nodes: &Vec<i64> = &ways[k];
        let ghost before = all;
        assert(lists[k as int] == nodes@);
        let mut prev: Option<i64> = None;
        let mut i: usize = 0;
        assert(all =~= before + steps(nodes@, junctions@, rank@, 0).0);
        while i < nodes.len()
            invariant
                i <= nodes@.len(),
                k < ways@.len(),
                lists == node_lists(ways@),
                lists[k as int] == nodes@,
                vertices(lists, ways@.len() as int) <= u64::MAX,
                all == before + steps(nodes@, junctions@, rank@, i as int).0,
                prev == steps(nodes@, junctions@, rank@, i as int).1,
                is_locality(l, all),
                before.len() <= vertices(lists, k as int),
                steps(nodes@, junctions@, rank@, i as int).0.len() <= i,
                distance(all) <= all.len() * 0xffff_ffff_ffff_ffff,
            decreases nodes@.len() - i,
        {
            let n: i64 = nodes[i];
            let ghost so_far = steps(nodes@, junctions@, rank@, i as int).0;
            if junctions.contains(&n) {
                if let Some(p) = prev {
                    if let (Some(a), Some(b)) = (rank.get(&p), rank.get(&n)) {
                        let d: i128 = *b as i128 - *a as i128;
                        proof {
                            lemma_vertices_grow(lists, k + 1);
                        }
                        l = l.step(d, Ghost(all));
                        proof {
                            all = all.push(d as int);
                            assert(all =~= before + so_far.push(d as int));
                        }
                    }
                }
                prev = Some(n);
            }
            i = i + 1;
        }
        k = k + 1;
    }
    l
}

// ── The population ──────────────────────────────────────────────────
/// Elements in a list of references, up to a place, are those of the list.
proof fn lemma_seen(refs: Seq<&i64>, i: int)
    requires
        refs.no_duplicates(),
        0 <= i < refs.len(),
    ensures
        refs.unref().take(i + 1).to_set() == refs.unref().take(i).to_set().insert(*refs[i]),
        !refs.unref().take(i).to_set().contains(*refs[i]),
{
    let all = refs.unref();
    let (a, b) = (all.take(i), all.take(i + 1));
    assert forall|x: i64| b.to_set().contains(x) <==> a.to_set().insert(*refs[i]).contains(x) by {
        if b.contains(x) {
            let k = choose|k: int| 0 <= k < b.len() && b[k] == x;
            if k < i {
                assert(a[k] == x);
            }
        }
        if a.contains(x) {
            let k = choose|k: int| 0 <= k < a.len() && a[k] == x;
            assert(b[k] == x);
        }
        assert(b[i] == *refs[i]);
    }
    assert(b.to_set() =~= a.to_set().insert(*refs[i]));
    if a.contains(*refs[i]) {
        let k = choose|k: int| 0 <= k < a.len() && a[k] == *refs[i];
        assert(refs[k] != refs[i]);
    }
}

/// Whether a node is referred to twice or more.
pub open spec fn is_shared(refs: Map<i64, u32>, n: i64) -> bool {
    refs.contains_key(n) && refs[n] >= 2
}

/// Whether three segments or more end at a node.
pub open spec fn is_fork(degree: Map<i64, u32>, n: i64) -> bool {
    counted(degree, n) >= 3
}

/// The nodes that are referred to twice or more: the junctions.
pub fn junction_nodes(refs: &HashMap<i64, u32>) -> (s: HashSet<i64>)
    ensures
        forall|n: i64| #[trigger] s@.contains(n) <==> refs@.contains_key(n) && refs@[n] >= 2,
        forall|n: i64| #[trigger] s@.contains(n) <==> is_shared(refs@, n),
{
    let mut s: HashSet<i64> = HashSet::new();
    let ghost mut seen: Set<i64> = Set::empty();
    proof {
        axiom_spec_keys_iter(refs);
    }
    assert(refs.keys().remaining().unref().take(0).to_set() =~= seen);
    assert(refs.keys().remaining().len() == 0 ==> refs.keys().remaining().unref() =~= Seq::<
        i64,
    >::empty());
    for n in it: refs.keys()
        invariant
            it.seq().no_duplicates(),
            it.seq().unref().to_set() == refs@.dom(),
            seen == it.seq().unref().take(it.index()).to_set(),
            it.index() == it.seq().len() ==> seen == refs@.dom(),
            forall|x: i64| #[trigger] s@.contains(x) <==> seen.contains(x) && refs@[x] >= 2,
    {
        proof {
            lemma_seen(it.seq(), it.index());
            seen = seen.insert(*n);
            assert(it.seq().unref()[it.index()] == *n);
            assert(it.seq().unref().to_set().contains(*n));
            assert(it.index() + 1 == it.seq().len() ==> it.seq().unref().take(it.index() + 1)
                =~= it.seq().unref());
        }
        let c: u32 = match refs.get(n) {
            Some(c) => *c,
            None => 0,
        };
        if c >= 2 {
            s.insert(*n);
        }
    }
    s
}

/// The junctions at which three segments or more end. At the others a way is only
/// split.
pub fn fork_nodes(junctions: &HashSet<i64>, degree: &HashMap<i64, u32>) -> (s: HashSet<i64>)
    ensures
        forall|n: i64| #[trigger]
            s@.contains(n) <==> junctions@.contains(n) && counted(degree@, n) >= 3,
        forall|n: i64| #[trigger]
            s@.contains(n) <==> junctions@.contains(n) && is_fork(degree@, n),
{
    let mut s: HashSet<i64> = HashSet::new();
    let ghost mut seen: Set<i64> = Set::empty();
    proof {
        axiom_spec_hash_keys_iter(junctions);
    }
    assert(junctions.iter().remaining().unref().take(0).to_set() =~= seen);
    assert(junctions.iter().remaining().len() == 0 ==> junctions.iter().remaining().unref()
        =~= Seq::<i64>::empty());
    for n in it: junctions.iter()
        invariant
            it.seq().no_duplicates(),
            it.seq().unref().to_set() == junctions@,
            seen == it.seq().unref().take(it.index()).to_set(),
            it.index() == it.seq().len() ==> seen == junctions@,
            forall|x: i64| #[trigger]
                s@.contains(x) <==> seen.contains(x) && counted(degree@, x) >= 3,
    {
        proof {
            lemma_seen(it.seq(), it.index());
            seen = seen.insert(*n);
            assert(it.index() + 1 == it.seq().len() ==> it.seq().unref().take(it.index() + 1)
                =~= it.seq().unref());
        }
        let d: u32 = match degree.get(n) {
            Some(d) => *d,
            None => 0,
        };
        if d >= 3 {
            s.insert(*n);
        }
    }
    s
}

/// Degrees from here on are counted together.
pub const MANY_BRANCHES: u32 = 9;

/// The junctions whose degree is `d`, or where `d` is [`MANY_BRANCHES`] at least that.
pub open spec fn of_degree(junctions: Set<i64>, degree: Map<i64, u32>, d: int) -> Set<i64> {
    junctions.filter(
        |n: i64|
            counted(degree, n) == d || d == MANY_BRANCHES && counted(degree, n) >= MANY_BRANCHES,
    )
}

/// Counts junctions by their degree.
pub fn degree_histogram(junctions: &HashSet<i64>, degree: &HashMap<i64, u32>) -> (h: [u64; 10])
    ensures
        forall|d: int|
            0 <= d < 10 ==> #[trigger] h@[d] == of_degree(junctions@, degree@, d).len(),
{
    let mut h: [u64; 10] = [0; 10];
    let total: usize = junctions.len();
    let ghost mut seen: Set<i64> = Set::empty();
    proof {
        axiom_spec_hash_keys_iter(junctions);
        assert forall|d: int| 0 <= d < 10 implies #[trigger] h@[d] == of_degree(
            seen,
            degree@,
            d,
        ).len() by {
            assert(of_degree(seen, degree@, d) =~= Set::<i64>::empty());
        }
    }
    assert(junctions.iter().remaining().unref().take(0).to_set() =~= seen);
    assert(junctions.iter().remaining().len() == 0 ==> junctions.iter().remaining().unref()
        =~= Seq::<i64>::empty());
    for n in it: junctions.iter()
        invariant
            it.seq().no_duplicates(),
            it.seq().unref().to_set() == junctions@,
            it.seq().len() == total,
            seen == it.seq().unref().take(it.index()).to_set(),
            it.index() == it.seq().len() ==> seen == junctions@,
            forall|d: int|
                0 <= d < 10 ==> #[trigger] h@[d] == of_degree(seen, degree@, d).len() && h@[d]
                    <= it.index(),
    {
        let ghost before = seen;
        proof {
            lemma_seen(it.seq(), it.index());
            seen = seen.insert(*n);
            assert(it.index() + 1 == it.seq().len() ==> it.seq().unref().take(it.index() + 1)
                =~= it.seq().unref());
        }
        let d: u32 = match degree.get(n) {
            Some(d) => *d,
            None => 0,
        };
        let at: usize = if d < MANY_BRANCHES {
            d as usize
        } else {
            MANY_BRANCHES as usize
        };
        proof {
            assert forall|e: int| 0 <= e < 10 implies of_degree(seen, degree@, e).len()
                == #[trigger] of_degree(before, degree@, e).len() + if e == at {
                1nat
            } else {
                0
            } by {
                let was = of_degree(before, degree@, e);
                if e == at {
                    assert(of_degree(seen, degree@, e) =~= was.insert(*n));
                } else {
                    assert(of_degree(seen, degree@, e) =~= was);
                }
            }
        }
        h[at] = h[at] + 1;
    }
    h
}

/// How many nodes of the first `k` ways are in a set.
pub open spec fn vertices_in(ways: Seq<Seq<i64>>, s: Set<i64>, k: int) -> nat
    decreases k,
{
    if k <= 0 {
        0
    } else {
        vertices_in(ways, s, k - 1) + ways[k - 1].filter(|n: i64| s.contains(n)).len()
    }
}

/// Counts the nodes of ways that are junctions, as often as ways pass them.
pub fn junction_vertices(ways: &[Vec<i64>], junctions: &HashSet<i64>) -> (n: u64)
    requires
        vertices(node_lists(ways@), ways@.len() as int) <= u64::MAX,
    ensures
        n == vertices_in(node_lists(ways@), junctions@, ways@.len() as int),
        n <= vertices(node_lists(ways@), ways@.len() as int),
{
    let ghost lists = node_lists(ways@);
    let mut n: u64 = 0;
    let mut k: usize = 0;
    while k < ways.len()
        invariant
            k <= ways@.len(),
            lists == node_lists(ways@),
            vertices(lists, ways@.len() as int) <= u64::MAX,
            n == vertices_in(lists, junctions@, k as int),
            n <= vertices(lists, k as int),
        decreases ways@.len() - k,
    {
        let nodes: &Vec<i64> = &ways[k];
        let ghost p = |x: i64| junctions@.contains(x);
        let ghost before = n;
        proof {
            assert(lists[k as int] == nodes@);
            lemma_vertices_grow(lists, k + 1);
            assert(nodes@.take(0).filter(p) =~= Seq::<i64>::empty()) by {
                reveal(Seq::filter);
            }
        }
        let mut i: usize = 0;
        while i < nodes.len()
            invariant
                i <= nodes@.len(),
                p == (|x: i64| junctions@.contains(x)),
                before + nodes@.len() <= u64::MAX,
                n == before + nodes@.take(i as int).filter(p).len(),
                n <= before + i,
            decreases nodes@.len() - i,
        {
            proof {
                reveal(Seq::filter);
                assert(nodes@.take(i + 1).drop_last() =~= nodes@.take(i as int));
                assert(nodes@.take(i + 1).last() == nodes@[i as int]);
            }
            if junctions.contains(&nodes[i]) {
                n = n + 1;
            }
            i = i + 1;
        }
        assert(nodes@.take(nodes@.len() as int) =~= nodes@);
        k = k + 1;
    }
    n
}

/// What neighbours cost as offsets: a nibble or a byte each, and eight bytes more
/// for each that does not fit; or eight bytes each.
#[derive(Debug, Clone, Copy, PartialEq, Eq, Structural)]
pub struct Adjacency {
    pub nibbles: u128,
    pub bytes: u128,
    pub ids: u128,
}

/// Prices neighbours as offsets.
pub fn adjacency(l: &Locality) -> (a: Adjacency)
    requires
        l.within_i4 <= l.edges,
        l.within_i8 <= l.edges,
    ensures
        a.nibbles == (l.edges + 1) / 2 + 8 * (l.edges - l.within_i4),
        a.bytes == l.edges + 8 * (l.edges - l.within_i8),
        a.ids == 8 * l.edges,
{
    let edges: u128 = l.edges as u128;
    Adjacency {
        nibbles: (edges + 1) / 2 + 8 * (edges - l.within_i4 as u128),
        bytes: edges + 8 * (edges - l.within_i8 as u128),
        ids: 8 * edges,
    }
}

/// A locality can be priced: no window holds more offsets than there are.
pub proof fn law_windows_hold_at_most_all(l: Locality, s: Seq<int>)
    requires
        is_locality(l, s),
    ensures
        l.within_i4 <= l.within_i8 <= l.edges,
    decreases s.len(),
{
    lemma_window_at_most(s, -128, 127);
    lemma_windows_nest(s);
}

proof fn lemma_windows_nest(s: Seq<int>)
    ensures
        in_window(s, -8, 7) <= in_window(s, -128, 127),
    decreases s.len(),
{
    if s.len() > 0 {
        lemma_windows_nest(s.drop_last());
    }
}

// ── Turn restrictions ───────────────────────────────────────────────
/// The last member of a kind and a role.
pub open spec fn last_member(members: Seq<RawMember>, kind: MemberKind, role: Seq<char>) -> Option<i64>
    decreases members.len(),
{
    if members.len() == 0 {
        None
    } else {
        let m = members.last();
        if m.kind == kind && m.role is Some && m.role->0@ == role {
            Some(m.id)
        } else {
            last_member(members.drop_last(), kind, role)
        }
    }
}

/// A turn: over which node, from which way, to which way.
#[derive(Debug, Clone, Copy, PartialEq, Eq, Structural)]
pub struct Turn {
    pub via: i64,
    pub from: i64,
    pub to: i64,
}

/// The turn that a restriction is about; none where it has no node to turn at,
/// or no way to turn from or to.
pub open spec fn turn_in(members: Seq<RawMember>) -> Option<Turn> {
    match (
        last_member(members, MemberKind::Node, "via"@),
        last_member(members, MemberKind::Way, "from"@),
        last_member(members, MemberKind::Way, "to"@),
    ) {
        (Some(via), Some(from), Some(to)) => Some(Turn { via, from, to }),
        _ => None,
    }
}

/// The turn that a restriction is about.
pub fn turn_of(members: &[RawMember]) -> (t: Option<Turn>)
    ensures
        t == turn_in(members@),
{
    let mut at: Option<i64> = None;
    let mut from: Option<i64> = None;
    let mut to: Option<i64> = None;
    let mut i: usize = 0;
    assert(members@.take(0) =~= Seq::<RawMember>::empty());
    while i < members.len()
        invariant
            i <= members@.len(),
            at == last_member(members@.take(i as int), MemberKind::Node, "via"@),
            from == last_member(members@.take(i as int), MemberKind::Way, "from"@),
            to == last_member(members@.take(i as int), MemberKind::Way, "to"@),
        decreases members@.len() - i,
    {
        let m: RawMember = members[i];
        proof {
            assert(members@.take(i + 1).drop_last() =~= members@.take(i as int));
            assert(members@.take(i + 1).last() == m);
            reveal_strlit("via");
            reveal_strlit("from");
            reveal_strlit("to");
            assert("via"@.len() == 3 && "from"@.len() == 4 && "to"@.len() == 2);
        }
        if let Some(role) = m.role {
            let is_via: bool = same_text(role, "via");
            let is_from: bool = same_text(role, "from");
            let is_to: bool = same_text(role, "to");
            if is_via && m.kind == MemberKind::Node {
                at = Some(m.id);
            } else if is_from && m.kind == MemberKind::Way {
                from = Some(m.id);
            } else if is_to && m.kind == MemberKind::Way {
                to = Some(m.id);
            }
        }
        i = i + 1;
    }
    assert(members@.take(members@.len() as int) =~= members@);
    match (at, from, to) {
        (Some(via), Some(from), Some(to)) => Some(Turn { via, from, to }),
        _ => None,
    }
}

/// Whether a turn can be told by the edges of its junction alone.
#[derive(Debug, Clone, Copy, PartialEq, Eq, Structural)]
pub enum TurnFit {
    /// Both ways meet at the junction: two edge slots say it.
    Local,
    /// The turn is not at a junction.
    NotAJunction,
    /// A way does not meet the junction: the turn needs ids.
    NotIncident,
}

/// Whether a way has a node.
pub open spec fn passes(ids: Seq<i64>, ways: Seq<Seq<i64>>, way: i64, node: i64) -> bool {
    exists|k: int| 0 <= k < ids.len() && #[trigger] ids[k] == way && ways[k].contains(node)
}

/// How a turn can be told.
pub open spec fn fit_of(
    t: Turn,
    junctions: Set<i64>,
    ids: Seq<i64>,
    ways: Seq<Seq<i64>>,
) -> TurnFit {
    if !junctions.contains(t.via) {
        TurnFit::NotAJunction
    } else if passes(ids, ways, t.from, t.via) && passes(ids, ways, t.to, t.via) {
        TurnFit::Local
    } else {
        TurnFit::NotIncident
    }
}

/// Whether a way has a node.
fn way_passes(ids: &[i64], ways: &[Vec<i64>], way: i64, node: i64) -> (r: bool)
    requires
        ids@.len() == ways@.len(),
    ensures
        r == passes(ids@, node_lists(ways@), way, node),
{
    let ghost lists = node_lists(ways@);
    let mut k: usize = 0;
    while k < ids.len()
        invariant
            k <= ids@.len(),
            ids@.len() == ways@.len(),
            lists == node_lists(ways@),
            forall|j: int| 0 <= j < k && #[trigger] ids@[j] == way ==> !lists[j].contains(node),
        decreases ids@.len() - k,
    {
        if ids[k] == way {
            let nodes: &Vec<i64> = &ways[k];
            assert(lists[k as int] == nodes@);
            let mut i: usize = 0;
            while i < nodes.len()
                invariant
                    i <= nodes@.len(),
                    k < ids@.len(),
                    ids@[k as int] == way,
                    lists == node_lists(ways@),
                    lists[k as int] == nodes@,
                    forall|j: int| 0 <= j < i ==> #[trigger] nodes@[j] != node,
                decreases nodes@.len() - i,
            {
                if nodes[i] == node {
                    assert(lists[k as int].contains(node));
                    return true;
                }
                i = i + 1;
            }
        }
        k = k + 1;
    }
    false
}

/// How a turn can be told. A way is given by its id and its nodes.
pub fn turn_fit(t: &Turn, junctions: &HashSet<i64>, ids: &[i64], ways: &[Vec<i64>]) -> (f: TurnFit)
    requires
        ids@.len() == ways@.len(),
    ensures
        f == fit_of(*t, junctions@, ids@, node_lists(ways@)),
{
    if !junctions.contains(&t.via) {
        TurnFit::NotAJunction
    } else if way_passes(ids, ways, t.from, t.via) && way_passes(ids, ways, t.to, t.via) {
        TurnFit::Local
    } else {
        TurnFit::NotIncident
    }
}

// ── Laws of branches and turns ──────────────────────────────────────
/// Facets are not wasted: one less would not carry the headings.
pub proof fn law_facets_are_not_wasted(deg: nat)
    requires
        deg >= 1,
    ensures
        2 * (facets_needed(deg) - 1) < deg <= 2 * facets_needed(deg),
{
}

/// A node has a branch for every segment that begins at it and one for every segment
/// that ends at it.
pub proof fn law_branches_are_ends_of_segments(nodes: Seq<i64>, n: i64)
    requires
        nodes.len() >= 2,
    ensures
        ends_in(nodes, n, nodes.len() as int) == times(nodes.drop_last(), n) + times(
            nodes.drop_first(),
            n,
        ),
{
    let z = nodes.len() - 1;
    lemma_branch_count(nodes, n, z);
    reveal(Seq::filter);
    let p = |x: i64| x == n;
    let d = nodes.drop_first();
    assert(d.last() == nodes[z]);
    assert(d.drop_last() =~= nodes.subrange(1, z));
    assert(nodes.take(z) =~= nodes.drop_last());
}

/// The same up to a node before the last.
proof fn lemma_branch_count(nodes: Seq<i64>, n: i64, k: int)
    requires
        nodes.len() >= 2,
        1 <= k <= nodes.len() - 1,
    ensures
        ends_in(nodes, n, k) == times(nodes.take(k), n) + times(nodes.subrange(1, k), n)
            + if nodes[0] == n && nodes[0] == nodes[nodes.len() - 1] {
            1nat
        } else {
            0
        },
    decreases k,
{
    reveal(Seq::filter);
    let p = |x: i64| x == n;
    if k > 1 {
        lemma_branch_count(nodes, n, k - 1);
        assert(nodes.take(k).drop_last() =~= nodes.take(k - 1));
        assert(nodes.subrange(1, k).drop_last() =~= nodes.subrange(1, k - 1));
        assert(nodes.subrange(1, k).last() == nodes[k - 1]);
    } else {
        reveal_with_fuel(ends_in, 2);
        let one = nodes.take(1);
        assert(one.drop_last() =~= Seq::<i64>::empty());
        assert(one.last() == nodes[0]);
        assert(nodes.subrange(1, 1) =~= Seq::<i64>::empty());
        assert(times(Seq::<i64>::empty(), n) == 0);
    }
}

/// Every junction has one degree: it is counted at that, or with the many.
pub proof fn law_every_junction_has_one_degree(
    junctions: Set<i64>,
    degree: Map<i64, u32>,
    n: i64,
    d: int,
)
    requires
        junctions.contains(n),
        0 <= d <= 9,
    ensures
        of_degree(junctions, degree, d).contains(n) <==> if degree.contains_key(n) {
            if degree[n] < 9 {
                d == degree[n]
            } else {
                d == 9
            }
        } else {
            d == 0
        },
        !of_degree(junctions.remove(n), degree, d).contains(n),
{
}

/// The offsets of a way lie between its junctions as they follow each other on it: where
/// all of them have a rank, there is one less than junctions, and each is the difference
/// of two neighbours.
pub proof fn law_offsets_are_between_neighbours(
    nodes: Seq<i64>,
    junctions: Set<i64>,
    rank: Map<i64, i64>,
    k: int,
)
    requires
        0 <= k <= nodes.len(),
        forall|n: i64| #[trigger] junctions.contains(n) ==> rank.contains_key(n),
    ensures
        ({
            let on = nodes.take(k).filter(|n: i64| junctions.contains(n));
            let (offsets, last) = steps(nodes, junctions, rank, k);
            &&& on.len() == 0 ==> offsets.len() == 0 && last is None
            &&& on.len() > 0 ==> last == Some(on.last()) && offsets.len() == on.len() - 1
            &&& forall|i: int|
                0 <= i < offsets.len() ==> #[trigger] offsets[i] == rank[on[i + 1]] - rank[on[i]]
        }),
    decreases k,
{
    reveal(Seq::filter);
    let p = |n: i64| junctions.contains(n);
    let on = nodes.take(k).filter(p);
    if k > 0 {
        law_offsets_are_between_neighbours(nodes, junctions, rank, k - 1);
        let before = nodes.take(k - 1).filter(p);
        assert(nodes.take(k).drop_last() =~= nodes.take(k - 1));
        let n = nodes[k - 1];
        if junctions.contains(n) {
            assert(on =~= before.push(n));
            let (o, prev) = steps(nodes, junctions, rank, k - 1);
            let (offsets, last) = steps(nodes, junctions, rank, k);
            if before.len() > 0 {
                assert(before.contains(before[before.len() - 1]));
                lemma_kept_pass(nodes.take(k - 1), p, before.len() - 1);
                assert(junctions.contains(before.last()));
                assert(offsets =~= o.push(rank[n] - rank[before.last()]));
                assert forall|i: int| 0 <= i < offsets.len() implies #[trigger] offsets[i]
                    == rank[on[i + 1]] - rank[on[i]] by {
                    if i < o.len() {
                        assert(o[i] == rank[before[i + 1]] - rank[before[i]]);
                    }
                }
            }
        }
    }
}

proof fn lemma_kept_pass(s: Seq<i64>, p: spec_fn(i64) -> bool, i: int)
    requires
        0 <= i < s.filter(p).len(),
    ensures
        p(s.filter(p)[i]),
    decreases s.len(),
{
    reveal(Seq::filter);
    if s.len() > 0 {
        let t = s.drop_last();
        if i < t.filter(p).len() {
            lemma_kept_pass(t, p, i);
            assert(s.filter(p)[i] == t.filter(p)[i]);
        }
    }
}

/// A window counts the offsets that lie in it, and the distance adds up how far they go,
/// forward or back.
pub proof fn law_windows_and_distance(s: Seq<int>, lo: int, hi: int)
    ensures
        in_window(s, lo, hi) == s.filter(|d: int| lo <= d <= hi).len(),
        distance(s) == s.fold_left(
            0int,
            |sum: int, d: int|
                sum + if d >= 0 {
                    d
                } else {
                    -d
                },
        ),
    decreases s.len(),
{
    reveal(Seq::filter);
    reveal_with_fuel(Seq::fold_left, 2);
    if s.len() > 0 {
        law_windows_and_distance(s.drop_last(), lo, hi);
    }
}

/// Of several members of a kind and a role the last counts.
pub proof fn law_last_member_counts(
    members: Seq<RawMember>,
    kind: MemberKind,
    role: Seq<char>,
    at: int,
)
    ensures
        last_member(members, kind, role) is None <==> forall|i: int|
            0 <= i < members.len() ==> !((#[trigger] members[i]).kind == kind
                && members[i].role is Some && members[i].role->0@ == role),
        0 <= at < members.len() && members[at].kind == kind && members[at].role is Some
            && members[at].role->0@ == role && (forall|i: int|
            at < i < members.len() ==> !((#[trigger] members[i]).kind == kind
                && members[i].role is Some && members[i].role->0@ == role)) ==> last_member(
            members,
            kind,
            role,
        ) == Some(members[at].id),
    decreases members.len(),
{
    if members.len() > 0 {
        let (front, n) = (members.drop_last(), members.len() - 1);
        assert forall|i: int| 0 <= i < front.len() implies #[trigger] front[i] == members[i] by {}
        assert(members[n] == members.last());
        law_last_member_counts(front, kind, role, at);
        if last_member(front, kind, role) is Some {
            let i = choose|i: int|
                0 <= i < front.len() && (#[trigger] front[i]).kind == kind
                    && front[i].role is Some && front[i].role->0@ == role;
            assert(members[i].kind == kind);
        } else {
            assert forall|i: int| 0 <= i < n implies !((#[trigger] members[i]).kind == kind
                && members[i].role is Some && members[i].role->0@ == role) by {
                assert(front[i] == members[i]);
            }
        }
    }
}

/// A restriction with one node to turn at, one way to turn from and one to turn to is
/// about that turn, in whatever order it names them; without one of the three it is about
/// none.
pub proof fn law_a_turn_has_three_parts(members: Seq<RawMember>, a: int, b: int, c: int)
    requires
        0 <= a < members.len(),
        0 <= b < members.len(),
        0 <= c < members.len(),
        members[a].kind == MemberKind::Node && members[a].role is Some && members[a].role->0@
            == "via"@,
        members[b].kind == MemberKind::Way && members[b].role is Some && members[b].role->0@
            == "from"@,
        members[c].kind == MemberKind::Way && members[c].role is Some && members[c].role->0@
            == "to"@,
        forall|i: int|
            0 <= i < members.len() && i != a && i != b && i != c ==> (#[trigger] members[i]).role
                is None || members[i].role->0@ != "via"@ && members[i].role->0@ != "from"@
                && members[i].role->0@ != "to"@,
    ensures
        turn_in(members) == Some(
            Turn { via: members[a].id, from: members[b].id, to: members[c].id },
        ),
{
    reveal_strlit("via");
    reveal_strlit("from");
    reveal_strlit("to");
    assert("via"@.len() == 3 && "from"@.len() == 4 && "to"@.len() == 2);
    law_last_member_counts(members, MemberKind::Node, "via"@, a);
    law_last_member_counts(members, MemberKind::Way, "from"@, b);
    law_last_member_counts(members, MemberKind::Way, "to"@, c);
}

/// What lacks a node to turn at, or a way to turn from or to, is no turn.
pub proof fn law_a_part_of_a_turn_is_none(members: Seq<RawMember>)
    requires
        (forall|i: int|
            0 <= i < members.len() ==> (#[trigger] members[i]).kind != MemberKind::Node
                || members[i].role is None || members[i].role->0@ != "via"@) || (forall|i: int|
            0 <= i < members.len() ==> (#[trigger] members[i]).kind != MemberKind::Way
                || members[i].role is None || members[i].role->0@ != "from"@) || (forall|i: int|
            0 <= i < members.len() ==> (#[trigger] members[i]).kind != MemberKind::Way
                || members[i].role is None || members[i].role->0@ != "to"@),
    ensures
        turn_in(members) is None,
{
    law_last_member_counts(members, MemberKind::Node, "via"@, 0);
    law_last_member_counts(members, MemberKind::Way, "from"@, 0);
    law_last_member_counts(members, MemberKind::Way, "to"@, 0);
}

/// A turn is local exactly where it is at a junction and both its ways pass the node.
pub proof fn law_local_turns_are_at_their_junction(
    t: Turn,
    junctions: Set<i64>,
    ids: Seq<i64>,
    ways: Seq<Seq<i64>>,
)
    requires
        ids.len() == ways.len(),
    ensures
        fit_of(t, junctions, ids, ways) == TurnFit::Local <==> junctions.contains(t.via) && (
        exists|a: int|
            0 <= a < ids.len() && #[trigger] ids[a] == t.from && ways[a].contains(t.via)) && (
        exists|b: int|
            0 <= b < ids.len() && #[trigger] ids[b] == t.to && ways[b].contains(t.via)),
        fit_of(t, junctions, ids, ways) == TurnFit::NotAJunction <==> !junctions.contains(t.via),
{
}

/// The nodes of ways that are junctions are counted as often as ways pass them.
pub proof fn law_vertices_add_up(ways: Seq<Seq<i64>>, s: Set<i64>, k: int)
    requires
        0 <= k <= ways.len(),
    ensures
        vertices_in(ways, s, k) <= vertices(ways, k),
        (forall|n: i64| #[trigger] s.contains(n)) ==> vertices_in(ways, s, k) == vertices(ways, k),
        vertices_in(ways, Set::empty(), k) == 0,
    decreases k,
{
    if k > 0 {
        law_vertices_add_up(ways, s, k - 1);
        lemma_kept_count(ways[k - 1], |n: i64| s.contains(n));
        lemma_kept_count(ways[k - 1], |n: i64| Set::<i64>::empty().contains(n));
    }
}

proof fn lemma_kept_count(s: Seq<i64>, p: spec_fn(i64) -> bool)
    ensures
        s.filter(p).len() <= s.len(),
        (forall|n: i64| #[trigger] p(n)) ==> s.filter(p).len() == s.len(),
        (forall|n: i64| !(#[trigger] p(n))) ==> s.filter(p).len() == 0,
    decreases s.len(),
{
    reveal(Seq::filter);
    if s.len() > 0 {
        lemma_kept_count(s.drop_last(), p);
    }
}

/// The branches of a node are those it has on every way.
pub proof fn law_branches_add_up(ways: Seq<Seq<i64>>, n: i64, k: int)
    requires
        0 <= k <= ways.len(),
        forall|j: int| 0 <= j < ways.len() ==> (#[trigger] ways[j]).len() >= 2,
    ensures
        branches(ways, n, k) == ways.take(k).fold_left(
            0int,
            |sum: int, w: Seq<i64>| sum + times(w.drop_last(), n) + times(w.drop_first(), n),
        ),
    decreases k,
{
    reveal_with_fuel(Seq::fold_left, 2);
    if k > 0 {
        law_branches_add_up(ways, n, k - 1);
        assert(ways.take(k).drop_last() =~= ways.take(k - 1));
        assert(ways[k - 1].len() >= 2);
        law_branches_are_ends_of_segments(ways[k - 1], n);
    }
}

proof fn lemma_references_are_touches(ways: Seq<Seq<i64>>, n: i64, k: int)
    requires
        0 <= k <= ways.len(),
    ensures
        references(ways, n, k) == crate::read::occurrences(
            ways.take(k).map_values(|w: Seq<i64>| (0i64, w)),
            n,
        ).len(),
    decreases k,
{
    let f = |w: Seq<i64>| (0i64, w);
    let all = ways.take(k).map_values(f);
    if k > 0 {
        lemma_references_are_touches(ways, n, k - 1);
        assert(all.drop_last() =~= ways.take(k - 1).map_values(f));
        assert(all.last() == (0i64, ways[k - 1]));
        let w = ways[k - 1];
        lemma_occurrences_are_touches(w, n, w.len() as int);
        assert(w.take(w.len() as int) =~= w);
    }
}

proof fn lemma_occurrences_are_touches(nodes: Seq<i64>, n: i64, k: int)
    requires
        0 <= k <= nodes.len(),
    ensures
        crate::network::occurrences(nodes, n, k) == crate::read::touches(
            0,
            nodes.take(k),
            n,
        ).len(),
    decreases k,
{
    if k > 0 {
        lemma_occurrences_are_touches(nodes, n, k - 1);
        assert(nodes.take(k).drop_last() =~= nodes.take(k - 1));
        assert(nodes.take(k).last() == nodes[k - 1]);
    }
}

/// Where references are counted as ways make them, the junctions are the nodes that ways
/// pass at two places, of two ways or of one.
pub proof fn law_junctions_are_passed_twice(ways: Seq<Seq<i64>>, refs: Map<i64, u32>, n: i64)
    requires
        counted(refs, n) == references(ways, n, ways.len() as int),
    ensures
        is_shared(refs, n) <==> exists|a: int, i: int, b: int, j: int|
            #![trigger ways[a][i], ways[b][j]]
            {
                &&& 0 <= a < ways.len() && 0 <= i < ways[a].len() && ways[a][i] == n
                &&& 0 <= b < ways.len() && 0 <= j < ways[b].len() && ways[b][j] == n
                &&& (a, i) != (b, j)
            },
{
    let f = |w: Seq<i64>| (0i64, w);
    let p = ways.map_values(f);
    lemma_references_are_touches(ways, n, ways.len() as int);
    assert(ways.take(ways.len() as int) =~= ways);
    crate::read::lemma_meet_twice(p, n);
    assert forall|a: int| 0 <= a < ways.len() implies #[trigger] p[a].1 == ways[a] by {}
    if is_shared(refs, n) {
        let (a, i, b, j) = choose|a: int, i: int, b: int, j: int|
            #![trigger p[a].1[i], p[b].1[j]]
            {
                &&& 0 <= a < p.len() && 0 <= i < p[a].1.len() && p[a].1[i] == n
                &&& 0 <= b < p.len() && 0 <= j < p[b].1.len() && p[b].1[j] == n
                &&& (a, i) != (b, j)
            };
        assert(ways[a][i] == n && ways[b][j] == n);
    }
    if exists|a: int, i: int, b: int, j: int|
        #![trigger ways[a][i], ways[b][j]]
        {
            &&& 0 <= a < ways.len() && 0 <= i < ways[a].len() && ways[a][i] == n
            &&& 0 <= b < ways.len() && 0 <= j < ways[b].len() && ways[b][j] == n
            &&& (a, i) != (b, j)
        } {
        let (a, i, b, j) = choose|a: int, i: int, b: int, j: int|
            #![trigger ways[a][i], ways[b][j]]
            {
                &&& 0 <= a < ways.len() && 0 <= i < ways[a].len() && ways[a][i] == n
                &&& 0 <= b < ways.len() && 0 <= j < ways[b].len() && ways[b][j] == n
                &&& (a, i) != (b, j)
            };
        assert(p[a].1[i] == n && p[b].1[j] == n);
    }
}

/// A fork has more branches than a way that passes it has: more than two.
pub proof fn law_a_passing_way_makes_no_fork(degree: Map<i64, u32>, n: i64)
    ensures
        is_fork(degree, n) <==> degree.contains_key(n) && degree[n] > 2,
{
}

/// A locality counts the offsets that a signed nibble holds, and those that a signed byte
/// does: from -8 to 7, and from -128 to 127.
pub proof fn law_locality_is_of_offsets(l: Locality, s: Seq<int>)
    requires
        is_locality(l, s),
    ensures
        l.edges == s.len(),
        l.within_i4 == s.filter(|d: int| -8 <= d <= 7).len(),
        l.within_i8 == s.filter(|d: int| -128 <= d <= 127).len(),
        l.sum_abs == s.fold_left(
            0int,
            |sum: int, d: int|
                sum + if d >= 0 {
                    d
                } else {
                    -d
                },
        ),
{
    law_windows_and_distance(s, -8, 7);
    law_windows_and_distance(s, -128, 127);
    lemma_kept_alike(s, |d: int| -8 <= d <= 7, -8, 7);
    lemma_kept_alike(s, |d: int| -128 <= d <= 127, -128, 127);
}

proof fn lemma_kept_alike(s: Seq<int>, p: spec_fn(int) -> bool, lo: int, hi: int)
    requires
        forall|d: int| #[trigger] p(d) <==> lo <= d <= hi,
    ensures
        in_window(s, lo, hi) == s.filter(p).len(),
    decreases s.len(),
{
    reveal(Seq::filter);
    if s.len() > 0 {
        lemma_kept_alike(s.drop_last(), p, lo, hi);
        assert(p(s.last()) <==> lo <= s.last() <= hi);
    }
}

} // verus!
