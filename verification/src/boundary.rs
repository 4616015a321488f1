//! Shared boundaries: how much of the outline of one class of areas is the
//! outline of another class as well.

use crate::building::{walls, walls_of};
use crate::order::Ranked;
use crate::tally::{edge, count_of, counts, law_counts_are_exact, tally, Edge, Key};
use vstd::multiset::*;
use vstd::prelude::*;
use vstd::seq_lib::*;

verus! {

/// A way with the class of the area that it bounds.
pub struct ClassedWay {
    pub class: u8,
    pub nodes: Vec<i64>,
}

/// An edge as one class uses it.
#[derive(Debug, Clone, Copy, PartialEq, Eq, Structural)]
pub struct EdgeUse {
    pub edge: Edge,
    pub class: u8,
}

impl Ranked for EdgeUse {
    open spec fn ranks_before(&self, other: &Self) -> bool {
        if self.edge == other.edge {
            self.class <= other.class
        } else {
            self.edge.ranks_before(&other.edge)
        }
    }

    proof fn lemma_total(a: &Self, b: &Self) {
    }

    proof fn lemma_transitive(a: &Self, b: &Self, c: &Self) {
    }

    fn before(&self, other: &Self) -> (r: bool) {
        if self.edge.a == other.edge.a && self.edge.b == other.edge.b {
            self.class <= other.class
        } else {
            self.edge.before(&other.edge)
        }
    }
}

impl Key for EdgeUse {
    proof fn lemma_antisymmetric(a: &Self, b: &Self) {
    }
}

/// The uses of edges by one way.
pub open spec fn uses_of(w: ClassedWay) -> Seq<EdgeUse> {
    walls_of(w.nodes@).map_values(|e: Edge| EdgeUse { edge: e, class: w.class })
}

/// The uses of edges by the first `k` ways, one after the other.
pub open spec fn all_uses(ways: Seq<ClassedWay>, k: int) -> Seq<EdgeUse>
    decreases k,
{
    if k <= 0 {
        Seq::empty()
    } else {
        all_uses(ways, k - 1) + uses_of(ways[k - 1])
    }
}

/// Counts how often each class uses each edge.
pub fn edge_uses(ways: &[ClassedWay]) -> (t: Vec<(EdgeUse, usize)>)
    requires
        forall|k: int| 0 <= k < ways@.len() ==> (#[trigger] ways@[k]).nodes@.len() >= 1,
    ensures
        counts(t@, all_uses(ways@, ways@.len() as int).to_multiset()),
{
    let mut uses: Vec<EdgeUse> = Vec::new();
    let mut k: usize = 0;
    while k < ways.len()
        invariant
            k <= ways@.len(),
            forall|j: int| 0 <= j < ways@.len() ==> (#[trigger] ways@[j]).nodes@.len() >= 1,
            uses@ == all_uses(ways@, k as int),
        decreases ways@.len() - k,
    {
        let w: &ClassedWay = &ways[k];
        let own: Vec<Edge> = walls(w.nodes.as_slice());
        let ghost before = uses@;
        let mut i: usize = 0;
        assert(uses_of(*w).take(0) =~= Seq::<EdgeUse>::empty());
        assert(uses@ =~= before + uses_of(*w).take(0));
        while i < own.len()
            invariant
                i <= own@.len(),
                own@ == walls_of(w.nodes@),
                uses@ == before + uses_of(*w).take(i as int),
            decreases own@.len() - i,
        {
            uses.push(EdgeUse { edge: own[i], class: w.class });
            assert(uses_of(*w).take(i + 1) =~= uses_of(*w).take(i as int).push(
                uses_of(*w)[i as int],
            ));
            i = i + 1;
            assert(uses@ =~= before + uses_of(*w).take(i as int));
        }
        assert(uses_of(*w).take(i as int) =~= uses_of(*w));
        k = k + 1;
    }
    tally(uses)
}

/// Whether a class uses an edge.
pub open spec fn class_uses(used: Multiset<EdgeUse>, e: Edge, class: u8) -> bool {
    used.count(EdgeUse { edge: e, class }) > 0
}

/// Whether one of these classes, other than the given, uses an edge.
pub open spec fn other_uses(
    used: Multiset<EdgeUse>,
    e: Edge,
    class: u8,
    classes: Seq<u8>,
) -> bool {
    exists|c: int|
        0 <= c < classes.len() && (#[trigger] classes[c]) != class && class_uses(
            used,
            e,
            classes[c],
        )
}

/// How many edges of a list pass a test.
pub open spec fn edges_with(s: Seq<Edge>, p: spec_fn(Edge) -> bool, k: int) -> nat
    decreases k,
{
    if k <= 0 {
        0
    } else {
        edges_with(s, p, k - 1) + if p(s[k - 1]) {
            1nat
        } else {
            0
        }
    }
}

/// The edges of the first `k` ways of a class, one after the other.
pub open spec fn class_edges(ways: Seq<ClassedWay>, class: u8, k: int) -> Seq<Edge>
    decreases k,
{
    if k <= 0 {
        Seq::empty()
    } else if ways[k - 1].class == class {
        class_edges(ways, class, k - 1) + walls_of(ways[k - 1].nodes@)
    } else {
        class_edges(ways, class, k - 1)
    }
}

/// Whether a class uses an edge.
fn uses_edge(
    t: &[(EdgeUse, usize)],
    e: Edge,
    class: u8,
    Ghost(uses): Ghost<Seq<EdgeUse>>,
) -> (r: bool)
    requires
        counts(t@, uses.to_multiset()),
    ensures
        r == class_uses(uses.to_multiset(), e, class),
{
    let key: EdgeUse = EdgeUse { edge: e, class };
    let n: usize = count_of(t, key);
    proof {
        law_counts_are_exact(t@, uses, key, n);
    }
    n > 0
}

/// Whether one of these classes, other than the given, uses an edge.
fn used_by_other(
    t: &[(EdgeUse, usize)],
    e: Edge,
    class: u8,
    classes: &[u8],
    Ghost(uses): Ghost<Seq<EdgeUse>>,
) -> (r: bool)
    requires
        counts(t@, uses.to_multiset()),
    ensures
        r == other_uses(uses.to_multiset(), e, class, classes@),
{
    let mut c: usize = 0;
    while c < classes.len()
        invariant
            c <= classes@.len(),
            counts(t@, uses.to_multiset()),
            forall|j: int|
                0 <= j < c && (#[trigger] classes@[j]) != class ==> !class_uses(
                    uses.to_multiset(),
                    e,
                    classes@[j],
                ),
        decreases classes@.len() - c,
    {
        if classes[c] != class && uses_edge(t, e, classes[c], Ghost(uses)) {
            return true;
        }
        c = c + 1;
    }
    false
}

/// The boundary of a class.
#[derive(Debug, Clone, Copy, PartialEq, Eq, Structural)]
pub struct Boundary {
    /// Edges of its ways.
    pub slots: u64,
    /// Those that another class uses as well. That a class shares an edge with
    /// itself does not count.
    pub shared: u64,
}

/// Measures the boundary of a class: how many edges its ways have, and how many
/// of these one of the given classes, other than itself, uses as well. With one
/// class given, it is how many are shared with that class.
pub fn boundary(
    ways: &[ClassedWay],
    t: &[(EdgeUse, usize)],
    class: u8,
    classes: &[u8],
) -> (b: Boundary)
    requires
        forall|k: int| 0 <= k < ways@.len() ==> (#[trigger] ways@[k]).nodes@.len() >= 1,
        counts(t@, all_uses(ways@, ways@.len() as int).to_multiset()),
        class_edges(ways@, class, ways@.len() as int).len() <= u64::MAX,
    ensures
        ({
            let used = all_uses(ways@, ways@.len() as int).to_multiset();
            let own = class_edges(ways@, class, ways@.len() as int);
            &&& b.slots == own.len()
            &&& b.shared == edges_with(
                own,
                |e: Edge| other_uses(used, e, class, classes@),
                own.len() as int,
            )
        }),
{
    let ghost uses = all_uses(ways@, ways@.len() as int);
    let ghost used = uses.to_multiset();
    let ghost p = |e: Edge| other_uses(used, e, class, classes@);
    let mut b: Boundary = Boundary { slots: 0, shared: 0 };
    let mut k: usize = 0;
    while k < ways.len()
        invariant
            k <= ways@.len(),
            uses == all_uses(ways@, ways@.len() as int),
            used == uses.to_multiset(),
            p == (|e: Edge| other_uses(used, e, class, classes@)),
            counts(t@, used),
            forall|j: int| 0 <= j < ways@.len() ==> (#[trigger] ways@[j]).nodes@.len() >= 1,
            class_edges(ways@, class, ways@.len() as int).len() <= u64::MAX,
            b.slots == class_edges(ways@, class, k as int).len(),
            b.shared == edges_with(
                class_edges(ways@, class, k as int),
                p,
                class_edges(ways@, class, k as int).len() as int,
            ),
            b.shared <= b.slots,
        decreases ways@.len() - k,
    {
        let w: &ClassedWay = &ways[k];
        if w.class == class {
            let own: Vec<Edge> = walls(w.nodes.as_slice());
            let ghost before = class_edges(ways@, class, k as int);
            let ghost all = before + own@;
            proof {
                lemma_class_edges_grow(ways@, class, k + 1);
                lemma_edges_prefix(before, own@, p, before.len() as int);
            }
            let mut i: usize = 0;
            while i < own.len()
                invariant
                    i <= own@.len(),
                    p == (|e: Edge| other_uses(used, e, class, classes@)),
                    used == uses.to_multiset(),
                    counts(t@, used),
                    all == before + own@,
                    all.len() <= u64::MAX,
                    b.slots == before.len() + i,
                    b.shared == edges_with(all, p, before.len() + i),
                    b.shared <= b.slots,
                decreases own@.len() - i,
            {
                assert(all[before.len() + i] == own@[i as int]);
                if used_by_other(t, own[i], class, classes, Ghost(uses)) {
                    b.shared = b.shared + 1;
                }
                b.slots = b.slots + 1;
                i = i + 1;
            }
        }
        k = k + 1;
    }
    b
}

proof fn lemma_edges_prefix(a: Seq<Edge>, b: Seq<Edge>, p: spec_fn(Edge) -> bool, k: int)
    requires
        0 <= k <= a.len(),
    ensures
        edges_with(a + b, p, k) == edges_with(a, p, k),
    decreases k,
{
    if k > 0 {
        lemma_edges_prefix(a, b, p, k - 1);
    }
}

proof fn lemma_class_edges_grow(ways: Seq<ClassedWay>, class: u8, k: int)
    requires
        0 <= k <= ways.len(),
    ensures
        class_edges(ways, class, k).len() <= class_edges(ways, class, ways.len() as int).len(),
    decreases ways.len() - k,
{
    if k < ways.len() {
        lemma_class_edges_grow(ways, class, k + 1);
    }
}

// ── Laws of boundaries ──────────────────────────────────────────────
proof fn lemma_uses_contain(ways: Seq<ClassedWay>, k: int, e: Edge, class: u8)
    requires
        0 <= k <= ways.len(),
        forall|j: int| 0 <= j < ways.len() ==> (#[trigger] ways[j]).nodes@.len() >= 1,
    ensures
        all_uses(ways, k).contains((EdgeUse { edge: e, class })) <==> exists|j: int, i: int|
            #![trigger ways[j].nodes@[i]]
            0 <= j < k && ways[j].class == class && 0 <= i < ways[j].nodes@.len() - 1 && edge(
                ways[j].nodes@[i],
                ways[j].nodes@[i + 1],
            ) == e,
    decreases k,
{
    let u = EdgeUse { edge: e, class };
    if k > 0 {
        lemma_uses_contain(ways, k - 1, e, class);
        let (a, w) = (all_uses(ways, k - 1), ways[k - 1]);
        let b = uses_of(w);
        let all = all_uses(ways, k);
        if a.contains(u) {
            let x = choose|x: int| 0 <= x < a.len() && a[x] == u;
            assert(all[x] == u);
        }
        if all.contains(u) {
            let x = choose|x: int| 0 <= x < all.len() && all[x] == u;
            if x < a.len() {
                assert(a[x] == u);
            } else {
                let i = x - a.len();
                assert(b[i] == u);
                assert(edge(ways[k - 1].nodes@[i], ways[k - 1].nodes@[i + 1]) == e);
            }
        }
        if exists|j: int, i: int|
            #![trigger ways[j].nodes@[i]]
            0 <= j < k && ways[j].class == class && 0 <= i < ways[j].nodes@.len() - 1 && edge(
                ways[j].nodes@[i],
                ways[j].nodes@[i + 1],
            ) == e {
            let (j, i) = choose|j: int, i: int|
                #![trigger ways[j].nodes@[i]]
                0 <= j < k && ways[j].class == class && 0 <= i < ways[j].nodes@.len() - 1 && edge(
                    ways[j].nodes@[i],
                    ways[j].nodes@[i + 1],
                ) == e;
            if j == k - 1 {
                assert(b[i] == u);
                assert(all[a.len() + i] == u);
            } else {
                assert(a.contains(u));
            }
        }
    }
}

/// A class uses an edge exactly where two neighbouring nodes of one of its ways are the
/// ends of the edge, in either order.
pub proof fn law_a_class_uses_the_edges_of_its_ways(ways: Seq<ClassedWay>, e: Edge, class: u8)
    requires
        forall|j: int| 0 <= j < ways.len() ==> (#[trigger] ways[j]).nodes@.len() >= 1,
    ensures
        class_uses(all_uses(ways, ways.len() as int).to_multiset(), e, class) <==> exists|
            j: int,
            i: int,
        |
            #![trigger ways[j].nodes@[i]]
            0 <= j < ways.len() && ways[j].class == class && 0 <= i < ways[j].nodes@.len() - 1
                && edge(ways[j].nodes@[i], ways[j].nodes@[i + 1]) == e,
{
    broadcast use vstd::seq_lib::group_to_multiset_ensures;

    lemma_uses_contain(ways, ways.len() as int, e, class);
    let all = all_uses(ways, ways.len() as int);
    assert(all.contains((EdgeUse { edge: e, class })) <==> all.to_multiset().count(
        (EdgeUse { edge: e, class }),
    ) > 0);
}

/// The edges of a class that are counted are those of its own ways, all of them, in
/// order.
pub proof fn law_own_edges_are_counted(ways: Seq<ClassedWay>, class: u8, k: int)
    requires
        0 <= k <= ways.len(),
        forall|j: int| 0 <= j < ways.len() ==> (#[trigger] ways[j]).nodes@.len() >= 1,
    ensures
        class_edges(ways, class, k).len() == ways.take(k).filter(
            |w: ClassedWay| w.class == class,
        ).fold_left(0int, |sum: int, w: ClassedWay| sum + w.nodes@.len() - 1),
    decreases k,
{
    reveal(Seq::filter);
    reveal_with_fuel(Seq::fold_left, 2);
    let p = |w: ClassedWay| w.class == class;
    let g = |sum: int, w: ClassedWay| sum + w.nodes@.len() - 1;
    if k > 0 {
        law_own_edges_are_counted(ways, class, k - 1);
        let (here, front) = (ways.take(k), ways.take(k - 1));
        assert(here.drop_last() =~= front);
        assert(here.last() == ways[k - 1]);
        assert(ways[k - 1].nodes@.len() >= 1);
        if ways[k - 1].class == class {
            assert(here.filter(p).drop_last() =~= front.filter(p));
        }
    }
}

/// A count of edges is of those that pass.
pub proof fn law_edges_are_counted_once(s: Seq<Edge>, p: spec_fn(Edge) -> bool, k: int)
    requires
        0 <= k <= s.len(),
    ensures
        edges_with(s, p, k) == s.take(k).filter(p).len(),
    decreases k,
{
    reveal(Seq::filter);
    if k > 0 {
        law_edges_are_counted_once(s, p, k - 1);
        assert(s.take(k).drop_last() =~= s.take(k - 1));
    }
}

/// Another class uses an edge where any class of the list does but the given one: that a
/// class shares an edge with itself does not count.
pub proof fn law_a_class_is_not_its_own_neighbour(
    used: Multiset<EdgeUse>,
    e: Edge,
    class: u8,
    classes: Seq<u8>,
)
    ensures
        !other_uses(used, e, class, seq![class]),
        forall|other: u8|
            other != class && classes.contains(other) && #[trigger] class_uses(used, e, other)
                ==> other_uses(used, e, class, classes),
        other_uses(used, e, class, classes) ==> exists|other: u8|
            other != class && classes.contains(other) && #[trigger] class_uses(used, e, other),
{
    assert forall|other: u8|
        other != class && classes.contains(other) && #[trigger] class_uses(
            used,
            e,
            other,
        ) implies other_uses(used, e, class, classes) by {
        let c = choose|c: int| 0 <= c < classes.len() && classes[c] == other;
        assert(classes[c] != class && class_uses(used, e, classes[c]));
    }
    if other_uses(used, e, class, classes) {
        let c = choose|c: int|
            0 <= c < classes.len() && (#[trigger] classes[c]) != class && class_uses(
                used,
                e,
                classes[c],
            );
        assert(classes.contains(classes[c]));
    }
}

} // verus!
