//! Connectivity: which ways hang together.
//!
//! A name is not a road. Ways that share a node are one road, ways that share
//! nothing are two, whatever they are called.

use crate::text::{pairs, same_text, tag, value_of};
use std::collections::{HashMap, HashSet};
use vstd::prelude::*;
use vstd::std_specs::hash::*;

verus! {

broadcast use group_hash_axioms;

// ── Union-find ──────────────────────────────────────────────────────
/// Disjoint sets of numbers `0..n`.
pub struct Dsu {
    parent: Vec<usize>,
    /// The representative of every number.
    roots: Ghost<Seq<usize>>,
    /// A bound on the steps from a number to its representative.
    steps: Ghost<Seq<nat>>,
}

impl View for Dsu {
    type V = Seq<usize>;

    /// The representative of every number: two numbers are in one set exactly
    /// where their representatives are the same.
    closed spec fn view(&self) -> Seq<usize> {
        self.roots@
    }
}

/// Two sets made one, under the representative of the second.
pub open spec fn merged(s: Seq<usize>, a: int, b: int) -> Seq<usize> {
    s.map_values(
        |r: usize|
            if r == s[a] {
                s[b]
            } else {
                r
            },
    )
}

impl Dsu {
    /// Every parent leads towards the representative.
    pub closed spec fn wf(&self) -> bool {
        let (p, r, d) = (self.parent@, self.roots@, self.steps@);
        &&& r.len() == p.len()
        &&& d.len() == p.len()
        &&& forall|i: int| 0 <= i < p.len() ==> (#[trigger] p[i]) < p.len()
        &&& forall|i: int| 0 <= i < p.len() ==> (#[trigger] r[i]) < p.len()
        &&& forall|i: int| 0 <= i < p.len() ==> r[#[trigger] p[i] as int] == r[i]
        &&& forall|i: int| 0 <= i < p.len() ==> p[#[trigger] r[i] as int] == r[i]
        &&& forall|i: int|
            0 <= i < p.len() ==> (#[trigger] p[i] == i && r[i] == i) || d[p[i] as int] < d[i]
    }

    /// `n` sets of one number each.
    pub fn new(n: usize) -> (s: Self)
        ensures
            s.wf(),
            s@.len() == n,
            forall|i: int| 0 <= i < n ==> #[trigger] s@[i] == i,
    {
        let mut parent: Vec<usize> = Vec::new();
        let mut i: usize = 0;
        while i < n
            invariant
                i <= n,
                parent@.len() == i,
                forall|k: int| 0 <= k < i ==> #[trigger] parent@[k] == k,
            decreases n - i,
        {
            parent.push(i);
            i = i + 1;
        }
        Dsu { parent, roots: Ghost(parent@), steps: Ghost(Seq::new(n as nat, |k: int| 0nat)) }
    }

    /// How many numbers there are.
    pub fn len(&self) -> (n: usize)
        requires
            self.wf(),
        ensures
            n == self@.len(),
    {
        self.parent.len()
    }

    /// Whether there are none.
    pub fn is_empty(&self) -> (b: bool)
        requires
            self.wf(),
        ensures
            b == (self@.len() == 0),
    {
        self.parent.len() == 0
    }

    /// The representative of a number. The way to it is shortened; the sets stay
    /// as they are.
    pub fn find(&mut self, x: usize) -> (r: usize)
        requires
            old(self).wf(),
            x < old(self)@.len(),
        ensures
            final(self).wf(),
            final(self)@ == old(self)@,
            r == old(self)@[x as int],
            r < old(self)@.len(),
    {
        let ghost root = self@[x as int];
        let mut at: usize = x;
        while self.parent[at] != at
            invariant
                self.wf(),
                self@ == old(self)@,
                at < self@.len(),
                self@[at as int] == root,
            decreases self.steps@[at as int],
        {
            let up: usize = self.parent[at];
            let top: usize = self.parent[up];
            self.parent.set(at, top);
            at = top;
        }
        at
    }

    /// Makes two sets one.
    pub fn union(&mut self, a: usize, b: usize)
        requires
            old(self).wf(),
            a < old(self)@.len(),
            b < old(self)@.len(),
        ensures
            final(self).wf(),
            final(self)@ == merged(old(self)@, a as int, b as int),
    {
        let ra: usize = self.find(a);
        let rb: usize = self.find(b);
        let ghost (p, r, d) = (self.parent@, self.roots@, self.steps@);
        if ra != rb {
            self.parent.set(ra, rb);
            proof {
                self.roots@ = merged(r, a as int, b as int);
                self.steps@ = Seq::new(
                    d.len(),
                    |i: int|
                        if r[i] == ra {
                            d[i] + d[rb as int] + 1
                        } else {
                            d[i]
                        },
                );
            }
            assert(r[ra as int] == ra);
            assert(r[rb as int] == rb);
        } else {
            assert(merged(r, a as int, b as int) =~= r);
        }
    }
}

// ── Ways that hang together ─────────────────────────────────────────
/// Ways as lists of nodes.
pub open spec fn node_lists(ways: Seq<Vec<i64>>) -> Seq<Seq<i64>> {
    ways.map_values(|w: Vec<i64>| w@)
}

/// Whether two ways share a node.
pub open spec fn share_node(ways: Seq<Seq<i64>>, i: int, j: int) -> bool {
    exists|n: i64| #[trigger] ways[i].contains(n) && ways[j].contains(n)
}

/// Whether each way of a walk shares a node with the next.
pub open spec fn is_walk(ways: Seq<Seq<i64>>, walk: Seq<int>) -> bool {
    &&& walk.len() > 0
    &&& forall|k: int| 0 <= k < walk.len() ==> 0 <= #[trigger] walk[k] < ways.len()
    &&& forall|k: int|
        0 <= k < walk.len() - 1 ==> share_node(ways, #[trigger] walk[k], walk[k + 1])
}

/// Whether one can walk from one way to another over shared nodes.
pub open spec fn connected(ways: Seq<Seq<i64>>, i: int, j: int) -> bool {
    exists|walk: Seq<int>| #[trigger]
        is_walk(ways, walk) && walk[0] == i && walk[walk.len() - 1] == j
}

proof fn lemma_connected_refl(ways: Seq<Seq<i64>>, i: int)
    requires
        0 <= i < ways.len(),
    ensures
        connected(ways, i, i),
{
    let walk = seq![i];
    assert(is_walk(ways, walk));
}

proof fn lemma_connected_sym(ways: Seq<Seq<i64>>, i: int, j: int)
    requires
        connected(ways, i, j),
    ensures
        connected(ways, j, i),
{
    let w = choose|walk: Seq<int>| #[trigger]
        is_walk(ways, walk) && walk[0] == i && walk[walk.len() - 1] == j;
    let back = w.reverse();
    assert forall|k: int| 0 <= k < back.len() - 1 implies share_node(
        ways,
        #[trigger] back[k],
        back[k + 1],
    ) by {
        let m = w.len() - 2 - k;
        assert(share_node(ways, w[m], w[m + 1]));
        let n = choose|n: i64| #[trigger] ways[w[m]].contains(n) && ways[w[m + 1]].contains(n);
        assert(ways[w[m + 1]].contains(n));
    }
    assert(is_walk(ways, back));
}

proof fn lemma_connected_trans(ways: Seq<Seq<i64>>, i: int, j: int, k: int)
    requires
        connected(ways, i, j),
        connected(ways, j, k),
    ensures
        connected(ways, i, k),
{
    let a = choose|walk: Seq<int>| #[trigger]
        is_walk(ways, walk) && walk[0] == i && walk[walk.len() - 1] == j;
    let b = choose|walk: Seq<int>| #[trigger]
        is_walk(ways, walk) && walk[0] == j && walk[walk.len() - 1] == k;
    let rest = b.subrange(1, b.len() as int);
    let c = a + rest;
    assert forall|m: int| 0 <= m < c.len() - 1 implies share_node(
        ways,
        #[trigger] c[m],
        c[m + 1],
    ) by {
        if m < a.len() - 1 {
            assert(share_node(ways, a[m], a[m + 1]));
        } else {
            let q = m - (a.len() - 1);
            assert(share_node(ways, b[q], b[q + 1]));
        }
    }
    assert(is_walk(ways, c));
}

proof fn lemma_connected_share(ways: Seq<Seq<i64>>, i: int, j: int)
    requires
        0 <= i < ways.len(),
        0 <= j < ways.len(),
        share_node(ways, i, j),
    ensures
        connected(ways, i, j),
{
    let walk = seq![i, j];
    assert forall|k: int| 0 <= k < walk.len() - 1 implies share_node(
        ways,
        #[trigger] walk[k],
        walk[k + 1],
    ) by {
        assert(k == 0);
    }
    assert(is_walk(ways, walk));
}

/// Sets that join only what is connected.
spec fn sound(ways: Seq<Seq<i64>>, sets: Seq<usize>) -> bool {
    &&& sets.len() == ways.len()
    &&& forall|i: int, j: int|
        #![trigger sets[i], sets[j]]
        0 <= i < sets.len() && 0 <= j < sets.len() && sets[i] == sets[j] ==> connected(ways, i, j)
}

/// Every node so far has an owner: a way that touches it, in the set of every
/// way that was seen to touch it.
spec fn owned(
    ways: Seq<Seq<i64>>,
    sets: Seq<usize>,
    owner: Map<i64, usize>,
    w: int,
    seen: int,
) -> bool {
    &&& forall|n: i64| #[trigger]
        owner.contains_key(n) ==> owner[n] < ways.len() && ways[owner[n] as int].contains(n)
    &&& forall|i: int, k: int|
        #![trigger ways[i][k]]
        0 <= i < ways.len() && 0 <= k < ways[i].len() && (i < w || (i == w && k < seen))
            ==> owner.contains_key(ways[i][k]) && sets[i] == sets[owner[ways[i][k]] as int]
}

proof fn lemma_union_keeps(
    ways: Seq<Seq<i64>>,
    sets: Seq<usize>,
    owner: Map<i64, usize>,
    w: int,
    seen: int,
    a: int,
    b: int,
)
    requires
        sound(ways, sets),
        owned(ways, sets, owner, w, seen),
        0 <= a < ways.len(),
        0 <= b < ways.len(),
        share_node(ways, a, b),
    ensures
        sound(ways, merged(sets, a, b)),
        owned(ways, merged(sets, a, b), owner, w, seen),
{
    let next = merged(sets, a, b);
    lemma_connected_share(ways, a, b);
    lemma_connected_sym(ways, a, b);
    assert forall|i: int, j: int|
        #![trigger next[i], next[j]]
        0 <= i < next.len() && 0 <= j < next.len() && next[i] == next[j] implies connected(
        ways,
        i,
        j,
    ) by {
        if sets[i] == sets[j] {
        } else if sets[i] == sets[a] {
            assert(sets[j] == sets[b]);
            lemma_connected_trans(ways, i, a, b);
            lemma_connected_trans(ways, i, b, j);
        } else {
            assert(sets[j] == sets[a] && sets[i] == sets[b]);
            lemma_connected_trans(ways, i, b, a);
            lemma_connected_trans(ways, i, a, j);
        }
    }
}

/// Sets in which ways that share a node are joined are complete.
proof fn lemma_complete(ways: Seq<Seq<i64>>, sets: Seq<usize>, walk: Seq<int>)
    requires
        sets.len() == ways.len(),
        forall|i: int, j: int|
            0 <= i < ways.len() && 0 <= j < ways.len() && #[trigger] share_node(ways, i, j)
                ==> sets[i] == sets[j],
        is_walk(ways, walk),
    ensures
        sets[walk[0]] == sets[walk[walk.len() - 1]],
    decreases walk.len(),
{
    if walk.len() > 1 {
        let front = walk.drop_last();
        assert forall|k: int| 0 <= k < front.len() - 1 implies share_node(
            ways,
            #[trigger] front[k],
            front[k + 1],
        ) by {
            assert(share_node(ways, walk[k], walk[k + 1]));
        }
        lemma_complete(ways, sets, front);
        let k = walk.len() - 2;
        assert(share_node(ways, walk[k], walk[k + 1]));
    }
}

/// Joins ways that share a node.
fn join_ways(ways: &[Vec<i64>]) -> (d: Dsu)
    ensures
        d.wf(),
        d@.len() == ways@.len(),
        forall|i: int, j: int|
            #![trigger d@[i], d@[j]]
            0 <= i < ways@.len() && 0 <= j < ways@.len() ==> (d@[i] == d@[j] <==> connected(
                node_lists(ways@),
                i,
                j,
            )),
{
    let ghost lists = node_lists(ways@);
    let mut d: Dsu = Dsu::new(ways.len());
    let mut owner: HashMap<i64, usize> = HashMap::new();
    let mut w: usize = 0;
    proof {
        assert forall|i: int, j: int|
            #![trigger d@[i], d@[j]]
            0 <= i < d@.len() && 0 <= j < d@.len() && d@[i] == d@[j] implies connected(
            lists,
            i,
            j,
        ) by {
            lemma_connected_refl(lists, i);
        }
    }
    while w < ways.len()
        invariant
            w <= ways@.len(),
            lists == node_lists(ways@),
            d.wf(),
            sound(lists, d@),
            owned(lists, d@, owner@, w as int, 0),
        decreases ways@.len() - w,
    {
        let mut k: usize = 0;
        while k < ways[w].len()
            invariant
                w < ways@.len(),
                lists == node_lists(ways@),
                k <= ways@[w as int]@.len(),
                d.wf(),
                sound(lists, d@),
                owned(lists, d@, owner@, w as int, k as int),
            decreases ways@[w as int]@.len() - k,
        {
            let n: i64 = ways[w][k];
            assert(lists[w as int][k as int] == n);
            assert(lists[w as int].contains(n));
            match owner.get(&n) {
                Some(prev) => {
                    let prev: usize = *prev;
                    assert(lists[prev as int].contains(n));
                    proof {
                        lemma_union_keeps(
                            lists,
                            d@,
                            owner@,
                            w as int,
                            k as int,
                            prev as int,
                            w as int,
                        );
                    }
                    let ghost before = d@;
                    d.union(prev, w);
                    assert(d@[prev as int] == d@[w as int]);
                },
                None => {
                    owner.insert(n, w);
                },
            }
            k = k + 1;
        }
        w = w + 1;
    }
    proof {
        assert forall|i: int, j: int|
            0 <= i < lists.len() && 0 <= j < lists.len() && #[trigger] share_node(
                lists,
                i,
                j,
            ) implies d@[i] == d@[j] by {
            let n = choose|n: i64| #[trigger] lists[i].contains(n) && lists[j].contains(n);
            let a = choose|a: int| 0 <= a < lists[i].len() && lists[i][a] == n;
            let b = choose|b: int| 0 <= b < lists[j].len() && lists[j][b] == n;
            assert(owner@.contains_key(lists[i][a]));
            assert(owner@.contains_key(lists[j][b]));
        }
        assert forall|i: int, j: int|
            #![trigger d@[i], d@[j]]
            0 <= i < lists.len() && 0 <= j < lists.len() implies (d@[i] == d@[j] <==> connected(
            lists,
            i,
            j,
        )) by {
            if connected(lists, i, j) {
                let walk = choose|walk: Seq<int>| #[trigger]
                    is_walk(lists, walk) && walk[0] == i && walk[walk.len() - 1] == j;
                lemma_complete(lists, d@, walk);
            }
        }
    }
    d
}

/// Numbers the pieces that ways fall into, in the order of their first way:
/// two ways have one number exactly where they are connected. Returns the number
/// of each way and how many pieces there are.
pub fn components(ways: &[Vec<i64>]) -> (r: (Vec<usize>, usize))
    ensures
        r.0@.len() == ways@.len(),
        forall|i: int, j: int|
            #![trigger r.0@[i], r.0@[j]]
            0 <= i < ways@.len() && 0 <= j < ways@.len() ==> (r.0@[i] == r.0@[j] <==> connected(
                node_lists(ways@),
                i,
                j,
            )),
        forall|i: int| 0 <= i < ways@.len() ==> #[trigger] r.0@[i] < r.1,
        forall|c: usize| c < r.1 ==> #[trigger] r.0@.contains(c),
        forall|i: int| 0 <= i < ways@.len() ==> #[trigger] r.0@[i] <= i,
{
    let mut d: Dsu = join_ways(ways);
    let ghost sets = d@;
    let mut number: HashMap<usize, usize> = HashMap::new();
    let mut out: Vec<usize> = Vec::new();
    let mut next: usize = 0;
    let mut i: usize = 0;
    while i < ways.len()
        invariant
            i <= ways@.len(),
            d.wf(),
            d@ == sets,
            sets.len() == ways@.len(),
            out@.len() == i,
            next <= i,
            forall|k: int| 0 <= k < i ==> #[trigger] out@[k] <= k && out@[k] < next,
            forall|k: int|
                0 <= k < i ==> number@.contains_key(#[trigger] sets[k]) && number@[sets[k]]
                    == out@[k],
            forall|a: usize| #[trigger] number@.contains_key(a) ==> number@[a] < next,
            forall|a: usize, b: usize| #[trigger]
                number@.contains_key(a) && #[trigger] number@.contains_key(b) && number@[a]
                    == number@[b] ==> a == b,
            forall|c: usize| c < next ==> #[trigger] out@.contains(c),
        decreases ways@.len() - i,
    {
        let root: usize = d.find(i);
        let ghost before = out@;
        match number.get(&root) {
            Some(c) => {
                let c: usize = *c;
                out.push(c);
            },
            None => {
                number.insert(root, next);
                out.push(next);
                next = next + 1;
            },
        }
        proof {
            assert forall|c: usize| c < next implies #[trigger] out@.contains(c) by {
                if before.contains(c) {
                    let k = choose|k: int| 0 <= k < before.len() && before[k] == c;
                    assert(out@[k] == c);
                } else {
                    assert(out@[i as int] == c);
                }
            }
        }
        i = i + 1;
    }
    proof {
        assert forall|a: int, b: int|
            #![trigger out@[a], out@[b]]
            0 <= a < ways@.len() && 0 <= b < ways@.len() implies (out@[a] == out@[b] <==> connected(
            node_lists(ways@),
            a,
            b,
        )) by {
            assert(sets[a] == sets[b] <==> connected(node_lists(ways@), a, b));
            assert(number@.contains_key(sets[a]) && number@.contains_key(sets[b]));
        }
    }
    (out, next)
}

/// Being connected is an equivalence: a way hangs together with itself, both
/// ways round, and over a third.
pub proof fn law_connected_is_an_equivalence(ways: Seq<Seq<i64>>, i: int, j: int, k: int)
    requires
        0 <= i < ways.len(),
    ensures
        connected(ways, i, i),
        connected(ways, i, j) ==> connected(ways, j, i),
        connected(ways, i, j) && connected(ways, j, k) ==> connected(ways, i, k),
{
    lemma_connected_refl(ways, i);
    if connected(ways, i, j) {
        lemma_connected_sym(ways, i, j);
        if connected(ways, j, k) {
            lemma_connected_trans(ways, i, j, k);
        }
    }
}

/// Two ways that share no node, alone, are two pieces; two that share one are
/// one.
pub proof fn law_two_ways(ways: Seq<Seq<i64>>)
    requires
        ways.len() == 2,
    ensures
        connected(ways, 0, 1) <==> share_node(ways, 0, 1),
{
    if share_node(ways, 0, 1) {
        lemma_connected_share(ways, 0, 1);
    } else if connected(ways, 0, 1) {
        let walk = choose|walk: Seq<int>| #[trigger]
            is_walk(ways, walk) && walk[0] == 0 && walk[walk.len() - 1] == 1;
        let sets = seq![0usize, 1usize];
        assert forall|i: int, j: int|
            0 <= i < ways.len() && 0 <= j < ways.len() && #[trigger] share_node(
                ways,
                i,
                j,
            ) implies sets[i] == sets[j] by {
            if i == 1 && j == 0 {
                let n = choose|n: i64| #[trigger] ways[i].contains(n) && ways[j].contains(n);
                assert(ways[0].contains(n) && ways[1].contains(n));
            }
        }
        lemma_complete(ways, sets, walk);
    }
}

// ── References ──────────────────────────────────────────────────────
/// How often a node occurs among the first `k` nodes of a way.
pub open spec fn occurrences(nodes: Seq<i64>, n: i64, k: int) -> nat
    decreases k,
{
    if k <= 0 {
        0
    } else {
        occurrences(nodes, n, k - 1) + if nodes[k - 1] == n {
            1nat
        } else {
            0
        }
    }
}

/// How often the first `k` ways refer to a node.
pub open spec fn references(ways: Seq<Seq<i64>>, n: i64, k: int) -> nat
    decreases k,
{
    if k <= 0 {
        0
    } else {
        references(ways, n, k - 1) + occurrences(ways[k - 1], n, ways[k - 1].len() as int)
    }
}

/// Counts only grow.
proof fn lemma_references_grow(ways: Seq<Seq<i64>>, n: i64, k: int, i: int)
    requires
        0 <= k < ways.len(),
        0 <= i <= ways[k].len(),
    ensures
        references(ways, n, k) + occurrences(ways[k], n, i) <= references(
            ways,
            n,
            ways.len() as int,
        ),
    decreases ways.len() - k, ways[k].len() - i,
{
    if i < ways[k].len() {
        lemma_references_grow(ways, n, k, i + 1);
    } else if k + 1 < ways.len() {
        lemma_references_grow(ways, n, k + 1, 0);
    }
}

/// A count, 0 where none was made.
pub open spec fn counted(m: Map<i64, u32>, n: i64) -> nat {
    if m.contains_key(n) {
        m[n] as nat
    } else {
        0
    }
}

/// Adds to a count.
pub(crate) fn bump(m: &mut HashMap<i64, u32>, n: i64, by: u32)
    requires
        counted(old(m)@, n) + by <= u32::MAX,
    ensures
        final(m)@ == old(m)@.insert(n, (counted(old(m)@, n) + by) as u32),
{
    let before: u32 = match m.get(&n) {
        Some(c) => *c,
        None => 0,
    };
    m.insert(n, before + by);
}

/// Counts how often ways refer to each node. A way that passes a node twice
/// refers to it twice.
pub fn reference_counts(ways: &[Vec<i64>]) -> (m: HashMap<i64, u32>)
    requires
        forall|n: i64| #[trigger]
            references(node_lists(ways@), n, ways@.len() as int) <= u32::MAX,
    ensures
        forall|n: i64| #[trigger]
            counted(m@, n) == references(node_lists(ways@), n, ways@.len() as int),
        forall|n: i64| #[trigger] m@.contains_key(n) ==> m@[n] > 0,
{
    let ghost lists = node_lists(ways@);
    let mut m: HashMap<i64, u32> = HashMap::new();
    let mut k: usize = 0;
    while k < ways.len()
        invariant
            k <= ways@.len(),
            lists == node_lists(ways@),
            forall|n: i64| #[trigger] references(lists, n, ways@.len() as int) <= u32::MAX,
            forall|n: i64| #[trigger] counted(m@, n) == references(lists, n, k as int),
            forall|n: i64| #[trigger] m@.contains_key(n) ==> m@[n] > 0,
        decreases ways@.len() - k,
    {
        let nodes: &Vec<i64> = &ways[k];
        assert(lists[k as int] == nodes@);
        let mut i: usize = 0;
        while i < nodes.len()
            invariant
                i <= nodes@.len(),
                k < ways@.len(),
                lists == node_lists(ways@),
                lists[k as int] == nodes@,
                forall|n: i64| #[trigger] references(lists, n, ways@.len() as int) <= u32::MAX,
                forall|n: i64| #[trigger]
                    counted(m@, n) == references(lists, n, k as int) + occurrences(
                        nodes@,
                        n,
                        i as int,
                    ),
                forall|n: i64| #[trigger] m@.contains_key(n) ==> m@[n] > 0,
            decreases nodes@.len() - i,
        {
            let n: i64 = nodes[i];
            let ghost before = m@;
            proof {
                lemma_references_grow(lists, n, k as int, i + 1);
                assert(references(lists, n, ways@.len() as int) <= u32::MAX);
                assert(counted(m@, n) == references(lists, n, k as int) + occurrences(
                    nodes@,
                    n,
                    i as int,
                ));
            }
            bump(&mut m, n, 1);
            assert forall|q: i64| #[trigger] counted(m@, q) == references(lists, q, k as int)
                + occurrences(nodes@, q, i + 1) by {
                assert(q != n ==> counted(m@, q) == counted(before, q));
            }
            assert forall|q: i64| #[trigger] m@.contains_key(q) implies m@[q] > 0 by {
                assert(q != n ==> before.contains_key(q));
            }
            i = i + 1;
        }
        k = k + 1;
    }
    m
}

/// A node where two ways meet is referred to at least twice.
pub proof fn law_shared_nodes_count_twice(ways: Seq<Seq<i64>>, a: int, b: int, n: i64)
    requires
        0 <= a < b < ways.len(),
        ways[a].contains(n),
        ways[b].contains(n),
    ensures
        references(ways, n, ways.len() as int) >= 2,
{
    lemma_occurs(ways[a], n);
    lemma_occurs(ways[b], n);
    lemma_references_grow(ways, n, a, ways[a].len() as int);
    lemma_references_grow(ways, n, b, ways[b].len() as int);
    lemma_references_before(ways, n, a, b);
}

proof fn lemma_references_before(ways: Seq<Seq<i64>>, n: i64, a: int, b: int)
    requires
        0 <= a < b < ways.len(),
    ensures
        references(ways, n, b) >= occurrences(ways[a], n, ways[a].len() as int),
    decreases b,
{
    if a < b - 1 {
        lemma_references_before(ways, n, a, b - 1);
    }
}

proof fn lemma_occurs(nodes: Seq<i64>, n: i64)
    requires
        nodes.contains(n),
    ensures
        occurrences(nodes, n, nodes.len() as int) >= 1,
{
    let i = choose|i: int| 0 <= i < nodes.len() && nodes[i] == n;
    lemma_occurs_before(nodes, n, i, nodes.len() as int);
}

proof fn lemma_occurs_before(nodes: Seq<i64>, n: i64, i: int, k: int)
    requires
        0 <= i < k <= nodes.len(),
        nodes[i] == n,
    ensures
        occurrences(nodes, n, k) >= 1,
    decreases k,
{
    if i < k - 1 {
        lemma_occurs_before(nodes, n, i, k - 1);
    }
}

/// Whether a way does not meet what it crosses: a bridge, a tunnel or another
/// layer.
pub open spec fn is_graded(tags: Seq<(Seq<char>, Seq<char>)>) -> bool {
    ||| (value_of(tags, "bridge"@) matches Some(v) && v != "no"@)
    ||| (value_of(tags, "tunnel"@) matches Some(v) && v != "no"@)
    ||| (value_of(tags, "layer"@) matches Some(v) && v != "0"@)
}

/// Whether a way does not meet what it crosses.
pub fn grade_separated(tags: &[(&str, &str)]) -> (r: bool)
    ensures
        r == is_graded(pairs(tags@)),
{
    let bridge: bool = match tag(tags, "bridge") {
        Some(v) => !same_text(v, "no"),
        None => false,
    };
    let tunnel: bool = match tag(tags, "tunnel") {
        Some(v) => !same_text(v, "no"),
        None => false,
    };
    let layer: bool = match tag(tags, "layer") {
        Some(v) => !same_text(v, "0"),
        None => false,
    };
    bridge || tunnel || layer
}

/// What a count of references that is blind to the class of its ways would make
/// of nodes.
#[derive(Debug, Clone, Copy, PartialEq, Eq, Structural)]
pub struct Phantoms {
    /// Nodes that any two ways refer to.
    pub class_blind: u64,
    /// Nodes that routable ways refer to twice.
    pub junctions: u64,
    /// Nodes that only look like junctions.
    pub phantom: u64,
}

/// How many nodes pass a test on their references by routable and by other ways.
pub open spec fn nodes_with(refs: Seq<(u32, u32)>, p: spec_fn((u32, u32)) -> bool) -> nat {
    refs.filter(p).len()
}

/// What a blind count makes of nodes.
pub open spec fn phantoms_of(refs: Seq<(u32, u32)>) -> Phantoms {
    Phantoms {
        class_blind: nodes_with(refs, |r: (u32, u32)| r.0 + r.1 >= 2) as u64,
        junctions: nodes_with(refs, |r: (u32, u32)| r.0 >= 2) as u64,
        phantom: nodes_with(refs, |r: (u32, u32)| r.0 + r.1 >= 2 && r.0 < 2) as u64,
    }
}

/// Counts junctions and what only looks like one. A node is given by how often
/// routable ways and other ways refer to it.
pub fn phantom_junctions(refs: &[(u32, u32)]) -> (p: Phantoms)
    ensures
        p == phantoms_of(refs@),
{
    reveal(Seq::filter);
    let mut p: Phantoms = Phantoms { class_blind: 0, junctions: 0, phantom: 0 };
    let mut i: usize = 0;
    assert(refs@.take(0) =~= Seq::<(u32, u32)>::empty());
    while i < refs.len()
        invariant
            i <= refs@.len(),
            p == phantoms_of(refs@.take(i as int)),
            nodes_with(refs@.take(i as int), |r: (u32, u32)| r.0 + r.1 >= 2) <= i,
            nodes_with(refs@.take(i as int), |r: (u32, u32)| r.0 >= 2) <= i,
            nodes_with(refs@.take(i as int), |r: (u32, u32)| r.0 + r.1 >= 2 && r.0 < 2) <= i,
        decreases refs@.len() - i,
    {
        reveal(Seq::filter);
        let (r, o): (u32, u32) = refs[i];
        let all: u64 = r as u64 + o as u64;
        assert(refs@.take(i + 1).drop_last() =~= refs@.take(i as int));
        assert(refs@.take(i + 1).last() == (r, o));
        if all >= 2 {
            p.class_blind = p.class_blind + 1;
        }
        if r >= 2 {
            p.junctions = p.junctions + 1;
        }
        if all >= 2 && r < 2 {
            p.phantom = p.phantom + 1;
        }
        i = i + 1;
    }
    assert(refs@.take(refs@.len() as int) =~= refs@);
    p
}

/// A blind count sees the junctions and the phantoms, and nothing else.
pub proof fn law_phantoms_are_the_difference(refs: Seq<(u32, u32)>)
    ensures
        nodes_with(refs, |r: (u32, u32)| r.0 + r.1 >= 2) == nodes_with(
            refs,
            |r: (u32, u32)| r.0 >= 2,
        ) + nodes_with(refs, |r: (u32, u32)| r.0 + r.1 >= 2 && r.0 < 2),
    decreases refs.len(),
{
    reveal(Seq::filter);
    if refs.len() > 0 {
        law_phantoms_are_the_difference(refs.drop_last());
    }
}

/// What joining ways by their name alone would make of them.
#[derive(Debug, Clone, Copy, PartialEq, Eq, Structural)]
pub struct NameGroups {
    /// Names that two ways or more share.
    pub groups: u64,
    /// Those whose ways do not all hang together.
    pub split: u64,
    /// Joins between pieces that do not meet.
    pub invented: u64,
}

/// Whether a name, given by its ways and the pieces they fall into, is shared.
pub open spec fn is_group(g: (u32, u32)) -> bool {
    g.0 >= 2
}

/// Whether it is shared by ways that do not hang together.
pub open spec fn is_split(g: (u32, u32)) -> bool {
    g.0 >= 2 && g.1 > 1
}

/// The joins that names would invent: for each name that is split, one less than
/// its pieces.
pub open spec fn joins_invented(names: Seq<(u32, u32)>) -> nat
    decreases names.len(),
{
    if names.len() == 0 {
        0
    } else {
        joins_invented(names.drop_last()) + if is_split(names.last()) {
            (names.last().1 - 1) as nat
        } else {
            0
        }
    }
}

/// Counts what joining ways by their name would get wrong. A name is given by how
/// many ways carry it and into how many pieces they fall.
pub fn name_groups(names: &[(u32, u32)]) -> (n: NameGroups)
    requires
        names@.len() <= u32::MAX,
    ensures
        n.groups == names@.filter(|g: (u32, u32)| is_group(g)).len(),
        n.split == names@.filter(|g: (u32, u32)| is_split(g)).len(),
        n.invented == joins_invented(names@),
{
    reveal(Seq::filter);
    let mut n: NameGroups = NameGroups { groups: 0, split: 0, invented: 0 };
    let mut i: usize = 0;
    assert(names@.take(0) =~= Seq::<(u32, u32)>::empty());
    while i < names.len()
        invariant
            i <= names@.len() <= u32::MAX,
            n.groups <= i,
            n.split <= i,
            n.invented <= i * 0xffff_ffff,
            n.groups == names@.take(i as int).filter(|g: (u32, u32)| is_group(g)).len(),
            n.split == names@.take(i as int).filter(|g: (u32, u32)| is_split(g)).len(),
            n.invented == joins_invented(names@.take(i as int)),
        decreases names@.len() - i,
    {
        reveal(Seq::filter);
        let (ways, pieces): (u32, u32) = names[i];
        assert(names@.take(i + 1).drop_last() =~= names@.take(i as int));
        assert(names@.take(i + 1).last() == (ways, pieces));
        if ways >= 2 {
            n.groups = n.groups + 1;
            if pieces > 1 {
                n.split = n.split + 1;
                n.invented = n.invented + (pieces - 1) as u64;
            }
        }
        i = i + 1;
    }
    assert(names@.take(names@.len() as int) =~= names@);
    n
}

/// Joining by name invents nothing exactly where the ways of every name hang
/// together.
pub proof fn law_whole_names_invent_nothing(names: Seq<(u32, u32)>)
    ensures
        joins_invented(names) == 0 <==> names.filter(|g: (u32, u32)| is_split(g)).len() == 0,
        joins_invented(names) >= names.filter(|g: (u32, u32)| is_split(g)).len(),
    decreases names.len(),
{
    reveal(Seq::filter);
    if names.len() > 0 {
        law_whole_names_invent_nothing(names.drop_last());
    }
}

/// Whether a way has a node of a set.
pub open spec fn meets(way: Seq<i64>, s: Set<i64>) -> bool {
    exists|i: int| 0 <= i < way.len() && s.contains(#[trigger] way[i])
}

/// Counts the ways that have a node of a set.
pub fn ways_that_meet(ways: &[Vec<i64>], nodes: &HashSet<i64>) -> (n: u64)
    ensures
        n == node_lists(ways@).filter(|w: Seq<i64>| meets(w, nodes@)).len(),
{
    let ghost lists = node_lists(ways@);
    let ghost p = |w: Seq<i64>| meets(w, nodes@);
    let mut n: u64 = 0;
    let mut k: usize = 0;
    assert(lists.take(0).filter(p) =~= Seq::<Seq<i64>>::empty()) by {
        reveal(Seq::filter);
    }
    while k < ways.len()
        invariant
            k <= ways@.len(),
            lists == node_lists(ways@),
            p == (|w: Seq<i64>| meets(w, nodes@)),
            n == lists.take(k as int).filter(p).len(),
            n <= k,
        decreases ways@.len() - k,
    {
        let way: &Vec<i64> = &ways[k];
        let mut found: bool = false;
        let mut i: usize = 0;
        while i < way.len() && !found
            invariant
                i <= way@.len(),
                found ==> meets(way@, nodes@),
                !found ==> forall|j: int| 0 <= j < i ==> !nodes@.contains(#[trigger] way@[j]),
            decreases way@.len() - i,
        {
            if nodes.contains(&way[i]) {
                assert(nodes@.contains(way@[i as int]));
                found = true;
            }
            i = i + 1;
        }
        proof {
            reveal(Seq::filter);
            assert(lists.take(k + 1).drop_last() =~= lists.take(k as int));
            assert(lists.take(k + 1).last() == way@);
        }
        if found {
            n = n + 1;
        }
        k = k + 1;
    }
    assert(lists.take(lists.len() as int) =~= lists);
    n
}

/// How many of these nodes only shape a way: the routable graph refers to them
/// less than twice, so that dropping the identity of shape nodes would lose
/// them.
pub open spec fn shape_only(nodes: Seq<i64>, refs: Map<i64, u32>, k: int) -> nat
    decreases k,
{
    if k <= 0 {
        0
    } else {
        shape_only(nodes, refs, k - 1) + if counted(refs, nodes[k - 1]) < 2 {
            1nat
        } else {
            0
        }
    }
}

/// Counts the nodes that only shape a way.
pub fn shape_nodes(nodes: &[i64], refs: &HashMap<i64, u32>) -> (n: u64)
    ensures
        n == shape_only(nodes@, refs@, nodes@.len() as int),
{
    let mut n: u64 = 0;
    let mut i: usize = 0;
    while i < nodes.len()
        invariant
            i <= nodes@.len(),
            n == shape_only(nodes@, refs@, i as int),
            n <= i,
        decreases nodes@.len() - i,
    {
        let c: u32 = match refs.get(&nodes[i]) {
            Some(c) => *c,
            None => 0,
        };
        if c < 2 {
            n = n + 1;
        }
        i = i + 1;
    }
    n
}

/// Whether segments cross, from the sides on which their ends lie.
pub open spec fn sides_cross(a1: i8, a2: i8, b1: i8, b2: i8) -> bool {
    a1 != 0 && a2 != 0 && b1 != 0 && b2 != 0 && a1 != a2 && b1 != b2
}

/// Whether two segments cross properly, from the sides on which the ends of
/// each lie of the other: -1, 0 or 1. A shared end, or an end on the other
/// segment, is no crossing: that is how a junction is written.
pub fn cross_properly(a1: i8, a2: i8, b1: i8, b2: i8) -> (r: bool)
    ensures
        r == (a1 != 0 && a2 != 0 && b1 != 0 && b2 != 0 && a1 != a2 && b1 != b2),
        r == sides_cross(a1, a2, b1, b2),
{
    a1 != 0 && a2 != 0 && b1 != 0 && b2 != 0 && a1 != a2 && b1 != b2
}

// ── Laws of references ──────────────────────────────────────────────
/// How often a node stands in a list.
pub open spec fn times(nodes: Seq<i64>, n: i64) -> int {
    nodes.filter(|x: i64| x == n).len() as int
}

proof fn lemma_occurrences(nodes: Seq<i64>, n: i64, k: int)
    requires
        0 <= k <= nodes.len(),
    ensures
        occurrences(nodes, n, k) == times(nodes.take(k), n),
    decreases k,
{
    reveal(Seq::filter);
    if k > 0 {
        lemma_occurrences(nodes, n, k - 1);
        assert(nodes.take(k).drop_last() =~= nodes.take(k - 1));
    }
}

/// A node is referred to as often as it stands in the lists of all ways.
pub proof fn law_references_are_counted(ways: Seq<Seq<i64>>, n: i64)
    ensures
        references(ways, n, ways.len() as int) == ways.fold_left(
            0int,
            |sum: int, w: Seq<i64>| sum + times(w, n),
        ),
{
    lemma_references_fold(ways, n, ways.len() as int);
    assert(ways.take(ways.len() as int) =~= ways);
}

proof fn lemma_references_fold(ways: Seq<Seq<i64>>, n: i64, k: int)
    requires
        0 <= k <= ways.len(),
    ensures
        references(ways, n, k) == ways.take(k).fold_left(
            0int,
            |sum: int, w: Seq<i64>| sum + times(w, n),
        ),
    decreases k,
{
    reveal_with_fuel(Seq::fold_left, 2);
    if k > 0 {
        lemma_references_fold(ways, n, k - 1);
        assert(ways.take(k).drop_last() =~= ways.take(k - 1));
        let w = ways[k - 1];
        lemma_occurrences(w, n, w.len() as int);
        assert(w.take(w.len() as int) =~= w);
    }
}

/// A way does not meet what it crosses exactly where its first `bridge` or `tunnel` tag
/// says anything but `no`, or its first `layer` tag anything but `0`.
pub proof fn law_what_lies_on_another_level(tags: Seq<(Seq<char>, Seq<char>)>)
    ensures
        is_graded(tags) <==> exists|at: int|
            0 <= at < tags.len() && {
                let (key, v) = #[trigger] tags[at];
                &&& (key == "bridge"@ || key == "tunnel"@) && v != "no"@ || key == "layer"@ && v
                    != "0"@
                &&& forall|i: int| 0 <= i < at ==> (#[trigger] tags[i]).0 != key
            },
{
    crate::text::law_value_has_a_first_tag(tags, "bridge"@);
    crate::text::law_value_has_a_first_tag(tags, "tunnel"@);
    crate::text::law_value_has_a_first_tag(tags, "layer"@);
    assert forall|at: int|
        0 <= at < tags.len() && {
            let (key, v) = #[trigger] tags[at];
            &&& (key == "bridge"@ || key == "tunnel"@) && v != "no"@ || key == "layer"@ && v
                != "0"@
            &&& forall|i: int| 0 <= i < at ==> (#[trigger] tags[i]).0 != key
        } implies is_graded(tags) by {
        crate::text::law_first_tag_counts(tags, tags[at].0, at);
    }
}

/// The nodes that only shape a way are those that are referred to less than twice.
pub proof fn law_shape_nodes_are_counted(nodes: Seq<i64>, refs: Map<i64, u32>, k: int)
    requires
        0 <= k <= nodes.len(),
    ensures
        shape_only(nodes, refs, k) == nodes.take(k).filter(
            |n: i64| !refs.contains_key(n) || refs[n] < 2,
        ).len(),
    decreases k,
{
    reveal(Seq::filter);
    if k > 0 {
        law_shape_nodes_are_counted(nodes, refs, k - 1);
        assert(nodes.take(k).drop_last() =~= nodes.take(k - 1));
    }
}

/// Joins add up name by name, and a name whose ways fall into so many pieces invents
/// one join less.
pub proof fn law_joins_add_up(a: Seq<(u32, u32)>, b: Seq<(u32, u32)>, ways: u32, pieces: u32)
    ensures
        joins_invented(a + b) == joins_invented(a) + joins_invented(b),
        2 <= ways && 1 <= pieces ==> joins_invented(seq![(ways, pieces)]) == pieces - 1,
        ways < 2 ==> joins_invented(seq![(ways, pieces)]) == 0,
    decreases b.len(),
{
    reveal_with_fuel(joins_invented, 2);
    assert(seq![(ways, pieces)].drop_last() =~= Seq::<(u32, u32)>::empty());
    if b.len() == 0 {
        assert(a + b =~= a);
    } else {
        assert((a + b).drop_last() =~= a + b.drop_last());
        law_joins_add_up(a, b.drop_last(), ways, pieces);
    }
}

/// A node is a phantom where some way refers to it besides a routable one, or two that
/// are not routable do: two references in all, and at most one of the network.
pub proof fn law_phantoms_are_shared_and_not_joined(network: u32, others: u32)
    ensures
        ({
            let one = seq![(network, others)];
            let p = phantoms_of(one);
            &&& p.junctions == 1 <==> network >= 2
            &&& p.phantom == 1 <==> network == 1 && others >= 1 || network == 0 && others >= 2
            &&& p.class_blind == p.junctions + p.phantom
        }),
{
    reveal(Seq::filter);
    let one = seq![(network, others)];
    assert(one.drop_last() =~= Seq::<(u32, u32)>::empty());
    assert(one.last() == (network, others));
    reveal_with_fuel(Seq::filter, 2);
}

/// Ways that have a node in common hang together, wherever on either it is.
pub proof fn law_a_common_node_connects(ways: Seq<Seq<i64>>, a: int, i: int, b: int, j: int)
    requires
        0 <= a < ways.len(),
        0 <= b < ways.len(),
        0 <= i < ways[a].len(),
        0 <= j < ways[b].len(),
        ways[a][i] == ways[b][j],
    ensures
        connected(ways, a, b),
{
    let n = ways[a][i];
    assert(ways[a].contains(n) && ways[b].contains(n));
    assert(share_node(ways, a, b));
    lemma_connected_share(ways, a, b);
}

/// Ways that no common node joins to the rest do not hang together with it.
pub proof fn law_nothing_else_connects(
    ways: Seq<Seq<i64>>,
    inside: spec_fn(int) -> bool,
    a: int,
    b: int,
)
    requires
        forall|k: int, m: int, i: int, j: int|
            #![trigger ways[k][i], ways[m][j]]
            0 <= k < ways.len() && 0 <= m < ways.len() && 0 <= i < ways[k].len() && 0 <= j
                < ways[m].len() && ways[k][i] == ways[m][j] ==> inside(k) == inside(m),
        inside(a),
        !inside(b),
    ensures
        !connected(ways, a, b),
{
    if connected(ways, a, b) {
        let walk = choose|walk: Seq<int>| #[trigger]
            is_walk(ways, walk) && walk[0] == a && walk[walk.len() - 1] == b;
        lemma_walk_stays(ways, inside, walk, walk.len() - 1);
    }
}

proof fn lemma_walk_stays(
    ways: Seq<Seq<i64>>,
    inside: spec_fn(int) -> bool,
    walk: Seq<int>,
    k: int,
)
    requires
        is_walk(ways, walk),
        inside(walk[0]),
        0 <= k < walk.len(),
        forall|k: int, m: int, i: int, j: int|
            #![trigger ways[k][i], ways[m][j]]
            0 <= k < ways.len() && 0 <= m < ways.len() && 0 <= i < ways[k].len() && 0 <= j
                < ways[m].len() && ways[k][i] == ways[m][j] ==> inside(k) == inside(m),
    ensures
        inside(walk[k]),
    decreases k,
{
    if k > 0 {
        lemma_walk_stays(ways, inside, walk, k - 1);
        let (x, y) = (walk[k - 1], walk[k]);
        assert(share_node(ways, walk[k - 1], walk[k - 1 + 1]));
        let n = choose|n: i64| #[trigger] ways[x].contains(n) && ways[y].contains(n);
        let i = choose|i: int| 0 <= i < ways[x].len() && ways[x][i] == n;
        let j = choose|j: int| 0 <= j < ways[y].len() && ways[y][j] == n;
        assert(ways[x][i] == ways[y][j]);
    }
}

/// Segments cross where the ends of each lie on opposite sides of the other. It does not
/// matter which segment comes first, nor which of its ends; an end that lies on the other
/// segment is no crossing, and neither are two ends on one side.
pub proof fn law_crossings_are_symmetric(a1: i8, a2: i8, b1: i8, b2: i8)
    requires
        -1 <= a1 <= 1 && -1 <= a2 <= 1 && -1 <= b1 <= 1 && -1 <= b2 <= 1,
    ensures
        sides_cross(a1, a2, b1, b2) <==> a1 * a2 < 0 && b1 * b2 < 0,
        sides_cross(a1, a2, b1, b2) == sides_cross(b1, b2, a1, a2),
        sides_cross(a1, a2, b1, b2) == sides_cross(a2, a1, b1, b2),
{
    assert(a1 * a2 < 0 <==> a1 != 0 && a2 != 0 && a1 != a2) by (nonlinear_arith)
        requires
            -1 <= a1 <= 1,
            -1 <= a2 <= 1,
    ;
    assert(b1 * b2 < 0 <==> b1 != 0 && b2 != 0 && b1 != b2) by (nonlinear_arith)
        requires
            -1 <= b1 <= 1,
            -1 <= b2 <= 1,
    ;
}

} // verus!
