//! Counting: how often each key occurs.

use crate::order::{in_order, sort, Ranked};
use vstd::multiset::*;
use vstd::prelude::*;
use vstd::seq_lib::*;

verus! {

/// A key: an order in which only equal values rank both ways.
pub trait Key: Ranked + Copy {
    /// Values that rank both ways are equal.
    proof fn lemma_antisymmetric(a: &Self, b: &Self)
        requires
            a.ranks_before(b),
            b.ranks_before(a),
        ensures
            *a == *b,
    ;
}

impl Key for i64 {
    proof fn lemma_antisymmetric(a: &Self, b: &Self) {
    }
}

impl Key for u64 {
    proof fn lemma_antisymmetric(a: &Self, b: &Self) {
    }
}

/// An edge between two nodes, without a direction: the smaller node first.
#[derive(Debug, Clone, Copy, PartialEq, Eq, Structural)]
pub struct Edge {
    pub a: i64,
    pub b: i64,
}

/// The edge between two nodes.
pub open spec fn edge(x: i64, y: i64) -> Edge {
    if x <= y {
        Edge { a: x, b: y }
    } else {
        Edge { a: y, b: x }
    }
}

impl Edge {
    /// The edge between two nodes.
    pub fn between(x: i64, y: i64) -> (e: Self)
        ensures
            e == edge(x, y),
    {
        if x <= y {
            Edge { a: x, b: y }
        } else {
            Edge { a: y, b: x }
        }
    }
}

/// An edge has no direction.
pub proof fn law_edges_are_undirected(x: i64, y: i64)
    ensures
        edge(x, y) == edge(y, x),
{
}

impl Ranked for Edge {
    open spec fn ranks_before(&self, other: &Self) -> bool {
        self.a < other.a || (self.a == other.a && self.b <= other.b)
    }

    proof fn lemma_total(a: &Self, b: &Self) {
    }

    proof fn lemma_transitive(a: &Self, b: &Self, c: &Self) {
    }

    fn before(&self, other: &Self) -> (r: bool) {
        self.a < other.a || (self.a == other.a && self.b <= other.b)
    }
}

impl Key for Edge {
    proof fn lemma_antisymmetric(a: &Self, b: &Self) {
    }
}

/// Whether `t` counts `items`: every key once, in order, with how often it
/// occurs.
pub open spec fn counts<T: Key>(t: Seq<(T, usize)>, items: Multiset<T>) -> bool {
    &&& forall|i: int| 0 <= i < t.len() ==> (#[trigger] t[i]).1 == items.count(t[i].0) && t[i].1 > 0
    &&& forall|x: T| items.count(x) > 0 ==> #[trigger] lists(t, x)
    &&& ascending(t)
}

/// Keys in strictly ascending order.
pub open spec fn ascending<T: Key>(t: Seq<(T, usize)>) -> bool {
    forall|i: int, j: int|
        #![trigger t[i], t[j]]
        0 <= i < j < t.len() ==> t[i].0.ranks_before(&t[j].0) && t[i].0 != t[j].0
}

/// Whether a key is listed.
pub open spec fn lists<T: Key>(t: Seq<(T, usize)>, x: T) -> bool {
    exists|i: int| 0 <= i < t.len() && (#[trigger] t[i]).0 == x
}

/// Whether two keys are the same.
fn same_key<T: Key>(a: &T, b: &T) -> (r: bool)
    ensures
        r == (*a == *b),
{
    proof {
        T::lemma_total(a, b);
        if a.ranks_before(b) && b.ranks_before(a) {
            T::lemma_antisymmetric(a, b);
        }
    }
    a.before(b) && b.before(a)
}

/// Counts keys.
pub fn tally<T: Key>(items: Vec<T>) -> (t: Vec<(T, usize)>)
    ensures
        counts(t@, items@.to_multiset()),
{
    let ghost given = items@.to_multiset();
    let s: Vec<T> = sort(items);
    let mut t: Vec<(T, usize)> = Vec::new();
    let mut i: usize = 0;
    proof {
        broadcast use group_to_multiset_ensures;

        assert(s@.take(0).to_multiset() =~= Multiset::<T>::empty());
    }
    while i < s.len()
        invariant
            i <= s@.len(),
            in_order(s@),
            counts(t@, s@.take(i as int).to_multiset()),
            i > 0 ==> t@.len() > 0 && t@.last().0 == s@[i - 1],
            forall|k: int| 0 <= k < t@.len() ==> (#[trigger] t@[k]).1 <= i,
        decreases s@.len() - i,
    {
        let x: T = s[i];
        let ghost (t0, m0) = (t@, s@.take(i as int).to_multiset());
        let n: usize = t.len();
        proof {
            broadcast use group_to_multiset_ensures;

            assert(s@.take(i + 1) =~= s@.take(i as int).push(x));
            assert(s@.take(i + 1).to_multiset() =~= m0.insert(x));
            lemma_counted_before(s@, t0, i as int);
        }
        if n > 0 && same_key(&t[n - 1].0, &x) {
            let c: usize = t[n - 1].1;
            t.set(n - 1, (x, c + 1));
            proof {
                assert(t@ =~= t0.update(n - 1, (x, (c + 1) as usize)));
                assert forall|y: T| m0.insert(x).count(y) > 0 implies #[trigger] lists(t@, y) by {
                    if y == x {
                        assert(t@[n - 1].0 == y);
                    } else {
                        assert(lists(t0, y));
                        let k = choose|k: int| 0 <= k < t0.len() && (#[trigger] t0[k]).0 == y;
                        assert(t@[k].0 == y);
                    }
                }
                assert forall|k: int| 0 <= k < t@.len() implies (#[trigger] t@[k]).1 == m0.insert(
                    x,
                ).count(t@[k].0) && t@[k].1 > 0 by {
                    if k < n - 1 {
                        assert(t0[k].0 != t0[n - 1].0);
                    }
                }
            }
        } else {
            t.push((x, 1));
            proof {
                assert(m0.count(x) == 0) by {
                    if m0.count(x) > 0 {
                        assert(lists(t0, x));
                        let k = choose|k: int| 0 <= k < t0.len() && (#[trigger] t0[k]).0 == x;
                        let last = t0[n - 1].0;
                        if k < n - 1 {
                            assert(t0[k].0.ranks_before(&last));
                        }
                        assert(last == s@[i - 1]);
                        assert(s@[i - 1].ranks_before(&s@[i as int]));
                        if k < n - 1 {
                            T::lemma_antisymmetric(&x, &last);
                        }
                    }
                }
                assert forall|y: T| m0.insert(x).count(y) > 0 implies #[trigger] lists(t@, y) by {
                    if y == x {
                        assert(t@[n as int].0 == y);
                    } else {
                        assert(lists(t0, y));
                        let k = choose|k: int| 0 <= k < t0.len() && (#[trigger] t0[k]).0 == y;
                        assert(t@[k].0 == y);
                    }
                }
                assert forall|k: int| 0 <= k < t@.len() implies (#[trigger] t@[k]).1 == m0.insert(
                    x,
                ).count(t@[k].0) && t@[k].1 > 0 by {
                    if k < n {
                        assert(t@[k] == t0[k]);
                        assert(m0.count(t0[k].0) > 0);
                    }
                }
                assert forall|a: int, b: int|
                    #![trigger t@[a], t@[b]]
                    0 <= a < b < t@.len() implies t@[a].0.ranks_before(&t@[b].0) && t@[a].0
                    != t@[b].0 by {
                    if b == n {
                        assert(m0.count(t0[a].0) > 0);
                        let last = t0[n - 1].0;
                        assert(last == s@[i - 1]);
                        assert(s@[i - 1].ranks_before(&s@[i as int]));
                        if a < n - 1 {
                            assert(t0[a].0.ranks_before(&last));
                            T::lemma_transitive(&t0[a].0, &last, &x);
                        }
                    }
                }
            }
        }
        i = i + 1;
    }
    assert(s@.take(s@.len() as int) =~= s@);
    t
}

proof fn lemma_counted_before<T: Key>(s: Seq<T>, t: Seq<(T, usize)>, i: int)
    requires
        0 <= i <= s.len(),
        counts(t, s.take(i).to_multiset()),
    ensures
        forall|k: int| 0 <= k < t.len() ==> (#[trigger] t[k]).1 <= i,
{
    broadcast use group_to_multiset_ensures;

    assert forall|k: int| 0 <= k < t.len() implies (#[trigger] t[k]).1 <= i by {
        let m = s.take(i).to_multiset();
        assert(m.count(t[k].0) <= m.len());
    }
}

/// How often a key was counted: 0 where it is not listed.
pub fn count_of<T: Key>(t: &[(T, usize)], x: T) -> (n: usize)
    requires
        ascending(t@),
    ensures
        lists(t@, x) ==> exists|i: int|
            0 <= i < t@.len() && (#[trigger] t@[i]).0 == x && t@[i].1 == n,
        !lists(t@, x) ==> n == 0,
{
    let mut lo: usize = 0;
    let mut hi: usize = t.len();
    while lo < hi
        invariant
            lo <= hi <= t@.len(),
            ascending(t@),
            forall|k: int| 0 <= k < lo ==> (#[trigger] t@[k]).0 != x,
            forall|k: int| hi <= k < t@.len() ==> (#[trigger] t@[k]).0 != x,
        decreases hi - lo,
    {
        let mid: usize = lo + (hi - lo) / 2;
        let key: T = t[mid].0;
        if same_key(&key, &x) {
            assert(t@[mid as int].0 == x);
            return t[mid].1;
        }
        if key.before(&x) {
            proof {
                assert forall|k: int| 0 <= k < mid + 1 implies (#[trigger] t@[k]).0 != x by {
                    if lo <= k < mid {
                        assert(t@[k].0.ranks_before(&t@[mid as int].0));
                        if t@[k].0 == x {
                            T::lemma_antisymmetric(&key, &x);
                        }
                    }
                }
            }
            lo = mid + 1;
        } else {
            proof {
                T::lemma_total(&key, &x);
                assert forall|k: int| mid <= k < t@.len() implies (#[trigger] t@[k]).0 != x by {
                    if mid < k < hi {
                        assert(t@[mid as int].0.ranks_before(&t@[k].0));
                    }
                }
            }
            hi = mid;
        }
    }
    assert(!lists(t@, x));
    0
}

/// A count is how often the key occurs, listed or not.
pub proof fn law_counts_are_exact<T: Key>(t: Seq<(T, usize)>, items: Seq<T>, x: T, n: usize)
    requires
        counts(t, items.to_multiset()),
        lists(t, x) ==> exists|i: int|
            0 <= i < t.len() && (#[trigger] t[i]).0 == x && t[i].1 == n,
        !lists(t, x) ==> n == 0,
    ensures
        n == items.to_multiset().count(x),
{
}

/// Two countings of the same keys are the same, whatever order the keys came in.
pub proof fn law_counting_is_order_free<T: Key>(
    a: Seq<(T, usize)>,
    b: Seq<(T, usize)>,
    items: Multiset<T>,
)
    requires
        counts(a, items),
        counts(b, items),
    ensures
        a == b,
    decreases a.len(),
{
    lemma_same_counting(a, b, items, items);
}

/// Countings that agree on which keys they list, with the same numbers.
proof fn lemma_same_counting<T: Key>(
    a: Seq<(T, usize)>,
    b: Seq<(T, usize)>,
    ma: Multiset<T>,
    mb: Multiset<T>,
)
    requires
        ascending(a),
        ascending(b),
        forall|i: int| 0 <= i < a.len() ==> (#[trigger] a[i]).1 == ma.count(a[i].0),
        forall|i: int| 0 <= i < b.len() ==> (#[trigger] b[i]).1 == mb.count(b[i].0),
        ma == mb,
        forall|x: T| #[trigger] lists(a, x) <==> lists(b, x),
    ensures
        a == b,
    decreases a.len(),
{
    if a.len() == 0 {
        if b.len() > 0 {
            assert(lists(b, b[0].0));
            assert(!lists(a, b[0].0));
        }
        assert(a =~= b);
    } else {
        let (m, k) = (a.len() - 1, b.len() - 1);
        assert(lists(a, a[m].0));
        assert(lists(b, a[m].0));
        let i = choose|i: int| 0 <= i < b.len() && (#[trigger] b[i]).0 == a[m].0;
        assert(lists(b, b[k].0));
        assert(lists(a, b[k].0));
        let j = choose|j: int| 0 <= j < a.len() && (#[trigger] a[j]).0 == b[k].0;
        if i < k {
            assert(b[i].0.ranks_before(&b[k].0));
            if j < m {
                assert(a[j].0.ranks_before(&a[m].0));
                T::lemma_antisymmetric(&a[m].0, &b[k].0);
            }
        }
        assert(a[m].0 == b[k].0);
        let (x, y) = (a.drop_last(), b.drop_last());
        assert forall|z: T| #[trigger] lists(x, z) <==> lists(y, z) by {
            lemma_lists_front(a, z);
            lemma_lists_front(b, z);
            assert(lists(a, z) <==> lists(b, z));
        }
        lemma_same_counting(x, y, ma, mb);
        assert(a =~= x.push(a[m]));
        assert(b =~= y.push(b[k]));
    }
}

proof fn lemma_lists_front<T: Key>(a: Seq<(T, usize)>, z: T)
    requires
        ascending(a),
        a.len() > 0,
    ensures
        lists(a.drop_last(), z) <==> lists(a, z) && z != a.last().0,
{
    let x = a.drop_last();
    if lists(x, z) {
        let i = choose|i: int| 0 <= i < x.len() && (#[trigger] x[i]).0 == z;
        assert(a[i].0 == z);
        assert(a[i].0 != a[a.len() - 1].0);
    }
    if lists(a, z) && z != a.last().0 {
        let i = choose|i: int| 0 <= i < a.len() && (#[trigger] a[i]).0 == z;
        assert(x[i].0 == z);
    }
}

/// An edge is its two nodes and nothing more: two edges are the same exactly where they
/// join the same nodes, in either order.
pub proof fn law_edges_are_their_nodes(x: i64, y: i64, u: i64, v: i64)
    ensures
        edge(x, y) == edge(u, v) <==> (x == u && y == v) || (x == v && y == u),
{
}

/// Edges are counted in the order of their smaller nodes, then of the larger.
pub proof fn law_edges_go_by_their_nodes(e: Edge, f: Edge)
    ensures
        e.a < f.a ==> e.ranks_before(&f) && !f.ranks_before(&e),
        e.a == f.a ==> (e.ranks_before(&f) <==> e.b <= f.b),
{
}

} // verus!
