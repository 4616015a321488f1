//! A merge sort, and the orders that the bake sorts by.

use vstd::multiset::*;
use vstd::prelude::*;
use vstd::seq_lib::*;

verus! {

/// A total preorder with a decision procedure.
pub trait Ranked: Sized {
    /// Whether `self` may stand before `other`.
    spec fn ranks_before(&self, other: &Self) -> bool;

    /// Any two values can be ordered.
    proof fn lemma_total(a: &Self, b: &Self)
        ensures
            a.ranks_before(b) || b.ranks_before(a),
    ;

    /// The order is transitive.
    proof fn lemma_transitive(a: &Self, b: &Self, c: &Self)
        requires
            a.ranks_before(b),
            b.ranks_before(c),
        ensures
            a.ranks_before(c),
    ;

    /// Decides the order.
    fn before(&self, other: &Self) -> (r: bool)
        ensures
            r == self.ranks_before(other),
    ;
}

impl Ranked for u64 {
    open spec fn ranks_before(&self, other: &Self) -> bool {
        *self <= *other
    }

    proof fn lemma_total(a: &Self, b: &Self) {
    }

    proof fn lemma_transitive(a: &Self, b: &Self, c: &Self) {
    }

    fn before(&self, other: &Self) -> (r: bool) {
        *self <= *other
    }
}

impl Ranked for i64 {
    open spec fn ranks_before(&self, other: &Self) -> bool {
        *self <= *other
    }

    proof fn lemma_total(a: &Self, b: &Self) {
    }

    proof fn lemma_transitive(a: &Self, b: &Self, c: &Self) {
    }

    fn before(&self, other: &Self) -> (r: bool) {
        *self <= *other
    }
}

/// Every element may stand before every later one.
pub open spec fn in_order<T: Ranked>(s: Seq<T>) -> bool {
    forall|i: int, j: int|
        #![trigger s[i], s[j]]
        0 <= i < j < s.len() ==> s[i].ranks_before(&s[j])
}

/// Every element of `a` may stand before every element of `b`.
spec fn all_before<T: Ranked>(a: Seq<T>, b: Seq<T>) -> bool {
    forall|i: int, j: int|
        #![trigger a[i], b[j]]
        0 <= i < a.len() && 0 <= j < b.len() ==> a[i].ranks_before(&b[j])
}

/// `s` read backwards is in order.
spec fn in_reverse_order<T: Ranked>(s: Seq<T>) -> bool {
    forall|i: int, j: int|
        #![trigger s[i], s[j]]
        0 <= i < j < s.len() ==> s[j].ranks_before(&s[i])
}

proof fn lemma_split_last<T>(s: Seq<T>)
    requires
        s.len() > 0,
    ensures
        s.to_multiset() == s.drop_last().to_multiset().insert(s.last()),
{
    broadcast use group_to_multiset_ensures;

    assert(s.drop_last().push(s.last()) =~= s);
}

proof fn lemma_push<T>(s: Seq<T>, x: T)
    ensures
        s.push(x).to_multiset() == s.to_multiset().insert(x),
{
    broadcast use group_to_multiset_ensures;

}

/// The last element of an ordered sequence stands after all others; moving it
/// in front of what already stands after everything keeps that so.
proof fn lemma_move_last<T: Ranked>(a: Seq<T>, b: Seq<T>, rev: Seq<T>)
    requires
        a.len() > 0,
        in_order(a),
        in_order(b),
        in_reverse_order(rev),
        all_before(a, rev),
        all_before(b, rev),
        b.len() > 0 ==> b.last().ranks_before(&a.last()),
    ensures
        in_order(a.drop_last()),
        in_reverse_order(rev.push(a.last())),
        all_before(a.drop_last(), rev.push(a.last())),
        all_before(b, rev.push(a.last())),
{
    let x = a.last();
    let m = a.len() - 1;
    assert(a[m] == x);
    let next = rev.push(x);
    assert forall|i: int, j: int|
        #![trigger next[i], next[j]]
        0 <= i < j < next.len() implies next[j].ranks_before(&next[i]) by {
        if j == rev.len() {
            assert(a[m].ranks_before(&rev[i]));
        }
    }
    assert forall|i: int, j: int|
        #![trigger b[i], next[j]]
        0 <= i < b.len() && 0 <= j < next.len() implies b[i].ranks_before(&next[j]) by {
        if j == rev.len() {
            if i < b.len() - 1 {
                assert(b[i].ranks_before(&b[b.len() - 1]));
                T::lemma_transitive(&b[i], &b.last(), &x);
            }
        }
    }
    let front = a.drop_last();
    assert forall|i: int, j: int|
        #![trigger front[i], next[j]]
        0 <= i < front.len() && 0 <= j < next.len() implies front[i].ranks_before(&next[j]) by {
        assert(front[i] == a[i]);
        if j == rev.len() {
            assert(a[i].ranks_before(&a[m]));
        }
    }
}

/// Merges two ordered vectors.
fn merge<T: Ranked>(first: Vec<T>, second: Vec<T>) -> (out: Vec<T>)
    requires
        in_order(first@),
        in_order(second@),
    ensures
        in_order(out@),
        out@.to_multiset() == first@.to_multiset().add(second@.to_multiset()),
{
    let ghost total = first@.to_multiset().add(second@.to_multiset());
    let mut a: Vec<T> = first;
    let mut b: Vec<T> = second;
    let mut rev: Vec<T> = Vec::new();
    proof {
        broadcast use group_to_multiset_ensures;

        assert(rev@.to_multiset() =~= Multiset::<T>::empty());
        assert(a@.to_multiset().add(b@.to_multiset()).add(rev@.to_multiset()) =~= total);
    }
    while a.len() > 0 || b.len() > 0
        invariant
            in_order(a@),
            in_order(b@),
            in_reverse_order(rev@),
            all_before(a@, rev@),
            all_before(b@, rev@),
            a@.to_multiset().add(b@.to_multiset()).add(rev@.to_multiset()) == total,
        decreases a@.len() + b@.len(),
    {
        let ghost (a0, b0, r0) = (a@, b@, rev@);
        // On a tie the element of the second vector stays behind the first.
        let take_first: bool = if b.len() == 0 {
            true
        } else if a.len() == 0 {
            false
        } else {
            !a[a.len() - 1].before(&b[b.len() - 1])
        };
        proof {
            if a0.len() > 0 && b0.len() > 0 {
                T::lemma_total(&a0.last(), &b0.last());
            }
        }
        if take_first {
            proof {
                lemma_move_last(a0, b0, r0);
                lemma_split_last(a0);
            }
            let x: Option<T> = a.pop();
            if let Some(x) = x {
                proof {
                    lemma_push(r0, x);
                }
                rev.push(x);
            }
        } else {
            proof {
                lemma_move_last(b0, a0, r0);
                lemma_split_last(b0);
            }
            let x: Option<T> = b.pop();
            if let Some(x) = x {
                proof {
                    lemma_push(r0, x);
                }
                rev.push(x);
            }
        }
        assert(a@.to_multiset().add(b@.to_multiset()).add(rev@.to_multiset()) =~= total);
    }
    proof {
        broadcast use group_to_multiset_ensures;

        assert(a@.to_multiset() =~= Multiset::<T>::empty());
        assert(b@.to_multiset() =~= Multiset::<T>::empty());
        assert(rev@.to_multiset() =~= total);
    }
    let mut out: Vec<T> = Vec::new();
    proof {
        broadcast use group_to_multiset_ensures;

        assert(out@.to_multiset() =~= Multiset::<T>::empty());
        assert(rev@.to_multiset().add(out@.to_multiset()) =~= total);
    }
    while rev.len() > 0
        invariant
            in_reverse_order(rev@),
            in_order(out@),
            all_before(out@, rev@),
            rev@.to_multiset().add(out@.to_multiset()) == total,
        decreases rev@.len(),
    {
        let ghost (r0, o0) = (rev@, out@);
        proof {
            lemma_split_last(r0);
        }
        let x: Option<T> = rev.pop();
        if let Some(x) = x {
            proof {
                lemma_push(o0, x);
                assert(r0[r0.len() - 1] == x);
            }
            out.push(x);
        }
        assert(rev@.to_multiset().add(out@.to_multiset()) =~= total);
    }
    proof {
        broadcast use group_to_multiset_ensures;

        assert(rev@.to_multiset() =~= Multiset::<T>::empty());
        assert(out@.to_multiset() =~= total);
    }
    out
}

/// Sorts a vector.
pub fn sort<T: Ranked>(items: Vec<T>) -> (out: Vec<T>)
    ensures
        in_order(out@),
        out@.to_multiset() == items@.to_multiset(),
        out@.len() == items@.len(),
    decreases items@.len(),
{
    let n: usize = items.len();
    if n < 2 {
        return items;
    }
    let mut first: Vec<T> = items;
    let second: Vec<T> = first.split_off(n / 2);
    proof {
        lemma_multiset_commutative(first@, second@);
        assert(first@ + second@ =~= items@);
    }
    let a: Vec<T> = sort(first);
    let b: Vec<T> = sort(second);
    let out: Vec<T> = merge(a, b);
    proof {
        broadcast use group_to_multiset_ensures;

        assert(out@.to_multiset().len() == items@.to_multiset().len());
    }
    out
}

/// Rearranged sequences hold the same elements.
pub proof fn lemma_same_elements<T>(a: Seq<T>, b: Seq<T>, x: T)
    requires
        a.to_multiset() == b.to_multiset(),
    ensures
        a.contains(x) <==> b.contains(x),
{
    broadcast use group_to_multiset_ensures;

    assert(a.contains(x) <==> a.to_multiset().count(x) > 0);
    assert(b.contains(x) <==> b.to_multiset().count(x) > 0);
}

/// Rearranging a sequence without repetitions gives one.
pub proof fn lemma_same_distinct<T>(a: Seq<T>, b: Seq<T>)
    requires
        a.to_multiset() == b.to_multiset(),
        a.no_duplicates(),
    ensures
        b.no_duplicates(),
{
    broadcast use group_to_multiset_ensures;

    a.lemma_multiset_has_no_duplicates();
    b.lemma_multiset_has_no_duplicates_conv();
}

/// A rearrangement stays one when every element is mapped.
pub proof fn lemma_mapped_multiset<A, B>(a: Seq<A>, b: Seq<A>, f: spec_fn(A) -> B)
    requires
        a.to_multiset() == b.to_multiset(),
    ensures
        a.map_values(f).to_multiset() == b.map_values(f).to_multiset(),
    decreases a.len(),
{
    broadcast use group_to_multiset_ensures;

    if a.len() == 0 {
        assert(a.to_multiset().len() == 0);
        assert(b.len() == 0);
        assert(a.map_values(f) =~= b.map_values(f));
    } else {
        let x = a.last();
        assert(a.contains(a[a.len() - 1]));
        lemma_same_elements(a, b, x);
        let i = choose|i: int| 0 <= i < b.len() && b[i] == x;
        let (c, d) = (a.drop_last(), b.remove(i));
        assert(c =~= a.remove(a.len() - 1));
        assert(c.to_multiset() =~= d.to_multiset());
        lemma_mapped_multiset(c, d, f);
        let (p, q) = (a.map_values(f), b.map_values(f));
        assert(c.map_values(f) =~= p.remove(p.len() - 1));
        assert(d.map_values(f) =~= q.remove(i));
        assert(p[p.len() - 1] == f(x));
        assert(q[i] == f(x));
        assert(p.to_multiset() =~= p.remove(p.len() - 1).to_multiset().insert(f(x)));
        assert(q.to_multiset() =~= q.remove(i).to_multiset().insert(f(x)));
    }
}

/// Every element of a filtered sequence stands in the sequence and passes.
pub proof fn lemma_filtered<T>(s: Seq<T>, p: spec_fn(T) -> bool, x: T)
    ensures
        s.filter(p).contains(x) <==> s.contains(x) && p(x),
    decreases s.len(),
{
    reveal(Seq::filter);
    if s.len() > 0 {
        let (front, last) = (s.drop_last(), s.last());
        lemma_filtered(front, p, x);
        assert(s =~= front.push(last));
        assert(s.contains(x) <==> front.contains(x) || x == last) by {
            if s.contains(x) {
                let i = choose|i: int| 0 <= i < s.len() && s[i] == x;
                if i < front.len() {
                    assert(front[i] == x);
                }
            }
            if front.contains(x) {
                let i = choose|i: int| 0 <= i < front.len() && front[i] == x;
                assert(s[i] == x);
            }
            assert(s[s.len() - 1] == last);
        }
        if p(last) {
            let (f, g) = (front.filter(p), s.filter(p));
            assert(g == f.push(last));
            if g.contains(x) {
                let i = choose|i: int| 0 <= i < g.len() && g[i] == x;
                if i < f.len() {
                    assert(f[i] == x);
                }
            }
            if f.contains(x) {
                let i = choose|i: int| 0 <= i < f.len() && f[i] == x;
                assert(g[i] == x);
            }
            assert(g[g.len() - 1] == last);
        }
    }
}

/// Filtering keeps an order.
pub proof fn lemma_filtered_order<T: Ranked>(s: Seq<T>, p: spec_fn(T) -> bool)
    requires
        in_order(s),
    ensures
        in_order(s.filter(p)),
    decreases s.len(),
{
    reveal(Seq::filter);
    if s.len() > 0 {
        let (front, last) = (s.drop_last(), s.last());
        assert(in_order(front)) by {
            assert forall|i: int, j: int|
                #![trigger front[i], front[j]]
                0 <= i < j < front.len() implies front[i].ranks_before(&front[j]) by {
                assert(front[i] == s[i] && front[j] == s[j]);
            }
        }
        lemma_filtered_order(front, p);
        let (f, g) = (front.filter(p), s.filter(p));
        if p(last) {
            assert forall|i: int, j: int|
                #![trigger g[i], g[j]]
                0 <= i < j < g.len() implies g[i].ranks_before(&g[j]) by {
                assert(g[i] == f[i]);
                if j < f.len() {
                    assert(g[j] == f[j]);
                } else {
                    assert(f.contains(f[i]));
                    lemma_filtered(front, p, f[i]);
                    let m = choose|m: int| 0 <= m < front.len() && front[m] == f[i];
                    assert(s[m] == f[i]);
                    assert(s[s.len() - 1] == last);
                }
            }
        }
    }
}

/// How often an element stands in a filtered sequence.
proof fn lemma_filtered_count<T>(s: Seq<T>, p: spec_fn(T) -> bool, x: T)
    ensures
        s.filter(p).to_multiset().count(x) == if p(x) {
            s.to_multiset().count(x)
        } else {
            0
        },
    decreases s.len(),
{
    broadcast use group_to_multiset_ensures;

    reveal(Seq::filter);
    if s.len() > 0 {
        lemma_filtered_count(s.drop_last(), p, x);
        lemma_split_last(s);
        if p(s.last()) {
            lemma_push(s.drop_last().filter(p), s.last());
        }
    }
}

/// A rearrangement stays one when both sides are filtered.
pub proof fn lemma_filtered_multiset<T>(a: Seq<T>, b: Seq<T>, p: spec_fn(T) -> bool)
    requires
        a.to_multiset() == b.to_multiset(),
    ensures
        a.filter(p).to_multiset() == b.filter(p).to_multiset(),
{
    assert forall|x: T| a.filter(p).to_multiset().count(x) == b.filter(p).to_multiset().count(x) by {
        lemma_filtered_count(a, p, x);
        lemma_filtered_count(b, p, x);
    }
    assert(a.filter(p).to_multiset() =~= b.filter(p).to_multiset());
}

/// There is one way only to order elements no two of which tie.
pub proof fn lemma_one_order<T: Ranked>(a: Seq<T>, b: Seq<T>)
    requires
        a.to_multiset() == b.to_multiset(),
        in_order(b),
        forall|i: int, j: int|
            #![trigger a[i], a[j]]
            0 <= i < j < a.len() ==> a[i].ranks_before(&a[j]) && !a[j].ranks_before(&a[i]),
    ensures
        a == b,
    decreases a.len(),
{
    broadcast use group_to_multiset_ensures;

    assert(a.len() == a.to_multiset().len());
    assert(b.len() == b.to_multiset().len());
    if a.len() == 0 {
        assert(a =~= b);
    } else {
        let n = a.len() - 1;
        let (x, y) = (a.last(), b.last());
        assert(a.contains(a[n]) && b.contains(b[n]));
        lemma_same_elements(a, b, x);
        lemma_same_elements(a, b, y);
        let i = choose|i: int| 0 <= i < b.len() && b[i] == x;
        let j = choose|j: int| 0 <= j < a.len() && a[j] == y;
        if j < n {
            assert(!a[n].ranks_before(&a[j]));
            if i < n {
                assert(b[i].ranks_before(&b[n]));
            }
        }
        assert(x == y);
        lemma_split_last(a);
        lemma_split_last(b);
        let (c, d) = (a.drop_last(), b.drop_last());
        assert(c.to_multiset() =~= a.to_multiset().remove(x));
        assert(d.to_multiset() =~= b.to_multiset().remove(x));
        assert forall|i: int, j: int|
            #![trigger c[i], c[j]]
            0 <= i < j < c.len() implies c[i].ranks_before(&c[j]) && !c[j].ranks_before(&c[i]) by {
            assert(c[i] == a[i] && c[j] == a[j]);
        }
        assert forall|i: int, j: int|
            #![trigger d[i], d[j]]
            0 <= i < j < d.len() implies d[i].ranks_before(&d[j]) by {
            assert(d[i] == b[i] && d[j] == b[j]);
        }
        lemma_one_order(c, d);
        assert(a =~= c.push(x));
        assert(b =~= d.push(y));
    }
}

/// Numbers in order ascend.
pub proof fn law_numbers_in_order_ascend(s: Seq<u64>, t: Seq<i64>, i: int, j: int)
    requires
        in_order(s),
        in_order(t),
        0 <= i < j,
    ensures
        j < s.len() ==> s[i] <= s[j],
        j < t.len() ==> t[i] <= t[j],
{
}

} // verus!
