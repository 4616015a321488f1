//! Roads: ways of one name that hang together. Ways of one name that share
//! nothing are different roads, and so are ways that meet under different names.

use crate::network::{
    components, connected, is_walk, law_connected_is_an_equivalence, node_lists, share_node,
};
use std::collections::HashMap;
use vstd::prelude::*;
use vstd::std_specs::hash::*;

verus! {

broadcast use group_hash_axioms;

/// The ways among the first `k` that carry a name, in order.
pub open spec fn members_of(names: Seq<u32>, name: u32, k: int) -> Seq<int>
    decreases k,
{
    if k <= 0 {
        Seq::empty()
    } else if names[k - 1] == name {
        members_of(names, name, k - 1).push(k - 1)
    } else {
        members_of(names, name, k - 1)
    }
}

/// The nodes of the ways that carry a name.
pub open spec fn ways_named(names: Seq<u32>, ways: Seq<Seq<i64>>, name: u32) -> Seq<Seq<i64>> {
    members_of(names, name, names.len() as int).map_values(|i: int| ways[i])
}

/// The place of a way among those of its name.
pub open spec fn place_of(names: Seq<u32>, i: int) -> int {
    members_of(names, names[i], i).len() as int
}

/// Whether two ways are of one road: they carry one name, and one can walk from
/// one to the other over ways of that name.
pub open spec fn same_road(names: Seq<u32>, ways: Seq<Seq<i64>>, i: int, j: int) -> bool {
    names[i] == names[j] && connected(
        ways_named(names, ways, names[i]),
        place_of(names, i),
        place_of(names, j),
    )
}

/// The members of a name are the ways that carry it, in ascending order.
proof fn lemma_members(names: Seq<u32>, name: u32, k: int)
    requires
        0 <= k <= names.len(),
    ensures
        forall|m: int|
            0 <= m < members_of(names, name, k).len() ==> {
                let i = #[trigger] members_of(names, name, k)[m];
                0 <= i < k && names[i] == name && place_of(names, i) == m
            },
    decreases k,
{
    if k > 0 {
        lemma_members(names, name, k - 1);
        let (a, b) = (members_of(names, name, k - 1), members_of(names, name, k));
        assert forall|m: int| 0 <= m < b.len() implies {
            let i = #[trigger] b[m];
            0 <= i < k && names[i] == name && place_of(names, i) == m
        } by {
            if m < a.len() {
                assert(b[m] == a[m]);
            }
        }
    }
}

/// A way stands at its place among those of its name.
proof fn lemma_place(names: Seq<u32>, i: int, k: int)
    requires
        0 <= i < k <= names.len(),
    ensures
        0 <= place_of(names, i) < members_of(names, names[i], k).len(),
        members_of(names, names[i], k)[place_of(names, i)] == i,
    decreases k,
{
    if i < k - 1 {
        lemma_place(names, i, k - 1);
    }
}

/// Whether a list holds the members of a name among the first `k` ways.
spec fn holds_members(list: Seq<usize>, names: Seq<u32>, name: u32, k: int) -> bool {
    let members = members_of(names, name, k);
    list.len() == members.len() && forall|m: int|
        0 <= m < list.len() ==> #[trigger] list[m] == members[m]
}

/// Whether groups hold the ways of every name among the first `k`.
spec fn are_groups(groups: Map<u32, Vec<usize>>, names: Seq<u32>, k: int) -> bool {
    forall|name: u32| #[trigger]
        groups.contains_key(name) ==> holds_members(groups[name]@, names, name, k)
}

/// The ways of every name, and the names in the order in which they first occur.
fn groups_of(names: &[u32]) -> (r: (HashMap<u32, Vec<usize>>, Vec<u32>))
    ensures
        are_groups(r.0@, names@, names@.len() as int),
        forall|name: u32| #[trigger] r.0@.contains_key(name) <==> r.1@.contains(name),
        forall|i: int| 0 <= i < names@.len() ==> r.1@.contains(#[trigger] names@[i]),
        r.1@.no_duplicates(),
{
    let mut groups: HashMap<u32, Vec<usize>> = HashMap::new();
    let mut order: Vec<u32> = Vec::new();
    let mut i: usize = 0;
    while i < names.len()
        invariant
            i <= names@.len(),
            are_groups(groups@, names@, i as int),
            forall|name: u32| #[trigger] groups@.contains_key(name) <==> order@.contains(name),
            forall|j: int| 0 <= j < i ==> order@.contains(#[trigger] names@[j]),
            order@.no_duplicates(),
        decreases names@.len() - i,
    {
        let name: u32 = names[i];
        let ghost (g0, o0) = (groups@, order@);
        match groups.remove(&name) {
            Some(list) => {
                let mut list: Vec<usize> = list;
                list.push(i);
                groups.insert(name, list);
            },
            None => {
                let mut list: Vec<usize> = Vec::new();
                list.push(i);
                groups.insert(name, list);
                order.push(name);
                proof {
                    lemma_no_members(names@, order@, o0, name, i as int);
                }
            },
        }
        proof {
            assert forall|q: u32| #[trigger] groups@.contains_key(q) implies holds_members(
                groups@[q]@,
                names@,
                q,
                i + 1,
            ) by {
                if q != name {
                    assert(g0.contains_key(q));
                    assert(groups@[q] == g0[q]);
                }
            }
            assert forall|q: u32| #[trigger] groups@.contains_key(q) <==> order@.contains(q) by {
                lemma_order_grows(o0, order@, name, q);
            }
            assert forall|j: int| 0 <= j < i + 1 implies order@.contains(#[trigger] names@[j]) by {
                lemma_order_grows(o0, order@, name, names@[j]);
            }
        }
        i = i + 1;
    }
    (groups, order)
}

/// A name that was not met has no member.
proof fn lemma_no_members(names: Seq<u32>, order: Seq<u32>, before: Seq<u32>, name: u32, k: int)
    requires
        0 <= k <= names.len(),
        forall|j: int| 0 <= j < k ==> before.contains(#[trigger] names[j]),
        !before.contains(name),
        before.no_duplicates(),
        order == before.push(name),
    ensures
        members_of(names, name, k) == Seq::<int>::empty(),
        order.no_duplicates(),
    decreases k,
{
    if k > 0 {
        assert(before.contains(names[k - 1]));
        lemma_no_members(names, order, before, name, k - 1);
    } else {
        assert forall|a: int, b: int| 0 <= a < order.len() && 0 <= b < order.len() && a != b implies
            order[a] != order[b] by {
            if a < before.len() {
                assert(before.contains(before[a]));
            }
            if b < before.len() {
                assert(before.contains(before[b]));
            }
        }
    }
    assert(members_of(names, name, 0) =~= Seq::<int>::empty());
}

proof fn lemma_order_grows(before: Seq<u32>, after: Seq<u32>, name: u32, q: u32)
    requires
        after == before || after == before.push(name),
        after == before ==> before.contains(name),
    ensures
        after.contains(q) <==> before.contains(q) || q == name,
{
    if before.contains(q) {
        let i = choose|i: int| 0 <= i < before.len() && before[i] == q;
        assert(after[i] == q);
    }
    if after != before {
        assert(after[before.len() as int] == name);
    }
}

/// Copies nodes.
fn copied(nodes: &[i64]) -> (out: Vec<i64>)
    ensures
        out@ == nodes@,
{
    let mut out: Vec<i64> = Vec::new();
    let mut i: usize = 0;
    while i < nodes.len()
        invariant
            i <= nodes@.len(),
            out@ == nodes@.take(i as int),
        decreases nodes@.len() - i,
    {
        out.push(nodes[i]);
        i = i + 1;
        assert(nodes@.take(i as int) =~= out@);
    }
    assert(nodes@.take(i as int) =~= nodes@);
    out
}

/// The pieces that the ways of one name fall into.
fn pieces(
    names: &[u32],
    ways: &[Vec<i64>],
    list: &[usize],
    Ghost(name): Ghost<u32>,
) -> (r: Vec<usize>)
    requires
        names@.len() == ways@.len(),
        holds_members(list@, names@, name, names@.len() as int),
    ensures
        r@.len() == list@.len(),
        forall|a: int, b: int|
            #![trigger r@[a], r@[b]]
            0 <= a < list@.len() && 0 <= b < list@.len() ==> (r@[a] == r@[b] <==> same_road(
                names@,
                node_lists(ways@),
                list@[a] as int,
                list@[b] as int,
            )),
{
    let ghost lists = node_lists(ways@);
    let ghost n = names@.len() as int;
    proof {
        lemma_members(names@, name, n);
    }
    let mut own: Vec<Vec<i64>> = Vec::new();
    let mut m: usize = 0;
    while m < list.len()
        invariant
            m <= list@.len(),
            names@.len() == ways@.len(),
            n == names@.len(),
            lists == node_lists(ways@),
            holds_members(list@, names@, name, n),
            forall|a: int|
                0 <= a < list@.len() ==> {
                    let i = #[trigger] members_of(names@, name, n)[a];
                    0 <= i < n && names@[i] == name && place_of(names@, i) == a
                },
            own@.len() == m,
            forall|a: int| 0 <= a < m ==> (#[trigger] own@[a])@ == lists[list@[a] as int],
        decreases list@.len() - m,
    {
        assert(list@[m as int] == members_of(names@, name, n)[m as int]);
        let nodes: Vec<i64> = copied(ways[list[m]].as_slice());
        own.push(nodes);
        m = m + 1;
    }
    let (r, _): (Vec<usize>, usize) = components(own.as_slice());
    proof {
        let sub = node_lists(own@);
        assert forall|a: int| 0 <= a < sub.len() implies sub[a] == ways_named(
            names@,
            lists,
            name,
        )[a] by {
            assert(list@[a] == members_of(names@, name, n)[a]);
            assert(sub[a] == own@[a]@);
        }
        assert(sub =~= ways_named(names@, lists, name));
        assert forall|a: int, b: int|
            #![trigger r@[a], r@[b]]
            0 <= a < list@.len() && 0 <= b < list@.len() implies (r@[a] == r@[b] <==> same_road(
            names@,
            lists,
            list@[a] as int,
            list@[b] as int,
        )) by {
            assert(list@[a] == members_of(names@, name, n)[a]);
            assert(list@[b] == members_of(names@, name, n)[b]);
        }
    }
    r
}

/// Whether every way of the given names has the number of a way of its road, and
/// ways of one of these names have one number exactly where they are of one road.
spec fn is_numbered(
    out: Seq<usize>,
    names: Seq<u32>,
    ways: Seq<Seq<i64>>,
    done: Seq<u32>,
) -> bool {
    &&& forall|i: int|
        0 <= i < names.len() && done.contains(names[i]) ==> (#[trigger] out[i]) < names.len()
            && names[out[i] as int] == names[i]
    &&& forall|i: int, j: int|
        #![trigger out[i], out[j]]
        0 <= i < names.len() && 0 <= j < names.len() && names[i] == names[j] && done.contains(
            names[i],
        ) ==> (out[i] == out[j] <==> same_road(names, ways, i, j))
}

/// The first way of every piece stands for it.
spec fn are_firsts(first: Map<usize, usize>, list: Seq<usize>, local: Seq<usize>, m: int) -> bool {
    &&& forall|a: int| 0 <= a < m ==> first.contains_key(#[trigger] local[a])
    &&& forall|c: usize| #[trigger]
        first.contains_key(c) ==> exists|w: int|
            0 <= w < m && local[w] == c && first[c] == #[trigger] list[w]
}

/// Numbers the roads by their first way: two ways have one number exactly where
/// they are of one road. Names are given as ids.
pub fn roads(names: &[u32], ways: &[Vec<i64>]) -> (r: Vec<usize>)
    requires
        names@.len() == ways@.len(),
    ensures
        r@.len() == ways@.len(),
        forall|i: int, j: int|
            #![trigger r@[i], r@[j]]
            0 <= i < ways@.len() && 0 <= j < ways@.len() ==> (r@[i] == r@[j] <==> same_road(
                names@,
                node_lists(ways@),
                i,
                j,
            )),
        forall|i: int|
            0 <= i < ways@.len() ==> (#[trigger] r@[i]) < ways@.len() && names@[r@[i] as int]
                == names@[i],
{
    let ghost lists = node_lists(ways@);
    let ghost n = names@.len() as int;
    let (mut groups, order): (HashMap<u32, Vec<usize>>, Vec<u32>) = groups_of(names);
    let mut out: Vec<usize> = Vec::new();
    let mut i: usize = 0;
    while i < names.len()
        invariant
            i <= names@.len(),
            out@.len() == i,
        decreases names@.len() - i,
    {
        out.push(0);
        i = i + 1;
    }
    let mut g: usize = 0;
    assert(order@.take(0) =~= Seq::<u32>::empty());
    while g < order.len()
        invariant
            g <= order@.len(),
            n == names@.len(),
            names@.len() == ways@.len(),
            lists == node_lists(ways@),
            out@.len() == n,
            are_groups(groups@, names@, n),
            order@.no_duplicates(),
            forall|q: int| g <= q < order@.len() ==> groups@.contains_key(#[trigger] order@[q]),
            is_numbered(out@, names@, lists, order@.take(g as int)),
        decreases order@.len() - g,
    {
        let name: u32 = order[g];
        let ghost before = out@;
        assert(groups@.contains_key(order@[g as int]));
        let list: Vec<usize> = match groups.remove(&name) {
            Some(l) => l,
            None => Vec::new(),
        };
        let local: Vec<usize> = pieces(names, ways, list.as_slice(), Ghost(name));
        let mut first: HashMap<usize, usize> = HashMap::new();
        proof {
            lemma_members(names@, name, n);
        }
        let mut m: usize = 0;
        while m < list.len()
            invariant
                m <= list@.len(),
                n == names@.len(),
                out@.len() == n,
                holds_members(list@, names@, name, n),
                local@.len() == list@.len(),
                are_firsts(first@, list@, local@, m as int),
                forall|a: int|
                    0 <= a < list@.len() ==> {
                        let i = #[trigger] members_of(names@, name, n)[a];
                        0 <= i < n && names@[i] == name && place_of(names@, i) == a
                    },
                forall|a: int|
                    0 <= a < m ==> out@[(#[trigger] list@[a]) as int] == first@[local@[a]],
                forall|i: int| 0 <= i < n && names@[i] != name ==> #[trigger] out@[i] == before[i],
            decreases list@.len() - m,
        {
            let c: usize = local[m];
            let ghost f0 = first@;
            assert(list@[m as int] == members_of(names@, name, n)[m as int]);
            let at: usize = match first.get(&c) {
                Some(w) => *w,
                None => {
                    first.insert(c, list[m]);
                    list[m]
                },
            };
            out.set(list[m], at);
            proof {
                assert forall|a: int| 0 <= a < m + 1 implies out@[(#[trigger] list@[a]) as int]
                    == first@[local@[a]] by {
                    assert(list@[a] == members_of(names@, name, n)[a]);
                    if a < m {
                        assert(f0.contains_key(local@[a]));
                    }
                }
                assert(are_firsts(first@, list@, local@, m + 1)) by {
                    assert forall|q: usize| #[trigger] first@.contains_key(q) implies exists|w: int|
                        0 <= w < m + 1 && local@[w] == q && first@[q] == #[trigger] list@[w] by {
                        if f0.contains_key(q) {
                            let w = choose|w: int|
                                0 <= w < m && local@[w] == q && f0[q] == #[trigger] list@[w];
                            assert(list@[w] == first@[q]);
                        } else {
                            assert(list@[m as int] == first@[q]);
                        }
                    }
                    assert forall|a: int| 0 <= a < m + 1 implies first@.contains_key(
                        #[trigger] local@[a],
                    ) by {
                        if a < m {
                            assert(f0.contains_key(local@[a]));
                        }
                    }
                }
            }
            m = m + 1;
        }
        proof {
            lemma_group_numbered(before, out@, names@, lists, list@, local@, first@, name, n);
            lemma_numbered(before, out@, names@, lists, order@, g as int);
        }
        g = g + 1;
    }
    proof {
        assert(order@.take(order@.len() as int) =~= order@);
    }
    out
}

/// The ways of one name have one number exactly where they are of one road.
proof fn lemma_group_numbered(
    before: Seq<usize>,
    out: Seq<usize>,
    names: Seq<u32>,
    ways: Seq<Seq<i64>>,
    list: Seq<usize>,
    local: Seq<usize>,
    first: Map<usize, usize>,
    name: u32,
    n: int,
)
    requires
        n == names.len() == out.len(),
        holds_members(list, names, name, n),
        local.len() == list.len(),
        are_firsts(first, list, local, list.len() as int),
        forall|a: int|
            0 <= a < list.len() ==> out[(#[trigger] list[a]) as int] == first[local[a]],
        forall|a: int, b: int|
            #![trigger local[a], local[b]]
            0 <= a < list.len() && 0 <= b < list.len() ==> (local[a] == local[b] <==> same_road(
                names,
                ways,
                list[a] as int,
                list[b] as int,
            )),
    ensures
        is_numbered(out, names, ways, seq![name]),
{
    lemma_members(names, name, n);
    let members = members_of(names, name, n);
    assert forall|i: int| 0 <= i < n && seq![name].contains(names[i]) implies (#[trigger] out[i]) < n
        && names[out[i] as int] == names[i] by {
        lemma_place(names, i, n);
        let a = place_of(names, i);
        assert(list[a] == members[a]);
        assert(first.contains_key(local[a]));
        let w = choose|w: int|
            0 <= w < list.len() && local[w] == local[a] && first[local[a]] == #[trigger] list[w];
        assert(list[w] == members[w]);
        assert(out[list[a] as int] == first[local[a]]);
    }
    assert forall|i: int, j: int|
        #![trigger out[i], out[j]]
        0 <= i < n && 0 <= j < n && names[i] == names[j] && seq![name].contains(names[i]) implies (
    out[i] == out[j] <==> same_road(names, ways, i, j)) by {
        lemma_place(names, i, n);
        lemma_place(names, j, n);
        let (a, b) = (place_of(names, i), place_of(names, j));
        assert(list[a] == members[a] && list[b] == members[b]);
        assert(first.contains_key(local[a]) && first.contains_key(local[b]));
        assert(out[list[a] as int] == first[local[a]]);
        assert(out[list[b] as int] == first[local[b]]);
        let v = choose|w: int|
            0 <= w < list.len() && local[w] == local[a] && first[local[a]] == #[trigger] list[w];
        let w = choose|w: int|
            0 <= w < list.len() && local[w] == local[b] && first[local[b]] == #[trigger] list[w];
        assert(list[v] == members[v] && list[w] == members[w]);
        assert(place_of(names, members[v]) == v);
        assert(place_of(names, members[w]) == w);
    }
}

/// One more name is numbered.
proof fn lemma_numbered(
    before: Seq<usize>,
    out: Seq<usize>,
    names: Seq<u32>,
    ways: Seq<Seq<i64>>,
    order: Seq<u32>,
    g: int,
)
    requires
        0 <= g < order.len(),
        out.len() == names.len() == before.len(),
        is_numbered(before, names, ways, order.take(g)),
        is_numbered(out, names, ways, seq![order[g]]),
        forall|i: int|
            0 <= i < names.len() && names[i] != order[g] ==> #[trigger] out[i] == before[i],
    ensures
        is_numbered(out, names, ways, order.take(g + 1)),
{
    let (a, b) = (order.take(g), order.take(g + 1));
    let one = seq![order[g]];
    assert forall|q: u32| b.contains(q) implies a.contains(q) || one.contains(q) by {
        let m = choose|m: int| 0 <= m < b.len() && b[m] == q;
        if m < g {
            assert(a[m] == q);
        } else {
            assert(one[0] == q);
        }
    }
    assert forall|i: int| 0 <= i < names.len() && b.contains(names[i]) implies (#[trigger] out[i])
        < names.len() && names[out[i] as int] == names[i] by {
        if !one.contains(names[i]) {
            assert(names[i] != order[g]) by {
                assert(one[0] == order[g]);
            }
            assert(before[i] == out[i]);
        }
    }
    assert forall|i: int, j: int|
        #![trigger out[i], out[j]]
        0 <= i < names.len() && 0 <= j < names.len() && names[i] == names[j] && b.contains(
            names[i],
        ) implies (out[i] == out[j] <==> same_road(names, ways, i, j)) by {
        if !one.contains(names[i]) {
            assert(names[i] != order[g]) by {
                assert(one[0] == order[g]);
            }
            assert(before[i] == out[i] && before[j] == out[j]);
        }
    }
}

/// Being of one road is an equivalence, and the ways of a road carry its name.
pub proof fn law_same_road_is_an_equivalence(
    names: Seq<u32>,
    ways: Seq<Seq<i64>>,
    i: int,
    j: int,
    k: int,
)
    requires
        names.len() == ways.len(),
        0 <= i < ways.len(),
        0 <= j < ways.len(),
        0 <= k < ways.len(),
    ensures
        same_road(names, ways, i, i),
        same_road(names, ways, i, j) ==> same_road(names, ways, j, i) && names[i] == names[j],
        same_road(names, ways, i, j) && same_road(names, ways, j, k) ==> same_road(
            names,
            ways,
            i,
            k,
        ),
{
    let n = names.len() as int;
    lemma_place(names, i, n);
    let own = ways_named(names, ways, names[i]);
    law_connected_is_an_equivalence(
        own,
        place_of(names, i),
        place_of(names, i),
        place_of(names, i),
    );
    if names[i] == names[j] {
        lemma_place(names, j, n);
        law_connected_is_an_equivalence(
            own,
            place_of(names, i),
            place_of(names, j),
            place_of(names, i),
        );
        if names[j] == names[k] {
            lemma_place(names, k, n);
            law_connected_is_an_equivalence(
                own,
                place_of(names, i),
                place_of(names, j),
                place_of(names, k),
            );
        }
    }
}

// ── Laws of roads ───────────────────────────────────────────────────
/// Whether two lists of nodes have a node in common.
pub open spec fn have_common_node(a: Seq<i64>, b: Seq<i64>) -> bool {
    exists|n: i64| #[trigger] a.contains(n) && b.contains(n)
}

/// Whether ways lead from one to another over shared nodes, all of one name.
pub open spec fn leads(
    names: Seq<u32>,
    ways: Seq<Seq<i64>>,
    walk: Seq<int>,
    i: int,
    j: int,
) -> bool {
    &&& walk.len() > 0
    &&& walk[0] == i
    &&& walk[walk.len() - 1] == j
    &&& forall|k: int|
        0 <= k < walk.len() ==> 0 <= #[trigger] walk[k] < ways.len() && names[walk[k]] == names[i]
    &&& forall|k: int|
        0 <= k < walk.len() - 1 ==> have_common_node(ways[#[trigger] walk[k]], ways[walk[k + 1]])
}

proof fn lemma_member_at(names: Seq<u32>, name: u32, i: int, k: int)
    requires
        0 <= i < k <= names.len(),
        names[i] == name,
    ensures
        members_of(names, name, i).len() < members_of(names, name, k).len(),
        members_of(names, name, k)[members_of(names, name, i).len() as int] == i,
    decreases k,
{
    if i < k - 1 {
        lemma_member_at(names, name, i, k - 1);
    }
}

/// Two ways are of one road exactly where one can go from one to the other over ways that
/// share nodes and all carry their name: neither a name alone makes a road, nor does a
/// way of another name join two.
pub proof fn law_a_road_is_walked_under_one_name(
    names: Seq<u32>,
    ways: Seq<Seq<i64>>,
    i: int,
    j: int,
)
    requires
        names.len() == ways.len(),
        0 <= i < ways.len(),
        0 <= j < ways.len(),
    ensures
        same_road(names, ways, i, j) <==> exists|walk: Seq<int>| #[trigger]
            leads(names, ways, walk, i, j),
{
    let (name, n) = (names[i], names.len() as int);
    let own = members_of(names, name, n);
    let named = ways_named(names, ways, name);
    lemma_members(names, name, n);
    lemma_member_at(names, name, i, n);
    if same_road(names, ways, i, j) {
        lemma_member_at(names, name, j, n);
        let walk = choose|walk: Seq<int>| #[trigger]
            is_walk(named, walk) && walk[0] == place_of(names, i) && walk[walk.len() - 1]
                == place_of(names, j);
        let out = walk.map_values(|m: int| own[m]);
        assert forall|k: int| 0 <= k < out.len() implies 0 <= #[trigger] out[k] < ways.len()
            && names[out[k]] == name by {
            assert(0 <= walk[k] < named.len());
        }
        assert forall|k: int| 0 <= k < out.len() - 1 implies have_common_node(
            ways[#[trigger] out[k]],
            ways[out[k + 1]],
        ) by {
            assert(share_node(named, walk[k], walk[k + 1]));
            let x = choose|x: i64| #[trigger]
                named[walk[k]].contains(x) && named[walk[k + 1]].contains(x);
            assert(0 <= walk[k] < named.len());
            assert(0 <= walk[k + 1] < named.len());
            assert(ways[out[k]].contains(x) && ways[out[k + 1]].contains(x));
        }
        assert(out[0] == i);
        assert(out[out.len() - 1] == j);
        assert(leads(names, ways, out, i, j));
    }
    if exists|walk: Seq<int>| #[trigger] leads(names, ways, walk, i, j) {
        let walk = choose|walk: Seq<int>| #[trigger] leads(names, ways, walk, i, j);
        assert(names[walk[walk.len() - 1]] == name);
        let out = walk.map_values(|w: int| place_of(names, w));
        assert forall|k: int| 0 <= k < out.len() implies 0 <= #[trigger] out[k] < named.len()
            && named[out[k]] == ways[walk[k]] by {
            assert(names[walk[k]] == name);
            lemma_member_at(names, name, walk[k], n);
        }
        assert forall|k: int| 0 <= k < out.len() - 1 implies share_node(
            named,
            #[trigger] out[k],
            out[k + 1],
        ) by {
            assert(have_common_node(ways[walk[k]], ways[walk[k + 1]]));
            let x = choose|x: i64| #[trigger]
                ways[walk[k]].contains(x) && ways[walk[k + 1]].contains(x);
            assert(0 <= out[k + 1] < named.len() && named[out[k + 1]] == ways[walk[k + 1]]);
            assert(0 <= out[k] < named.len() && named[out[k]] == ways[walk[k]]);
            assert(named[out[k]].contains(x) && named[out[k + 1]].contains(x));
        }
        assert(is_walk(named, out));
        assert(out[0] == place_of(names, i));
        assert(out[out.len() - 1] == place_of(names, j));
    }
}

} // verus!
