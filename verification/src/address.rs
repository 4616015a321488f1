//! Addresses: whether the street that an address names is one road, and whether
//! its postcode tells several apart.

use crate::text::{has_key, pairs, tag};
use std::collections::HashMap;
use vstd::prelude::*;
use vstd::std_specs::hash::*;

verus! {

broadcast use group_hash_axioms;

/// What carries an address.
#[derive(Debug, Clone, Copy, PartialEq, Eq, Structural)]
pub enum Form {
    Node,
    BuildingWay,
    OtherWay,
}

/// What carries the address of a way.
pub open spec fn form_of(tags: Seq<(Seq<char>, Seq<char>)>) -> Form {
    if has_key(tags, "building"@) {
        Form::BuildingWay
    } else {
        Form::OtherWay
    }
}

/// What carries the address of a way.
pub fn way_form(tags: &[(&str, &str)]) -> (f: Form)
    ensures
        f == if has_key(pairs(tags@), "building"@) {
            Form::BuildingWay
        } else {
            Form::OtherWay
        },
        f == form_of(pairs(tags@)),
{
    if tag(tags, "building").is_some() {
        Form::BuildingWay
    } else {
        Form::OtherWay
    }
}

/// What the street of an address comes to.
#[derive(Debug, Clone, Copy, PartialEq, Eq, Structural)]
pub enum Outcome {
    /// The address names no street.
    NoStreet,
    /// No way has that name.
    NoSuchName,
    /// Ways have that name, but none near.
    TooFar,
    /// One road, the given one.
    One(usize),
    /// Several roads: nearness would be guessing.
    Several,
}

/// What the street of an address comes to.
pub open spec fn outcome_of(street: bool, known: bool, near: Seq<usize>) -> Outcome {
    if !street {
        Outcome::NoStreet
    } else if !known {
        Outcome::NoSuchName
    } else if near.len() == 0 {
        Outcome::TooFar
    } else if near.len() == 1 {
        Outcome::One(near[0])
    } else {
        Outcome::Several
    }
}

/// What the street of an address comes to, from the roads of that name that are
/// near, each once.
pub fn outcome(street: bool, known: bool, near: &[usize]) -> (o: Outcome)
    ensures
        o == if !street {
            Outcome::NoStreet
        } else if !known {
            Outcome::NoSuchName
        } else if near@.len() == 0 {
            Outcome::TooFar
        } else if near@.len() == 1 {
            Outcome::One(near@[0])
        } else {
            Outcome::Several
        },
        o == outcome_of(street, known, near@),
{
    if !street {
        Outcome::NoStreet
    } else if !known {
        Outcome::NoSuchName
    } else if near.len() == 0 {
        Outcome::TooFar
    } else if near.len() == 1 {
        Outcome::One(near[0])
    } else {
        Outcome::Several
    }
}

// ── Postcodes ───────────────────────────────────────────────────────
/// The postcodes that were seen on each road. Postcodes are given as ids.
pub struct Postcodes {
    seen: HashMap<usize, Vec<u32>>,
}

impl View for Postcodes {
    type V = Map<usize, Set<u32>>;

    closed spec fn view(&self) -> Map<usize, Set<u32>> {
        self.seen@.map_values(|list: Vec<u32>| list@.to_set())
    }
}

/// Whether a postcode was seen on a road.
pub open spec fn seen_on(m: Map<usize, Set<u32>>, road: usize, code: u32) -> bool {
    m.contains_key(road) && m[road].contains(code)
}

/// What is known with one more postcode seen on a road.
pub open spec fn with_seen(m: Map<usize, Set<u32>>, road: usize, code: u32) -> Map<
    usize,
    Set<u32>,
> {
    m.insert(
        road,
        if m.contains_key(road) {
            m[road].insert(code)
        } else {
            set![code]
        },
    )
}

/// Whether a list holds a number.
fn holds(list: &[u32], x: u32) -> (r: bool)
    ensures
        r == list@.contains(x),
{
    let mut i: usize = 0;
    while i < list.len()
        invariant
            i <= list@.len(),
            forall|k: int| 0 <= k < i ==> #[trigger] list@[k] != x,
        decreases list@.len() - i,
    {
        if list[i] == x {
            assert(list@[i as int] == x);
            return true;
        }
        i = i + 1;
    }
    false
}

impl Postcodes {
    /// Nothing was seen.
    pub fn new() -> (p: Self)
        ensures
            p@ == Map::<usize, Set<u32>>::empty(),
    {
        let p: Postcodes = Postcodes { seen: HashMap::new() };
        assert(p@ =~= Map::<usize, Set<u32>>::empty());
        p
    }

    /// Records that a postcode was seen on a road.
    pub fn learn(&mut self, road: usize, code: u32)
        ensures
            final(self)@ == with_seen(old(self)@, road, code),
    {
        let ghost before = self.seen@;
        let ghost known = self@;
        let mut list: Vec<u32> = match self.seen.remove(&road) {
            Some(l) => l,
            None => Vec::new(),
        };
        let ghost l0 = list@;
        if !holds(list.as_slice(), code) {
            list.push(code);
            assert(list@.to_set() =~= l0.to_set().insert(code)) by {
                assert forall|x: u32| list@.to_set().contains(x) <==> l0.to_set().insert(
                    code,
                ).contains(x) by {
                    if l0.contains(x) {
                        let i = choose|i: int| 0 <= i < l0.len() && l0[i] == x;
                        assert(list@[i] == x);
                    }
                    assert(list@[l0.len() as int] == code);
                }
            }
        } else {
            assert(list@.to_set() =~= l0.to_set().insert(code));
        }
        self.seen.insert(road, list);
        proof {
            if known.contains_key(road) {
                assert(before.contains_key(road));
                assert(known[road] == l0.to_set());
            } else {
                assert(!before.contains_key(road));
                assert(l0.to_set() =~= Set::<u32>::empty());
                assert(list@.to_set() =~= set![code]);
            }
            assert(self@ =~= with_seen(known, road, code));
        }
    }

    /// Whether a road has any postcode.
    pub fn has_any(&self, road: usize) -> (r: bool)
        ensures
            r == self@.contains_key(road),
    {
        self.seen.contains_key(&road)
    }

    /// Whether a postcode was seen on a road.
    pub fn has(&self, road: usize, code: u32) -> (r: bool)
        ensures
            r == seen_on(self@, road, code),
    {
        match self.seen.get(&road) {
            Some(list) => holds(list.as_slice(), code),
            None => false,
        }
    }
}

/// The roads that carry a postcode, in order.
pub open spec fn matching(m: Map<usize, Set<u32>>, roads: Seq<usize>, code: u32) -> Seq<usize> {
    roads.filter(|r: usize| seen_on(m, r, code))
}

/// The roads that carry a postcode.
fn hits(p: &Postcodes, roads: &[usize], code: u32) -> (out: Vec<usize>)
    ensures
        out@ == matching(p@, roads@, code),
{
    reveal(Seq::filter);
    let mut out: Vec<usize> = Vec::new();
    let mut i: usize = 0;
    assert(out@ =~= matching(p@, roads@.take(0), code));
    while i < roads.len()
        invariant
            i <= roads@.len(),
            out@ == matching(p@, roads@.take(i as int), code),
        decreases roads@.len() - i,
    {
        reveal(Seq::filter);
        assert(roads@.take(i + 1).drop_last() =~= roads@.take(i as int));
        assert(roads@.take(i + 1).last() == roads@[i as int]);
        if p.has(roads[i], code) {
            out.push(roads[i]);
        }
        i = i + 1;
    }
    assert(roads@.take(roads@.len() as int) =~= roads@);
    out
}

/// An address whose street came to several roads.
pub struct Ambiguous {
    pub code: Option<u32>,
    pub roads: Vec<usize>,
}

/// What is known after an ambiguous address was looked at: where its postcode
/// was seen on exactly one of its roads, that is the road.
pub open spec fn after_case(m: Map<usize, Set<u32>>, a: Ambiguous) -> Map<usize, Set<u32>> {
    match a.code {
        Some(code) => {
            let hit = matching(m, a.roads@, code);
            if a.roads@.len() > 1 && hit.len() == 1 {
                with_seen(m, hit[0], code)
            } else {
                m
            }
        },
        None => m,
    }
}

/// What is known after the first `k` ambiguous addresses were looked at.
pub open spec fn after_cases(m: Map<usize, Set<u32>>, cases: Seq<Ambiguous>, k: int) -> Map<
    usize,
    Set<u32>,
>
    decreases k,
{
    if k <= 0 {
        m
    } else {
        after_case(after_cases(m, cases, k - 1), cases[k - 1])
    }
}

/// Feeds what the postcodes settle back in, once. A second round would let a
/// guess become evidence.
pub fn second_round(p: &mut Postcodes, cases: &[Ambiguous])
    ensures
        final(p)@ == after_cases(old(p)@, cases@, cases@.len() as int),
{
    let ghost given = p@;
    let mut k: usize = 0;
    while k < cases.len()
        invariant
            k <= cases@.len(),
            p@ == after_cases(given, cases@, k as int),
        decreases cases@.len() - k,
    {
        let a: &Ambiguous = &cases[k];
        if let Some(code) = a.code {
            let hit: Vec<usize> = hits(p, a.roads.as_slice(), code);
            if a.roads.len() > 1 && hit.len() == 1 {
                p.learn(hit[0], code);
            }
        }
        k = k + 1;
    }
}

/// Feeding a postcode back in says nothing new: it was already seen on the road
/// that it is recorded for.
pub proof fn law_second_round_adds_nothing(
    m: Map<usize, Set<u32>>,
    cases: Seq<Ambiguous>,
    k: int,
)
    requires
        0 <= k <= cases.len(),
    ensures
        after_cases(m, cases, k) == m,
    decreases k,
{
    if k > 0 {
        law_second_round_adds_nothing(m, cases, k - 1);
        let a = cases[k - 1];
        if let Some(code) = a.code {
            let hit = matching(m, a.roads@, code);
            if a.roads@.len() > 1 && hit.len() == 1 {
                a.roads@.lemma_filter_pred(|r: usize| seen_on(m, r, code), 0);
                assert(m[hit[0]].insert(code) =~= m[hit[0]]);
                assert(with_seen(m, hit[0], code) =~= m);
            }
        }
    }
}

/// What a postcode makes of an ambiguous address.
#[derive(Debug, Clone, Copy, PartialEq, Eq, Structural)]
pub enum Settled {
    /// The address has no postcode.
    NoPostcode,
    /// None of its roads has any: missing data, not a failure.
    NoData,
    /// It was seen on none of them.
    NoMatch,
    /// It was seen on one of them.
    One,
    /// It was seen on several of them.
    Several,
}

/// What a postcode makes of an ambiguous address.
pub open spec fn settled_by(m: Map<usize, Set<u32>>, a: Ambiguous) -> Settled {
    match a.code {
        None => Settled::NoPostcode,
        Some(code) => {
            let n = matching(m, a.roads@, code).len();
            if n == 0 {
                if exists|i: int| 0 <= i < a.roads@.len() && m.contains_key(#[trigger] a.roads@[i]) {
                    Settled::NoMatch
                } else {
                    Settled::NoData
                }
            } else if n == 1 {
                Settled::One
            } else {
                Settled::Several
            }
        },
    }
}

/// What a postcode makes of an ambiguous address.
pub fn settle(p: &Postcodes, a: &Ambiguous) -> (s: Settled)
    ensures
        s == settled_by(p@, *a),
{
    let code: u32 = match a.code {
        Some(c) => c,
        None => {
            return Settled::NoPostcode;
        },
    };
    let n: usize = hits(p, a.roads.as_slice(), code).len();
    if n == 1 {
        return Settled::One;
    }
    if n > 1 {
        return Settled::Several;
    }
    let mut i: usize = 0;
    while i < a.roads.len()
        invariant
            i <= a.roads@.len(),
            a.code == Some(code),
            matching(p@, a.roads@, code).len() == 0,
            forall|k: int| 0 <= k < i ==> !p@.contains_key(#[trigger] a.roads@[k]),
        decreases a.roads@.len() - i,
    {
        if p.has_any(a.roads[i]) {
            return Settled::NoMatch;
        }
        i = i + 1;
    }
    Settled::NoData
}

// ── Laws of postcodes ───────────────────────────────────────────────
/// What was learned is known, and nothing else is.
pub proof fn law_what_is_learned_is_known(
    m: Map<usize, Set<u32>>,
    road: usize,
    code: u32,
    r: usize,
    c: u32,
)
    ensures
        seen_on(with_seen(m, road, code), r, c) <==> seen_on(m, r, c) || (r == road && c == code),
{
}

/// A postcode settles an address exactly where it was seen on one of its roads and on no
/// other of them; it matches none where it was seen on none, though some of them have
/// postcodes; and it is of no use where none of them has any.
pub proof fn law_one_road_settles(m: Map<usize, Set<u32>>, a: Ambiguous, code: u32)
    requires
        a.code == Some(code),
    ensures
        settled_by(m, a) == Settled::One <==> exists|i: int|
            0 <= i < a.roads@.len() && seen_on(m, #[trigger] a.roads@[i], code) && forall|j: int|
                0 <= j < a.roads@.len() && j != i ==> !seen_on(m, #[trigger] a.roads@[j], code),
        settled_by(m, a) == Settled::NoMatch || settled_by(m, a) == Settled::NoData <==> forall|
            j: int,
        |
            0 <= j < a.roads@.len() ==> !seen_on(m, #[trigger] a.roads@[j], code),
        settled_by(m, a) == Settled::NoData <==> forall|j: int|
            0 <= j < a.roads@.len() ==> !m.contains_key(#[trigger] a.roads@[j]),
        settled_by(m, a) != Settled::NoPostcode,
{
    let p = |r: usize| seen_on(m, r, code);
    let s = a.roads@;
    lemma_none_passes(s, p);
    lemma_only_passes(s, p);
    if exists|i: int| #[trigger] only(s, p, i) {
        let i = choose|i: int| #[trigger] only(s, p, i);
        assert(seen_on(m, s[i], code));
        assert forall|j: int| 0 <= j < s.len() && j != i implies !seen_on(
            m,
            #[trigger] s[j],
            code,
        ) by {
            assert(!p(s[j]));
        }
    }
    if exists|i: int|
        0 <= i < s.len() && seen_on(m, #[trigger] s[i], code) && forall|j: int|
            0 <= j < s.len() && j != i ==> !seen_on(m, #[trigger] s[j], code) {
        let i = choose|i: int|
            0 <= i < s.len() && seen_on(m, #[trigger] s[i], code) && forall|j: int|
                0 <= j < s.len() && j != i ==> !seen_on(m, #[trigger] s[j], code);
        assert(only(s, p, i));
    }
    assert((forall|i: int| 0 <= i < s.len() ==> !p(#[trigger] s[i])) <==> forall|i: int|
        0 <= i < s.len() ==> !seen_on(m, #[trigger] s[i], code));
}

proof fn lemma_none_passes(s: Seq<usize>, p: spec_fn(usize) -> bool)
    ensures
        s.filter(p).len() == 0 <==> forall|i: int| 0 <= i < s.len() ==> !p(#[trigger] s[i]),
    decreases s.len(),
{
    reveal(Seq::filter);
    if s.len() > 0 {
        let t = s.drop_last();
        lemma_none_passes(t, p);
        assert(s[s.len() - 1] == s.last());
        if t.filter(p).len() == 0 {
            assert forall|i: int| 0 <= i < t.len() implies !p(#[trigger] s[i]) by {
                assert(!p(t[i]));
            }
        } else {
            let i = choose|i: int| 0 <= i < t.len() && p(#[trigger] t[i]);
            assert(p(s[i]));
        }
    }
}

/// Whether place `i` is the one that passes.
spec fn only(s: Seq<usize>, p: spec_fn(usize) -> bool, i: int) -> bool {
    0 <= i < s.len() && p(s[i]) && forall|j: int|
        0 <= j < s.len() && j != i ==> !p(#[trigger] s[j])
}

proof fn lemma_only_passes(s: Seq<usize>, p: spec_fn(usize) -> bool)
    ensures
        s.filter(p).len() == 1 <==> exists|i: int| #[trigger] only(s, p, i),
    decreases s.len(),
{
    reveal(Seq::filter);
    if s.len() > 0 {
        let (t, n) = (s.drop_last(), s.len() - 1);
        lemma_only_passes(t, p);
        lemma_none_passes(t, p);
        if p(s[n]) {
            if t.filter(p).len() == 0 {
                assert forall|j: int| 0 <= j < s.len() && j != n implies !p(#[trigger] s[j]) by {
                    assert(!p(t[j]));
                }
                assert(only(s, p, n));
            } else {
                let k = choose|k: int| 0 <= k < t.len() && p(#[trigger] t[k]);
                assert(p(s[k]));
                assert forall|i: int| !(#[trigger] only(s, p, i)) by {
                    if only(s, p, i) {
                        assert(i == n);
                        assert(i == k);
                    }
                }
            }
        } else {
            assert forall|i: int| #[trigger] only(s, p, i) <==> only(t, p, i) by {
                if only(s, p, i) {
                    assert(i != n);
                    assert forall|j: int| 0 <= j < t.len() && j != i implies !p(#[trigger] t[j]) by {
                        assert(!p(s[j]));
                    }
                }
                if only(t, p, i) {
                    assert forall|j: int| 0 <= j < s.len() && j != i implies !p(#[trigger] s[j]) by {
                        if j < n {
                            assert(!p(t[j]));
                        }
                    }
                }
            }
            if t.filter(p).len() == 1 {
                let i = choose|i: int| #[trigger] only(t, p, i);
                assert(only(s, p, i));
            }
            if exists|i: int| #[trigger] only(s, p, i) {
                let i = choose|i: int| #[trigger] only(s, p, i);
                assert(only(t, p, i));
            }
        }
    }
}

/// The address of a way is a building's exactly where some tag of the way says building.
pub proof fn law_buildings_carry_addresses(tags: Seq<(Seq<char>, Seq<char>)>)
    ensures
        form_of(tags) == Form::BuildingWay <==> exists|i: int|
            0 <= i < tags.len() && (#[trigger] tags[i]).0 == "building"@,
        form_of(tags) != Form::Node,
{
    crate::text::law_a_key_is_there(tags, "building"@);
}

/// An address comes to a road exactly where it names a street that is known and one road
/// of that name is near, and it is that road: of two or more none is guessed. What it lacks
/// is told apart: a street, a way of its name, one that is near.
pub proof fn law_no_road_is_guessed(street: bool, known: bool, near: Seq<usize>, road: usize)
    ensures
        outcome_of(street, known, near) == Outcome::One(road) <==> street && known && near
            == seq![road],
        outcome_of(street, known, near) == Outcome::Several <==> street && known && near.len() > 1,
        outcome_of(street, known, near) == Outcome::NoStreet <==> !street,
        outcome_of(street, known, near) == Outcome::NoSuchName <==> street && !known,
{
    if near.len() == 1 {
        assert(near =~= seq![near[0]]);
        assert(seq![road][0] == road);
    }
}

} // verus!
