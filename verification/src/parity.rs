//! Parity: what a bake says of every element, read back from the bytes of its
//! rows and nothing else.
//!
//! Rows of one element need not stand together. They are gathered by the ordinal
//! that each of them carries, and their tags are strung together in row order.

use crate::bake::{
    are_keys_of, are_rows_of, as_sorted, bake_features, is_bake_of, is_built, is_key_of, is_sound,
    lemma_row_is_a_part, split_rows, Bake,
};
use crate::book::{strictly_ascending, CodebookError, IdentityCodebook};
use crate::facet::MAX_ENTRIES;
use crate::cluster::{facets_below, facet_at, read_facet, Facet};
use crate::identity::{identity_of, read_identity};
use crate::node::{key_code, NodeRow, GEO_IDENTITY_SLOT, RESERVED_SLOTS, ROW_SLOTS};
use crate::order::{
    lemma_filtered, lemma_filtered_multiset, lemma_filtered_order, lemma_one_order,
    lemma_same_elements,
};
use crate::read::{anchor_cell, Feature};
use crate::row::{
    all_continuations, buildable, continuations, identity_key, identity_text,
    identity_texts, is_row_of, key_feature,
    law_identity_text_is_faithful, law_overflow_is_lossless, law_row_reads_back, overflow_rows,
    part, tags_of_parts, Keyed, FIRST_TAG_SLOT,
};
use crate::tags::{law_ordinals_are_faithful, ResolvedTags};
use crate::tms::{cell_code, cell_to_morton, tiers};
use crate::vocab::OSM_NODE;
use std::collections::HashMap;
use vstd::prelude::*;
use vstd::std_specs::hash::*;

verus! {

/// What the rows of one element say.
#[derive(Debug)]
pub struct Recovered {
    pub kind: u16,
    /// The Morton code of its position.
    pub code: u64,
    /// Its tags, in ordinals.
    pub tags: Vec<(u32, u32)>,
}

/// What the rows of one element say.
pub struct Element {
    pub kind: u16,
    pub code: u64,
    pub tags: Seq<(u32, u32)>,
}

impl View for Recovered {
    type V = Element;

    open spec fn view(&self) -> Element {
        Element { kind: self.kind, code: self.code, tags: self.tags@ }
    }
}

/// The tags of a member in the slots of a row below `end`, in slot order.
pub open spec fn tags_below(row: NodeRow, member: u32, end: int) -> Seq<(u32, u32)>
    decreases end,
{
    if end <= RESERVED_SLOTS {
        Seq::empty()
    } else {
        let front = tags_below(row, member, end - 1);
        match facet_at(row, end - 1) {
            Some(Facet::Tag { member: m, key, value }) => if m == member {
                front.push((key, value))
            } else {
                front
            },
            _ => front,
        }
    }
}

/// What one row says, and of which ordinal. A row without an identity says
/// nothing.
pub open spec fn said_by(row: NodeRow) -> Option<(u32, Element)> {
    match identity_of(row) {
        Some((kind, ordinal)) => Some(
            (
                ordinal,
                Element {
                    kind,
                    code: key_code(row.key.bytes@) as u64,
                    tags: tags_below(row, ordinal, ROW_SLOTS as int),
                },
            ),
        ),
        None => None,
    }
}

/// What rows say, by ordinal.
pub open spec fn gathered(rows: Seq<NodeRow>) -> Map<u32, Element>
    decreases rows.len(),
{
    if rows.len() == 0 {
        Map::empty()
    } else {
        let before = gathered(rows.drop_last());
        match said_by(rows.last()) {
            Some((o, e)) => before.insert(
                o,
                if before.contains_key(o) {
                    Element { tags: before[o].tags + e.tags, ..e }
                } else {
                    e
                },
            ),
            None => before,
        }
    }
}

/// What recovered elements say.
pub open spec fn elements_of(got: Map<u32, Recovered>) -> Map<u32, Element> {
    got.map_values(|r: Recovered| r@)
}

/// The same elements, one by one.
proof fn lemma_elements_of(got: Map<u32, Recovered>, elements: Map<u32, Element>)
    requires
        got.dom() == elements.dom(),
        forall|o: u32| #[trigger] got.contains_key(o) ==> got[o]@ == elements[o],
    ensures
        elements_of(got) == elements,
{
    assert(elements_of(got) =~= elements);
}

/// Reads a row: its ordinal and what it says.
pub fn read_row(row: &NodeRow) -> (r: Option<(u32, Recovered)>)
    ensures
        match r {
            Some((o, e)) => said_by(*row) == Some((o, e@)),
            None => said_by(*row) is None,
        },
{
    let (kind, ordinal): (u16, u32) = match read_identity(row) {
        Some(v) => v,
        None => {
            return None;
        },
    };
    let mut tags: Vec<(u32, u32)> = Vec::new();
    let mut s: usize = RESERVED_SLOTS;
    assert(tags@ =~= tags_below(*row, ordinal, RESERVED_SLOTS as int));
    while s < ROW_SLOTS
        invariant
            RESERVED_SLOTS <= s <= ROW_SLOTS,
            tags@ == tags_below(*row, ordinal, s as int),
        decreases ROW_SLOTS - s,
    {
        match read_facet(row, s) {
            Some(Facet::Tag { member, key, value }) => {
                if member == ordinal {
                    tags.push((key, value));
                }
            },
            _ => {},
        }
        s = s + 1;
    }
    Some((ordinal, Recovered { kind, code: row.key.code(), tags }))
}

/// Reads rows back, by ordinal. None where a row carries no identity.
pub fn recover(rows: &[NodeRow]) -> (r: Option<HashMap<u32, Recovered>>)
    ensures
        match r {
            Some(got) => elements_of(got@) == gathered(rows@) && forall|i: int|
                0 <= i < rows@.len() ==> said_by(#[trigger] rows@[i]) is Some,
            None => exists|i: int| 0 <= i < rows@.len() && said_by(#[trigger] rows@[i]) is None,
        },
{
    broadcast use group_hash_axioms;

    let mut got: HashMap<u32, Recovered> = HashMap::new();
    let mut i: usize = 0;
    assert(rows@.take(0) =~= Seq::<NodeRow>::empty());
    assert(elements_of(got@) =~= gathered(rows@.take(0)));
    while i < rows.len()
        invariant
            i <= rows@.len(),
            elements_of(got@) == gathered(rows@.take(i as int)),
            forall|k: int| 0 <= k < i ==> said_by(#[trigger] rows@[k]) is Some,
        decreases rows@.len() - i,
    {
        broadcast use group_hash_axioms;

        let ghost before = got@;
        let ghost elements = gathered(rows@.take(i as int));
        let (o, e): (u32, Recovered) = match read_row(&rows[i]) {
            Some(v) => v,
            None => {
                return None;
            },
        };
        proof {
            assert(rows@.take(i + 1).drop_last() =~= rows@.take(i as int));
            assert(rows@.take(i + 1).last() == rows@[i as int]);
        }
        let Recovered { kind, code, tags: own } = e;
        let mut own: Vec<(u32, u32)> = own;
        let mut tags: Vec<(u32, u32)> = match got.remove(&o) {
            Some(r) => r.tags,
            None => Vec::new(),
        };
        let ghost (t0, t1) = (tags@, own@);
        tags.append(&mut own);
        let all: Recovered = Recovered { kind, code, tags };
        got.insert(o, all);
        proof {
            let after = gathered(rows@.take(i + 1));
            assert(elements == elements_of(before));
            if elements.contains_key(o) {
                assert(before.contains_key(o));
                assert(t0 == elements[o].tags);
            } else {
                assert(!before.contains_key(o));
                assert(t0 + t1 =~= t1);
            }
            assert(got@[o]@ == after[o]);
            assert(got@.dom() =~= after.dom());
            assert forall|p: u32| #[trigger] got@.contains_key(p) implies got@[p]@ == after[p] by {
                if p != o {
                    assert(before.contains_key(p));
                    assert(got@[p] == before[p]);
                    assert(elements[p] == before[p]@);
                }
            }
            lemma_elements_of(got@, after);
        }
        i = i + 1;
    }
    assert(rows@.take(rows@.len() as int) =~= rows@);
    Some(got)
}

// ── What is baked comes back ────────────────────────────────────────
/// What a row says that was built from `k`.
pub open spec fn element_of(k: Keyed, tags: Seq<(u32, u32)>) -> Element {
    Element { kind: k.entity_type, code: k.morton, tags: k.tags.of(tags) }
}

/// The tags of rows, one after the other.
pub open spec fn tags_in(s: Seq<Keyed>, tags: Seq<(u32, u32)>) -> Seq<(u32, u32)>
    decreases s.len(),
{
    if s.len() == 0 {
        Seq::empty()
    } else {
        tags_in(s.drop_last(), tags) + s.last().tags.of(tags)
    }
}

/// Whether `k` can be baked and read back: an element with its position, and tags
/// that exist.
pub open spec fn is_feature_key(k: Keyed, tags: Seq<(u32, u32)>) -> bool {
    &&& k.tiers == tiers(k.morton)
    &&& k.edge_names.len == 0
    &&& k.tags.start + k.tags.len <= u32::MAX
    &&& k.tags.within(tags.len())
}

/// The first tags of a row's tag slots.
proof fn lemma_tags_below(row: NodeRow, k: Keyed, tags: Seq<(u32, u32)>, ordinal: u32, end: int)
    requires
        buildable(k, tags),
        is_row_of(row, k, tags),
        k.tiers == tiers(k.morton),
        k.identity_ordinal == Some(ordinal),
        k.edge_names.len == 0,
        RESERVED_SLOTS <= end <= ROW_SLOTS,
    ensures
        tags_below(row, ordinal, end) == k.tags.of(tags).take(
            if end <= FIRST_TAG_SLOT {
                0
            } else if end - FIRST_TAG_SLOT <= k.tags.len {
                end - FIRST_TAG_SLOT
            } else {
                k.tags.len as int
            },
        ),
    decreases end,
{
    let own = k.tags.of(tags);
    law_row_reads_back(row, k, tags, ordinal);
    if end > RESERVED_SLOTS {
        lemma_tags_below(row, k, tags, ordinal, end - 1);
        let slot = end - 1;
        if slot == GEO_IDENTITY_SLOT {
            assert(tags_below(row, ordinal, end) =~= own.take(0));
        } else if slot < FIRST_TAG_SLOT {
            assert(facet_at(row, slot) is None);
            assert(tags_below(row, ordinal, end) =~= own.take(0));
        } else {
            let i = slot - FIRST_TAG_SLOT;
            if i < k.tags.len {
                assert(facet_at(row, FIRST_TAG_SLOT + i) == Some(
                    Facet::Tag { member: ordinal, key: own[i].0, value: own[i].1 },
                ));
                assert(own.take(i + 1) =~= own.take(i).push(own[i]));
            } else {
                assert(facet_at(row, slot) is None);
            }
        }
    } else {
        assert(tags_below(row, ordinal, end) =~= own.take(0));
    }
}

/// A built row says what it was built from.
pub proof fn law_row_says_its_element(row: NodeRow, k: Keyed, tags: Seq<(u32, u32)>, ordinal: u32)
    requires
        buildable(k, tags),
        is_row_of(row, k, tags),
        k.identity_ordinal == Some(ordinal),
        is_feature_key(k, tags),
    ensures
        said_by(row) == Some((ordinal, element_of(k, tags))),
{
    law_row_reads_back(row, k, tags, ordinal);
    lemma_tags_below(row, k, tags, ordinal, ROW_SLOTS as int);
    assert(k.tags.of(tags).take(k.tags.len as int) =~= k.tags.of(tags));
}

/// What is gathered under an ordinal comes from the rows that carry it.
proof fn lemma_gathered(
    rows: Seq<NodeRow>,
    s: Seq<Keyed>,
    tags: Seq<(u32, u32)>,
    o: u32,
    p: spec_fn(Keyed) -> bool,
)
    requires
        rows.len() == s.len(),
        forall|j: int|
            0 <= j < s.len() ==> {
                &&& (#[trigger] said_by(rows[j])) matches Some((oj, e))
                &&& e == element_of(s[j], tags)
                &&& (oj == o <==> p(s[j]))
            },
    ensures
        gathered(rows).contains_key(o) <==> s.filter(p).len() > 0,
        s.filter(p).len() > 0 ==> gathered(rows)[o] == (Element {
            tags: tags_in(s.filter(p), tags),
            ..element_of(s.filter(p).last(), tags)
        }),
    decreases rows.len(),
{
    reveal(Seq::filter);
    if rows.len() > 0 {
        let n = rows.len() - 1;
        let (front, mine) = (rows.drop_last(), s.drop_last());
        assert(said_by(rows[n]) is Some);
        assert forall|j: int| 0 <= j < mine.len() implies {
            &&& (#[trigger] said_by(front[j])) matches Some((oj, e))
            &&& e == element_of(mine[j], tags)
            &&& (oj == o <==> p(mine[j]))
        } by {
            assert(front[j] == rows[j] && mine[j] == s[j]);
            assert(said_by(rows[j]) is Some);
        }
        lemma_gathered(front, mine, tags, o, p);
        if p(s[n]) {
            let (f, g) = (mine.filter(p), s.filter(p));
            assert(g == f.push(s[n]));
            assert(g.drop_last() =~= f);
            assert(g.last() == s[n]);
            assert(said_by(rows.last()) == Some((o, element_of(s[n], tags))));
            if f.len() == 0 {
                assert(tags_in(f, tags) =~= Seq::empty());
                assert(tags_in(g, tags) =~= s[n].tags.of(tags));
            }
        }
    }
}

/// All rows of a feature, in order.
pub open spec fn parts(k: Keyed) -> Seq<Keyed> {
    Seq::new(overflow_rows(k.tags.len as nat) + 1, |i: int| part(k, i))
}

/// The rows of a feature stand in the order of their tags, and no two of them
/// tie.
proof fn lemma_parts_ascend(k: Keyed)
    requires
        k.tags.start + k.tags.len <= u32::MAX,
    ensures
        forall|i: int, j: int|
            #![trigger parts(k)[i], parts(k)[j]]
            0 <= i < j < parts(k).len() ==> crate::order::Ranked::ranks_before(
                &parts(k)[i],
                &parts(k)[j],
            ) && !crate::order::Ranked::ranks_before(&parts(k)[j], &parts(k)[i]),
{
    assert forall|i: int, j: int|
        #![trigger parts(k)[i], parts(k)[j]]
        0 <= i < j < parts(k).len() implies crate::order::Ranked::ranks_before(
        &parts(k)[i],
        &parts(k)[j],
    ) && !crate::order::Ranked::ranks_before(&parts(k)[j], &parts(k)[i]) by {
        assert(28 * j <= k.tags.len);
        assert(parts(k)[i].tags.start == k.tags.start + 28 * i);
        assert(parts(k)[j].tags.start == k.tags.start + 28 * j);
    }
}

/// The tags of the rows of a feature are its tags.
proof fn lemma_tags_in_parts(k: Keyed, tags: Seq<(u32, u32)>, n: int)
    requires
        0 <= n <= parts(k).len(),
    ensures
        tags_in(parts(k).take(n), tags) == tags_of_parts(k.tags, tags, n),
    decreases n,
{
    let s = parts(k).take(n);
    if n > 0 {
        lemma_tags_in_parts(k, tags, n - 1);
        assert(s.drop_last() =~= parts(k).take(n - 1));
        assert(s.last() == part(k, n - 1));
    }
}

/// Whether no two features are the same element.
pub open spec fn distinct_elements(keys: Seq<Keyed>) -> bool {
    forall|i: int, j: int|
        #![trigger keys[i], keys[j]]
        0 <= i < j < keys.len() ==> !(keys[i].entity_type == keys[j].entity_type && keys[i].osm_id
            == keys[j].osm_id)
}

/// Whether a row is of the same element as `k`.
pub open spec fn of_element(k: Keyed) -> spec_fn(Keyed) -> bool {
    |r: Keyed| r.entity_type == k.entity_type && r.osm_id == k.osm_id
}

/// Filtering what all passes changes nothing.
proof fn lemma_filter_all(s: Seq<Keyed>, p: spec_fn(Keyed) -> bool)
    requires
        forall|i: int| 0 <= i < s.len() ==> p(#[trigger] s[i]),
    ensures
        s.filter(p) == s,
    decreases s.len(),
{
    reveal(Seq::filter);
    if s.len() > 0 {
        assert(p(s[s.len() - 1]));
        assert forall|i: int| 0 <= i < s.drop_last().len() implies p(#[trigger] s.drop_last()[i]) by {
            assert(s.drop_last()[i] == s[i]);
        }
        lemma_filter_all(s.drop_last(), p);
        assert(s.filter(p) =~= s);
    }
}

/// Filtering what none passes leaves nothing.
proof fn lemma_filter_none(s: Seq<Keyed>, p: spec_fn(Keyed) -> bool)
    requires
        forall|i: int| 0 <= i < s.len() ==> !p(#[trigger] s[i]),
    ensures
        s.filter(p) == Seq::<Keyed>::empty(),
    decreases s.len(),
{
    reveal(Seq::filter);
    if s.len() > 0 {
        assert(!p(s[s.len() - 1]));
        assert forall|i: int| 0 <= i < s.drop_last().len() implies !p(
            #[trigger] s.drop_last()[i],
        ) by {
            assert(s.drop_last()[i] == s[i]);
        }
        lemma_filter_none(s.drop_last(), p);
    }
    assert(s.filter(p) =~= Seq::<Keyed>::empty());
}

/// The first rows of all features hold one of each.
proof fn lemma_firsts_of(keys: Seq<Keyed>, i: int, n: int)
    requires
        distinct_elements(keys),
        0 <= i < keys.len(),
        0 <= n <= keys.len(),
    ensures
        keys.take(n).map_values(|k: Keyed| part(k, 0)).filter(of_element(keys[i])) == if i < n {
            seq![part(keys[i], 0)]
        } else {
            Seq::empty()
        },
    decreases n,
{
    reveal(Seq::filter);
    let f = |k: Keyed| part(k, 0);
    let s = keys.take(n).map_values(f);
    let p = of_element(keys[i]);
    if n > 0 {
        lemma_firsts_of(keys, i, n - 1);
        assert(s.drop_last() =~= keys.take(n - 1).map_values(f));
        assert(s.last() == part(keys[n - 1], 0));
        if n - 1 < i {
            assert(!p(s.last()));
        } else if n - 1 > i {
            assert(!p(s.last()));
        } else {
            assert(p(s.last()));
            assert(s.filter(p) =~= seq![part(keys[i], 0)]);
        }
    } else {
        assert(s.filter(p) =~= Seq::empty());
    }
}

/// The other rows of all features hold those of each.
proof fn lemma_rest_of(keys: Seq<Keyed>, i: int, n: int)
    requires
        distinct_elements(keys),
        0 <= i < keys.len(),
        0 <= n <= keys.len(),
    ensures
        all_continuations(keys.take(n)).filter(of_element(keys[i])) == if i < n {
            continuations(keys[i])
        } else {
            Seq::empty()
        },
    decreases n,
{
    let p = of_element(keys[i]);
    let c = all_continuations(keys.take(n));
    if n > 0 {
        lemma_rest_of(keys, i, n - 1);
        let (a, b) = (all_continuations(keys.take(n - 1)), continuations(keys[n - 1]));
        assert(keys.take(n).drop_last() =~= keys.take(n - 1));
        assert(keys.take(n).last() == keys[n - 1]);
        assert(c == a + b);
        lemma_continuations_of(keys, i, n - 1);
        Seq::filter_distributes_over_add(a, b, p);
        assert(c.filter(p) =~= if i < n {
            continuations(keys[i])
        } else {
            Seq::empty()
        });
    } else {
        assert(keys.take(0) =~= Seq::<Keyed>::empty());
        lemma_filter_none(c, p);
    }
}

/// The other rows of a feature are of that element and of no other.
proof fn lemma_continuations_of(keys: Seq<Keyed>, i: int, m: int)
    requires
        distinct_elements(keys),
        0 <= i < keys.len(),
        0 <= m < keys.len(),
    ensures
        continuations(keys[m]).filter(of_element(keys[i])) == if i == m {
            continuations(keys[i])
        } else {
            Seq::empty()
        },
{
    let p = of_element(keys[i]);
    let b = continuations(keys[m]);
    if m == i {
        lemma_filter_all(b, p);
    } else {
        assert(!(keys[m].entity_type == keys[i].entity_type && keys[m].osm_id == keys[i].osm_id))
            by {
            if m < i {
                assert(keys[m] == keys[m] && keys[i] == keys[i]);
            }
        }
        lemma_filter_none(b, p);
    }
}

/// The first row of a feature and the others are its parts.
proof fn lemma_first_and_rest(k: Keyed)
    ensures
        seq![part(k, 0)] + continuations(k) == parts(k),
{
    assert(seq![part(k, 0)] + continuations(k) =~= parts(k));
}

/// Of all rows, those of one feature are its parts.
#[verifier::spinoff_prover]
proof fn lemma_split_of(keys: Seq<Keyed>, i: int)
    requires
        distinct_elements(keys),
        0 <= i < keys.len(),
    ensures
        split_rows(keys).filter(of_element(keys[i])) == parts(keys[i]),
{
    let p = of_element(keys[i]);
    let n = keys.len() as int;
    let whole = keys.take(n);
    assert(whole =~= keys);
    let firsts = whole.map_values(|k: Keyed| part(k, 0));
    let rest = all_continuations(whole);
    lemma_firsts_of(keys, i, n);
    lemma_rest_of(keys, i, n);
    Seq::filter_distributes_over_add(firsts, rest, p);
    lemma_first_and_rest(keys[i]);
    assert(split_rows(whole) == firsts + rest);
}

/// Of the rows of a bake, those of one feature are its parts, in order.
proof fn lemma_rows_of_feature(b: Bake, keys: Seq<Keyed>, i: int)
    requires
        is_bake_of(b, keys),
        distinct_elements(keys),
        0 <= i < keys.len(),
        keys[i].tags.start + keys[i].tags.len <= u32::MAX,
    ensures
        b.keyed@.map_values(|k: Keyed| as_sorted(k)).filter(of_element(keys[i])) == parts(keys[i]),
{
    let sorted = b.keyed@.map_values(|k: Keyed| as_sorted(k));
    let p = of_element(keys[i]);
    lemma_split_of(keys, i);
    lemma_filtered_multiset(sorted, split_rows(keys), p);
    lemma_filtered_order(sorted, p);
    lemma_parts_ascend(keys[i]);
    lemma_one_order(parts(keys[i]), sorted.filter(p));
}

/// The bake loses nothing: read back from the rows alone, every feature has its
/// kind, its position and all its tags in order, under the ordinal that names it
/// in the book.
pub proof fn law_bake_reads_back(
    b: Bake,
    rows: Seq<NodeRow>,
    keys: Seq<Keyed>,
    tags: Seq<(u32, u32)>,
    i: int,
)
    requires
        is_bake_of(b, keys),
        are_rows_of(rows, b, tags),
        distinct_elements(keys),
        forall|j: int| 0 <= j < keys.len() ==> is_feature_key(#[trigger] keys[j], tags),
        0 <= i < keys.len(),
    ensures
        exists|o: u32|
            o < b.book@.len() && b.book@[o as int] == identity_text(
                keys[i].entity_type,
                keys[i].osm_id,
            ) && #[trigger] gathered(rows).contains_key(o) && gathered(rows)[o] == element_of(
                keys[i],
                tags,
            ),
{
    let sorted = b.keyed@.map_values(|k: Keyed| as_sorted(k));
    let k = keys[i];
    let p = of_element(k);
    let mine = sorted.filter(p);
    lemma_rows_of_feature(b, keys, i);
    assert(mine == parts(k));
    assert(mine.contains(mine[0]));
    lemma_filtered(sorted, p, mine[0]);
    let j = choose|j: int| 0 <= j < sorted.len() && sorted[j] == mine[0];
    let o = b.keyed@[j].identity_ordinal->0;
    assert(b.book@[o as int] == identity_text(k.entity_type, k.osm_id));
    assert forall|m: int| 0 <= m < sorted.len() implies {
        &&& (#[trigger] said_by(rows[m])) matches Some((om, e))
        &&& e == element_of(sorted[m], tags)
        &&& (om == o <==> p(sorted[m]))
    } by {
        let r = b.keyed@[m];
        let om = r.identity_ordinal->0;
        lemma_row_is_a_part(b, keys, m);
        let (a, n) = choose|a: int, n: int|
            0 <= a < keys.len() && 0 <= n <= overflow_rows(keys[a].tags.len as nat) && as_sorted(r)
                == #[trigger] part(keys[a], n);
        assert(is_feature_key(keys[a], tags));
        assert(28 * n <= keys[a].tags.len);
        assert(is_feature_key(r, tags));
        assert(is_built(rows[m], r, tags));
        law_row_says_its_element(rows[m], r, tags, om);
        law_ordinals_are_faithful(b.book@, om as int, o as int);
        law_identity_text_is_faithful(r.entity_type, r.osm_id, k.entity_type, k.osm_id);
    }
    lemma_gathered(rows, sorted, tags, o, p);
    let n = parts(k).len() as int;
    assert(parts(k).take(n) =~= parts(k));
    lemma_tags_in_parts(k, tags, n);
    law_overflow_is_lossless(k.tags, tags);
    assert(gathered(rows).contains_key(o));
    assert(mine.last() == part(k, n - 1));
    assert(gathered(rows)[o] == element_of(k, tags));
}

/// Nothing is made up: every element that is read back from the rows of a bake
/// is one of its features.
pub proof fn law_bake_adds_nothing(
    b: Bake,
    rows: Seq<NodeRow>,
    keys: Seq<Keyed>,
    tags: Seq<(u32, u32)>,
    o: u32,
)
    requires
        is_bake_of(b, keys),
        are_rows_of(rows, b, tags),
        distinct_elements(keys),
        forall|j: int| 0 <= j < keys.len() ==> is_feature_key(#[trigger] keys[j], tags),
        gathered(rows).contains_key(o),
    ensures
        exists|i: int|
            0 <= i < keys.len() && o < b.book@.len() && b.book@[o as int] == identity_text(
                keys[i].entity_type,
                keys[i].osm_id,
            ) && gathered(rows)[o] == element_of(#[trigger] keys[i], tags),
{
    let j = lemma_gathered_from(rows, o);
    let r = b.keyed@[j];
    lemma_row_is_a_part(b, keys, j);
    let (i, n) = choose|i: int, n: int|
        0 <= i < keys.len() && 0 <= n <= overflow_rows(keys[i].tags.len as nat) && as_sorted(r)
            == #[trigger] part(keys[i], n);
    assert(is_feature_key(keys[i], tags));
    assert(28 * n <= keys[i].tags.len);
    assert(is_feature_key(r, tags));
    assert(is_built(rows[j], r, tags));
    law_row_says_its_element(rows[j], r, tags, r.identity_ordinal->0);
    law_bake_reads_back(b, rows, keys, tags, i);
    let q = choose|q: u32|
        q < b.book@.len() && b.book@[q as int] == identity_text(
            keys[i].entity_type,
            keys[i].osm_id,
        ) && #[trigger] gathered(rows).contains_key(q) && gathered(rows)[q] == element_of(
            keys[i],
            tags,
        );
    law_ordinals_are_faithful(b.book@, q as int, o as int);
}

/// A row that an element was gathered from.
proof fn lemma_gathered_from(rows: Seq<NodeRow>, o: u32) -> (j: int)
    requires
        gathered(rows).contains_key(o),
    ensures
        0 <= j < rows.len(),
        said_by(rows[j]) matches Some((oj, _)) && oj == o,
    decreases rows.len(),
{
    match said_by(rows.last()) {
        Some((ol, _)) if ol == o => rows.len() - 1,
        _ => {
            let j = lemma_gathered_from(rows.drop_last(), o);
            assert(rows.drop_last()[j] == rows[j]);
            j
        },
    }
}

// ── The report ──────────────────────────────────────────────────────
/// How many of `0..n` pass.
pub open spec fn number(n: nat, p: spec_fn(int) -> bool) -> nat
    decreases n,
{
    if n == 0 {
        0
    } else {
        number((n - 1) as nat, p) + if p(n - 1) {
            1nat
        } else {
            0
        }
    }
}

/// The last feature that a text names, or -1.
pub open spec fn last_named(features: Seq<Feature>, text: Seq<char>) -> int
    decreases features.len(),
{
    if features.len() == 0 {
        -1
    } else {
        let f = features.last();
        if identity_text(f.entity_type, f.osm_id) == text {
            features.len() - 1
        } else {
            last_named(features.drop_last(), text)
        }
    }
}

/// The source of an ordinal: the last feature of its element, or -1.
pub open spec fn source(features: Seq<Feature>, book: Seq<Seq<char>>, o: int) -> int {
    last_named(features, book[o])
}

/// Which feature each ordinal of a book stands for.
fn sources(features: &[Feature], book: &IdentityCodebook) -> (m: HashMap<u32, usize>)
    ensures
        forall|o: u32| #[trigger]
            m@.contains_key(o) <==> o < book@.len() && source(features@, book@, o as int) >= 0,
        forall|o: u32| #[trigger]
            m@.contains_key(o) ==> m@[o] == source(features@, book@, o as int) && m@[o]
                < features@.len(),
{
    broadcast use group_hash_axioms;

    let size: usize = book.len();
    let mut m: HashMap<u32, usize> = HashMap::new();
    let mut i: usize = 0;
    assert(features@.take(0) =~= Seq::<Feature>::empty());
    while i < features.len()
        invariant
            i <= features@.len(),
            strictly_ascending(book@),
            forall|o: u32| #[trigger]
                m@.contains_key(o) <==> o < book@.len() && source(
                    features@.take(i as int),
                    book@,
                    o as int,
                ) >= 0,
            forall|o: u32| #[trigger]
                m@.contains_key(o) ==> m@[o] == source(features@.take(i as int), book@, o as int)
                    && m@[o] < i,
        decreases features@.len() - i,
    {
        broadcast use group_hash_axioms;

        let ghost before = m@;
        let f: &Feature = &features[i];
        let key: String = identity_key(&key_feature(f));
        proof {
            assert(features@.take(i + 1).drop_last() =~= features@.take(i as int));
            assert(features@.take(i + 1).last() == *f);
        }
        match book.ordinal(key.as_str()) {
            Some(o) => {
                m.insert(o, i);
                proof {
                    assert forall|q: u32| q < book@.len() && q != o implies book@[q as int]
                        != key@ by {
                        law_ordinals_are_faithful(book@, q as int, o as int);
                    }
                    assert forall|q: u32| #[trigger] m@.contains_key(q) <==> q < book@.len()
                        && source(features@.take(i + 1), book@, q as int) >= 0 by {
                        assert(q != o ==> m@.contains_key(q) == before.contains_key(q));
                    }
                    assert forall|q: u32| #[trigger] m@.contains_key(q) implies m@[q] == source(
                        features@.take(i + 1),
                        book@,
                        q as int,
                    ) && m@[q] < i + 1 by {
                        if q != o {
                            assert(before.contains_key(q));
                        }
                    }
                }
            },
            None => {
                proof {
                    assert forall|q: u32| q < book@.len() implies book@[q as int] != key@ by {
                        assert(book@.contains(book@[q as int]));
                    }
                }
            },
        }
        i = i + 1;
    }
    assert(features@.take(features@.len() as int) =~= features@);
    m
}

/// What a comparison of a bake with its source found.
#[derive(Debug, Clone, Copy, PartialEq, Eq, Structural)]
pub struct Report {
    /// Elements of the source.
    pub sources: u64,
    /// Elements that were read back.
    pub recovered: u64,
    /// Elements of both.
    pub checked: u64,
    /// Elements that were read back and are not in the source.
    pub unknown: u64,
    /// Elements whose kind differs.
    pub kind_bad: u64,
    /// Nodes at their published position.
    pub node_pos_ok: u64,
    pub node_pos_bad: u64,
    /// Ways and relations at the position that was derived for them.
    pub derived_pos_ok: u64,
    pub derived_pos_bad: u64,
    /// Elements with all their tags, in order.
    pub tags_ok: u64,
    pub tags_bad: u64,
}

/// The position of a feature, as a code.
pub open spec fn place(f: Feature) -> nat {
    cell_code(anchor_cell(f.anchor))
}

/// What a comparison goes by: the features of the source, their tags in
/// ordinals, the book that names them, and the elements that were read back.
pub struct Sides {
    pub features: Seq<Feature>,
    pub tags: Seq<(u32, u32)>,
    pub book: Seq<Seq<char>>,
    pub elements: Map<u32, Element>,
}

impl Sides {
    /// The source has the element of an ordinal.
    pub open spec fn has_source(self, o: int) -> bool {
        source(self.features, self.book, o) >= 0
    }

    /// The element of an ordinal was read back.
    pub open spec fn is_recovered(self, o: int) -> bool {
        self.elements.contains_key(o as u32)
    }

    /// Both have the element.
    pub open spec fn is_checked(self, o: int) -> bool {
        self.has_source(o) && self.is_recovered(o)
    }

    /// The feature of an ordinal.
    pub open spec fn feature(self, o: int) -> Feature {
        self.features[source(self.features, self.book, o)]
    }

    /// What was read back under an ordinal.
    pub open spec fn element(self, o: int) -> Element {
        self.elements[o as u32]
    }

    pub open spec fn same_kind(self, o: int) -> bool {
        self.element(o).kind == self.feature(o).entity_type
    }

    pub open spec fn is_node(self, o: int) -> bool {
        self.feature(o).entity_type == OSM_NODE
    }

    pub open spec fn same_place(self, o: int) -> bool {
        self.element(o).code == place(self.feature(o))
    }

    pub open spec fn same_tags(self, o: int) -> bool {
        self.element(o).tags == self.feature(o).tags.of(self.tags)
    }
}

/// Whether a report is right about the first `n` ordinals.
pub open spec fn reports(r: Report, s: Sides, n: nat) -> bool {
    &&& r.sources == number(n, |o: int| s.has_source(o))
    &&& r.recovered == number(n, |o: int| s.is_recovered(o))
    &&& r.checked == number(n, |o: int| s.is_checked(o))
    &&& r.unknown == number(n, |o: int| s.is_recovered(o) && !s.has_source(o))
    &&& r.kind_bad == number(n, |o: int| s.is_checked(o) && !s.same_kind(o))
    &&& r.node_pos_ok == number(n, |o: int| s.is_checked(o) && s.is_node(o) && s.same_place(o))
    &&& r.node_pos_bad == number(n, |o: int| s.is_checked(o) && s.is_node(o) && !s.same_place(o))
    &&& r.derived_pos_ok == number(n, |o: int| s.is_checked(o) && !s.is_node(o) && s.same_place(o))
    &&& r.derived_pos_bad == number(
        n,
        |o: int| s.is_checked(o) && !s.is_node(o) && !s.same_place(o),
    )
    &&& r.tags_ok == number(n, |o: int| s.is_checked(o) && s.same_tags(o))
    &&& r.tags_bad == number(n, |o: int| s.is_checked(o) && !s.same_tags(o))
}

/// Whether two lists of pairs are the same.
fn same_pairs(a: &[(u32, u32)], b: &[(u32, u32)]) -> (r: bool)
    ensures
        r == (a@ == b@),
{
    if a.len() != b.len() {
        return false;
    }
    let mut i: usize = 0;
    while i < a.len()
        invariant
            i <= a@.len(),
            a@.len() == b@.len(),
            forall|k: int| 0 <= k < i ==> #[trigger] a@[k] == b@[k],
        decreases a@.len() - i,
    {
        if a[i].0 != b[i].0 || a[i].1 != b[i].1 {
            assert(a@[i as int] != b@[i as int]);
            return false;
        }
        i = i + 1;
    }
    assert(a@ =~= b@);
    true
}

impl Report {
    /// A report on nothing.
    pub fn empty() -> (r: Self)
        ensures
            forall|s: Sides| #[trigger] reports(r, s, 0),
    {
        Report {
            sources: 0,
            recovered: 0,
            checked: 0,
            unknown: 0,
            kind_bad: 0,
            node_pos_ok: 0,
            node_pos_bad: 0,
            derived_pos_ok: 0,
            derived_pos_bad: 0,
            tags_ok: 0,
            tags_bad: 0,
        }
    }

    /// Elements of the source that were not read back.
    pub fn unrecovered(&self) -> (n: u64)
        requires
            self.checked <= self.sources,
        ensures
            n == self.sources - self.checked,
    {
        self.sources - self.checked
    }

    /// Whether the bake and its source agree.
    pub open spec fn agrees(self) -> bool {
        &&& self.sources == self.checked
        &&& self.unknown == 0
        &&& self.kind_bad == 0
        &&& self.node_pos_bad == 0
        &&& self.derived_pos_bad == 0
        &&& self.tags_bad == 0
    }

    /// Whether the bake and its source agree.
    pub fn is_clean(&self) -> (b: bool)
        ensures
            b == self.agrees(),
    {
        self.sources == self.checked && self.unknown == 0 && self.kind_bad == 0
            && self.node_pos_bad == 0 && self.derived_pos_bad == 0 && self.tags_bad == 0
    }
}

/// The report with one more ordinal: its feature and its element, where they are
/// there.
fn judged(
    r: Report,
    feature: Option<&Feature>,
    element: Option<&Recovered>,
    tags: &ResolvedTags,
    Ghost(s): Ghost<Sides>,
    Ghost(o): Ghost<int>,
) -> (next: Report)
    requires
        0 <= o < u32::MAX,
        reports(r, s, o as nat),
        s.tags == tags.ordinals(),
        feature is Some == s.has_source(o),
        feature matches Some(f) ==> *f == s.feature(o) && f.tags.within(s.tags.len()),
        element is Some == s.is_recovered(o),
        element matches Some(e) ==> e@ == s.element(o),
    ensures
        reports(next, s, (o + 1) as nat),
{
    let mut next: Report = r;
    proof {
        lemma_number_bounds(r, s, o as nat);
    }
    if feature.is_some() {
        next.sources = next.sources + 1;
    }
    let e: &Recovered = match element {
        Some(e) => e,
        None => {
            return next;
        },
    };
    next.recovered = next.recovered + 1;
    let f: &Feature = match feature {
        Some(f) => f,
        None => {
            next.unknown = next.unknown + 1;
            return next;
        },
    };
    next.checked = next.checked + 1;
    if e.kind != f.entity_type {
        next.kind_bad = next.kind_bad + 1;
    }
    let here: bool = e.code == cell_to_morton(f.anchor.cell());
    if f.entity_type == OSM_NODE {
        if here {
            next.node_pos_ok = next.node_pos_ok + 1;
        } else {
            next.node_pos_bad = next.node_pos_bad + 1;
        }
    } else if here {
        next.derived_pos_ok = next.derived_pos_ok + 1;
    } else {
        next.derived_pos_bad = next.derived_pos_bad + 1;
    }
    if same_pairs(e.tags.as_slice(), tags.span(f.tags)) {
        next.tags_ok = next.tags_ok + 1;
    } else {
        next.tags_bad = next.tags_bad + 1;
    }
    next
}

/// No count exceeds the ordinals.
proof fn lemma_number_at_most(n: nat, p: spec_fn(int) -> bool)
    ensures
        number(n, p) <= n,
    decreases n,
{
    if n > 0 {
        lemma_number_at_most((n - 1) as nat, p);
    }
}

proof fn lemma_number_bounds(r: Report, s: Sides, n: nat)
    requires
        reports(r, s, n),
        n < u32::MAX,
    ensures
        r.sources < u32::MAX,
        r.recovered < u32::MAX,
        r.checked < u32::MAX,
        r.unknown < u32::MAX,
        r.kind_bad < u32::MAX,
        r.node_pos_ok < u32::MAX,
        r.node_pos_bad < u32::MAX,
        r.derived_pos_ok < u32::MAX,
        r.derived_pos_bad < u32::MAX,
        r.tags_ok < u32::MAX,
        r.tags_bad < u32::MAX,
{
    lemma_number_at_most(n, |o: int| s.has_source(o));
    lemma_number_at_most(n, |o: int| s.is_recovered(o));
    lemma_number_at_most(n, |o: int| s.is_checked(o));
    lemma_number_at_most(n, |o: int| s.is_recovered(o) && !s.has_source(o));
    lemma_number_at_most(n, |o: int| s.is_checked(o) && !s.same_kind(o));
    lemma_number_at_most(n, |o: int| s.is_checked(o) && s.is_node(o) && s.same_place(o));
    lemma_number_at_most(n, |o: int| s.is_checked(o) && s.is_node(o) && !s.same_place(o));
    lemma_number_at_most(n, |o: int| s.is_checked(o) && !s.is_node(o) && s.same_place(o));
    lemma_number_at_most(n, |o: int| s.is_checked(o) && !s.is_node(o) && !s.same_place(o));
    lemma_number_at_most(n, |o: int| s.is_checked(o) && s.same_tags(o));
    lemma_number_at_most(n, |o: int| s.is_checked(o) && !s.same_tags(o));
}

/// The ordinals of a set below `n` are as many as pass.
proof fn lemma_number_of_set(s: Set<u32>, n: nat)
    requires
        s.finite(),
        n <= u32::MAX,
    ensures
        s.filter(|o: u32| o < n).len() == number(n, |o: int| s.contains(o as u32)),
    decreases n,
{
    let p = |o: int| s.contains(o as u32);
    let below = s.filter(|o: u32| o < n);
    if n == 0 {
        assert(below =~= Set::empty());
    } else {
        lemma_number_of_set(s, (n - 1) as nat);
        let before = s.filter(|o: u32| o < n - 1);
        let last = (n - 1) as u32;
        if s.contains(last) {
            assert(below =~= before.insert(last));
        } else {
            assert(below =~= before);
        }
        assert(p(n - 1) == s.contains(last));
    }
}

/// Compares what was read back with the source. None where an ordinal was read
/// back that the book does not hold.
pub fn compare(
    features: &[Feature],
    tags: &ResolvedTags,
    book: &IdentityCodebook,
    got: &HashMap<u32, Recovered>,
) -> (r: Option<Report>)
    requires
        forall|i: int|
            0 <= i < features@.len() ==> (#[trigger] features@[i]).tags.within(
                tags.ordinals().len(),
            ),
    ensures
        match r {
            Some(report) => {
                &&& reports(
                    report,
                    Sides {
                        features: features@,
                        tags: tags.ordinals(),
                        book: book@,
                        elements: elements_of(got@),
                    },
                    book@.len(),
                )
                &&& forall|o: u32| #[trigger] got@.contains_key(o) ==> o < book@.len()
            },
            None => exists|o: u32| #[trigger] got@.contains_key(o) && o >= book@.len(),
        },
{
    broadcast use group_hash_axioms;

    let ghost elements = elements_of(got@);
    let ghost s = Sides { features: features@, tags: tags.ordinals(), book: book@, elements };
    let own: HashMap<u32, usize> = sources(features, book);
    let n: usize = book.len();
    let mut r: Report = Report::empty();
    let mut o: u32 = 0;
    assert(reports(r, s, 0));
    while (o as usize) < n
        invariant
            n == book@.len() <= MAX_ENTRIES,
            o <= n,
            s == (Sides { features: features@, tags: tags.ordinals(), book: book@, elements }),
            reports(r, s, o as nat),
            elements == elements_of(got@),
            forall|i: int|
                0 <= i < features@.len() ==> (#[trigger] features@[i]).tags.within(
                    tags.ordinals().len(),
                ),
            forall|q: u32| #[trigger]
                own@.contains_key(q) <==> q < book@.len() && source(features@, book@, q as int)
                    >= 0,
            forall|q: u32| #[trigger]
                own@.contains_key(q) ==> own@[q] == source(features@, book@, q as int) && own@[q]
                    < features@.len(),
        decreases n - o,
    {
        broadcast use group_hash_axioms;

        let feature: Option<&Feature> = match own.get(&o) {
            Some(i) => Some(&features[*i]),
            None => None,
        };
        let element: Option<&Recovered> = got.get(&o);
        assert(own@.contains_key(o) == s.has_source(o as int));
        assert(got@.contains_key(o) == elements.contains_key(o));
        r = judged(r, feature, element, tags, Ghost(s), Ghost(o as int));
        o = o + 1;
    }
    let ghost dom = got@.dom();
    proof {
        assert(dom.finite());
        assert(elements.dom() =~= dom);
        lemma_number_of_set(dom, n as nat);
        let p = |o: int| s.is_recovered(o);
        let q = |o: int| dom.contains(o as u32);
        lemma_same_number(n as nat, p, q);
        let below = dom.filter(|o: u32| o < n);
        vstd::set_lib::lemma_len_subset(below, dom);
        if below.len() == dom.len() {
            vstd::set_lib::lemma_subset_equality(below, dom);
        } else {
            assert(exists|o: u32| dom.contains(o) && !below.contains(o)) by {
                if forall|o: u32| dom.contains(o) ==> below.contains(o) {
                    assert(below =~= dom);
                }
            }
        }
    }
    if r.recovered != got.len() as u64 {
        return None;
    }
    assert forall|o: u32| #[trigger] got@.contains_key(o) implies o < book@.len() by {
        assert(dom.contains(o));
    }
    Some(r)
}

/// Tests that agree count alike.
proof fn lemma_same_number(n: nat, p: spec_fn(int) -> bool, q: spec_fn(int) -> bool)
    requires
        forall|o: int| 0 <= o < n ==> #[trigger] p(o) == q(o),
    ensures
        number(n, p) == number(n, q),
    decreases n,
{
    if n > 0 {
        lemma_same_number((n - 1) as nat, p, q);
    }
}

/// The source of a text that names a feature is a feature that it names.
proof fn lemma_last_named(features: Seq<Feature>, text: Seq<char>, i: int)
    requires
        0 <= i < features.len(),
        identity_text(features[i].entity_type, features[i].osm_id) == text,
    ensures
        ({
            let m = last_named(features, text);
            &&& 0 <= m < features.len()
            &&& identity_text(features[m].entity_type, features[m].osm_id) == text
        }),
    decreases features.len(),
{
    let f = features.last();
    if identity_text(f.entity_type, f.osm_id) != text {
        let front = features.drop_last();
        assert(front[i] == features[i]);
        lemma_last_named(front, text, i);
        assert(front[last_named(front, text)] == features[last_named(front, text)]);
    }
}

/// Every ordinal of a bake's book names a feature.
proof fn lemma_ordinal_has_feature(b: Bake, keys: Seq<Keyed>, o: int) -> (i: int)
    requires
        is_bake_of(b, keys),
        0 <= o < b.book@.len(),
    ensures
        0 <= i < keys.len(),
        b.book@[o] == identity_text(keys[i].entity_type, keys[i].osm_id),
{
    let split = split_rows(keys);
    let sorted = b.keyed@.map_values(|k: Keyed| as_sorted(k));
    let texts = identity_texts(split);
    let t = b.book@[o];
    assert(b.book@.contains(t));
    assert(texts.contains(t));
    let m = choose|m: int| 0 <= m < texts.len() && texts[m] == t;
    assert(split.contains(split[m]));
    lemma_same_elements(sorted, split, split[m]);
    let j = choose|j: int| 0 <= j < sorted.len() && sorted[j] == split[m];
    lemma_row_is_a_part(b, keys, j);
    let (i, n) = choose|i: int, n: int|
        0 <= i < keys.len() && 0 <= n <= overflow_rows(keys[i].tags.len as nat) && as_sorted(
            b.keyed@[j],
        ) == #[trigger] part(keys[i], n);
    i
}

/// Whether the two sides agree on an ordinal.
pub open spec fn agree_on(s: Sides, o: int) -> bool {
    s.is_checked(o) && s.same_kind(o) && s.same_place(o) && s.same_tags(o)
}

proof fn lemma_agree_on(
    features: Seq<Feature>,
    b: Bake,
    rows: Seq<NodeRow>,
    keys: Seq<Keyed>,
    tags: Seq<(u32, u32)>,
    o: int,
)
    requires
        are_keys_of(keys, features),
        is_bake_of(b, keys),
        are_rows_of(rows, b, tags),
        distinct_elements(keys),
        forall|j: int| 0 <= j < keys.len() ==> is_feature_key(#[trigger] keys[j], tags),
        0 <= o < b.book@.len() <= MAX_ENTRIES,
    ensures
        agree_on(Sides { features, tags, book: b.book@, elements: gathered(rows) }, o),
{
    let s = Sides { features, tags, book: b.book@, elements: gathered(rows) };
    let i = lemma_ordinal_has_feature(b, keys, o);
    assert(is_key_of(keys[i], features[i]));
    lemma_last_named(features, b.book@[o], i);
    let m = source(features, b.book@, o);
    assert(is_key_of(keys[m], features[m]));
    law_identity_text_is_faithful(
        keys[i].entity_type,
        keys[i].osm_id,
        keys[m].entity_type,
        keys[m].osm_id,
    );
    law_bake_reads_back(b, rows, keys, tags, m);
    let q = choose|q: u32|
        q < b.book@.len() && b.book@[q as int] == identity_text(
            keys[m].entity_type,
            keys[m].osm_id,
        ) && #[trigger] gathered(rows).contains_key(q) && gathered(rows)[q] == element_of(
            keys[m],
            tags,
        );
    law_ordinals_are_faithful(b.book@, q as int, o);
    assert(q == o as u32);
}

/// Where the two sides agree on every ordinal, the report has no difference.
proof fn lemma_all_agree(report: Report, s: Sides, n: nat)
    requires
        reports(report, s, n),
        forall|o: int| 0 <= o < n ==> #[trigger] agree_on(s, o),
    ensures
        report.agrees(),
        report.sources == n,
        report.recovered == n,
{
    lemma_agreement_counts(s, n, |o: int| s.has_source(o));
    lemma_agreement_counts(s, n, |o: int| s.is_recovered(o));
    lemma_agreement_counts(s, n, |o: int| s.is_checked(o));
    lemma_difference_counts(s, n, |o: int| s.is_recovered(o) && !s.has_source(o));
    lemma_difference_counts(s, n, |o: int| s.is_checked(o) && !s.same_kind(o));
    lemma_difference_counts(s, n, |o: int| s.is_checked(o) && s.is_node(o) && !s.same_place(o));
    lemma_difference_counts(s, n, |o: int| s.is_checked(o) && !s.is_node(o) && !s.same_place(o));
    lemma_difference_counts(s, n, |o: int| s.is_checked(o) && !s.same_tags(o));
}

/// What agreement implies holds of all ordinals.
proof fn lemma_agreement_counts(s: Sides, n: nat, p: spec_fn(int) -> bool)
    requires
        forall|o: int| 0 <= o < n ==> #[trigger] agree_on(s, o),
        forall|o: int| #[trigger] agree_on(s, o) ==> p(o),
    ensures
        number(n, p) == n,
    decreases n,
{
    if n > 0 {
        lemma_agreement_counts(s, (n - 1) as nat, p);
        assert(agree_on(s, n - 1));
    }
}

/// What agreement rules out holds of no ordinal.
proof fn lemma_difference_counts(s: Sides, n: nat, p: spec_fn(int) -> bool)
    requires
        forall|o: int| 0 <= o < n ==> #[trigger] agree_on(s, o),
        forall|o: int| #[trigger] agree_on(s, o) ==> !p(o),
    ensures
        number(n, p) == 0,
    decreases n,
{
    if n > 0 {
        lemma_difference_counts(s, (n - 1) as nat, p);
        assert(agree_on(s, n - 1));
    }
}

/// A bake has parity with its source: the report on what is read back from its
/// rows counts every element once, and no difference.
pub proof fn law_bake_has_parity(
    report: Report,
    features: Seq<Feature>,
    b: Bake,
    rows: Seq<NodeRow>,
    keys: Seq<Keyed>,
    tags: Seq<(u32, u32)>,
)
    requires
        are_keys_of(keys, features),
        is_bake_of(b, keys),
        are_rows_of(rows, b, tags),
        distinct_elements(keys),
        forall|j: int| 0 <= j < keys.len() ==> is_feature_key(#[trigger] keys[j], tags),
        b.book@.len() <= MAX_ENTRIES,
        reports(
            report,
            Sides { features, tags, book: b.book@, elements: gathered(rows) },
            b.book@.len(),
        ),
    ensures
        report.agrees(),
        report.sources == b.book@.len(),
        report.recovered == b.book@.len(),
{
    let s = Sides { features, tags, book: b.book@, elements: gathered(rows) };
    let n = b.book@.len();
    assert forall|o: int| 0 <= o < n implies #[trigger] agree_on(s, o) by {
        lemma_agree_on(features, b, rows, keys, tags, o);
    }
    lemma_all_agree(report, s, n);
}

/// Whether no two features are the same element.
pub open spec fn distinct_features(features: Seq<Feature>) -> bool {
    forall|i: int, j: int|
        #![trigger features[i], features[j]]
        0 <= i < j < features.len() ==> !(features[i].entity_type == features[j].entity_type
            && features[i].osm_id == features[j].osm_id)
}

/// Every row of a bake of features names its element, by an ordinal of the book.
proof fn lemma_rows_are_named(
    b: Bake,
    rows: Seq<NodeRow>,
    keys: Seq<Keyed>,
    tags: Seq<(u32, u32)>,
    j: int,
)
    requires
        is_bake_of(b, keys),
        are_rows_of(rows, b, tags),
        forall|i: int| 0 <= i < keys.len() ==> is_feature_key(#[trigger] keys[i], tags),
        0 <= j < rows.len(),
    ensures
        said_by(rows[j]) matches Some((o, _)) && o < b.book@.len(),
{
    let r = b.keyed@[j];
    lemma_row_is_a_part(b, keys, j);
    let (i, n) = choose|i: int, n: int|
        0 <= i < keys.len() && 0 <= n <= overflow_rows(keys[i].tags.len as nat) && as_sorted(r)
            == #[trigger] part(keys[i], n);
    assert(is_feature_key(keys[i], tags));
    assert(28 * n <= keys[i].tags.len);
    assert(is_feature_key(r, tags));
    assert(is_built(rows[j], r, tags));
    law_row_says_its_element(rows[j], r, tags, r.identity_ordinal->0);
}

/// Bakes features, reads the rows back and compares: the report is on the rows of
/// the bake. Where no element is given twice, it finds no difference.
pub fn check_bake(features: &[Feature], tags: &ResolvedTags) -> (r: Result<
    (Bake, Report),
    CodebookError,
>)
    requires
        tags.wf(),
        forall|i: int|
            0 <= i < features@.len() ==> is_sound(#[trigger] features@[i], tags.ordinals().len()),
    ensures
        exists|keys: Seq<Keyed>| #[trigger]
            are_keys_of(keys, features@) && match r {
                Ok((b, report)) => {
                    &&& is_bake_of(b, keys)
                    &&& exists|rows: Seq<NodeRow>| #[trigger]
                        are_rows_of(rows, b, tags.ordinals()) && reports(
                            report,
                            (Sides {
                                features: features@,
                                tags: tags.ordinals(),
                                book: b.book@,
                                elements: gathered(rows),
                            }),
                            b.book@.len(),
                        )
                    &&& distinct_features(features@) ==> report.agrees() && report.sources
                        == b.book@.len() && report.recovered == b.book@.len()
                },
                Err(e) => e == CodebookError::TooLarge && identity_texts(
                    split_rows(keys),
                ).to_set().len() > MAX_ENTRIES,
            },
{
    let (b, rows): (Bake, Vec<NodeRow>) = match bake_features(features, tags) {
        Ok(v) => v,
        Err(e) => {
            return Err(e);
        },
    };
    let ghost keys = choose|keys: Seq<Keyed>| #[trigger]
        are_keys_of(keys, features@) && is_bake_of(b, keys);
    proof {
        assert forall|i: int| 0 <= i < keys.len() implies is_feature_key(
            #[trigger] keys[i],
            tags.ordinals(),
        ) by {
            assert(is_key_of(keys[i], features@[i]));
            assert(is_sound(features@[i], tags.ordinals().len()));
        }
        assert forall|j: int| 0 <= j < rows@.len() implies said_by(#[trigger] rows@[j]) is Some by {
            lemma_rows_are_named(b, rows@, keys, tags.ordinals(), j);
        }
    }
    let got: HashMap<u32, Recovered> = match recover(rows.as_slice()) {
        Some(g) => g,
        None => HashMap::new(),
    };
    assert(elements_of(got@) == gathered(rows@));
    proof {
        assert forall|o: u32| #[trigger] got@.contains_key(o) implies o < b.book@.len() by {
            assert(elements_of(got@).contains_key(o));
            let j = lemma_gathered_from(rows@, o);
            lemma_rows_are_named(b, rows@, keys, tags.ordinals(), j);
        }
        assert forall|i: int| 0 <= i < features@.len() implies (#[trigger] features@[i]).tags.within(
            tags.ordinals().len(),
        ) by {
            assert(is_sound(features@[i], tags.ordinals().len()));
        }
    }
    let report: Report = match compare(features, tags, &b.book, &got) {
        Some(r) => r,
        None => Report::empty(),
    };
    proof {
        if distinct_features(features@) {
            assert(distinct_elements(keys)) by {
                assert forall|i: int, j: int|
                    #![trigger keys[i], keys[j]]
                    0 <= i < j < keys.len() implies !(keys[i].entity_type == keys[j].entity_type
                    && keys[i].osm_id == keys[j].osm_id) by {
                    assert(is_key_of(keys[i], features@[i]));
                    assert(is_key_of(keys[j], features@[j]));
                }
            }
            law_bake_has_parity(report, features@, b, rows@, keys, tags.ordinals());
        }
    }
    Ok((b, report))
}

// ── Laws of the verdict ─────────────────────────────────────────────
proof fn lemma_none_passes(n: nat, p: spec_fn(int) -> bool, o: int)
    requires
        number(n, p) == 0,
        0 <= o < n,
    ensures
        !p(o),
    decreases n,
{
    if o < n - 1 {
        lemma_none_passes((n - 1) as nat, p, o);
    }
}

/// A count is of the numbers that pass.
pub proof fn law_a_number_is_of_what_passes(n: nat, p: spec_fn(int) -> bool)
    ensures
        number(n, p) == Seq::new(n, |o: int| p(o)).filter(|b: bool| b).len(),
        number(n, p) <= n,
    decreases n,
{
    reveal(Seq::filter);
    if n > 0 {
        law_a_number_is_of_what_passes((n - 1) as nat, p);
        assert(Seq::new(n, |o: int| p(o)).drop_last() =~= Seq::new((n - 1) as nat, |o: int| p(o)));
    }
}

proof fn lemma_fewer_pass(n: nat, p: spec_fn(int) -> bool, q: spec_fn(int) -> bool, o: int)
    requires
        forall|x: int| #[trigger] q(x) ==> p(x),
    ensures
        number(n, q) <= number(n, p),
        number(n, q) == number(n, p) && 0 <= o < n && p(o) ==> q(o),
    decreases n,
{
    if n > 0 {
        lemma_fewer_pass((n - 1) as nat, p, q, o);
        assert(q(n - 1) ==> p(n - 1));
    }
}

proof fn lemma_named_is_named(features: Seq<Feature>, text: Seq<char>)
    ensures
        ({
            let m = last_named(features, text);
            &&& -1 <= m < features.len()
            &&& m >= 0 ==> identity_text(features[m].entity_type, features[m].osm_id) == text
        }),
    decreases features.len(),
{
    if features.len() > 0 {
        let front = features.drop_last();
        lemma_named_is_named(front, text);
        if last_named(front, text) >= 0 {
            assert(front[last_named(front, text)] == features[last_named(front, text)]);
        }
    }
}

/// Agreement means agreement: where a report finds no difference, every feature was read
/// back, everything that was read back is of a feature, and it has the feature's kind, its
/// position and all its tags, in order. A difference in any of these is never passed over.
pub proof fn law_a_clean_report_hides_nothing(report: Report, s: Sides, n: nat, o: int, i: int)
    requires
        reports(report, s, n),
        report.agrees(),
        0 <= o < n <= u32::MAX,
    ensures
        0 <= i < s.features.len() && identity_text(s.features[i].entity_type, s.features[i].osm_id)
            == s.book[o] ==> s.elements.contains_key(o as u32),
        s.elements.contains_key(o as u32) ==> exists|m: int|
            0 <= m < s.features.len() && {
                let (f, e) = (#[trigger] s.features[m], s.elements[o as u32]);
                &&& identity_text(f.entity_type, f.osm_id) == s.book[o]
                &&& e.kind == f.entity_type
                &&& e.code == cell_code(anchor_cell(f.anchor))
                &&& e.tags == f.tags.of(s.tags)
            },
{
    lemma_fewer_pass(n, |o: int| s.has_source(o), |o: int| s.is_checked(o), o);
    lemma_named_is_named(s.features, s.book[o]);
    if 0 <= i < s.features.len() && identity_text(s.features[i].entity_type, s.features[i].osm_id)
        == s.book[o] {
        lemma_last_named(s.features, s.book[o], i);
        assert(s.has_source(o));
    }
    if s.elements.contains_key(o as u32) {
        lemma_none_passes(n, |o: int| s.is_recovered(o) && !s.has_source(o), o);
        lemma_none_passes(n, |o: int| s.is_checked(o) && !s.same_kind(o), o);
        lemma_none_passes(n, |o: int| s.is_checked(o) && s.is_node(o) && !s.same_place(o), o);
        lemma_none_passes(n, |o: int| s.is_checked(o) && !s.is_node(o) && !s.same_place(o), o);
        lemma_none_passes(n, |o: int| s.is_checked(o) && !s.same_tags(o), o);
        let m = last_named(s.features, s.book[o]);
        assert(s.features[m] == s.feature(o));
    }
}

/// Every element that was checked has its position and its tags judged once, its position
/// as that of a node or as a derived one.
pub proof fn law_every_check_is_counted(report: Report, s: Sides, n: nat)
    requires
        reports(report, s, n),
    ensures
        report.checked == report.tags_ok + report.tags_bad,
        report.checked == report.node_pos_ok + report.node_pos_bad + report.derived_pos_ok
            + report.derived_pos_bad,
        report.recovered == report.checked + report.unknown,
        report.checked <= report.sources,
{
    lemma_checks(s, n);
    lemma_fewer_pass(n, |o: int| s.has_source(o), |o: int| s.is_checked(o), 0);
}

proof fn lemma_checks(s: Sides, n: nat)
    ensures
        number(n, |o: int| s.is_checked(o)) == number(
            n,
            |o: int| s.is_checked(o) && s.same_tags(o),
        ) + number(n, |o: int| s.is_checked(o) && !s.same_tags(o)),
        number(n, |o: int| s.is_checked(o)) == number(
            n,
            |o: int| s.is_checked(o) && s.is_node(o) && s.same_place(o),
        ) + number(n, |o: int| s.is_checked(o) && s.is_node(o) && !s.same_place(o)) + number(
            n,
            |o: int| s.is_checked(o) && !s.is_node(o) && s.same_place(o),
        ) + number(n, |o: int| s.is_checked(o) && !s.is_node(o) && !s.same_place(o)),
        number(n, |o: int| s.is_recovered(o)) == number(n, |o: int| s.is_checked(o)) + number(
            n,
            |o: int| s.is_recovered(o) && !s.has_source(o),
        ),
    decreases n,
{
    if n > 0 {
        lemma_checks(s, (n - 1) as nat);
    }
}

/// The tags that a row says of its element are those in its tag slots that are bound to it,
/// in slot order.
pub proof fn law_tags_are_said_in_slot_order(row: NodeRow, member: u32, end: int)
    requires
        2 <= end <= 32,
    ensures
        tags_below(row, member, end) == facets_below(row, end).filter(
            |f: (int, Facet)| f.1 matches Facet::Tag { member: m, .. } && m == member,
        ).map_values(|f: (int, Facet)| (f.1->key, f.1->value)),
    decreases end,
{
    reveal(Seq::filter);
    let p = |f: (int, Facet)| f.1 matches Facet::Tag { member: m, .. } && m == member;
    let g = |f: (int, Facet)| (f.1->key, f.1->value);
    let all = facets_below(row, end);
    if end > 2 {
        law_tags_are_said_in_slot_order(row, member, end - 1);
        let front = facets_below(row, end - 1);
        if facet_at(row, end - 1) is Some {
            assert(all.drop_last() =~= front);
        }
        assert(all.filter(p).map_values(g) =~= tags_below(row, member, end));
    } else {
        assert(all.filter(p).map_values(g) =~= tags_below(row, member, end));
    }
}

} // verus!
