//! The bake: features to rows in key order, and the book that names them.

use crate::book::{is_book_of, law_book_is_unique, CodebookError, IdentityCodebook};
use crate::cluster::{facet_at, facets_below, filled_slots, law_facets_are_complete};
use crate::facet::{MAX_ENTRIES, MAX_ORDINAL};
use crate::node::{law_key_round_trip, row_wire, NodeRow, GEO_IDENTITY_SLOT, ROW_SLOTS};
use crate::order::{
    in_order, lemma_one_order, lemma_same_distinct, lemma_same_elements, Ranked,
};
use crate::read::{
    after, after_all, anchor_cell, indexed, relation_features, tag_total, tags_of, Element, Feature,
    ReadSoFar, Waiting,
};
use crate::row::{
    all_continuations, assign_identities, build_row, buildable, collides, collisions,
    continuations, expand_tag_overflow, identity_text, identity_texts, is_row_of, key_feature,
    law_row_reads_back, overflow_rows, padded, part, part_span, resolve_identities, run_index,
    sort_rows,
    Keyed, CLASSID_GEO_V3, FIRST_TAG_SLOT,
};
use crate::slab::{code_at, in_key_order, row_count};
use crate::street::EDGE_SLOTS;
use crate::tags::{law_ordinals_are_faithful, ResolvedTags, TagSpan};
use crate::tms::{cell_code, tiers, TileXy};
use crate::vocab::{is_geo, OSM_ELEMENT_TAG, OSM_NODE, OSM_RELATION, OSM_WAY};
use vstd::prelude::*;

verus! {

/// What a bake gives.
#[derive(Debug)]
pub struct Bake {
    /// The rows, in key order.
    pub keyed: Vec<Keyed>,
    /// The book of their identities.
    pub book: IdentityCodebook,
    /// Rows beyond the first of their feature.
    pub continuations: u64,
    /// Rows that follow a row of the same key.
    pub collisions: u64,
}

/// Whether `k` is the key of a feature.
pub open spec fn is_key_of(k: Keyed, f: Feature) -> bool {
    &&& k.morton == cell_code(anchor_cell(f.anchor))
    &&& k.tiers == tiers(k.morton)
    &&& k.entity_type == f.entity_type
    &&& k.osm_id == f.osm_id
    &&& k.identity_ordinal is None
    &&& k.identity == 0
    &&& k.tags == f.tags
    &&& k.edge_names.len == 0
    &&& k.edge_names.ordinals@ == padded(Seq::<u16>::empty())
}

/// Whether rows are the keys of features, one for one.
pub open spec fn are_keys_of(keys: Seq<Keyed>, features: Seq<Feature>) -> bool {
    &&& keys.len() == features.len()
    &&& forall|i: int| 0 <= i < keys.len() ==> is_key_of(#[trigger] keys[i], features[i])
}

/// The rows of keyed features, before they are sorted: the first of each, then
/// the others.
pub open spec fn split_rows(keys: Seq<Keyed>) -> Seq<Keyed> {
    keys.map_values(|k: Keyed| part(k, 0)) + all_continuations(keys)
}

/// A row as it was sorted, without its counter and its ordinal.
pub open spec fn as_sorted(k: Keyed) -> Keyed {
    Keyed { identity: 0, identity_ordinal: None, ..k }
}

/// Whether a bake is one of these keyed features: its rows are theirs, in key
/// order; rows that share a key are numbered; and every row has the ordinal
/// that the book gives its element.
pub open spec fn is_bake_of(b: Bake, keys: Seq<Keyed>) -> bool {
    let sorted = b.keyed@.map_values(|k: Keyed| as_sorted(k));
    &&& sorted.to_multiset() == split_rows(keys).to_multiset()
    &&& in_order(sorted)
    &&& is_book_of(b.book@, identity_texts(split_rows(keys)))
    &&& b.continuations == all_continuations(keys).len()
    &&& b.collisions == collisions(sorted, sorted.len() as int)
    &&& forall|i: int|
        0 <= i < b.keyed@.len() ==> {
            let k = #[trigger] b.keyed@[i];
            &&& k.identity == if collides(sorted, i) {
                (run_index(sorted, i) % 0x1_0000) as u16
            } else {
                0
            }
            &&& k.identity_ordinal matches Some(o)
            &&& o < b.book@.len()
            &&& b.book@[o as int] == identity_text(k.entity_type, k.osm_id)
        }
}

/// Keys features.
pub fn key_features(features: &[Feature]) -> (keys: Vec<Keyed>)
    ensures
        are_keys_of(keys@, features@),
{
    let mut keys: Vec<Keyed> = Vec::new();
    let mut i: usize = 0;
    while i < features.len()
        invariant
            i <= features@.len(),
            keys@.len() == i,
            forall|k: int| 0 <= k < i ==> is_key_of(#[trigger] keys@[k], features@[k]),
        decreases features@.len() - i,
    {
        let k: Keyed = key_feature(&features[i]);
        keys.push(k);
        i = i + 1;
    }
    keys
}

/// Bakes keyed features: splits those with more tags than a row carries, sorts
/// the rows, numbers those that share a key, and gives each its ordinal. More
/// elements than ordinals are refused.
pub fn bake(keys: Vec<Keyed>) -> (r: Result<Bake, CodebookError>)
    requires
        forall|i: int|
            0 <= i < keys@.len() ==> {
                let k = #[trigger] keys@[i];
                k.tags.start + k.tags.len <= u32::MAX && k.identity == 0
                    && k.identity_ordinal is None
            },
    ensures
        match r {
            Ok(b) => is_bake_of(b, keys@) && identity_texts(split_rows(keys@)).to_set().len()
                <= MAX_ENTRIES && b.book@.len() <= MAX_ENTRIES,
            Err(e) => e == CodebookError::TooLarge && identity_texts(
                split_rows(keys@),
            ).to_set().len() > MAX_ENTRIES,
        },
{
    let ghost given = keys@;
    let mut rows: Vec<Keyed> = keys;
    let continuations: u64 = expand_tag_overflow(&mut rows);
    let ghost split = rows@;
    assert(split =~= split_rows(given));
    let mut rows: Vec<Keyed> = sort_rows(rows);
    let ghost sorted = rows@;
    proof {
        lemma_split_is_plain(given);
        assert forall|i: int| 0 <= i < sorted.len() implies as_sorted(#[trigger] sorted[i])
            == sorted[i] by {
            assert(sorted.contains(sorted[i]));
            lemma_same_elements(sorted, split, sorted[i]);
            let j = choose|j: int| 0 <= j < split.len() && split[j] == sorted[i];
            assert(as_sorted(split[j]) == split[j]);
        }
        lemma_same_identity_texts(sorted, split);
    }
    let collisions: u64 = assign_identities(&mut rows);
    let ghost numbered = rows@;
    proof {
        assert(identity_texts(numbered) =~= identity_texts(sorted));
        assert(identity_texts(sorted).to_set() =~= identity_texts(split).to_set());
    }
    let book: IdentityCodebook = match resolve_identities(&mut rows) {
        Ok(b) => b,
        Err(e) => {
            return Err(e);
        },
    };
    let size: usize = book.len();
    let b: Bake = Bake { keyed: rows, book, continuations, collisions };
    proof {
        let again = b.keyed@.map_values(|k: Keyed| as_sorted(k));
        assert forall|i: int| 0 <= i < sorted.len() implies again[i] == sorted[i] by {
            let o = b.keyed@[i].identity_ordinal;
            assert(b.keyed@[i] == (Keyed { identity_ordinal: o, ..numbered[i] }));
            assert(as_sorted(sorted[i]) == sorted[i]);
        }
        assert(again =~= sorted);
        assert(is_book_of(b.book@, identity_texts(split)));
        assert forall|i: int| 0 <= i < b.keyed@.len() implies {
            let k = #[trigger] b.keyed@[i];
            &&& k.identity == if collides(sorted, i) {
                (run_index(sorted, i) % 0x1_0000) as u16
            } else {
                0
            }
            &&& k.identity_ordinal matches Some(o)
            &&& o < b.book@.len()
            &&& b.book@[o as int] == identity_text(k.entity_type, k.osm_id)
        } by {
            assert(as_sorted(sorted[i]) == sorted[i]);
            assert(numbered[i].entity_type == sorted[i].entity_type);
        }
    }
    Ok(b)
}

/// Splitting keeps rows without counter and ordinal.
proof fn lemma_split_is_plain(keys: Seq<Keyed>)
    requires
        forall|i: int|
            0 <= i < keys.len() ==> (#[trigger] keys[i]).identity == 0
                && keys[i].identity_ordinal is None,
    ensures
        forall|i: int|
            0 <= i < split_rows(keys).len() ==> as_sorted(#[trigger] split_rows(keys)[i])
                == split_rows(keys)[i],
{
    let firsts = keys.map_values(|k: Keyed| part(k, 0));
    let rest = all_continuations(keys);
    lemma_rest_is_plain(keys);
    assert forall|i: int| 0 <= i < split_rows(keys).len() implies as_sorted(
        #[trigger] split_rows(keys)[i],
    ) == split_rows(keys)[i] by {
        if i < firsts.len() {
            assert(split_rows(keys)[i] == part(keys[i], 0));
        } else {
            assert(split_rows(keys)[i] == rest[i - firsts.len()]);
        }
    }
}

proof fn lemma_rest_is_plain(keys: Seq<Keyed>)
    requires
        forall|i: int|
            0 <= i < keys.len() ==> (#[trigger] keys[i]).identity == 0
                && keys[i].identity_ordinal is None,
    ensures
        forall|i: int|
            0 <= i < all_continuations(keys).len() ==> as_sorted(
                #[trigger] all_continuations(keys)[i],
            ) == all_continuations(keys)[i],
    decreases keys.len(),
{
    if keys.len() > 0 {
        let front = keys.drop_last();
        let last = keys.last();
        assert(keys[keys.len() - 1] == last);
        assert forall|i: int| 0 <= i < front.len() implies (#[trigger] front[i]).identity == 0
            && front[i].identity_ordinal is None by {
            assert(front[i] == keys[i]);
        }
        lemma_rest_is_plain(front);
        let (a, b) = (all_continuations(front), continuations(last));
        assert forall|i: int| 0 <= i < all_continuations(keys).len() implies as_sorted(
            #[trigger] all_continuations(keys)[i],
        ) == all_continuations(keys)[i] by {
            if i < a.len() {
                assert(all_continuations(keys)[i] == a[i]);
            } else {
                assert(all_continuations(keys)[i] == b[i - a.len()]);
            }
        }
    }
}

/// Rearranged rows name the same elements.
proof fn lemma_same_identity_texts(a: Seq<Keyed>, b: Seq<Keyed>)
    requires
        a.to_multiset() == b.to_multiset(),
    ensures
        forall|t: Seq<char>| #[trigger]
            identity_texts(a).contains(t) <==> identity_texts(b).contains(t),
{
    assert forall|t: Seq<char>| #[trigger] identity_texts(a).contains(t) <==> identity_texts(
        b,
    ).contains(t) by {
        lemma_texts_carry_over(a, b, t);
        lemma_texts_carry_over(b, a, t);
    }
}

proof fn lemma_texts_carry_over(a: Seq<Keyed>, b: Seq<Keyed>, t: Seq<char>)
    requires
        a.to_multiset() == b.to_multiset(),
    ensures
        identity_texts(a).contains(t) ==> identity_texts(b).contains(t),
{
    if identity_texts(a).contains(t) {
        let i = choose|i: int| 0 <= i < a.len() && identity_texts(a)[i] == t;
        assert(a.contains(a[i]));
        lemma_same_elements(a, b, a[i]);
        let j = choose|j: int| 0 <= j < b.len() && b[j] == a[i];
        assert(identity_texts(b)[j] == t);
    }
}

/// Nothing is lost in a bake: for every feature, and every part that its tags
/// are split into, there is a row with its position, its kind, its id and those
/// tags, and the row's ordinal names the element in the book.
pub proof fn law_every_part_has_a_row(b: Bake, keys: Seq<Keyed>, i: int, n: int)
    requires
        is_bake_of(b, keys),
        0 <= i < keys.len(),
        0 <= n <= overflow_rows(keys[i].tags.len as nat),
    ensures
        exists|j: int|
            0 <= j < b.keyed@.len() && {
                let k = #[trigger] b.keyed@[j];
                &&& as_sorted(k) == part(keys[i], n)
                &&& k.identity_ordinal matches Some(o)
                &&& o < b.book@.len()
                &&& b.book@[o as int] == identity_text(keys[i].entity_type, keys[i].osm_id)
            },
{
    let sorted = b.keyed@.map_values(|k: Keyed| as_sorted(k));
    let split = split_rows(keys);
    let want = part(keys[i], n);
    let firsts = keys.map_values(|k: Keyed| part(k, 0));
    if n == 0 {
        assert(split[i] == want);
    } else {
        lemma_part_in_rest(keys, i, n);
        let rest = all_continuations(keys);
        let j = choose|j: int| 0 <= j < rest.len() && rest[j] == want;
        assert(split[firsts.len() + j] == want);
    }
    assert(split.contains(want));
    lemma_same_elements(sorted, split, want);
    let j = choose|j: int| 0 <= j < sorted.len() && sorted[j] == want;
    assert(as_sorted(b.keyed@[j]) == want);
}

proof fn lemma_part_in_rest(keys: Seq<Keyed>, i: int, n: int)
    requires
        0 <= i < keys.len(),
        1 <= n <= overflow_rows(keys[i].tags.len as nat),
    ensures
        all_continuations(keys).contains(part(keys[i], n)),
    decreases keys.len(),
{
    let front = keys.drop_last();
    let last = keys.last();
    let (a, b) = (all_continuations(front), continuations(last));
    let all = all_continuations(keys);
    if i < front.len() {
        lemma_part_in_rest(front, i, n);
        assert(front[i] == keys[i]);
        let j = choose|j: int| 0 <= j < a.len() && a[j] == part(keys[i], n);
        assert(all[j] == part(keys[i], n));
    } else {
        assert(b[n - 1] == part(keys[i], n));
        assert(all[a.len() + n - 1] == part(keys[i], n));
    }
}

/// Every row of a bake is of one of its features.
pub proof fn lemma_row_is_a_part(b: Bake, keys: Seq<Keyed>, j: int)
    requires
        is_bake_of(b, keys),
        0 <= j < b.keyed@.len(),
    ensures
        exists|i: int, n: int|
            0 <= i < keys.len() && 0 <= n <= overflow_rows(keys[i].tags.len as nat) && as_sorted(
                b.keyed@[j],
            ) == #[trigger] part(keys[i], n),
{
    let sorted = b.keyed@.map_values(|k: Keyed| as_sorted(k));
    let split = split_rows(keys);
    let firsts = keys.map_values(|k: Keyed| part(k, 0));
    let x = as_sorted(b.keyed@[j]);
    assert(sorted[j] == x);
    assert(sorted.contains(x));
    lemma_same_elements(sorted, split, x);
    let m = choose|m: int| 0 <= m < split.len() && split[m] == x;
    if m < firsts.len() {
        assert(x == part(keys[m], 0));
    } else {
        let (i, n) = lemma_continuation_is_a_part(keys, m - firsts.len());
        assert(split[m] == all_continuations(keys)[m - firsts.len()]);
        assert(x == part(keys[i], n));
    }
}

/// A continuation row is a part of a feature, and not its first.
proof fn lemma_continuation_is_a_part(keys: Seq<Keyed>, q: int) -> (r: (int, int))
    requires
        0 <= q < all_continuations(keys).len(),
    ensures
        0 <= r.0 < keys.len(),
        1 <= r.1 <= overflow_rows(keys[r.0].tags.len as nat),
        all_continuations(keys)[q] == part(keys[r.0], r.1),
    decreases keys.len(),
{
    let front = all_continuations(keys.drop_last());
    if q < front.len() {
        let r = lemma_continuation_is_a_part(keys.drop_last(), q);
        assert(keys.drop_last()[r.0] == keys[r.0]);
        r
    } else {
        (keys.len() - 1, q - front.len() + 1)
    }
}

/// Whether a row can be built from `k`, and was.
pub open spec fn is_built(row: NodeRow, k: Keyed, tags: Seq<(u32, u32)>) -> bool {
    buildable(k, tags) && is_row_of(row, k, tags)
}

/// Whether rows are those of a bake.
pub open spec fn are_rows_of(rows: Seq<NodeRow>, b: Bake, tags: Seq<(u32, u32)>) -> bool {
    &&& rows.len() == b.keyed@.len()
    &&& forall|j: int|
        0 <= j < rows.len() ==> is_built(#[trigger] rows[j], b.keyed@[j], tags)
}

/// Whether rows of `k` can be built: a geo concept, at most eight edge names, and
/// tags that exist and whose ordinals fit.
pub open spec fn bakeable(k: Keyed, tags: Seq<(u32, u32)>) -> bool {
    &&& is_geo(k.entity_type as nat)
    &&& k.edge_names.len <= EDGE_SLOTS
    &&& k.tags.start + k.tags.len <= u32::MAX
    &&& k.tags.within(tags.len())
    &&& forall|i: int|
        0 <= i < tags.len() ==> (#[trigger] tags[i]).0 <= MAX_ORDINAL && tags[i].1 <= MAX_ORDINAL
}

/// Every row of a bake can be built: its element can be named, and its tags fit
/// one row.
pub proof fn law_bake_is_buildable(b: Bake, keys: Seq<Keyed>, tags: Seq<(u32, u32)>, j: int)
    requires
        is_bake_of(b, keys),
        b.book@.len() <= MAX_ENTRIES,
        forall|i: int| 0 <= i < keys.len() ==> bakeable(#[trigger] keys[i], tags),
        0 <= j < b.keyed@.len(),
    ensures
        buildable(b.keyed@[j], tags),
{
    let r = b.keyed@[j];
    lemma_row_is_a_part(b, keys, j);
    let (i, n) = choose|i: int, n: int|
        0 <= i < keys.len() && 0 <= n <= overflow_rows(keys[i].tags.len as nat) && as_sorted(r)
            == #[trigger] part(keys[i], n);
    assert(bakeable(keys[i], tags));
    assert(28 * n <= keys[i].tags.len);
    assert(r.tags == part_span(keys[i].tags, n));
    assert forall|m: int| 0 <= m < r.tags.len implies (#[trigger] r.tags.of(tags)[m]).0
        <= MAX_ORDINAL && r.tags.of(tags)[m].1 <= MAX_ORDINAL by {
        assert(r.tags.of(tags)[m] == tags[r.tags.start + m]);
    }
}

/// Builds the rows of a bake.
pub fn build_rows(b: &Bake, tags: &ResolvedTags) -> (rows: Vec<NodeRow>)
    requires
        forall|j: int|
            0 <= j < b.keyed@.len() ==> buildable(#[trigger] b.keyed@[j], tags.ordinals()),
    ensures
        are_rows_of(rows@, *b, tags.ordinals()),
{
    let mut rows: Vec<NodeRow> = Vec::new();
    let mut j: usize = 0;
    while j < b.keyed.len()
        invariant
            j <= b.keyed@.len(),
            rows@.len() == j,
            forall|i: int|
                0 <= i < b.keyed@.len() ==> buildable(#[trigger] b.keyed@[i], tags.ordinals()),
            forall|i: int|
                0 <= i < j ==> is_built(#[trigger] rows@[i], b.keyed@[i], tags.ordinals()),
        decreases b.keyed@.len() - j,
    {
        let row: NodeRow = build_row(&b.keyed[j], tags);
        rows.push(row);
        j = j + 1;
    }
    rows
}

/// The bytes of rows, one after the other.
pub open spec fn rows_wire(rows: Seq<NodeRow>) -> Seq<u8>
    decreases rows.len(),
{
    if rows.len() == 0 {
        Seq::empty()
    } else {
        rows_wire(rows.drop_last()) + row_wire(rows.last())
    }
}

/// Writes rows, one after the other.
pub fn write_rows(w: &mut Vec<u8>, rows: &[NodeRow])
    ensures
        final(w)@ == old(w)@ + rows_wire(rows@),
{
    let ghost before = w@;
    let mut i: usize = 0;
    assert(rows@.take(0) =~= Seq::<NodeRow>::empty());
    assert(w@ =~= before + rows_wire(rows@.take(0)));
    while i < rows.len()
        invariant
            i <= rows@.len(),
            w@ == before + rows_wire(rows@.take(i as int)),
        decreases rows@.len() - i,
    {
        proof {
            assert(rows@.take(i + 1).drop_last() =~= rows@.take(i as int));
            assert(rows@.take(i + 1).last() == rows@[i as int]);
        }
        rows[i].push_to(w);
        assert(w@ =~= before + rows_wire(rows@.take(i + 1)));
        i = i + 1;
    }
    assert(rows@.take(rows@.len() as int) =~= rows@);
}

/// Row `i` of written rows stands at its stride.
proof fn lemma_row_in_wire(rows: Seq<NodeRow>, i: int)
    requires
        0 <= i < rows.len(),
    ensures
        rows_wire(rows).len() == 512 * rows.len(),
        rows_wire(rows).subrange(512 * i, 512 * i + 512) == row_wire(rows[i]),
    decreases rows.len(),
{
    let front = rows.drop_last();
    lemma_wire_len(front);
    assert(row_wire(rows.last()).len() == 512);
    if i < front.len() {
        lemma_row_in_wire(front, i);
        assert(rows_wire(rows).subrange(512 * i, 512 * i + 512) =~= rows_wire(front).subrange(
            512 * i,
            512 * i + 512,
        ));
    } else {
        assert(rows_wire(rows).subrange(512 * i, 512 * i + 512) =~= row_wire(rows[i]));
    }
}

proof fn lemma_wire_len(rows: Seq<NodeRow>)
    ensures
        rows_wire(rows).len() == 512 * rows.len(),
    decreases rows.len(),
{
    if rows.len() > 0 {
        lemma_wire_len(rows.drop_last());
        assert(row_wire(rows.last()).len() == 512);
    }
}

/// A slab holds the rows that were written: what is taken out of the bytes of a
/// bake's rows are rows of that bake.
pub proof fn law_slab_holds_the_rows(
    rows: Seq<NodeRow>,
    out: Seq<NodeRow>,
    b: Bake,
    tags: Seq<(u32, u32)>,
)
    requires
        are_rows_of(rows, b, tags),
        out.len() == row_count(rows_wire(rows)),
        forall|i: int|
            0 <= i < out.len() ==> row_wire(#[trigger] out[i]) == rows_wire(rows).subrange(
                512 * i,
                512 * i + 512,
            ),
    ensures
        rows_wire(rows).len() == 512 * rows.len(),
        are_rows_of(out, b, tags),
{
    lemma_wire_len(rows);
    assert(out.len() == rows.len());
    assert forall|j: int| 0 <= j < out.len() implies is_built(
        #[trigger] out[j],
        b.keyed@[j],
        tags,
    ) by {
        lemma_row_in_wire(rows, j);
        assert(is_built(rows[j], b.keyed@[j], tags));
        let (x, y) = (row_wire(out[j]), row_wire(rows[j]));
        assert(out[j].key.bytes@ =~= x.subrange(0, 16));
        assert(rows[j].key.bytes@ =~= y.subrange(0, 16));
        assert(out[j].edges@ =~= x.subrange(16, 32));
        assert(rows[j].edges@ =~= y.subrange(16, 32));
        assert(out[j].value@ =~= x.subrange(32, 512));
        assert(rows[j].value@ =~= y.subrange(32, 512));
    }
}

/// Whether a feature can be baked: a geo concept, with tags that exist.
pub open spec fn is_sound(f: Feature, tags: nat) -> bool {
    is_geo(f.entity_type as nat) && f.tags.start + f.tags.len <= u32::MAX && f.tags.within(tags)
}

/// Bakes features and builds their rows. More elements than ordinals are
/// refused.
pub fn bake_features(features: &[Feature], tags: &ResolvedTags) -> (r: Result<
    (Bake, Vec<NodeRow>),
    CodebookError,
>)
    requires
        tags.wf(),
        forall|i: int|
            0 <= i < features@.len() ==> is_sound(#[trigger] features@[i], tags.ordinals().len()),
    ensures
        exists|keys: Seq<Keyed>| #[trigger]
            are_keys_of(keys, features@) && match r {
                Ok((b, rows)) => {
                    &&& is_bake_of(b, keys)
                    &&& b.book@.len() <= MAX_ENTRIES
                    &&& are_rows_of(rows@, b, tags.ordinals())
                },
                Err(e) => e == CodebookError::TooLarge && identity_texts(
                    split_rows(keys),
                ).to_set().len() > MAX_ENTRIES,
            },
{
    let keys: Vec<Keyed> = key_features(features);
    let ghost given = keys@;
    let key_count: usize = tags.keys.len();
    let value_count: usize = tags.values.len();
    assert forall|i: int| 0 <= i < given.len() implies bakeable(#[trigger] given[i], tags.ordinals())
        && given[i].identity == 0 && given[i].identity_ordinal is None by {
        assert(is_key_of(given[i], features@[i]));
        assert(is_sound(features@[i], tags.ordinals().len()));
    }
    let b: Bake = match bake(keys) {
        Ok(b) => b,
        Err(e) => {
            assert(are_keys_of(given, features@));
            return Err(e);
        },
    };
    assert forall|j: int| 0 <= j < b.keyed@.len() implies buildable(
        #[trigger] b.keyed@[j],
        tags.ordinals(),
    ) by {
        law_bake_is_buildable(b, given, tags.ordinals(), j);
    }
    let rows: Vec<NodeRow> = build_rows(&b, tags);
    assert(are_keys_of(given, features@));
    Ok((b, rows))
}

/// The slab of a bake is in key order, so that a tile is one range of its rows.
pub proof fn law_bake_is_in_key_order(
    b: Bake,
    rows: Seq<NodeRow>,
    keys: Seq<Keyed>,
    tags: Seq<(u32, u32)>,
)
    requires
        is_bake_of(b, keys),
        are_rows_of(rows, b, tags),
        forall|i: int|
            0 <= i < keys.len() ==> (#[trigger] keys[i]).tiers == tiers(keys[i].morton),
    ensures
        in_key_order(rows_wire(rows)),
        row_count(rows_wire(rows)) == rows.len(),
        forall|j: int|
            0 <= j < rows.len() ==> #[trigger] code_at(rows_wire(rows), j) == b.keyed@[j].morton,
{
    let w = rows_wire(rows);
    let sorted = b.keyed@.map_values(|k: Keyed| as_sorted(k));
    lemma_wire_len(rows);
    assert forall|j: int| 0 <= j < rows.len() implies #[trigger] code_at(w, j)
        == b.keyed@[j].morton by {
        let k = b.keyed@[j];
        lemma_row_in_wire(rows, j);
        lemma_row_is_a_part(b, keys, j);
        let (i, n) = choose|i: int, n: int|
            0 <= i < keys.len() && 0 <= n <= overflow_rows(keys[i].tags.len as nat) && as_sorted(k)
                == #[trigger] part(keys[i], n);
        assert(keys[i].tiers == tiers(keys[i].morton));
        assert(is_built(rows[j], k, tags));
        law_key_round_trip(CLASSID_GEO_V3, k.morton, 0, k.identity);
        assert(w.subrange(512 * j, 512 * j + 16) =~= w.subrange(512 * j, 512 * j + 512).subrange(
            0,
            16,
        ));
        assert(row_wire(rows[j]).subrange(0, 16) =~= rows[j].key.bytes@);
    }
    assert forall|i: int, j: int|
        #![trigger code_at(w, i), code_at(w, j)]
        0 <= i <= j < row_count(w) implies code_at(w, i) <= code_at(w, j) by {
        assert(sorted[i].morton == b.keyed@[i].morton);
        assert(sorted[j].morton == b.keyed@[j].morton);
        if i < j {
            assert(sorted[i].ranks_before(&sorted[j]));
        }
    }
}

/// Whether no two rows tie in key and in the place of their tags.
pub open spec fn no_ties(rows: Seq<Keyed>) -> bool {
    forall|i: int, j: int|
        #![trigger rows[i], rows[j]]
        0 <= i < j < rows.len() ==> rows[i].morton != rows[j].morton || rows[i].tags.start
            != rows[j].tags.start
}

/// A bake is determined by its features: two bakes of the same have the same
/// rows in the same order, with the same counters and the same ordinals.
pub proof fn law_bake_is_unique(a: Bake, b: Bake, keys: Seq<Keyed>)
    requires
        is_bake_of(a, keys),
        is_bake_of(b, keys),
        no_ties(split_rows(keys)),
    ensures
        a.keyed@ == b.keyed@,
        a.book@ == b.book@,
        a.continuations == b.continuations,
        a.collisions == b.collisions,
{
    let x = a.keyed@.map_values(|k: Keyed| as_sorted(k));
    let y = b.keyed@.map_values(|k: Keyed| as_sorted(k));
    let split = split_rows(keys);
    law_book_is_unique(a.book@, b.book@, identity_texts(split));
    lemma_no_ties(split, x);
    lemma_one_order(x, y);
    assert forall|j: int| 0 <= j < a.keyed@.len() implies a.keyed@[j] == b.keyed@[j] by {
        let (k, l) = (a.keyed@[j], b.keyed@[j]);
        assert(x[j] == as_sorted(k) && y[j] == as_sorted(l));
        law_ordinals_are_faithful(
            a.book@,
            k.identity_ordinal->0 as int,
            l.identity_ordinal->0 as int,
        );
    }
    assert(a.keyed@ =~= b.keyed@);
}

/// Rows without ties, put in order, stand in strict order.
proof fn lemma_no_ties(split: Seq<Keyed>, s: Seq<Keyed>)
    requires
        split.to_multiset() == s.to_multiset(),
        no_ties(split),
        in_order(s),
    ensures
        forall|i: int, j: int|
            #![trigger s[i], s[j]]
            0 <= i < j < s.len() ==> s[i].ranks_before(&s[j]) && !s[j].ranks_before(&s[i]),
{
    assert(split.no_duplicates()) by {
        assert forall|i: int, j: int|
            0 <= i < split.len() && 0 <= j < split.len() && i != j implies split[i] != split[j] by {
            if i < j {
                assert(split[i].morton != split[j].morton || split[i].tags.start
                    != split[j].tags.start);
            } else {
                assert(split[j].morton != split[i].morton || split[j].tags.start
                    != split[i].tags.start);
            }
        }
    }
    lemma_same_distinct(split, s);
    assert forall|i: int, j: int|
        #![trigger s[i], s[j]]
        0 <= i < j < s.len() implies s[i].ranks_before(&s[j]) && !s[j].ranks_before(&s[i]) by {
        assert(s.contains(s[i]) && s.contains(s[j]));
        lemma_same_elements(split, s, s[i]);
        lemma_same_elements(split, s, s[j]);
        let p = choose|p: int| 0 <= p < split.len() && split[p] == s[i];
        let q = choose|q: int| 0 <= q < split.len() && split[q] == s[j];
        assert(s[i] != s[j]);
        if p < q {
            assert(split[p].morton != split[q].morton || split[p].tags.start
                != split[q].tags.start);
        } else {
            assert(split[q].morton != split[p].morton || split[q].tags.start
                != split[p].tags.start);
        }
    }
}

/// Facet slots that rows fill.
pub open spec fn total_slots(rows: Seq<NodeRow>) -> nat
    decreases rows.len(),
{
    if rows.len() == 0 {
        0
    } else {
        total_slots(rows.drop_last()) + facets_below(rows.last(), ROW_SLOTS as int).len()
    }
}

/// Counts the facet slots that rows fill.
pub fn slots_filled(rows: &[NodeRow]) -> (n: u64)
    requires
        30 * rows@.len() <= u64::MAX,
    ensures
        n == total_slots(rows@),
{
    let mut n: u64 = 0;
    let mut i: usize = 0;
    assert(rows@.take(0) =~= Seq::<NodeRow>::empty());
    while i < rows.len()
        invariant
            i <= rows@.len(),
            30 * rows@.len() <= u64::MAX,
            n == total_slots(rows@.take(i as int)),
            n <= 30 * i,
        decreases rows@.len() - i,
    {
        assert(rows@.take(i + 1).drop_last() =~= rows@.take(i as int));
        assert(rows@.take(i + 1).last() == rows@[i as int]);
        n = n + filled_slots(&rows[i]) as u64;
        i = i + 1;
    }
    assert(rows@.take(rows@.len() as int) =~= rows@);
    n
}

/// No row of a bake is empty: each names its element at least, and where that is
/// no facet of its own, as with the tag concept, it carries a tag. A slab of keys
/// and nothing else does not come out of a bake.
pub proof fn law_every_row_fills_a_slot(
    b: Bake,
    rows: Seq<NodeRow>,
    keys: Seq<Keyed>,
    tags: Seq<(u32, u32)>,
    n: int,
)
    requires
        is_bake_of(b, keys),
        are_rows_of(rows, b, tags),
        forall|i: int|
            0 <= i < keys.len() ==> {
                let k = #[trigger] keys[i];
                k.tiers == tiers(k.morton) && k.edge_names.len == 0 && (k.entity_type
                    != OSM_ELEMENT_TAG || k.tags.len > 0)
            },
        0 <= n <= rows.len(),
    ensures
        total_slots(rows.take(n)) >= n,
    decreases n,
{
    if n > 0 {
        law_every_row_fills_a_slot(b, rows, keys, tags, n - 1);
        let front = rows.take(n);
        assert(front.drop_last() =~= rows.take(n - 1));
        let row = rows[n - 1];
        let k = b.keyed@[n - 1];
        assert(front.last() == row);
        lemma_row_is_a_part(b, keys, n - 1);
        let (i, m) = choose|i: int, m: int|
            0 <= i < keys.len() && 0 <= m <= overflow_rows(keys[i].tags.len as nat) && as_sorted(k)
                == #[trigger] part(keys[i], m);
        assert(keys[i].tiers == tiers(keys[i].morton));
        assert(is_built(row, k, tags));
        law_row_reads_back(row, k, tags, k.identity_ordinal->0);
        law_facets_are_complete(row, ROW_SLOTS as int);
        if k.entity_type == OSM_ELEMENT_TAG {
            assert(k.tags.len > 0);
            assert(facet_at(row, FIRST_TAG_SLOT + 0) is Some);
        } else {
            assert(facet_at(row, GEO_IDENTITY_SLOT as int) is Some);
        }
        assert(facets_below(row, ROW_SLOTS as int).len() >= 1);
    }
}

/// Whether a span lies inside a store and can be addressed.
spec fn addressable(s: TagSpan, n: nat) -> bool {
    s.start + s.len <= u32::MAX && s.within(n)
}

/// Whether what has been read so far can be baked.
spec fn is_sound_read(s: ReadSoFar) -> bool {
    &&& forall|i: int|
        0 <= i < s.features.len() ==> is_element(#[trigger] s.features[i], s.tags.len())
    &&& forall|i: int|
        0 <= i < s.waiting.len() ==> addressable((#[trigger] s.waiting[i]).tags, s.tags.len())
}

/// Whether a feature is a node, a way or a relation, with tags that exist.
pub open spec fn is_element(f: Feature, tags: nat) -> bool {
    is_sound(f, tags) && (f.entity_type == OSM_NODE || f.entity_type == OSM_WAY || f.entity_type
        == OSM_RELATION)
}

proof fn lemma_sound_step(s: ReadSoFar, e: Element)
    requires
        is_sound_read(s),
        s.tags.len() + tags_of(e).len() <= u32::MAX,
    ensures
        is_sound_read(after(s, e)),
        s.tags.len() <= after(s, e).tags.len() <= s.tags.len() + tags_of(e).len(),
{
    let t = after(s, e);
    let n = s.features.len() as int;
    assert forall|i: int| 0 <= i < t.features.len() implies is_element(
        #[trigger] t.features[i],
        t.tags.len(),
    ) by {
        if i < n {
            assert(t.features[i] == s.features[i]);
            assert(is_element(s.features[i], s.tags.len()));
        }
    }
    assert forall|i: int| 0 <= i < t.waiting.len() implies addressable(
        (#[trigger] t.waiting[i]).tags,
        t.tags.len(),
    ) by {
        if i < s.waiting.len() {
            assert(t.waiting[i] == s.waiting[i]);
            assert(addressable(s.waiting[i].tags, s.tags.len()));
        }
    }
}

proof fn lemma_sound_read(s: ReadSoFar, elements: Seq<Element>)
    requires
        is_sound_read(s),
        s.tags.len() + tag_total(elements) <= u32::MAX,
    ensures
        is_sound_read(after_all(s, elements)),
        after_all(s, elements).tags.len() <= s.tags.len() + tag_total(elements),
    decreases elements.len(),
{
    if elements.len() > 0 {
        lemma_sound_read(s, elements.drop_last());
        lemma_sound_step(after_all(s, elements.drop_last()), elements.last());
    }
}

proof fn lemma_indexed_is_empty(nodes: Seq<(i64, TileXy)>)
    ensures
        is_sound_read(indexed(nodes)),
        indexed(nodes).tags.len() == 0,
    decreases nodes.len(),
{
    if nodes.len() > 0 {
        lemma_indexed_is_empty(nodes.drop_last());
        let (s, t) = (indexed(nodes.drop_last()), indexed(nodes));
        assert(t.features == s.features && t.waiting == s.waiting && t.tags == s.tags);
    }
}

proof fn lemma_relations_are_elements(s: ReadSoFar, waiting: Seq<Waiting>)
    requires
        forall|i: int|
            0 <= i < waiting.len() ==> addressable((#[trigger] waiting[i]).tags, s.tags.len()),
    ensures
        forall|i: int|
            0 <= i < relation_features(s, waiting).len() ==> is_element(
                #[trigger] relation_features(s, waiting)[i],
                s.tags.len(),
            ),
    decreases waiting.len(),
{
    if waiting.len() > 0 {
        let front = waiting.drop_last();
        assert forall|i: int| 0 <= i < front.len() implies addressable(
            (#[trigger] front[i]).tags,
            s.tags.len(),
        ) by {
            assert(front[i] == waiting[i]);
        }
        lemma_relations_are_elements(s, front);
        assert(addressable(waiting[waiting.len() - 1].tags, s.tags.len()));
        let (a, b) = (relation_features(s, front), relation_features(s, waiting));
        assert forall|i: int| 0 <= i < b.len() implies is_element(
            #[trigger] b[i],
            s.tags.len(),
        ) by {
            if i < a.len() {
                assert(b[i] == a[i]);
            }
        }
    }
}

/// Whatever is read can be baked: every feature of a read is a node, a way or a
/// relation, and its tags are in the store that was read with it.
pub proof fn law_what_is_read_can_be_baked(
    nodes: Seq<(i64, TileXy)>,
    elements: Seq<Element>,
    i: int,
)
    requires
        tag_total(elements) <= u32::MAX,
        ({
            let s = after_all(indexed(nodes), elements);
            0 <= i < (s.features + relation_features(s, s.waiting)).len()
        }),
    ensures
        ({
            let s = after_all(indexed(nodes), elements);
            is_element((s.features + relation_features(s, s.waiting))[i], s.tags.len())
        }),
{
    let s = after_all(indexed(nodes), elements);
    lemma_indexed_is_empty(nodes);
    lemma_sound_read(indexed(nodes), elements);
    lemma_relations_are_elements(s, s.waiting);
    let all = s.features + relation_features(s, s.waiting);
    if i < s.features.len() {
        assert(all[i] == s.features[i]);
    } else {
        assert(all[i] == relation_features(s, s.waiting)[i - s.features.len()]);
    }
}

/// Whether two spans have no pair in common.
spec fn apart(a: TagSpan, b: TagSpan) -> bool {
    a.start + a.len <= b.start || b.start + b.len <= a.start
}

/// Whether a span holds a pair, and ends by `n`.
spec fn holds_some(s: TagSpan, n: nat) -> bool {
    s.len > 0 && s.within(n)
}

/// Whether what has been read so far has its tags, some each, in places of their own.
spec fn in_own_places(s: ReadSoFar) -> bool {
    &&& forall|i: int|
        0 <= i < s.features.len() ==> holds_some((#[trigger] s.features[i]).tags, s.tags.len())
    &&& forall|i: int|
        0 <= i < s.waiting.len() ==> holds_some((#[trigger] s.waiting[i]).tags, s.tags.len())
    &&& forall|i: int, j: int|
        #![trigger s.features[i], s.features[j]]
        0 <= i < j < s.features.len() ==> apart(s.features[i].tags, s.features[j].tags)
    &&& forall|i: int, j: int|
        #![trigger s.waiting[i], s.waiting[j]]
        0 <= i < j < s.waiting.len() ==> apart(s.waiting[i].tags, s.waiting[j].tags)
    &&& forall|i: int, j: int|
        #![trigger s.features[i], s.waiting[j]]
        0 <= i < s.features.len() && 0 <= j < s.waiting.len() ==> apart(
            s.features[i].tags,
            s.waiting[j].tags,
        )
}

proof fn lemma_own_places_step(s: ReadSoFar, e: Element)
    requires
        in_own_places(s),
        s.tags.len() + tags_of(e).len() <= u32::MAX,
    ensures
        in_own_places(after(s, e)),
        after(s, e).tags.len() <= s.tags.len() + tags_of(e).len(),
{
    let t = after(s, e);
    let (n, m) = (s.features.len() as int, s.waiting.len() as int);
    assert(forall|i: int| 0 <= i < n ==> t.features[i] == #[trigger] s.features[i]);
    assert(forall|i: int| 0 <= i < m ==> t.waiting[i] == #[trigger] s.waiting[i]);
    assert forall|i: int| 0 <= i < t.features.len() implies holds_some(
        (#[trigger] t.features[i]).tags,
        t.tags.len(),
    ) by {
        if i < n {
            assert(holds_some(s.features[i].tags, s.tags.len()));
        }
    }
    assert forall|i: int| 0 <= i < t.waiting.len() implies holds_some(
        (#[trigger] t.waiting[i]).tags,
        t.tags.len(),
    ) by {
        if i < m {
            assert(holds_some(s.waiting[i].tags, s.tags.len()));
        }
    }
    assert forall|i: int, j: int|
        #![trigger t.features[i], t.features[j]]
        0 <= i < j < t.features.len() implies apart(t.features[i].tags, t.features[j].tags) by {
        assert(holds_some(s.features[i].tags, s.tags.len()));
        if j < n {
            assert(apart(s.features[i].tags, s.features[j].tags));
        }
    }
    assert forall|i: int, j: int|
        #![trigger t.waiting[i], t.waiting[j]]
        0 <= i < j < t.waiting.len() implies apart(t.waiting[i].tags, t.waiting[j].tags) by {
        assert(holds_some(s.waiting[i].tags, s.tags.len()));
        if j < m {
            assert(apart(s.waiting[i].tags, s.waiting[j].tags));
        }
    }
    assert forall|i: int, j: int|
        #![trigger t.features[i], t.waiting[j]]
        0 <= i < t.features.len() && 0 <= j < t.waiting.len() implies apart(
        t.features[i].tags,
        t.waiting[j].tags,
    ) by {
        if i < n {
            assert(holds_some(s.features[i].tags, s.tags.len()));
        }
        if j < m {
            assert(holds_some(s.waiting[j].tags, s.tags.len()));
        }
        if i < n && j < m {
            assert(apart(s.features[i].tags, s.waiting[j].tags));
        }
    }
}

proof fn lemma_own_places(nodes: Seq<(i64, TileXy)>, elements: Seq<Element>)
    requires
        tag_total(elements) <= u32::MAX,
    ensures
        in_own_places(after_all(indexed(nodes), elements)),
        after_all(indexed(nodes), elements).tags.len() <= tag_total(elements),
    decreases nodes.len() + elements.len(),
{
    if elements.len() > 0 {
        lemma_own_places(nodes, elements.drop_last());
        lemma_own_places_step(after_all(indexed(nodes), elements.drop_last()), elements.last());
    } else if nodes.len() > 0 {
        lemma_own_places(nodes.drop_last(), elements);
        let (s, t) = (indexed(nodes.drop_last()), indexed(nodes));
        assert(t.features == s.features && t.waiting == s.waiting && t.tags == s.tags);
    }
}

/// A relation's feature has the tags of a relation that waited, each of another.
proof fn lemma_relation_spans(s: ReadSoFar, waiting: Seq<Waiting>)
    requires
        forall|i: int, j: int|
            #![trigger waiting[i], waiting[j]]
            0 <= i < j < waiting.len() ==> apart(waiting[i].tags, waiting[j].tags),
    ensures
        ({
            let f = relation_features(s, waiting);
            &&& forall|i: int|
                0 <= i < f.len() ==> exists|j: int|
                    0 <= j < waiting.len() && (#[trigger] waiting[j]).tags == (
                    #[trigger] f[i]).tags
            &&& forall|i: int, j: int|
                #![trigger f[i], f[j]]
                0 <= i < j < f.len() ==> apart(f[i].tags, f[j].tags)
        }),
    decreases waiting.len(),
{
    if waiting.len() > 0 {
        let (front, n) = (waiting.drop_last(), waiting.len() - 1);
        assert forall|i: int, j: int|
            #![trigger front[i], front[j]]
            0 <= i < j < front.len() implies apart(front[i].tags, front[j].tags) by {
            assert(apart(waiting[i].tags, waiting[j].tags));
        }
        lemma_relation_spans(s, front);
        let (a, b) = (relation_features(s, front), relation_features(s, waiting));
        assert forall|i: int| 0 <= i < a.len() implies exists|j: int|
            0 <= j < n && (#[trigger] waiting[j]).tags == (#[trigger] a[i]).tags by {
            let j = choose|j: int|
                0 <= j < front.len() && (#[trigger] front[j]).tags == a[i].tags;
            assert(waiting[j] == front[j]);
        }
        assert forall|i: int| 0 <= i < b.len() implies exists|j: int|
            0 <= j < waiting.len() && (#[trigger] waiting[j]).tags == (#[trigger] b[i]).tags by {
            if i < a.len() {
                let j = choose|j: int|
                    0 <= j < n && (#[trigger] waiting[j]).tags == a[i].tags;
                assert(waiting[j].tags == b[i].tags);
            } else {
                assert(waiting[n].tags == b[i].tags);
            }
        }
        assert forall|i: int, j: int|
            #![trigger b[i], b[j]]
            0 <= i < j < b.len() implies apart(b[i].tags, b[j].tags) by {
            assert(b[i] == a[i]);
            if j < a.len() {
                assert(apart(a[i].tags, a[j].tags));
            } else {
                let k = choose|k: int|
                    0 <= k < n && (#[trigger] waiting[k]).tags == a[i].tags;
                assert(apart(waiting[k].tags, waiting[n].tags));
            }
        }
    }
}

/// Whether keyed features have tags, some each, in places of their own.
spec fn keys_apart(keys: Seq<Keyed>) -> bool {
    &&& forall|i: int| 0 <= i < keys.len() ==> holds_some((#[trigger] keys[i]).tags, u32::MAX as nat)
    &&& forall|i: int, j: int|
        #![trigger keys[i], keys[j]]
        0 <= i < j < keys.len() ==> apart(keys[i].tags, keys[j].tags)
}

/// The rows of one feature begin inside its tags, each at another place, and those of
/// two features at different places.
proof fn lemma_parts_differ(a: Keyed, n: int, b: Keyed, m: int)
    requires
        holds_some(a.tags, u32::MAX as nat),
        holds_some(b.tags, u32::MAX as nat),
        0 <= n <= overflow_rows(a.tags.len as nat),
        0 <= m <= overflow_rows(b.tags.len as nat),
        apart(a.tags, b.tags) || a.tags == b.tags && n != m,
    ensures
        part(a, n).tags.start != part(b, m).tags.start,
{
    assert(28 * n < a.tags.len);
    assert(28 * m < b.tags.len);
}

proof fn lemma_continuations_differ(keys: Seq<Keyed>, p: int, q: int)
    requires
        keys_apart(keys),
        0 <= p < q < all_continuations(keys).len(),
    ensures
        all_continuations(keys)[p].tags.start != all_continuations(keys)[q].tags.start,
    decreases keys.len(),
{
    let (front, last) = (keys.drop_last(), keys[keys.len() - 1]);
    let n = all_continuations(front).len();
    assert forall|i: int| 0 <= i < front.len() implies holds_some(
        (#[trigger] front[i]).tags,
        u32::MAX as nat,
    ) by {
        assert(holds_some(keys[i].tags, u32::MAX as nat));
    }
    assert forall|i: int, j: int|
        #![trigger front[i], front[j]]
        0 <= i < j < front.len() implies apart(front[i].tags, front[j].tags) by {
        assert(apart(keys[i].tags, keys[j].tags));
    }
    assert(holds_some(last.tags, u32::MAX as nat));
    if q < n {
        lemma_continuations_differ(front, p, q);
    } else if p < n {
        let (i, k) = lemma_continuation_is_a_part(front, p);
        assert(front[i] == keys[i]);
        assert(apart(keys[i].tags, keys[keys.len() - 1].tags));
        lemma_parts_differ(keys[i], k, last, q - n + 1);
    } else {
        lemma_parts_differ(last, p - n + 1, last, q - n + 1);
    }
}

/// Features with tags of their own leave no ties among their rows.
proof fn lemma_apart_leaves_no_ties(keys: Seq<Keyed>)
    requires
        keys_apart(keys),
    ensures
        no_ties(split_rows(keys)),
{
    let rows = split_rows(keys);
    let n = keys.len() as int;
    assert forall|p: int, q: int|
        #![trigger rows[p], rows[q]]
        0 <= p < q < rows.len() implies rows[p].morton != rows[q].morton || rows[p].tags.start
        != rows[q].tags.start by {
        if q < n {
            assert(apart(keys[p].tags, keys[q].tags));
            assert(holds_some(keys[p].tags, u32::MAX as nat));
            assert(holds_some(keys[q].tags, u32::MAX as nat));
            lemma_parts_differ(keys[p], 0, keys[q], 0);
        } else if p < n {
            let (i, k) = lemma_continuation_is_a_part(keys, q - n);
            assert(rows[q] == part(keys[i], k));
            assert(rows[p] == part(keys[p], 0));
            assert(holds_some(keys[p].tags, u32::MAX as nat));
            assert(holds_some(keys[i].tags, u32::MAX as nat));
            if p < i {
                assert(apart(keys[p].tags, keys[i].tags));
            } else if i < p {
                assert(apart(keys[i].tags, keys[p].tags));
            }
            lemma_parts_differ(keys[p], 0, keys[i], k);
        } else {
            lemma_continuations_differ(keys, p - n, q - n);
        }
    }
}

/// What is read has one order: every feature of a read has tags of its own, so that no
/// two rows of its bake tie.
pub proof fn law_what_is_read_has_no_ties(
    nodes: Seq<(i64, TileXy)>,
    elements: Seq<Element>,
    keys: Seq<Keyed>,
)
    requires
        tag_total(elements) <= u32::MAX,
        ({
            let s = after_all(indexed(nodes), elements);
            are_keys_of(keys, s.features + relation_features(s, s.waiting))
        }),
    ensures
        no_ties(split_rows(keys)),
{
    let s = after_all(indexed(nodes), elements);
    let (n, relations) = (s.features.len() as int, relation_features(s, s.waiting));
    let all = s.features + relations;
    lemma_own_places(nodes, elements);
    lemma_relation_spans(s, s.waiting);
    assert forall|i: int| 0 <= i < keys.len() implies holds_some(
        (#[trigger] keys[i]).tags,
        u32::MAX as nat,
    ) by {
        assert(is_key_of(keys[i], all[i]));
        if i < n {
            assert(holds_some(s.features[i].tags, s.tags.len()));
        } else {
            assert(all[i] == relations[i - n]);
            let k = choose|k: int|
                0 <= k < s.waiting.len() && (#[trigger] s.waiting[k]).tags == relations[i - n].tags;
            assert(holds_some(s.waiting[k].tags, s.tags.len()));
        }
    }
    assert forall|i: int, j: int|
        #![trigger keys[i], keys[j]]
        0 <= i < j < keys.len() implies apart(keys[i].tags, keys[j].tags) by {
        assert(is_key_of(keys[i], all[i]) && is_key_of(keys[j], all[j]));
        if j < n {
            assert(apart(s.features[i].tags, s.features[j].tags));
        } else {
            assert(all[j] == relations[j - n]);
            if i < n {
                let k = choose|k: int|
                    0 <= k < s.waiting.len() && (#[trigger] s.waiting[k]).tags == relations[j
                        - n].tags;
                assert(apart(s.features[i].tags, s.waiting[k].tags));
            } else {
                assert(all[i] == relations[i - n]);
                assert(apart(relations[i - n].tags, relations[j - n].tags));
            }
        }
    }
    lemma_apart_leaves_no_ties(keys);
}

/// A feature has one key.
proof fn lemma_one_key(a: Keyed, b: Keyed, f: Feature)
    requires
        is_key_of(a, f),
        is_key_of(b, f),
    ensures
        a == b,
{
    let (x, y) = (a.edge_names.ordinals, b.edge_names.ordinals);
    assert forall|i: int| 0 <= i < 8 implies x[i] == y[i] by {
        assert(x@[i] == y@[i]);
    }
    assert(x =~= y);
}

/// Rows of the same bytes are written alike.
proof fn lemma_same_wire(a: Seq<NodeRow>, b: Seq<NodeRow>)
    requires
        a.len() == b.len(),
        forall|j: int| 0 <= j < a.len() ==> row_wire(#[trigger] a[j]) == row_wire(b[j]),
    ensures
        rows_wire(a) == rows_wire(b),
    decreases a.len(),
{
    if a.len() > 0 {
        let (x, y) = (a.drop_last(), b.drop_last());
        assert forall|j: int| 0 <= j < x.len() implies row_wire(#[trigger] x[j]) == row_wire(
            y[j],
        ) by {
            assert(x[j] == a[j] && y[j] == b[j]);
        }
        lemma_same_wire(x, y);
        assert(row_wire(a[a.len() - 1]) == row_wire(b[b.len() - 1]));
    }
}

/// Two bakes of one extract are identical, byte for byte, and so are their books.
pub proof fn law_bakes_of_one_extract_are_identical(
    nodes: Seq<(i64, TileXy)>,
    elements: Seq<Element>,
    tags: Seq<(u32, u32)>,
    a: (Bake, Seq<Keyed>, Seq<NodeRow>),
    b: (Bake, Seq<Keyed>, Seq<NodeRow>),
)
    requires
        tag_total(elements) <= u32::MAX,
        ({
            let s = after_all(indexed(nodes), elements);
            let features = s.features + relation_features(s, s.waiting);
            are_keys_of(a.1, features) && are_keys_of(b.1, features)
        }),
        is_bake_of(a.0, a.1),
        is_bake_of(b.0, b.1),
        are_rows_of(a.2, a.0, tags),
        are_rows_of(b.2, b.0, tags),
    ensures
        rows_wire(a.2) == rows_wire(b.2),
        a.0.book@ == b.0.book@,
{
    let s = after_all(indexed(nodes), elements);
    let features = s.features + relation_features(s, s.waiting);
    assert forall|i: int| 0 <= i < a.1.len() implies a.1[i] == b.1[i] by {
        assert(is_key_of(a.1[i], features[i]) && is_key_of(b.1[i], features[i]));
        lemma_one_key(a.1[i], b.1[i], features[i]);
    }
    assert(a.1 =~= b.1);
    law_what_is_read_has_no_ties(nodes, elements, a.1);
    law_bake_is_unique(a.0, b.0, a.1);
    assert forall|j: int| 0 <= j < a.2.len() implies row_wire(#[trigger] a.2[j]) == row_wire(
        b.2[j],
    ) by {
        assert(is_built(a.2[j], a.0.keyed@[j], tags));
        assert(is_built(b.2[j], b.0.keyed@[j], tags));
    }
    lemma_same_wire(a.2, b.2);
}

// ── Laws of what a bake says ────────────────────────────────────────
/// A bake has a row for every feature and one more for each continuation, and it counts the
/// rows that have the key of the row before them.
pub proof fn law_a_bake_counts_its_rows(b: Bake, keys: Seq<Keyed>)
    requires
        is_bake_of(b, keys),
    ensures
        b.keyed@.len() == keys.len() + b.continuations,
        b.collisions == Seq::new(
            b.keyed@.len(),
            |j: int| j > 0 && b.keyed@[j].morton == b.keyed@[j - 1].morton,
        ).filter(|c: bool| c).len(),
{
    broadcast use vstd::seq_lib::group_to_multiset_ensures;

    let sorted = b.keyed@.map_values(|k: Keyed| as_sorted(k));
    assert(sorted.len() == sorted.to_multiset().len());
    assert(split_rows(keys).len() == split_rows(keys).to_multiset().len());
    crate::row::law_collisions_are_counted(sorted, sorted.len() as int);
    assert(Seq::new(
        sorted.len(),
        |j: int| j > 0 && sorted[j].morton == sorted[j - 1].morton,
    ) =~= Seq::new(
        b.keyed@.len(),
        |j: int| j > 0 && b.keyed@[j].morton == b.keyed@[j - 1].morton,
    ));
}

proof fn lemma_run_goes_on(s: Seq<Keyed>, i: int, j: int)
    requires
        in_order(s),
        0 <= i <= j < s.len(),
        s[i].morton == s[j].morton,
    ensures
        run_index(s, j) == run_index(s, i) + (j - i),
        i < j ==> collides(s, j),
    decreases j - i,
{
    if i < j {
        assert(s[i].ranks_before(&s[j]));
        if i < j - 1 {
            assert(s[i].ranks_before(&s[j - 1]));
        }
        assert(s[j - 1].ranks_before(&s[j]));
        assert(s[j - 1].morton == s[j].morton);
        lemma_run_goes_on(s, i, j - 1);
        assert(collides(s, j));
    }
}

/// Rows that share a position are told apart by their counter: it is 0 on the first of
/// them and goes up by one, as far as sixteen bits go.
#[verifier::spinoff_prover]
pub proof fn law_rows_of_one_place_are_told_apart(b: Bake, keys: Seq<Keyed>, i: int, j: int)
    requires
        is_bake_of(b, keys),
        0 <= i < j < b.keyed@.len(),
        b.keyed@[i].morton == b.keyed@[j].morton,
        i == 0 || b.keyed@[i - 1].morton != b.keyed@[i].morton,
        j - i < 0x1_0000,
    ensures
        b.keyed@[i].identity == 0,
        b.keyed@[j].identity == j - i,
{
    let s = b.keyed@.map_values(|k: Keyed| as_sorted(k));
    lemma_counter(b, keys, i);
    lemma_counter(b, keys, j);
    lemma_counters(s, i, j);
}

/// What rows of one run are numbered by.
spec fn counter(s: Seq<Keyed>, j: int) -> u16 {
    if collides(s, j) {
        (run_index(s, j) % 0x1_0000) as u16
    } else {
        0
    }
}

proof fn lemma_counters(s: Seq<Keyed>, i: int, j: int)
    requires
        in_order(s),
        0 <= i < j < s.len(),
        s[i].morton == s[j].morton,
        i == 0 || s[i - 1].morton != s[i].morton,
        j - i < 0x1_0000,
    ensures
        counter(s, i) == 0,
        counter(s, j) == j - i,
{
    lemma_run_goes_on(s, i, j);
    assert(!collides(s, i));
    assert(run_index(s, i) == 0);
}

/// The counter of a row, by its place in its run.
#[verifier::spinoff_prover]
proof fn lemma_counter(b: Bake, keys: Seq<Keyed>, j: int)
    requires
        is_bake_of(b, keys),
        0 <= j < b.keyed@.len(),
    ensures
        ({
            let s = b.keyed@.map_values(|k: Keyed| as_sorted(k));
            &&& in_order(s)
            &&& s.len() == b.keyed@.len()
            &&& s[j].morton == b.keyed@[j].morton
            &&& j > 0 ==> s[j - 1].morton == b.keyed@[j - 1].morton
            &&& b.keyed@[j].identity == counter(s, j)
        }),
{
    let k = b.keyed@[j];
}

/// Every row of a bake names its element by the place of its text in the book.
pub proof fn law_ordinals_are_of_the_book(b: Bake, keys: Seq<Keyed>, j: int)
    requires
        is_bake_of(b, keys),
        0 <= j < b.keyed@.len(),
    ensures
        b.keyed@[j].identity_ordinal is Some,
        b.keyed@[j].identity_ordinal->0 < b.book@.len(),
        b.book@[b.keyed@[j].identity_ordinal->0 as int] == identity_text(
            b.keyed@[j].entity_type,
            b.keyed@[j].osm_id,
        ),
{
    let k = b.keyed@[j];
}

} // verus!
