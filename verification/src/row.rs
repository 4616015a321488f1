//! Feature to row.
//!
//! A feature is keyed, split where it has more tags than a row has slots, sorted
//! into key order, numbered where keys collide, given its codebook ordinal, and
//! laid out as a row. What a row says can be read back from its bytes alone
//! ([`law_row_reads_back`]).

use crate::book::{
    is_book_of, lemma_ascending_distinct, same_texts, strictly_ascending, text_le, texts_of,
    CodebookError, IdentityCodebook,
};
use crate::bytes::{le_value, lemma_le_round_trip, lemma_pow256_widths};
use crate::cluster::{facet_at, facet_in, law_tag_facet_round_trip, tag_facet, write_tag, Facet};
use crate::facet::{facet_field, MAX_ENTRIES, MAX_ORDINAL};
use crate::identity::{
    identity_of, law_blank_slot_names_nothing, law_member_facet_round_trip, member_facet, nameable,
    named_by, write_identity,
};
use crate::node::{
    key_classid, key_code, key_identity, key_wire, law_key_round_trip, law_slots_are_disjoint,
    lemma_not_overwritten, overwritten, slot_of, slot_start, NodeGuid, NodeRow, GEO_IDENTITY_SLOT, GEO_SLOPE_SLOT,
    RESERVED_SLOTS, ROW_SLOTS,
};
use crate::order::{in_order, sort, Ranked};
use crate::read::{anchor_cell, Feature, Junction};
use crate::street::{
    first_eight, is_junction, lemma_name_in_wire, lemma_names_len, name_of, names_wire,
    set_edge_names, EDGE_SLOTS, NAME_NONE,
};
use crate::tags::{ResolvedTags, TagSpan};
use crate::text::{
    chars_of, decimal, hex, lemma_decimal_digits, lemma_decimal_value, lemma_hex_injective,
    lemma_hex_len, lemma_hex_value, lemma_signed_decimal_injective, numeral_value, pow16, push_hex,
    push_signed, read_numeral, same_text, signed_decimal,
};
use crate::tms::{cell_code, cell_to_morton, tiers, tiers_of, Tiers};
use crate::vocab::{OSM_ELEMENT_TAG, OSM_STREET_NODE};
use vstd::prelude::*;
use vstd::string::*;

verus! {

/// Tag facets that one row can carry: every slot behind the reserved slope slot.
pub const TAGS_PER_ROW: usize = 28;

/// The first slot that a tag may occupy.
pub const FIRST_TAG_SLOT: usize = 4;

/// The class of every geo key: the node concept, third layout.
pub const CLASSID_GEO_V3: u32 = 0x0F01_1000;

/// The tag slots are what is left of a row behind the slope slot.
pub proof fn law_tag_slots()
    ensures
        TAGS_PER_ROW == ROW_SLOTS - GEO_SLOPE_SLOT - 1,
        FIRST_TAG_SLOT == GEO_SLOPE_SLOT + 1,
        FIRST_TAG_SLOT + TAGS_PER_ROW == ROW_SLOTS,
        CLASSID_GEO_V3 == crate::vocab::class_of(crate::vocab::OSM_NODE as nat),
{
}

// ── Keyed rows ──────────────────────────────────────────────────────
/// The edge names of a junction row: up to eight ordinals.
#[derive(Debug, Clone, Copy, PartialEq, Eq)]
pub struct EdgeNames {
    pub ordinals: [u16; 8],
    pub len: u8,
}

impl Default for EdgeNames {
    fn default() -> (e: Self)
        ensures
            e.len == 0,
            e.ordinals@ == padded(Seq::<u16>::empty()),
    {
        let ordinals: [u16; 8] = [0; 8];
        assert(ordinals@ =~= padded(Seq::<u16>::empty()));
        EdgeNames { ordinals, len: 0 }
    }
}

impl EdgeNames {
    /// The names that there are.
    pub open spec fn names(&self) -> Seq<u16> {
        self.ordinals@.take(self.len as int)
    }

    /// The names that there are.
    pub fn as_slice(&self) -> (s: &[u16])
        requires
            self.len <= 8,
        ensures
            s@ == self.names(),
    {
        vstd::slice::slice_subrange(self.ordinals.as_slice(), 0, self.len as usize)
    }
}

/// Names, filled up with zeros to eight.
pub open spec fn padded(names: Seq<u16>) -> Seq<u16> {
    Seq::new(
        8,
        |i: int|
            if i < names.len() {
                names[i]
            } else {
                0u16
            },
    )
}

/// What a row is made from.
#[derive(Debug, Clone, Copy)]
pub struct Keyed {
    pub morton: u64,
    pub tiers: Tiers,
    pub entity_type: u16,
    /// The OSM id. It is not written to the row: the ordinal that stands for it
    /// is.
    pub osm_id: i64,
    /// The codebook ordinal, once [`resolve_identities`] has run. Without it a
    /// row carries no identity rather than a wrong one.
    pub identity_ordinal: Option<u32>,
    /// Counts rows of one key.
    pub identity: u16,
    /// The tags that this row carries.
    pub tags: TagSpan,
    /// The edge names of a junction row.
    pub edge_names: EdgeNames,
}

/// Keys a feature: the Morton code of its cell and the four tiers of the code.
pub fn key_feature(f: &Feature) -> (k: Keyed)
    ensures
        k.morton == cell_code(anchor_cell(f.anchor)),
        k.tiers == tiers(k.morton),
        k.entity_type == f.entity_type,
        k.osm_id == f.osm_id,
        k.identity_ordinal is None,
        k.identity == 0,
        k.tags == f.tags,
        k.edge_names.len == 0,
        k.edge_names.ordinals@ == padded(Seq::<u16>::empty()),
{
    let morton: u64 = cell_to_morton(f.anchor.cell());
    Keyed {
        morton,
        tiers: tiers_of(morton),
        entity_type: f.entity_type,
        osm_id: f.osm_id,
        identity_ordinal: None,
        identity: 0,
        tags: f.tags,
        edge_names: EdgeNames::default(),
    }
}

// ── Junction rows ───────────────────────────────────────────────────
/// How many rows a junction with `n` named edges takes.
pub open spec fn rows_for(n: nat) -> nat {
    (n + 7) / 8
}

/// The names that row `i` of a junction carries.
pub open spec fn names_of_row(names: Seq<u16>, i: int) -> Seq<u16> {
    names.subrange(
        8 * i,
        if 8 * i + 8 <= names.len() {
            8 * i + 8
        } else {
            names.len() as int
        },
    )
}

/// Whether a row is row `i` of a junction.
pub open spec fn is_junction_row(k: Keyed, j: Junction, names: Seq<u16>, i: int) -> bool {
    &&& k.morton == cell_code(j.cell)
    &&& k.tiers == tiers(k.morton)
    &&& k.entity_type == OSM_STREET_NODE
    &&& k.osm_id == j.node_id
    &&& k.identity_ordinal is None
    &&& k.identity == 0
    &&& k.tags == (TagSpan { start: 0, len: 0 })
    &&& k.edge_names.len == names_of_row(names, i).len()
    &&& k.edge_names.ordinals@ == padded(names_of_row(names, i))
}

/// The rows of a junction, eight names a row. A junction without a named edge
/// has no row; names past the eighth are carried by further rows of the same
/// identity, never dropped.
pub fn junction_keyed(j: &Junction, names: &[u16]) -> (out: Vec<Keyed>)
    ensures
        out@.len() == rows_for(names@.len()),
        forall|i: int|
            0 <= i < out@.len() ==> is_junction_row(#[trigger] out@[i], *j, names@, i),
{
    let morton: u64 = cell_to_morton(j.cell);
    let t: Tiers = tiers_of(morton);
    let n: usize = names.len();
    let mut out: Vec<Keyed> = Vec::new();
    let mut at: usize = 0;
    while at < n
        invariant
            n == names@.len(),
            at <= n,
            at < n ==> at == 8 * out@.len(),
            out@.len() == rows_for(at as nat),
            morton == cell_code(j.cell),
            t == tiers(morton),
            forall|i: int|
                0 <= i < out@.len() ==> is_junction_row(#[trigger] out@[i], *j, names@, i),
        decreases n - at,
    {
        let take: usize = if n - at >= 8 {
            8
        } else {
            n - at
        };
        let ghost chunk = names_of_row(names@, out@.len() as int);
        let mut ordinals: [u16; 8] = [0; 8];
        let mut i: usize = 0;
        while i < take
            invariant
                i <= take <= 8,
                at + take <= n,
                n == names@.len(),
                chunk == names@.subrange(at as int, at + take),
                ordinals@.len() == 8,
                forall|k: int| 0 <= k < i ==> #[trigger] ordinals@[k] == chunk[k],
                forall|k: int| i <= k < 8 ==> #[trigger] ordinals@[k] == 0,
            decreases take - i,
        {
            ordinals[i] = names[at + i];
            i = i + 1;
        }
        assert(ordinals@ =~= padded(chunk));
        out.push(
            Keyed {
                morton,
                tiers: t,
                entity_type: OSM_STREET_NODE,
                osm_id: j.node_id,
                identity_ordinal: None,
                identity: 0,
                tags: TagSpan::default(),
                edge_names: EdgeNames { ordinals, len: take as u8 },
            },
        );
        at = at + take;
    }
    out
}

/// The names of rows `0..n` of a junction, one after the other.
pub open spec fn names_of_rows(names: Seq<u16>, n: int) -> Seq<u16>
    decreases n,
{
    if n <= 0 {
        Seq::empty()
    } else {
        names_of_rows(names, n - 1) + names_of_row(names, n - 1)
    }
}

/// The rows of a junction carry its names, all of them, in order.
pub proof fn law_junction_rows_are_lossless(names: Seq<u16>)
    ensures
        names_of_rows(names, rows_for(names.len()) as int) == names,
        forall|i: int|
            0 <= i < rows_for(names.len()) ==> 1 <= (#[trigger] names_of_row(names, i)).len() <= 8,
{
    lemma_names_prefix(names, rows_for(names.len()) as int);
}

proof fn lemma_names_prefix(names: Seq<u16>, n: int)
    requires
        0 <= n <= rows_for(names.len()),
    ensures
        names_of_rows(names, n) == names.take(
            if 8 * n <= names.len() {
                8 * n
            } else {
                names.len() as int
            },
        ),
    decreases n,
{
    if n == 0 {
        assert(names_of_rows(names, n) =~= names.take(0));
    } else {
        lemma_names_prefix(names, n - 1);
        assert(names_of_rows(names, n) =~= names.take(
            if 8 * n <= names.len() {
                8 * n
            } else {
                names.len() as int
            },
        ));
    }
}

// ── Tag overflow ────────────────────────────────────────────────────
/// How many rows beyond the first the tags of a feature take.
pub open spec fn overflow_rows(len: nat) -> nat {
    if len <= 28 {
        0
    } else {
        ((len - 1) / 28) as nat
    }
}

/// The tags that row `i` of a feature carries.
pub open spec fn part_span(s: TagSpan, i: int) -> TagSpan {
    TagSpan {
        start: (s.start + 28 * i) as u32,
        len: (if s.len - 28 * i <= 28 {
            s.len - 28 * i
        } else {
            28
        }) as u32,
    }
}

/// Row `i` of a feature: the same but for its tags.
pub open spec fn part(k: Keyed, i: int) -> Keyed {
    Keyed { tags: part_span(k.tags, i), ..k }
}

/// The rows beyond the first of one feature.
pub open spec fn continuations(k: Keyed) -> Seq<Keyed> {
    Seq::new(overflow_rows(k.tags.len as nat), |i: int| part(k, i + 1))
}

/// The rows beyond the first of all features, in order.
pub open spec fn all_continuations(s: Seq<Keyed>) -> Seq<Keyed>
    decreases s.len(),
{
    if s.len() == 0 {
        Seq::empty()
    } else {
        all_continuations(s.drop_last()) + continuations(s.last())
    }
}

/// Splits every feature that has more tags than a row carries: the first row
/// stays in place, the others are appended in order. Returns how many were
/// appended.
pub fn expand_tag_overflow(keyed: &mut Vec<Keyed>) -> (added: u64)
    requires
        forall|i: int|
            0 <= i < old(keyed)@.len() ==> (#[trigger] old(keyed)@[i]).tags.start
                + old(keyed)@[i].tags.len <= u32::MAX,
    ensures
        final(keyed)@ == old(keyed)@.map_values(|k: Keyed| part(k, 0)) + all_continuations(
            old(keyed)@,
        ),
        added == all_continuations(old(keyed)@).len(),
{
    let n: usize = keyed.len();
    let ghost given = keyed@;
    let mut extra: Vec<Keyed> = Vec::new();
    let mut i: usize = 0;
    assert(given.take(0) =~= Seq::<Keyed>::empty());
    while i < n
        invariant
            i <= n,
            n == given.len(),
            keyed@.len() == n,
            forall|j: int|
                0 <= j < given.len() ==> (#[trigger] given[j]).tags.start + given[j].tags.len
                    <= u32::MAX,
            forall|j: int| 0 <= j < i ==> #[trigger] keyed@[j] == part(given[j], 0),
            forall|j: int| i <= j < n ==> #[trigger] keyed@[j] == given[j],
            extra@ == all_continuations(given.take(i as int)),
        decreases n - i,
    {
        let k: Keyed = keyed[i];
        let full: TagSpan = k.tags;
        proof {
            assert(k == given[i as int]);
            assert(given.take(i + 1).drop_last() =~= given.take(i as int));
            assert(given.take(i + 1).last() == k);
        }
        if full.len > 28 {
            let first: Keyed = Keyed { tags: TagSpan { start: full.start, len: 28 }, ..k };
            keyed.set(i, first);
            let ghost before = extra@;
            let ghost all = continuations(k);
            let mut off: u32 = 28;
            let mut c: usize = 0;
            assert(all.take(0) =~= Seq::<Keyed>::empty());
            assert(extra@ =~= before + all.take(0));
            while off < full.len
                invariant
                    full == k.tags,
                    full.len > 28,
                    full.start + full.len <= u32::MAX,
                    off <= full.len,
                    off < full.len ==> off == 28 * (c + 1),
                    off == full.len ==> c == all.len(),
                    all == continuations(k),
                    c <= all.len(),
                    extra@ == before + all.take(c as int),
                decreases full.len - off,
            {
                let len: u32 = if full.len - off <= 28 {
                    full.len - off
                } else {
                    28
                };
                let next: Keyed = Keyed { tags: TagSpan { start: full.start + off, len }, ..k };
                proof {
                    assert(c < all.len());
                    assert(next == all[c as int]);
                    assert(all.take(c + 1) =~= all.take(c as int).push(next));
                }
                extra.push(next);
                off = off + len;
                c = c + 1;
                assert(extra@ =~= before + all.take(c as int));
            }
            assert(all.take(all.len() as int) =~= all);
        } else {
            proof {
                assert(part(k, 0) == k);
                assert(continuations(k) =~= Seq::<Keyed>::empty());
                assert(extra@ + continuations(k) =~= extra@);
            }
        }
        i = i + 1;
    }
    proof {
        assert(given.take(n as int) =~= given);
        assert(keyed@ =~= given.map_values(|k: Keyed| part(k, 0)));
    }
    let added: u64 = extra.len() as u64;
    keyed.append(&mut extra);
    added
}

/// The tags of rows `0..n` of a feature, one after the other.
pub open spec fn tags_of_parts<T>(s: TagSpan, tags: Seq<T>, n: int) -> Seq<T>
    decreases n,
{
    if n <= 0 {
        Seq::empty()
    } else {
        tags_of_parts(s, tags, n - 1) + part_span(s, n - 1).of(tags)
    }
}

/// Splitting loses no tag and keeps their order, and every row's tags fit it.
pub proof fn law_overflow_is_lossless<T>(s: TagSpan, tags: Seq<T>)
    requires
        s.start + s.len <= u32::MAX,
        s.within(tags.len()),
    ensures
        tags_of_parts(s, tags, overflow_rows(s.len as nat) as int + 1) == s.of(tags),
        forall|i: int|
            0 <= i <= overflow_rows(s.len as nat) ==> (#[trigger] part_span(s, i)).len <= 28,
{
    let n: int = overflow_rows(s.len as nat) as int;
    lemma_parts_prefix(s, tags, n);
    assert(tags_of_parts(s, tags, n + 1) =~= s.of(tags));
}

proof fn lemma_parts_prefix<T>(s: TagSpan, tags: Seq<T>, n: int)
    requires
        s.start + s.len <= u32::MAX,
        s.within(tags.len()),
        0 <= n <= overflow_rows(s.len as nat),
    ensures
        28 * n <= s.len,
        tags_of_parts(s, tags, n) == tags.subrange(s.start as int, s.start + 28 * n),
    decreases n,
{
    if n == 0 {
        assert(tags_of_parts(s, tags, n) =~= tags.subrange(s.start as int, s.start as int));
    } else {
        lemma_parts_prefix(s, tags, n - 1);
        assert(tags_of_parts(s, tags, n) =~= tags.subrange(s.start as int, s.start + 28 * n));
    }
}

// ── Order and collisions ────────────────────────────────────────────
/// The order of rows: by key, then by the place of their tags. Rows of one
/// feature share their key, so the key alone would leave their order open.
pub fn sort_key(k: &Keyed) -> (r: (u64, u32))
    ensures
        r == (k.morton, k.tags.start),
{
    (k.morton, k.tags.start)
}

impl Ranked for Keyed {
    open spec fn ranks_before(&self, other: &Self) -> bool {
        self.morton < other.morton || (self.morton == other.morton && self.tags.start
            <= other.tags.start)
    }

    proof fn lemma_total(a: &Self, b: &Self) {
    }

    proof fn lemma_transitive(a: &Self, b: &Self, c: &Self) {
    }

    fn before(&self, other: &Self) -> (r: bool) {
        let (a, b): ((u64, u32), (u64, u32)) = (sort_key(self), sort_key(other));
        a.0 < b.0 || (a.0 == b.0 && a.1 <= b.1)
    }
}

/// Sorts rows by [`sort_key`].
pub fn sort_rows(keyed: Vec<Keyed>) -> (out: Vec<Keyed>)
    ensures
        in_order(out@),
        out@.to_multiset() == keyed@.to_multiset(),
        out@.len() == keyed@.len(),
{
    sort(keyed)
}

/// Whether row `j` has the key of the row before it.
pub open spec fn collides(s: Seq<Keyed>, j: int) -> bool {
    0 < j < s.len() && s[j].morton == s[j - 1].morton
}

/// How many rows with the same key stand directly before row `j`.
pub open spec fn run_index(s: Seq<Keyed>, j: int) -> nat
    decreases j,
{
    if collides(s, j) {
        run_index(s, j - 1) + 1
    } else {
        0
    }
}

/// How many of the first `n` rows have the key of the row before them.
pub open spec fn collisions(s: Seq<Keyed>, n: int) -> nat
    decreases n,
{
    if n <= 0 {
        0
    } else {
        collisions(s, n - 1) + if collides(s, n - 1) {
            1nat
        } else {
            0
        }
    }
}

/// Numbers the rows of every run of equal keys, from 1 on for the second row of
/// a run; the counter has sixteen bits. Returns how many rows follow a row of
/// the same key.
pub fn assign_identities(keyed: &mut Vec<Keyed>) -> (n: u64)
    ensures
        n == collisions(old(keyed)@, old(keyed)@.len() as int),
        final(keyed)@.len() == old(keyed)@.len(),
        forall|j: int|
            0 <= j < old(keyed)@.len() ==> #[trigger] final(keyed)@[j] == if collides(
                old(keyed)@,
                j,
            ) {
                Keyed {
                    identity: (run_index(old(keyed)@, j) % 0x1_0000) as u16,
                    ..old(keyed)@[j]
                }
            } else {
                old(keyed)@[j]
            },
{
    let ghost given = keyed@;
    let n: usize = keyed.len();
    let mut count: u64 = 0;
    let mut run: u16 = 0;
    let mut j: usize = 1;
    proof {
        assert(collisions(given, 1) == 0) by {
            assert(collisions(given, 0) == 0);
            assert(!collides(given, 0));
        }
    }
    while j < n
        invariant
            1 <= j,
            n == given.len(),
            keyed@.len() == n,
            j <= n || n == 0,
            n == 0 ==> count == 0,
            n > 0 ==> run == run_index(given, j - 1) % 0x1_0000,
            n > 0 ==> count == collisions(given, j as int),
            n > 0 ==> count < j,
            forall|i: int|
                0 <= i < j && i < n ==> #[trigger] keyed@[i] == if collides(given, i) {
                    Keyed { identity: (run_index(given, i) % 0x1_0000) as u16, ..given[i] }
                } else {
                    given[i]
                },
            forall|i: int| j <= i < n ==> #[trigger] keyed@[i] == given[i],
        decreases n - j,
    {
        let k: Keyed = keyed[j];
        let same: bool = keyed[j - 1].morton == k.morton;
        assert(same == collides(given, j as int));
        if same {
            run = if run == 0xffff {
                0
            } else {
                run + 1
            };
            keyed.set(j, Keyed { identity: run, ..k });
            count = count + 1;
        } else {
            run = 0;
        }
        j = j + 1;
    }
    count
}

/// Rows of one key get different counters, as long as there are no more of them
/// than counters.
pub proof fn law_collisions_are_told_apart(s: Seq<Keyed>, i: int, j: int)
    requires
        0 <= i < j < s.len(),
        forall|m: int| i < m <= j ==> #[trigger] collides(s, m),
        run_index(s, j) < 0x1_0000,
    ensures
        run_index(s, i) < run_index(s, j),
    decreases j - i,
{
    assert(collides(s, j));
    if i < j - 1 {
        law_collisions_are_told_apart(s, i, j - 1);
    }
}

// ── Identities ──────────────────────────────────────────────────────
/// The codebook key of an element: its kind and its id. Ids are unique within a
/// kind only.
pub open spec fn identity_text(kind: u16, id: i64) -> Seq<char> {
    hex(kind as nat, 4) + ":"@ + signed_decimal(id as int)
}

/// The codebook key of an element.
pub fn element_key(kind: u16, id: i64) -> (s: String)
    ensures
        s@ == identity_text(kind, id),
{
    let mut s: String = String::new();
    push_hex(&mut s, kind as u64, 4);
    s.append(":");
    push_signed(&mut s, id);
    assert(s@ =~= identity_text(kind, id));
    s
}

/// The codebook key of a row.
pub fn identity_key(k: &Keyed) -> (s: String)
    ensures
        s@ == identity_text(k.entity_type, k.osm_id),
{
    element_key(k.entity_type, k.osm_id)
}

/// What a codebook key is made of.
proof fn lemma_key_parts(kind: u16, id: i64)
    ensures
        ({
            let t = identity_text(kind, id);
            &&& t.len() >= 6
            &&& t.subrange(0, 4) == hex(kind as nat, 4)
            &&& t[4] == ':'
            &&& t.subrange(5, t.len() as int) == signed_decimal(id as int)
            &&& numeral_value(t.subrange(0, 4), 16) == Some(kind as nat)
            &&& id < 0 <==> t[5] == '-'
            &&& id >= 0 ==> numeral_value(t.subrange(5, t.len() as int), 10) == Some(id as nat)
            &&& id < 0 ==> t.len() >= 7 && numeral_value(t.subrange(6, t.len() as int), 10)
                == Some((-id) as nat)
        }),
{
    reveal_strlit(":");
    let t = identity_text(kind, id);
    lemma_hex_len(kind as nat, 4);
    reveal_with_fuel(pow16, 5);
    lemma_hex_value(kind as nat, 4);
    let number = signed_decimal(id as int);
    let n = if id < 0 {
        (-id) as nat
    } else {
        id as nat
    };
    lemma_decimal_value(n);
    lemma_decimal_digits(n);
    assert(t.subrange(0, 4) =~= hex(kind as nat, 4));
    assert(t.subrange(5, t.len() as int) =~= number);
    assert(t[5] == number[0]);
    if id < 0 {
        assert(number[0] == '-');
        assert(t.subrange(6, t.len() as int) =~= decimal(n));
    } else {
        assert('0' <= decimal(n)[0]);
    }
}

/// The element that a codebook key names; none for a text that is no key.
pub fn element_of_key(text: &str) -> (e: Option<(u16, i64)>)
    ensures
        match e {
            Some((kind, id)) => text@ == identity_text(kind, id),
            None => forall|kind: u16, id: i64| text@ != #[trigger] identity_text(kind, id),
        },
{
    let s: Vec<char> = chars_of(text);
    let n: usize = s.len();
    proof {
        assert forall|kind: u16, id: i64| text@ == #[trigger] identity_text(kind, id) implies {
            &&& n >= 6
            &&& numeral_value(s@.subrange(0, 4), 16) == Some(kind as nat)
            &&& id < 0 <==> s@[5] == '-'
            &&& id >= 0 ==> numeral_value(s@.subrange(5, n as int), 10) == Some(id as nat)
            &&& id < 0 ==> n >= 7 && numeral_value(s@.subrange(6, n as int), 10) == Some(
                (-id) as nat,
            )
        } by {
            lemma_key_parts(kind, id);
        }
    }
    if n < 6 {
        return None;
    }
    let kind: u16 = match read_numeral(s.as_slice(), 0, 4, 16) {
        Some(k) if k <= 0xffff => k as u16,
        _ => {
            return None;
        },
    };
    let negative: bool = s[5] == '-';
    let from: usize = if negative {
        6
    } else {
        5
    };
    let size: u64 = match read_numeral(s.as_slice(), from, n, 10) {
        Some(v) => v,
        None => {
            return None;
        },
    };
    let id: i64 = if negative {
        if size > 0x8000_0000_0000_0000 {
            return None;
        }
        (-(size as i128)) as i64
    } else {
        if size > 0x7fff_ffff_ffff_ffff {
            return None;
        }
        size as i64
    };
    // Only the spelling that is written counts.
    if same_text(element_key(kind, id).as_str(), text) {
        Some((kind, id))
    } else {
        None
    }
}

/// A key names one element: reading what was written gives it back.
pub proof fn law_key_names_its_element(kind: u16, id: i64, read: Option<(u16, i64)>)
    requires
        match read {
            Some((k, i)) => identity_text(kind, id) == identity_text(k, i),
            None => forall|k: u16, i: i64| identity_text(kind, id) != #[trigger] identity_text(
                k,
                i,
            ),
        },
    ensures
        read == Some((kind, id)),
{
    if let Some((k, i)) = read {
        law_identity_text_is_faithful(kind, id, k, i);
    } else {
        assert(identity_text(kind, id) == identity_text(kind, id));
    }
}

/// Elements share a codebook key exactly where kind and id are the same: node 42
/// and way 42 stay distinct.
pub proof fn law_identity_text_is_faithful(a: u16, i: i64, b: u16, j: i64)
    ensures
        identity_text(a, i) == identity_text(b, j) <==> a == b && i == j,
{
    if identity_text(a, i) == identity_text(b, j) {
        let (x, y) = (identity_text(a, i), identity_text(b, j));
        lemma_hex_len(a as nat, 4);
        lemma_hex_len(b as nat, 4);
        let n = ":"@.len() as int;
        assert(x.subrange(0, 4) =~= hex(a as nat, 4));
        assert(y.subrange(0, 4) =~= hex(b as nat, 4));
        assert(x.subrange(4 + n, x.len() as int) =~= signed_decimal(i as int));
        assert(y.subrange(4 + n, y.len() as int) =~= signed_decimal(j as int));
        reveal_with_fuel(pow16, 5);
        lemma_hex_injective(a as nat, b as nat, 4);
        lemma_signed_decimal_injective(i as int, j as int);
    }
}

/// The codebook keys of rows.
pub open spec fn identity_texts(s: Seq<Keyed>) -> Seq<Seq<char>> {
    s.map_values(|k: Keyed| identity_text(k.entity_type, k.osm_id))
}

/// Drops every text that equals its predecessor.
fn dedup_sorted(keys: Vec<String>) -> (out: Vec<String>)
    requires
        in_order(keys@),
    ensures
        strictly_ascending(texts_of(out@)),
        same_texts(texts_of(out@), texts_of(keys@)),
{
    let n: usize = keys.len();
    let ghost all = texts_of(keys@);
    let mut out: Vec<String> = Vec::new();
    let mut i: usize = 0;
    assert(all.take(0) =~= Seq::<Seq<char>>::empty());
    assert(texts_of(out@) =~= Seq::<Seq<char>>::empty());
    while i < n
        invariant
            i <= n,
            n == keys@.len(),
            in_order(keys@),
            all == texts_of(keys@),
            strictly_ascending(texts_of(out@)),
            same_texts(texts_of(out@), all.take(i as int)),
            i > 0 ==> out@.len() > 0 && texts_of(out@).last() == all[i - 1],
        decreases n - i,
    {
        let ghost before = texts_of(out@);
        let fresh: bool = i == 0 || !crate::text::same_text(
            keys[i - 1].as_str(),
            keys[i].as_str(),
        );
        proof {
            assert(all[i as int] == keys@[i as int]@);
            if i > 0 {
                assert(all[i - 1] == keys@[i - 1]@);
            }
            lemma_take_contains(all, i as int);
        }
        if fresh {
            let key: String = keys[i].clone();
            out.push(key);
            proof {
                let after = texts_of(out@);
                assert(after =~= before.push(all[i as int]));
                lemma_push_fresh(before, keys@, all, i as int);
                assert forall|k: Seq<char>| #[trigger] after.contains(k) <==> all.take(
                    i + 1,
                ).contains(k) by {
                    if before.contains(k) {
                        let p = choose|p: int| 0 <= p < before.len() && before[p] == k;
                        assert(after[p] == k);
                    }
                    if after.contains(k) && k != all[i as int] {
                        let p = choose|p: int| 0 <= p < after.len() && after[p] == k;
                        assert(before[p] == k);
                    }
                    assert(after[after.len() - 1] == all[i as int]);
                    assert(before.contains(k) <==> all.take(i as int).contains(k));
                }
            }
        } else {
            proof {
                assert(before.contains(all[i as int])) by {
                    assert(before[before.len() - 1] == all[i - 1]);
                }
                assert forall|k: Seq<char>| #[trigger] before.contains(k) <==> all.take(
                    i + 1,
                ).contains(k) by {
                    assert(before.contains(k) <==> all.take(i as int).contains(k));
                }
            }
        }
        i = i + 1;
    }
    assert(all.take(n as int) =~= all);
    out
}

proof fn lemma_take_contains(s: Seq<Seq<char>>, i: int)
    requires
        0 <= i < s.len(),
    ensures
        forall|k: Seq<char>| #[trigger]
            s.take(i + 1).contains(k) <==> s.take(i).contains(k) || k == s[i],
{
    assert forall|k: Seq<char>| #[trigger] s.take(i + 1).contains(k) <==> s.take(i).contains(k)
        || k == s[i] by {
        if s.take(i + 1).contains(k) {
            let p = choose|p: int| 0 <= p < i + 1 && #[trigger] s.take(i + 1)[p] == k;
            if p < i {
                assert(s.take(i)[p] == k);
            }
        }
        if s.take(i).contains(k) {
            let p = choose|p: int| 0 <= p < i && #[trigger] s.take(i)[p] == k;
            assert(s.take(i + 1)[p] == k);
        }
        if k == s[i] {
            assert(s.take(i + 1)[i] == k);
        }
    }
}

/// A new text of a sorted list stands behind all texts before it.
proof fn lemma_push_fresh(before: Seq<Seq<char>>, keys: Seq<String>, all: Seq<Seq<char>>, i: int)
    requires
        0 <= i < keys.len(),
        in_order(keys),
        all == texts_of(keys),
        strictly_ascending(before),
        same_texts(before, all.take(i)),
        i > 0 ==> all[i - 1] != all[i],
    ensures
        strictly_ascending(before.push(all[i])),
{
    let after = before.push(all[i]);
    assert forall|a: int, b: int|
        #![trigger after[a], after[b]]
        0 <= a < b < after.len() implies text_le(after[a], after[b]) && after[a] != after[b] by {
        if b < before.len() {
            assert(before[a] != before[b]);
        } else {
            assert(before.contains(before[a]));
            assert(all.take(i).contains(before[a]));
            let p = choose|p: int| 0 <= p < i && #[trigger] all.take(i)[p] == before[a];
            assert(keys[p].ranks_before(&keys[i]));
            assert(text_le(all[p], all[i]));
            if all[p] == all[i] {
                if p < i - 1 {
                    assert(keys[p].ranks_before(&keys[i - 1]));
                }
                assert(keys[i - 1].ranks_before(&keys[i]));
                crate::book::lemma_text_antisymmetric(all[i - 1], all[i]);
            }
        }
    }
}

/// Builds the book of every identity and stamps each row with its ordinal. More
/// identities than ordinals are refused, and the rows stay as they were.
pub fn resolve_identities(keyed: &mut Vec<Keyed>) -> (r: Result<IdentityCodebook, CodebookError>)
    ensures
        match r {
            Ok(book) => {
                &&& is_book_of(book@, identity_texts(old(keyed)@))
                &&& final(keyed)@.len() == old(keyed)@.len()
                &&& forall|i: int|
                    0 <= i < old(keyed)@.len() ==> {
                        let (k0, k1) = (old(keyed)@[i], #[trigger] final(keyed)@[i]);
                        &&& k1.identity_ordinal matches Some(o)
                        &&& o < book@.len() && o <= MAX_ORDINAL
                        &&& book@[o as int] == identity_text(k0.entity_type, k0.osm_id)
                        &&& k1 == (Keyed { identity_ordinal: Some(o), ..k0 })
                    }
            },
            Err(e) => {
                &&& e == CodebookError::TooLarge
                &&& identity_texts(old(keyed)@).to_set().len() > MAX_ENTRIES
                &&& final(keyed)@ == old(keyed)@
            },
        },
        r is Ok ==> identity_texts(old(keyed)@).to_set().len() <= MAX_ENTRIES,
{
    let n: usize = keyed.len();
    let ghost given = keyed@;
    let ghost texts = identity_texts(given);
    let mut keys: Vec<String> = Vec::new();
    let mut i: usize = 0;
    while i < n
        invariant
            i <= n,
            n == keyed@.len(),
            keyed@ == given,
            texts == identity_texts(given),
            keys@.len() == i,
            forall|j: int| 0 <= j < i ==> (#[trigger] keys@[j])@ == texts[j],
        decreases n - i,
    {
        let key: String = identity_key(&keyed[i]);
        keys.push(key);
        i = i + 1;
    }
    assert(texts_of(keys@) =~= texts);
    let sorted: Vec<String> = sort(keys);
    let distinct: Vec<String> = dedup_sorted(sorted);
    let ghost d = texts_of(distinct@);
    proof {
        lemma_same_after_sort(keys@, sorted@);
        lemma_ascending_distinct(d);
        lemma_set_len(d, texts);
    }
    let book: IdentityCodebook = match IdentityCodebook::try_new(distinct) {
        Ok(b) => b,
        Err(e) => {
            return Err(e);
        },
    };
    proof {
        assert forall|k: Seq<char>| #[trigger] book@.contains(k) <==> texts.contains(k) by {
            assert(book@.contains(k) <==> d.contains(k));
        }
    }
    let size: usize = book.len();
    let mut j: usize = 0;
    while j < n
        invariant
            j <= n,
            n == given.len(),
            keyed@.len() == n,
            texts == identity_texts(given),
            is_book_of(book@, texts),
            book@.len() == size <= MAX_ENTRIES,
            forall|m: int|
                0 <= m < j ==> {
                    let (k0, k1) = (given[m], #[trigger] keyed@[m]);
                    &&& k1.identity_ordinal matches Some(o)
                    &&& o < book@.len() && o <= MAX_ORDINAL
                    &&& book@[o as int] == identity_text(k0.entity_type, k0.osm_id)
                    &&& k1 == (Keyed { identity_ordinal: Some(o), ..k0 })
                },
            forall|m: int| j <= m < n ==> #[trigger] keyed@[m] == given[m],
        decreases n - j,
    {
        let k: Keyed = keyed[j];
        let key: String = identity_key(&k);
        proof {
            assert(texts[j as int] == key@);
            assert(texts.contains(key@));
            assert(book@.contains(key@));
        }
        let o: Option<u32> = book.ordinal(key.as_str());
        keyed.set(j, Keyed { identity_ordinal: o, ..k });
        j = j + 1;
    }
    Ok(book)
}

proof fn lemma_same_after_sort(keys: Seq<String>, sorted: Seq<String>)
    requires
        keys.to_multiset() == sorted.to_multiset(),
    ensures
        same_texts(texts_of(sorted), texts_of(keys)),
{
    crate::book::lemma_sorted_texts(keys, sorted);
}

/// A list of distinct texts is as long as the set of them is large.
proof fn lemma_set_len(d: Seq<Seq<char>>, texts: Seq<Seq<char>>)
    requires
        d.no_duplicates(),
        same_texts(d, texts),
    ensures
        texts.to_set().len() == d.len(),
{
    d.unique_seq_to_set();
    assert(d.to_set() =~= texts.to_set()) by {
        assert forall|k: Seq<char>| d.to_set().contains(k) <==> texts.to_set().contains(k) by {
            assert(d.contains(k) <==> texts.contains(k));
        }
    }
}

// ── Rows ────────────────────────────────────────────────────────────
/// A value region with tags written into consecutive tag slots.
pub open spec fn with_tags(value: Seq<u8>, member: u32, tags: Seq<(u32, u32)>) -> Seq<u8>
    decreases tags.len(),
{
    if tags.len() == 0 {
        value
    } else {
        overwritten(
            with_tags(value, member, tags.drop_last()),
            slot_start(FIRST_TAG_SLOT + tags.len() - 1),
            tag_facet(member, tags.last().0, tags.last().1),
        )
    }
}

/// A value region of zeros.
pub open spec fn blank_value() -> Seq<u8> {
    Seq::new(480, |i: int| 0u8)
}

/// The identity and the tags of a row. A row without an ordinal has neither.
pub open spec fn named_value(k: Keyed, tags: Seq<(u32, u32)>) -> Seq<u8> {
    match k.identity_ordinal {
        Some(o) => with_tags(
            overwritten(
                blank_value(),
                slot_start(GEO_IDENTITY_SLOT as int),
                member_facet(k.entity_type, o),
            ),
            o,
            k.tags.of(tags),
        ),
        None => blank_value(),
    }
}

/// The value region of a row.
pub open spec fn row_value(k: Keyed, tags: Seq<(u32, u32)>) -> Seq<u8> {
    if k.edge_names.len > 0 {
        overwritten(named_value(k, tags), 16, names_wire(k.edge_names.names()))
    } else {
        named_value(k, tags)
    }
}

/// Whether a row can be built: its identity can be written, its tags exist, fit
/// the row and can be written.
pub open spec fn buildable(k: Keyed, tags: Seq<(u32, u32)>) -> bool {
    &&& k.edge_names.len <= EDGE_SLOTS
    &&& k.identity_ordinal matches Some(o) ==> {
        &&& nameable(k.entity_type, o)
        &&& k.tags.within(tags.len())
        &&& k.tags.len <= TAGS_PER_ROW
        &&& forall|i: int|
            0 <= i < k.tags.len ==> (#[trigger] k.tags.of(tags)[i]).0 <= MAX_ORDINAL && k.tags.of(
                tags,
            )[i].1 <= MAX_ORDINAL
    }
}

/// Whether a row is the one that is built from `k`: its key spells the class,
/// the tiers and the collision counter, its edges are blank, and its value
/// region holds the identity, the tags and the edge names.
pub open spec fn is_row_of(row: NodeRow, k: Keyed, tags: Seq<(u32, u32)>) -> bool {
    &&& row.key.bytes@ == key_wire(CLASSID_GEO_V3, k.tiers, 0, k.identity)
    &&& row.edges@ == Seq::new(16, |i: int| 0u8)
    &&& row.value@ == row_value(k, tags)
}

/// Builds the row of a keyed feature.
pub fn build_row(k: &Keyed, tags: &ResolvedTags) -> (row: NodeRow)
    requires
        buildable(*k, tags.ordinals()),
    ensures
        is_row_of(row, *k, tags.ordinals()),
{
    let mut row: NodeRow = NodeRow::with_key(NodeGuid::mint(CLASSID_GEO_V3, k.tiers, 0, k.identity));
    match k.identity_ordinal {
        Some(ordinal) => {
            write_identity(&mut row, k.entity_type, ordinal);
            let ghost base = row;
            let own: &[(u32, u32)] = tags.span(k.tags);
            let n: usize = own.len();
            let mut i: usize = 0;
            assert(own@.take(0) =~= Seq::<(u32, u32)>::empty());
            while i < n
                invariant
                    i <= n,
                    n == own@.len(),
                    own@ == k.tags.of(tags.ordinals()),
                    buildable(*k, tags.ordinals()),
                    k.identity_ordinal == Some(ordinal),
                    n == k.tags.len,
                    row.key == base.key,
                    row.edges == base.edges,
                    row.value@ == with_tags(base.value@, ordinal, own@.take(i as int)),
                decreases n - i,
            {
                let (key, value): (u32, u32) = own[i];
                assert(k.tags.of(tags.ordinals())[i as int] == own@[i as int]);
                write_tag(&mut row, FIRST_TAG_SLOT + i, ordinal, key, value);
                proof {
                    assert(own@.take(i + 1).drop_last() =~= own@.take(i as int));
                    assert(own@.take(i + 1).last() == (key, value));
                }
                i = i + 1;
            }
            assert(own@.take(n as int) =~= own@);
        },
        None => {},
    }
    assert(row.value@ == named_value(*k, tags.ordinals()));
    if k.edge_names.len > 0 {
        set_edge_names(&mut row, k.edge_names.as_slice());
        assert(first_eight(k.edge_names.names()) =~= k.edge_names.names());
    }
    row
}

// ── What a row says ─────────────────────────────────────────────────
/// Writing tags changes the tag slots only, and each holds its tag.
proof fn lemma_with_tags(value: Seq<u8>, member: u32, tags: Seq<(u32, u32)>, slot: int)
    requires
        value.len() == 480,
        tags.len() <= TAGS_PER_ROW,
        member <= MAX_ORDINAL,
        forall|i: int|
            0 <= i < tags.len() ==> (#[trigger] tags[i]).0 <= MAX_ORDINAL && tags[i].1
                <= MAX_ORDINAL,
        RESERVED_SLOTS <= slot < ROW_SLOTS,
    ensures
        with_tags(value, member, tags).len() == 480,
        FIRST_TAG_SLOT <= slot < FIRST_TAG_SLOT + tags.len() ==> slot_of(
            with_tags(value, member, tags),
            slot,
        ) == tag_facet(member, tags[slot - FIRST_TAG_SLOT].0, tags[slot - FIRST_TAG_SLOT].1),
        !(FIRST_TAG_SLOT <= slot < FIRST_TAG_SLOT + tags.len()) ==> slot_of(
            with_tags(value, member, tags),
            slot,
        ) == slot_of(value, slot),
    decreases tags.len(),
{
    if tags.len() > 0 {
        let front = tags.drop_last();
        let last = tags.last();
        assert forall|i: int| 0 <= i < front.len() implies (#[trigger] front[i]).0 <= MAX_ORDINAL
            && front[i].1 <= MAX_ORDINAL by {
            assert(front[i] == tags[i]);
        }
        assert(tags[tags.len() - 1] == last);
        lemma_with_tags(value, member, front, slot);
        law_tag_facet_round_trip(member, last.0, last.1);
        law_slots_are_disjoint(
            with_tags(value, member, front),
            FIRST_TAG_SLOT + tags.len() - 1,
            tag_facet(member, last.0, last.1),
            slot,
        );
        if FIRST_TAG_SLOT <= slot < FIRST_TAG_SLOT + front.len() {
            assert(front[slot - FIRST_TAG_SLOT] == tags[slot - FIRST_TAG_SLOT]);
        }
    }
}

/// A blank slot reads as nothing.
proof fn lemma_blank_slot(value: Seq<u8>, slot: int)
    requires
        value.len() == 480,
        RESERVED_SLOTS <= slot < ROW_SLOTS,
        slot_of(value, slot) == slot_of(blank_value(), slot),
    ensures
        facet_in(slot_of(value, slot)) is None,
        named_by(slot_of(value, slot)) is None,
        forall|i: int| 0 <= i < 16 ==> #[trigger] slot_of(value, slot)[i] == 0,
{
    let b = slot_of(value, slot);
    assert forall|i: int| 0 <= i < 16 implies #[trigger] b[i] == 0 by {
        assert(slot_of(blank_value(), slot)[i] == blank_value()[slot_start(slot) + i]);
    }
    law_blank_slot_names_nothing(b);
    crate::identity::lemma_blank_class(b);
}

/// What is baked can be read back from the row alone: the position, the kind and
/// the ordinal, and every tag in order, each in its slot. All other slots, the
/// slope slot among them, stay blank. A row of the tag concept names itself like
/// any other; its identity slot is no tag facet, since it holds no key or value.
pub proof fn law_row_reads_back(row: NodeRow, k: Keyed, tags: Seq<(u32, u32)>, ordinal: u32)
    requires
        buildable(k, tags),
        is_row_of(row, k, tags),
        k.tiers == tiers(k.morton),
        k.identity_ordinal == Some(ordinal),
        k.edge_names.len == 0,
    ensures
        key_classid(row.key.bytes@) == CLASSID_GEO_V3,
        key_code(row.key.bytes@) == k.morton,
        key_identity(row.key.bytes@) == k.identity,
        identity_of(row) == Some((k.entity_type, ordinal)),
        facet_at(row, GEO_IDENTITY_SLOT as int) == if k.entity_type == OSM_ELEMENT_TAG {
            None
        } else {
            Some(Facet::Member { kind: k.entity_type, ordinal })
        },
        forall|i: int|
            0 <= i < k.tags.len ==> #[trigger] facet_at(row, FIRST_TAG_SLOT + i) == Some(
                Facet::Tag {
                    member: ordinal,
                    key: k.tags.of(tags)[i].0,
                    value: k.tags.of(tags)[i].1,
                },
            ),
        forall|slot: int|
            FIRST_TAG_SLOT + k.tags.len <= slot < ROW_SLOTS || slot == GEO_SLOPE_SLOT
                ==> #[trigger] facet_at(row, slot) is None,
        forall|i: int|
            0 <= i < 16 ==> #[trigger] slot_of(row.value@, GEO_SLOPE_SLOT as int)[i] == 0,
{
    let own = k.tags.of(tags);
    let id = member_facet(k.entity_type, ordinal);
    let base = overwritten(blank_value(), slot_start(2), id);
    law_key_round_trip(CLASSID_GEO_V3, k.morton, 0, k.identity);
    law_member_facet_round_trip(k.entity_type, ordinal);
    law_slots_are_disjoint(blank_value(), 2, id, 2);
    lemma_with_tags(base, ordinal, own, 2);
    assert(slot_of(row.value@, 2) == id);
    assert(facet_field(id, 1) is None);
    assert forall|i: int| 0 <= i < k.tags.len implies #[trigger] facet_at(row, FIRST_TAG_SLOT + i)
        == Some(Facet::Tag { member: ordinal, key: own[i].0, value: own[i].1 }) by {
        lemma_with_tags(base, ordinal, own, FIRST_TAG_SLOT + i);
        assert(own[i].0 <= MAX_ORDINAL && own[i].1 <= MAX_ORDINAL);
        law_tag_facet_round_trip(ordinal, own[i].0, own[i].1);
    }
    assert forall|slot: int|
        FIRST_TAG_SLOT + k.tags.len <= slot < ROW_SLOTS || slot
            == GEO_SLOPE_SLOT implies #[trigger] facet_at(row, slot) is None by {
        lemma_with_tags(base, ordinal, own, slot);
        law_slots_are_disjoint(blank_value(), 2, id, slot);
        lemma_blank_slot(row.value@, slot);
    }
    lemma_with_tags(base, ordinal, own, 3);
    law_slots_are_disjoint(blank_value(), 2, id, 3);
    lemma_blank_slot(row.value@, 3);
}

/// A row built without an ordinal names nothing at all: it does not claim to be
/// element 0.
pub proof fn law_unresolved_row_is_blank(row: NodeRow, k: Keyed, tags: Seq<(u32, u32)>)
    requires
        is_row_of(row, k, tags),
        k.identity_ordinal is None,
        k.edge_names.len == 0,
    ensures
        identity_of(row) is None,
        forall|i: int| 0 <= i < 480 ==> #[trigger] row.value@[i] == 0,
{
    lemma_blank_slot(row.value@, 2);
}

/// A junction row is a junction, and its edges carry the names it was given.
pub proof fn law_junction_row_reads_back(
    row: NodeRow,
    k: Keyed,
    tags: Seq<(u32, u32)>,
    ordinal: u32,
    edge: u8,
)
    requires
        buildable(k, tags),
        is_row_of(row, k, tags),
        k.identity_ordinal == Some(ordinal),
        k.entity_type == OSM_STREET_NODE,
        k.edge_names.len > 0,
        k.tags.len == 0,
        edge < EDGE_SLOTS,
    ensures
        is_junction(row),
        identity_of(row) == Some((OSM_STREET_NODE, ordinal)),
        name_of(row, edge) == if edge < k.edge_names.len {
            k.edge_names.ordinals@[edge as int]
        } else {
            NAME_NONE
        },
{
    let own = k.tags.of(tags);
    let id = member_facet(k.entity_type, ordinal);
    let base = overwritten(blank_value(), slot_start(2), id);
    let names = k.edge_names.names();
    law_member_facet_round_trip(k.entity_type, ordinal);
    law_slots_are_disjoint(blank_value(), 2, id, 2);
    assert(own.len() == 0);
    let wire = names_wire(names);
    lemma_names_len(names);
    assert(slot_start(2) == 0);
    lemma_not_overwritten(base, 16, wire, 0, 16);
    assert(slot_of(row.value@, 2) == id);
    lemma_pow256_widths();
    let at = 16 + 2 * edge;
    if edge < k.edge_names.len {
        lemma_name_in_wire(names, edge as int);
        lemma_le_round_trip(names[edge as int] as nat, 2);
        assert(row.value@.subrange(at, at + 2) =~= wire.subrange(2 * edge, 2 * edge + 2));
    } else {
        assert(row.value@.subrange(at, at + 2) =~= seq![0u8, 0u8]);
        lemma_le_zero();
    }
}

proof fn lemma_le_zero()
    ensures
        le_value(seq![0u8, 0u8]) == 0,
{
    reveal_with_fuel(le_value, 3);
}

// ── Laws of splitting and numbering ─────────────────────────────────
/// A feature takes no more rows than it needs: all but the last are full, and the last
/// has a tag where the feature has any.
pub proof fn law_rows_are_full(s: TagSpan, i: int)
    requires
        s.start + s.len <= u32::MAX,
        0 <= i <= overflow_rows(s.len as nat),
    ensures
        28 * overflow_rows(s.len as nat) <= s.len <= 28 * (overflow_rows(s.len as nat) + 1),
        s.len > 0 ==> 28 * overflow_rows(s.len as nat) < s.len,
        i < overflow_rows(s.len as nat) ==> part_span(s, i).len == 28,
        i == overflow_rows(s.len as nat) ==> part_span(s, i).len == s.len - 28 * i,
        part_span(s, i).start == s.start + 28 * i,
{
}

/// A junction takes no more rows than its names need: all but the last carry eight.
pub proof fn law_junction_rows_are_full(names: Seq<u16>, i: int)
    requires
        0 <= i < rows_for(names.len()),
    ensures
        8 * (rows_for(names.len()) - 1) < names.len() <= 8 * rows_for(names.len()),
        i + 1 < rows_for(names.len()) ==> names_of_row(names, i).len() == 8,
        forall|k: int|
            0 <= k < names_of_row(names, i).len() ==> #[trigger] names_of_row(names, i)[k]
                == names[8 * i + k],
{
}

/// The number of a row in its run is how many rows of its key stand before it without a
/// gap.
pub proof fn law_runs_are_numbered(s: Seq<Keyed>, j: int)
    requires
        0 <= j < s.len(),
    ensures
        run_index(s, j) <= j,
        forall|i: int| j - run_index(s, j) <= i <= j ==> (#[trigger] s[i]).morton == s[j].morton,
        run_index(s, j) < j ==> s[j - run_index(s, j) - 1].morton != s[j].morton,
    decreases j,
{
    if collides(s, j) {
        law_runs_are_numbered(s, j - 1);
    }
}

/// The collisions of rows are the rows that have the key of the row before them.
pub proof fn law_collisions_are_counted(s: Seq<Keyed>, n: int)
    requires
        0 <= n <= s.len(),
    ensures
        collisions(s, n) == Seq::new(n as nat, |j: int| j > 0 && s[j].morton == s[j - 1].morton).filter(
            |b: bool| b,
        ).len(),
    decreases n,
{
    reveal(Seq::filter);
    if n > 0 {
        law_collisions_are_counted(s, n - 1);
        let all = Seq::new(n as nat, |j: int| j > 0 && s[j].morton == s[j - 1].morton);
        assert(all.drop_last() =~= Seq::new(
            (n - 1) as nat,
            |j: int| j > 0 && s[j].morton == s[j - 1].morton,
        ));
    }
}

/// Rows stand in the order of their keys, and rows of one key in the order of their tags.
pub proof fn law_rows_go_by_key_then_tags(a: Keyed, b: Keyed)
    ensures
        a.morton < b.morton ==> a.ranks_before(&b) && !b.ranks_before(&a),
        a.morton == b.morton ==> (a.ranks_before(&b) <==> a.tags.start <= b.tags.start),
{
}

/// A junction row has eight places for names: those that there are stand first, and the
/// rest name nothing.
pub proof fn law_places_without_a_name_are_blank(names: Seq<u16>, i: int)
    requires
        0 <= i < 8,
    ensures
        padded(names).len() == 8,
        i < names.len() ==> padded(names)[i] == names[i],
        i >= names.len() ==> padded(names)[i] == 0,
{
}

} // verus!
