//! A street is a projection over edges, not a row.
//!
//! A junction row carries three lanes behind its identity: the names of its
//! edges, their headings and access, and the turns it forbids. The lanes mean
//! something on a junction row only, and the readers check that themselves: on
//! any other row they are mute.

use crate::access::RestrictionMask;
use crate::book::IdentityCodebook;
use crate::bytes::{
    le_at, le_bytes, lemma_le_bytes_len, lemma_le_round_trip, lemma_pow256_widths, push_u16,
    read_u16, read_u64, u64_bytes,
};
use crate::identity::{identity_of, read_identity};
use crate::mask::WideFieldMask;
use crate::node::{
    lemma_not_overwritten, lemma_overwritten, overwritten, put, slot_of, slot_start, NodeRow,
};
use crate::vocab::OSM_STREET_NODE;
use vstd::prelude::*;

verus! {

/// Edges that a junction row can carry.
pub const EDGE_SLOTS: u8 = 8;

/// Slot of the value region that holds the names: the one slot that no ordinary
/// row writes.
pub const NAME_SLOT: usize = 1;

/// The name ordinal of an unnamed edge: absent, not a member of street 0.
pub const NAME_NONE: u16 = 0;

/// Slot of the value region that holds headings, then access, a byte per edge
/// each.
pub const EDGE_GEOMETRY_SLOT: usize = 2;

/// Slot of the value region that holds the forbidden turns. Its upper half is
/// reserved.
pub const TURN_SLOT: usize = 3;

/// Where a slot starts in the value region.
pub fn slot_offset(slot: usize) -> (at: usize)
    requires
        16 * slot <= usize::MAX,
    ensures
        at == 16 * slot,
{
    slot * 16
}

/// Whether a row is a junction.
pub open spec fn is_junction(row: NodeRow) -> bool {
    identity_of(row) matches Some((kind, _)) && kind == OSM_STREET_NODE
}

/// Whether a row is a junction: its own identity facet says so.
pub fn is_street_node(row: &NodeRow) -> (r: bool)
    ensures
        r == is_junction(*row),
{
    match read_identity(row) {
        Some((kind, _)) => kind == OSM_STREET_NODE,
        None => false,
    }
}

// ── Names ───────────────────────────────────────────────────────────
/// What the name lane holds for an edge.
pub open spec fn name_in(value: Seq<u8>, edge: u8) -> nat {
    le_at(value, 16 + 2 * edge, 2)
}

/// The name ordinal of an edge; [`NAME_NONE`] on a row that is no junction and
/// for an edge past the eighth.
pub open spec fn name_of(row: NodeRow, edge: u8) -> nat {
    if is_junction(row) && edge < EDGE_SLOTS {
        name_in(row.value@, edge)
    } else {
        NAME_NONE as nat
    }
}

fn edge_name_unchecked(row: &NodeRow, edge: u8) -> (n: u16)
    ensures
        n == if edge < EDGE_SLOTS {
            name_in(row.value@, edge)
        } else {
            NAME_NONE as nat
        },
{
    if edge >= EDGE_SLOTS {
        return NAME_NONE;
    }
    read_u16(row.value.as_slice(), slot_offset(NAME_SLOT) + 2 * edge as usize)
}

/// The name ordinal of an edge of this junction.
pub fn edge_name(row: &NodeRow, edge: u8) -> (n: u16)
    ensures
        n == name_of(*row, edge),
{
    if !is_street_node(row) {
        return NAME_NONE;
    }
    edge_name_unchecked(row, edge)
}

/// Whether an edge of a junction carries a name. No edge carries
/// [`NAME_NONE`].
pub open spec fn carries(row: NodeRow, edge: u8, name: u16) -> bool {
    name != NAME_NONE && edge < EDGE_SLOTS && name_of(row, edge) == name
}

/// Which edges of this junction carry `name`.
pub fn edge_mask(row: &NodeRow, name: u16) -> (m: WideFieldMask)
    ensures
        forall|e: u8| #[trigger] m.contains(e) == carries(*row, e, name),
{
    let mut m: WideFieldMask = WideFieldMask::empty();
    if name == NAME_NONE || !is_street_node(row) {
        return m;
    }
    let mut e: u8 = 0;
    while e < EDGE_SLOTS
        invariant
            e <= EDGE_SLOTS,
            name != NAME_NONE,
            is_junction(*row),
            forall|f: u8| #[trigger] m.contains(f) == (f < e && carries(*row, f, name)),
        decreases EDGE_SLOTS - e,
    {
        if edge_name_unchecked(row, e) == name {
            m = m.with(e);
        }
        e = e + 1;
    }
    m
}

/// How many of the first `n` edges carry a name.
pub open spec fn edges_carrying(row: NodeRow, name: u16, n: int) -> nat
    decreases n,
{
    if n <= 0 {
        0
    } else {
        edges_carrying(row, name, n - 1) + if carries(row, (n - 1) as u8, name) {
            1nat
        } else {
            0
        }
    }
}

proof fn lemma_mask_counts_edges(m: WideFieldMask, row: NodeRow, name: u16, n: int)
    requires
        0 <= n <= 256,
        forall|e: u8| #[trigger] m.contains(e) == carries(row, e, name),
    ensures
        n <= 8 ==> m.count_below(n) == edges_carrying(row, name, n),
        n > 8 ==> m.count_below(n) == edges_carrying(row, name, 8),
    decreases n,
{
    if n > 0 {
        lemma_mask_counts_edges(m, row, name, n - 1);
        assert(m.contains((n - 1) as u8) == carries(row, (n - 1) as u8, name));
    }
}

/// A street: its name, and the edge of the seed junction where a walk starts.
/// Everything else about it is read from the rows.
#[derive(Debug, Clone, Copy, PartialEq, Eq, Structural)]
pub struct StreetDto {
    /// Label ordinal.
    pub name: u16,
    /// Edge of the seed junction.
    pub seed_edge: u8,
}

impl StreetDto {
    /// The street that an edge belongs to; none for an unnamed edge.
    pub fn at(row: &NodeRow, edge: u8) -> (s: Option<Self>)
        ensures
            match s {
                Some(street) => street.name == name_of(*row, edge) && street.name != NAME_NONE
                    && street.seed_edge == edge,
                None => name_of(*row, edge) == NAME_NONE,
            },
    {
        let name: u16 = edge_name(row, edge);
        if name != NAME_NONE {
            Some(StreetDto { name, seed_edge: edge })
        } else {
            None
        }
    }

    /// The edges of this street at a junction.
    pub fn mask_at(&self, row: &NodeRow) -> (m: WideFieldMask)
        ensures
            forall|e: u8| #[trigger] m.contains(e) == carries(*row, e, self.name),
    {
        edge_mask(row, self.name)
    }

    /// Whether the street goes on through a junction: one edge in, one out. A
    /// single edge is an end.
    pub fn continues_through(&self, row: &NodeRow) -> (r: bool)
        ensures
            r == (edges_carrying(*row, self.name, EDGE_SLOTS as int) >= 2),
    {
        let m: WideFieldMask = self.mask_at(row);
        proof {
            lemma_mask_counts_edges(m, *row, self.name, 256);
        }
        m.count() >= 2
    }
}

// ── Geometry, access and turns ──────────────────────────────────────
/// The packed heading of an edge; 0 on a row that is no junction and past the
/// eighth edge.
pub fn edge_heading(row: &NodeRow, edge: u8) -> (h: u8)
    ensures
        h == if is_junction(*row) && edge < EDGE_SLOTS {
            row.value@[32 + edge]
        } else {
            0
        },
{
    if edge >= EDGE_SLOTS || !is_street_node(row) {
        return 0;
    }
    row.value[slot_offset(EDGE_GEOMETRY_SLOT) + edge as usize]
}

/// The packed access of an edge; 0 on a row that is no junction and past the
/// eighth edge.
pub fn edge_access(row: &NodeRow, edge: u8) -> (a: u8)
    ensures
        a == if is_junction(*row) && edge < EDGE_SLOTS {
            row.value@[40 + edge]
        } else {
            0
        },
{
    if edge >= EDGE_SLOTS || !is_street_node(row) {
        return 0;
    }
    row.value[slot_offset(EDGE_GEOMETRY_SLOT) + EDGE_SLOTS as usize + edge as usize]
}

/// The forbidden turns of a junction. A row that is no junction forbids
/// nothing.
pub fn turn_restrictions(row: &NodeRow) -> (m: RestrictionMask)
    ensures
        m.0 == if is_junction(*row) {
            le_at(row.value@, 48, 8)
        } else {
            0
        },
{
    if !is_street_node(row) {
        return RestrictionMask(0);
    }
    RestrictionMask(read_u64(row.value.as_slice(), slot_offset(TURN_SLOT)))
}

// ── Writing the lanes ───────────────────────────────────────────────
/// The first eight of a list, or the list where it is shorter.
pub open spec fn first_eight<T>(s: Seq<T>) -> Seq<T> {
    if s.len() <= 8 {
        s
    } else {
        s.take(8)
    }
}

/// The bytes of name ordinals.
pub open spec fn names_wire(names: Seq<u16>) -> Seq<u8>
    decreases names.len(),
{
    if names.len() == 0 {
        Seq::empty()
    } else {
        names_wire(names.drop_last()) + le_bytes(names.last() as nat, 2)
    }
}

/// A row that differs from `old` in one stretch of the value region only.
pub open spec fn lane_written(old: NodeRow, new: NodeRow, at: int, b: Seq<u8>) -> bool {
    &&& new.key == old.key
    &&& new.edges == old.edges
    &&& new.value@ == overwritten(old.value@, at, b)
}

/// The first eight of a slice.
fn up_to_eight(s: &[u8]) -> (r: &[u8])
    ensures
        r@ == first_eight(s@),
        r@.len() <= 8,
{
    if s.len() <= 8 {
        s
    } else {
        vstd::slice::slice_subrange(s, 0, 8)
    }
}

/// Writes the headings and the access of the first eight edges.
pub fn set_edge_geometry(row: &mut NodeRow, headings: &[u8], access: &[u8])
    ensures
        final(row).key == old(row).key,
        final(row).edges == old(row).edges,
        final(row).value@ == overwritten(
            overwritten(old(row).value@, 32, first_eight(headings@)),
            40,
            first_eight(access@),
        ),
{
    let base: usize = slot_offset(EDGE_GEOMETRY_SLOT);
    put(&mut row.value, base, up_to_eight(headings));
    put(&mut row.value, base + EDGE_SLOTS as usize, up_to_eight(access));
}

/// Writes the forbidden turns.
pub fn set_turn_restrictions(row: &mut NodeRow, mask: RestrictionMask)
    ensures
        lane_written(*old(row), *final(row), 48, le_bytes(mask.0 as nat, 8)),
{
    let b: [u8; 8] = u64_bytes(mask.0);
    put(&mut row.value, slot_offset(TURN_SLOT), b.as_slice());
}

/// Writes the names of the first eight edges.
pub fn set_edge_names(row: &mut NodeRow, names: &[u16])
    ensures
        lane_written(*old(row), *final(row), 16, names_wire(first_eight(names@))),
{
    let mut v: Vec<u8> = Vec::new();
    let mut i: usize = 0;
    let ghost all = first_eight(names@);
    assert(all.take(0) =~= Seq::<u16>::empty());
    while i < names.len() && i < 8
        invariant
            i <= all.len(),
            all == first_eight(names@),
            v@ == names_wire(all.take(i as int)),
            v@.len() == 2 * i,
        decreases 8 - i,
    {
        push_u16(&mut v, names[i]);
        proof {
            lemma_le_bytes_len(names@[i as int] as nat, 2);
            assert(all.take(i + 1).drop_last() =~= all.take(i as int));
            assert(all[i as int] == names@[i as int]);
        }
        i = i + 1;
    }
    assert(all.take(all.len() as int) =~= all);
    put(&mut row.value, slot_offset(NAME_SLOT), v.as_slice());
}

// ── Laws ────────────────────────────────────────────────────────────
/// The names lane takes two bytes per name.
pub proof fn lemma_names_len(names: Seq<u16>)
    ensures
        names_wire(names).len() == 2 * names.len(),
    decreases names.len(),
{
    if names.len() > 0 {
        lemma_names_len(names.drop_last());
        lemma_le_bytes_len(names.last() as nat, 2);
    }
}

/// Where a name stands in the lane.
pub proof fn lemma_name_in_wire(names: Seq<u16>, i: int)
    requires
        0 <= i < names.len(),
    ensures
        names_wire(names).len() == 2 * names.len(),
        names_wire(names).subrange(2 * i, 2 * i + 2) == le_bytes(names[i] as nat, 2),
    decreases names.len(),
{
    let front = names.drop_last();
    lemma_names_len(names);
    lemma_names_len(front);
    lemma_le_bytes_len(names.last() as nat, 2);
    if i < front.len() {
        lemma_name_in_wire(front, i);
        assert(names_wire(names).subrange(2 * i, 2 * i + 2) =~= names_wire(front).subrange(
            2 * i,
            2 * i + 2,
        ));
    } else {
        assert(names_wire(names).subrange(2 * i, 2 * i + 2) =~= le_bytes(names[i] as nat, 2));
    }
}

/// A junction row stays a junction row whatever is written behind its identity.
pub proof fn lemma_identity_kept(before: NodeRow, after: NodeRow, at: int, b: Seq<u8>)
    requires
        at >= 16,
        at + b.len() <= 480,
        lane_written(before, after, at, b),
    ensures
        identity_of(after) == identity_of(before),
{
    assert(slot_start(2) == 0);
    lemma_not_overwritten(before.value@, at, b, 0, 16);
    assert(slot_of(after.value@, 2) == slot_of(before.value@, 2));
}

/// The names written to a junction are the names read from it, and an edge past
/// them keeps the name it had.
pub proof fn law_names_round_trip(before: NodeRow, after: NodeRow, names: Seq<u16>, edge: u8)
    requires
        is_junction(before),
        lane_written(before, after, 16, names_wire(first_eight(names))),
        edge < EDGE_SLOTS,
    ensures
        edge < names.len() ==> name_of(after, edge) == names[edge as int],
        edge >= names.len() ==> name_of(after, edge) == name_of(before, edge),
{
    let all = first_eight(names);
    let b = names_wire(all);
    lemma_names_len(all);
    lemma_identity_kept(before, after, 16, b);
    if edge < names.len() {
        lemma_pow256_widths();
        lemma_name_in_wire(all, edge as int);
        lemma_overwritten(before.value@, 16, b);
        assert(after.value@.subrange(16 + 2 * edge, 18 + 2 * edge) =~= b.subrange(
            2 * edge,
            2 * edge + 2,
        ));
        lemma_le_round_trip(all[edge as int] as nat, 2);
    } else {
        lemma_not_overwritten(before.value@, 16, b, 16 + 2 * edge, 18 + 2 * edge);
    }
}

/// The three lanes do not overlap: writing one leaves the other two as they
/// were, and so does the identity.
pub proof fn law_lanes_are_disjoint(
    before: NodeRow,
    named: NodeRow,
    shaped: NodeRow,
    turned: NodeRow,
    names: Seq<u16>,
    headings: Seq<u8>,
    access: Seq<u8>,
    mask: RestrictionMask,
    edge: u8,
)
    requires
        edge < EDGE_SLOTS,
        lane_written(before, named, 16, names_wire(first_eight(names))),
        shaped.key == named.key,
        shaped.edges == named.edges,
        shaped.value@ == overwritten(
            overwritten(named.value@, 32, first_eight(headings)),
            40,
            first_eight(access),
        ),
        lane_written(shaped, turned, 48, le_bytes(mask.0 as nat, 8)),
    ensures
        identity_of(turned) == identity_of(before),
        name_in(turned.value@, edge) == name_in(named.value@, edge),
        edge < headings.len() ==> turned.value@[32 + edge] == headings[edge as int],
        edge < access.len() ==> turned.value@[40 + edge] == access[edge as int],
        le_at(turned.value@, 48, 8) == mask.0,
{
    let b = names_wire(first_eight(names));
    let t = le_bytes(mask.0 as nat, 8);
    let h = first_eight(headings);
    let a = first_eight(access);
    lemma_names_len(first_eight(names));
    lemma_le_bytes_len(mask.0 as nat, 8);
    lemma_identity_kept(before, named, 16, b);
    lemma_identity_kept(shaped, turned, 48, t);
    let mid = overwritten(named.value@, 32, h);
    lemma_not_overwritten(named.value@, 32, h, 0, 16);
    lemma_not_overwritten(mid, 40, a, 0, 16);
    assert(slot_start(2) == 0);
    assert(slot_of(shaped.value@, 2) == slot_of(named.value@, 2));
    let (f, e) = (16 + 2 * edge, 18 + 2 * edge);
    lemma_not_overwritten(named.value@, 32, h, f, e);
    lemma_not_overwritten(mid, 40, a, f, e);
    lemma_not_overwritten(shaped.value@, 48, t, f, e);
    lemma_overwritten(shaped.value@, 48, t);
    lemma_pow256_widths();
    lemma_le_round_trip(mask.0 as nat, 8);
}

/// On a row that is no junction every lane is mute, whatever bytes stand there.
pub proof fn law_lanes_are_mute(row: NodeRow, edge: u8, name: u16)
    requires
        !is_junction(row),
    ensures
        name_of(row, edge) == NAME_NONE,
        !carries(row, edge, name),
{
}

/// The texts of the named edges below `k`, in edge order; an ordinal that the
/// book does not hold is left out.
pub open spec fn labels_below(row: NodeRow, book: Seq<Seq<char>>, k: int) -> Seq<Seq<char>>
    decreases k,
{
    if k <= 0 {
        Seq::empty()
    } else {
        let n = name_of(row, (k - 1) as u8);
        let front = labels_below(row, book, k - 1);
        if n != NAME_NONE && n < book.len() {
            front.push(book[n as int])
        } else {
            front
        }
    }
}

/// The street names at a junction, read from its row and the book of labels.
pub fn street_labels<'a>(row: &NodeRow, labels: &'a IdentityCodebook) -> (out: Vec<&'a str>)
    ensures
        out@.map_values(|s: &str| s@) == labels_below(*row, labels@, EDGE_SLOTS as int),
{
    let mut out: Vec<&'a str> = Vec::new();
    let mut e: u8 = 0;
    assert(out@.map_values(|s: &str| s@) =~= labels_below(*row, labels@, 0));
    while e < EDGE_SLOTS
        invariant
            e <= EDGE_SLOTS,
            out@.map_values(|s: &str| s@) == labels_below(*row, labels@, e as int),
        decreases EDGE_SLOTS - e,
    {
        let n: u16 = edge_name(row, e);
        let ghost before = out@;
        if n != NAME_NONE {
            match labels.key(n as u32) {
                Some(text) => {
                    out.push(text);
                    assert(out@.map_values(|s: &str| s@) =~= before.map_values(
                        |s: &str| s@,
                    ).push(text@));
                },
                None => {},
            }
        }
        e = e + 1;
    }
    out
}

// ── Laws of streets at junctions ────────────────────────────────────
/// A street goes on through a junction exactly where two of its eight edges carry the
/// name.
pub proof fn law_two_edges_go_on(row: NodeRow, name: u16, n: int)
    requires
        0 <= n <= 8,
    ensures
        edges_carrying(row, name, n) == Seq::new(
            n as nat,
            |e: int| carries(row, e as u8, name),
        ).filter(|b: bool| b).len(),
        edges_carrying(row, name, n) >= 1 <==> exists|e: int|
            0 <= e < n && #[trigger] carries(row, e as u8, name),
        edges_carrying(row, name, n) >= 2 <==> exists|d: int, e: int|
            0 <= d < e < n && #[trigger] carries(row, d as u8, name) && #[trigger] carries(
                row,
                e as u8,
                name,
            ),
    decreases n,
{
    reveal(Seq::filter);
    if n > 0 {
        law_two_edges_go_on(row, name, n - 1);
        let all = Seq::new(n as nat, |e: int| carries(row, e as u8, name));
        assert(all.drop_last() =~= Seq::new(
            (n - 1) as nat,
            |e: int| carries(row, e as u8, name),
        ));
        if carries(row, (n - 1) as u8, name) {
            assert(0 <= n - 1 < n && carries(row, (n - 1) as u8, name));
            if edges_carrying(row, name, n - 1) >= 1 {
                let d = choose|d: int| 0 <= d < n - 1 && #[trigger] carries(row, d as u8, name);
                assert(carries(row, d as u8, name) && carries(row, (n - 1) as u8, name));
            }
        }
    }
}

/// An edge carries the name that its two bytes spell, the least significant first; no edge
/// carries the absent name, and no edge of a row that is no junction carries any.
pub proof fn law_an_edge_carries_its_bytes(row: NodeRow, edge: u8, name: u16)
    ensures
        is_junction(row) && edge < 8 ==> name_of(row, edge) == row.value@[16 + 2 * edge] + 256
            * row.value@[17 + 2 * edge],
        carries(row, edge, name) ==> is_junction(row) && edge < 8 && name != 0,
        is_junction(row) && edge < 8 && name != 0 ==> (carries(row, edge, name) <==> name
            == row.value@[16 + 2 * edge] + 256 * row.value@[17 + 2 * edge]),
{
    if edge < 8 {
        let b = row.value@.subrange(16 + 2 * edge, 18 + 2 * edge);
        reveal_with_fuel(crate::bytes::le_value, 3);
        assert(b.subrange(1, 2).subrange(1, 1) =~= Seq::<u8>::empty());
    }
}

/// The labels of a junction are the texts of its named edges, in the order of the edges,
/// each edge for itself: a name without a text is left out.
pub proof fn law_labels_are_of_named_edges(row: NodeRow, book: Seq<Seq<char>>, k: int)
    requires
        0 <= k <= 8,
    ensures
        labels_below(row, book, k) == Seq::new(k as nat, |e: int| name_of(row, e as u8)).filter(
            |n: nat| n != 0 && n < book.len(),
        ).map_values(|n: nat| book[n as int]),
    decreases k,
{
    reveal(Seq::filter);
    let p = |n: nat| n != 0 && n < book.len();
    let f = |n: nat| book[n as int];
    let all = Seq::new(k as nat, |e: int| name_of(row, e as u8));
    if k > 0 {
        law_labels_are_of_named_edges(row, book, k - 1);
        assert(all.drop_last() =~= Seq::new((k - 1) as nat, |e: int| name_of(row, e as u8)));
        assert(all.filter(p).map_values(f) =~= labels_below(row, book, k));
    } else {
        assert(all.filter(p).map_values(f) =~= labels_below(row, book, k));
    }
}

} // verus!
