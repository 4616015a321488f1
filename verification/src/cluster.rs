//! Facets of a row: elements and their tags, one per value slot.
//!
//! Every slot says by its class what it holds. A tag names the member that it
//! belongs to, so it can stand anywhere in the row and be read alone.

use crate::facet::{
    facet_field, facet_wire, law_facet_round_trip, lemma_facet_len, storable, FacetCascade,
    IdentityQuad, MAX_ORDINAL,
};
use crate::identity::{
    facet_concept, law_member_facet_round_trip, member_facet, nameable, named_by, put_member,
    read_named,
};
use crate::node::{
    is_value_slot, law_slots_are_disjoint, put, slab_offset_of_slot, slot_bytes, slot_of,
    slot_written, NodeRow, RESERVED_SLOTS, ROW_SLOTS,
};
use crate::vocab::{class_of, geo_identity_classid, law_concept_of_class, OSM_ELEMENT_TAG};
use vstd::prelude::*;

verus! {

/// Value facets that a row carries.
pub const CLUSTER_SLOTS: usize = 30;

/// Quad field of a member's ordinal.
pub const MEMBER_ORDINAL: usize = 0;

/// Quad field of the member that a tag belongs to.
pub const TAG_MEMBER: usize = 0;

/// Quad field of a tag's key.
pub const TAG_KEY: usize = 1;

/// Quad field of a tag's value.
pub const TAG_VALUE: usize = 2;

/// One facet of a row.
#[derive(Debug, Clone, Copy, PartialEq, Eq, Structural)]
pub enum Facet {
    /// An element: its concept and its codebook ordinal.
    Member { kind: u16, ordinal: u32 },
    /// A tag on a member: the member's ordinal, the key's and the value's.
    Tag { member: u32, key: u32, value: u32 },
}

/// A quad with three ordinals.
pub open spec fn three_ordinals(a: u32, b: u32, c: u32) -> Seq<Option<u32>> {
    seq![Some(a), Some(b), Some(c), None]
}

/// The facet of a tag.
pub open spec fn tag_facet(member: u32, key: u32, value: u32) -> Seq<u8> {
    facet_wire(class_of(OSM_ELEMENT_TAG as nat), three_ordinals(member, key, value))
}

/// What sixteen bytes hold, if they hold a facet.
pub open spec fn facet_in(b: Seq<u8>) -> Option<Facet> {
    if facet_concept(b) == OSM_ELEMENT_TAG {
        match (facet_field(b, 0), facet_field(b, 1), facet_field(b, 2)) {
            (Some(member), Some(key), Some(value)) => Some(Facet::Tag { member, key, value }),
            _ => None,
        }
    } else {
        match named_by(b) {
            Some((kind, ordinal)) => Some(Facet::Member { kind, ordinal }),
            None => None,
        }
    }
}

/// The facet in a slot of a row.
pub open spec fn facet_at(row: NodeRow, slot: int) -> Option<Facet> {
    if is_value_slot(slot) {
        facet_in(slot_of(row.value@, slot))
    } else {
        None
    }
}

/// Writes a member facet. A slot that is no value slot, a kind that is no geo
/// concept and an ordinal that does not fit are refused, and the row stays as
/// it was.
pub fn write_member(row: &mut NodeRow, slot: usize, kind: u16, ordinal: u32) -> (ok: bool)
    ensures
        ok == (is_value_slot(slot as int) && nameable(kind, ordinal)),
        ok ==> slot_written(*old(row), *final(row), slot as int, member_facet(kind, ordinal)),
        !ok ==> *final(row) == *old(row),
{
    match slab_offset_of_slot(slot) {
        Some(off) => put_member(row, off, kind, ordinal),
        None => false,
    }
}

/// Writes a tag facet, bound to its member by ordinal. A slot that is no value
/// slot and an ordinal that does not fit are refused, and the row stays as it
/// was.
pub fn write_tag(row: &mut NodeRow, slot: usize, member: u32, key: u32, value: u32) -> (ok: bool)
    ensures
        ok == (is_value_slot(slot as int) && member <= MAX_ORDINAL && key <= MAX_ORDINAL && value
            <= MAX_ORDINAL),
        ok ==> slot_written(*old(row), *final(row), slot as int, tag_facet(member, key, value)),
        !ok ==> *final(row) == *old(row),
{
    let (classid, off): (u32, usize) = match (
        geo_identity_classid(OSM_ELEMENT_TAG),
        slab_offset_of_slot(slot),
    ) {
        (Some(c), Some(o)) => (c, o),
        _ => {
            return false;
        },
    };
    let quad: IdentityQuad = match IdentityQuad::empty().with_slot(TAG_MEMBER, Some(member)) {
        Some(q) => q,
        None => {
            return false;
        },
    };
    let quad: IdentityQuad = match quad.with_slot(TAG_KEY, Some(key)) {
        Some(q) => q,
        None => {
            return false;
        },
    };
    let quad: IdentityQuad = match quad.with_slot(TAG_VALUE, Some(value)) {
        Some(q) => q,
        None => {
            return false;
        },
    };
    assert(quad@ =~= three_ordinals(member, key, value));
    let bytes: [u8; 16] = quad.into_facet(classid).to_bytes();
    put(&mut row.value, off, bytes.as_slice());
    true
}

/// Reads whichever facet stands in a slot. None for a slot that is no value
/// slot, a class that is no geo concept, or a facet without the ordinals that
/// its kind needs.
pub fn read_facet(row: &NodeRow, slot: usize) -> (f: Option<Facet>)
    ensures
        f == facet_at(*row, slot as int),
{
    let off: usize = match slab_offset_of_slot(slot) {
        Some(o) => o,
        None => {
            return None;
        },
    };
    let bytes: [u8; 16] = slot_bytes(row, off);
    let facet: FacetCascade = FacetCascade::from_bytes(&bytes);
    let concept: u32 = facet.facet_classid() / 0x1_0000;
    if concept == OSM_ELEMENT_TAG as u32 {
        let quad: IdentityQuad = IdentityQuad::from_facet(&facet);
        match (quad.slot(TAG_MEMBER), quad.slot(TAG_KEY), quad.slot(TAG_VALUE)) {
            (Some(member), Some(key), Some(value)) => Some(Facet::Tag { member, key, value }),
            _ => None,
        }
    } else {
        match read_named(&facet) {
            Some((kind, ordinal)) => Some(Facet::Member { kind, ordinal }),
            None => None,
        }
    }
}

/// The occupied slots below `end` with what they hold, in slot order.
pub open spec fn facets_below(row: NodeRow, end: int) -> Seq<(int, Facet)>
    decreases end,
{
    if end <= RESERVED_SLOTS {
        Seq::empty()
    } else {
        match facet_at(row, end - 1) {
            Some(f) => facets_below(row, end - 1).push((end - 1, f)),
            None => facets_below(row, end - 1),
        }
    }
}

/// How many facet slots a row has filled.
pub fn filled_slots(row: &NodeRow) -> (n: usize)
    ensures
        n == facets_below(*row, ROW_SLOTS as int).len(),
        n <= CLUSTER_SLOTS,
{
    let mut n: usize = 0;
    let mut s: usize = RESERVED_SLOTS;
    while s < ROW_SLOTS
        invariant
            RESERVED_SLOTS <= s <= ROW_SLOTS,
            n == facets_below(*row, s as int).len(),
            n <= s - RESERVED_SLOTS,
        decreases ROW_SLOTS - s,
    {
        if read_facet(row, s).is_some() {
            n = n + 1;
        }
        s = s + 1;
    }
    n
}

/// Every occupied facet of a row, in slot order.
pub fn facets(row: &NodeRow) -> (out: Vec<(usize, Facet)>)
    ensures
        out@.len() == facets_below(*row, ROW_SLOTS as int).len(),
        forall|i: int|
            0 <= i < out@.len() ==> (#[trigger] out@[i]).0 == facets_below(
                *row,
                ROW_SLOTS as int,
            )[i].0 && out@[i].1 == facets_below(*row, ROW_SLOTS as int)[i].1,
{
    let mut out: Vec<(usize, Facet)> = Vec::new();
    let mut s: usize = RESERVED_SLOTS;
    while s < ROW_SLOTS
        invariant
            RESERVED_SLOTS <= s <= ROW_SLOTS,
            out@.len() == facets_below(*row, s as int).len(),
            forall|i: int|
                0 <= i < out@.len() ==> (#[trigger] out@[i]).0 == facets_below(*row, s as int)[i].0
                    && out@[i].1 == facets_below(*row, s as int)[i].1,
        decreases ROW_SLOTS - s,
    {
        match read_facet(row, s) {
            Some(f) => {
                out.push((s, f));
            },
            None => {},
        }
        s = s + 1;
    }
    out
}

/// Every filled slot is listed once, in ascending order, with what it holds: a
/// gap in the row hides nothing behind it.
pub proof fn law_facets_are_complete(row: NodeRow, end: int)
    requires
        RESERVED_SLOTS <= end <= ROW_SLOTS,
    ensures
        forall|i: int|
            0 <= i < facets_below(row, end).len() ==> {
                let (slot, f) = #[trigger] facets_below(row, end)[i];
                RESERVED_SLOTS <= slot < end && facet_at(row, slot) == Some(f)
            },
        forall|i: int, j: int|
            #![trigger facets_below(row, end)[i], facets_below(row, end)[j]]
            0 <= i < j < facets_below(row, end).len() ==> facets_below(row, end)[i].0
                < facets_below(row, end)[j].0,
        forall|slot: int|
            RESERVED_SLOTS <= slot < end && (#[trigger] facet_at(row, slot)) is Some ==> facets_below(
                row,
                end,
            ).contains((slot, facet_at(row, slot)->0)),
    decreases end,
{
    if end > RESERVED_SLOTS {
        law_facets_are_complete(row, end - 1);
        let front = facets_below(row, end - 1);
        let all = facets_below(row, end);
        assert forall|slot: int|
            RESERVED_SLOTS <= slot < end && (#[trigger] facet_at(row, slot)) is Some implies all.contains(
            (slot, facet_at(row, slot)->0),
        ) by {
            let item = (slot, facet_at(row, slot)->0);
            if slot == end - 1 {
                assert(all.last() == item);
                assert(all[all.len() - 1] == item);
            } else {
                assert(front.contains(item));
                let k = choose|k: int| 0 <= k < front.len() && front[k] == item;
                assert(all[k] == item);
            }
        }
    }
}

/// A member written into a slot is read from that slot.
pub proof fn law_member_round_trip(
    before: NodeRow,
    after: NodeRow,
    slot: int,
    kind: u16,
    ordinal: u32,
)
    requires
        is_value_slot(slot),
        nameable(kind, ordinal),
        kind != OSM_ELEMENT_TAG,
        slot_written(before, after, slot, member_facet(kind, ordinal)),
    ensures
        facet_at(after, slot) == Some(Facet::Member { kind, ordinal }),
{
    law_member_facet_round_trip(kind, ordinal);
    law_slots_are_disjoint(before.value@, slot, member_facet(kind, ordinal), slot);
}

/// A tag facet holds the three ordinals that it was written with.
pub proof fn law_tag_facet_round_trip(member: u32, key: u32, value: u32)
    requires
        member <= MAX_ORDINAL,
        key <= MAX_ORDINAL,
        value <= MAX_ORDINAL,
    ensures
        tag_facet(member, key, value).len() == 16,
        facet_in(tag_facet(member, key, value)) == Some(Facet::Tag { member, key, value }),
{
    let quad = three_ordinals(member, key, value);
    law_concept_of_class(OSM_ELEMENT_TAG);
    lemma_facet_len(class_of(OSM_ELEMENT_TAG as nat), quad);
    assert forall|i: int| 0 <= i < 4 implies storable(#[trigger] quad[i]) by {
        assert(i == 0 || i == 1 || i == 2 || i == 3);
    }
    law_facet_round_trip(class_of(OSM_ELEMENT_TAG as nat) as u32, quad);
    let b = tag_facet(member, key, value);
    assert(facet_field(b, 0) == quad[0]);
    assert(facet_field(b, 1) == quad[1]);
    assert(facet_field(b, 2) == quad[2]);
}

/// A tag written into any slot is read from that slot, bound to its member: the
/// place in the row plays no part.
pub proof fn law_tag_round_trip(
    before: NodeRow,
    after: NodeRow,
    slot: int,
    member: u32,
    key: u32,
    value: u32,
)
    requires
        is_value_slot(slot),
        member <= MAX_ORDINAL,
        key <= MAX_ORDINAL,
        value <= MAX_ORDINAL,
        slot_written(before, after, slot, tag_facet(member, key, value)),
    ensures
        facet_at(after, slot) == Some(Facet::Tag { member, key, value }),
{
    law_tag_facet_round_trip(member, key, value);
    law_slots_are_disjoint(before.value@, slot, tag_facet(member, key, value), slot);
}

/// Writing one facet leaves what every other slot holds as it was.
pub proof fn law_facets_do_not_interfere(
    before: NodeRow,
    after: NodeRow,
    slot: int,
    b: Seq<u8>,
    other: int,
)
    requires
        is_value_slot(slot),
        b.len() == 16,
        slot_written(before, after, slot, b),
        other != slot,
    ensures
        facet_at(after, other) == facet_at(before, other),
{
    if is_value_slot(other) {
        law_slots_are_disjoint(before.value@, slot, b, other);
    }
}

} // verus!
