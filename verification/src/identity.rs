//! The identity facet: which element a row is about.
//!
//! The kind of the element is the class of the facet, its codebook ordinal the
//! first field of the quad. So the slot can be read alone, and a row that never
//! had an identity written says so instead of naming element 0.

use crate::facet::{
    facet_class, facet_field, facet_wire, law_facet_round_trip, lemma_facet_len, storable,
    FacetCascade, IdentityQuad, MAX_ORDINAL,
};
use crate::node::{
    law_slots_are_disjoint, overwritten, put, slab_offset_of_slot, slot_bytes, slot_of, slot_written, NodeRow, GEO_IDENTITY_SLOT,
};
use crate::vocab::{class_of, geo_identity_classid, is_geo, law_concept_of_class};
use vstd::prelude::*;

verus! {

/// The quad field that carries the ordinal of the element.
pub const OSM_ID_SLOT: usize = 0;

/// A quad with one ordinal, in the first field.
pub open spec fn one_ordinal(ordinal: u32) -> Seq<Option<u32>> {
    seq![Some(ordinal), None, None, None]
}

/// The facet of an element.
pub open spec fn member_facet(kind: u16, ordinal: u32) -> Seq<u8> {
    facet_wire(class_of(kind as nat), one_ordinal(ordinal))
}

/// Whether an element can be written: its kind is a geo concept and its ordinal
/// fits.
pub open spec fn nameable(kind: u16, ordinal: u32) -> bool {
    is_geo(kind as nat) && ordinal <= MAX_ORDINAL
}

/// The concept that a facet is about.
pub open spec fn facet_concept(b: Seq<u8>) -> nat {
    facet_class(b) / 0x1_0000
}

/// The element that a facet names: kind and ordinal. None where the class is no
/// geo concept, or the ordinal is absent.
pub open spec fn named_by(b: Seq<u8>) -> Option<(u16, u32)> {
    if !is_geo(facet_concept(b)) {
        None
    } else {
        match facet_field(b, 0) {
            Some(ordinal) => Some((facet_concept(b) as u16, ordinal)),
            None => None,
        }
    }
}

/// The element that a row is about.
pub open spec fn identity_of(row: NodeRow) -> Option<(u16, u32)> {
    named_by(slot_of(row.value@, GEO_IDENTITY_SLOT as int))
}

/// Writes a member facet into the slot that starts at `off`.
pub(crate) fn put_member(row: &mut NodeRow, off: usize, kind: u16, ordinal: u32) -> (ok: bool)
    requires
        off + 16 <= 480,
    ensures
        ok == nameable(kind, ordinal),
        !ok ==> *final(row) == *old(row),
        ok ==> final(row).key == old(row).key && final(row).edges == old(row).edges
            && final(row).value@ == overwritten(
            old(row).value@,
            off as int,
            member_facet(kind, ordinal),
        ),
{
    let classid: u32 = match geo_identity_classid(kind) {
        Some(c) => c,
        None => {
            return false;
        },
    };
    let quad: IdentityQuad = match IdentityQuad::empty().with_slot(OSM_ID_SLOT, Some(ordinal)) {
        Some(q) => q,
        None => {
            return false;
        },
    };
    assert(quad@ =~= one_ordinal(ordinal));
    let bytes: [u8; 16] = quad.into_facet(classid).to_bytes();
    put(&mut row.value, off, bytes.as_slice());
    true
}

/// Writes the identity facet. A kind that is no geo concept and an ordinal that
/// does not fit are refused, and the row stays as it was.
pub fn write_identity(row: &mut NodeRow, entity_type: u16, ordinal: u32) -> (ok: bool)
    ensures
        ok == nameable(entity_type, ordinal),
        ok ==> slot_written(
            *old(row),
            *final(row),
            GEO_IDENTITY_SLOT as int,
            member_facet(entity_type, ordinal),
        ),
        !ok ==> *final(row) == *old(row),
{
    match slab_offset_of_slot(GEO_IDENTITY_SLOT) {
        Some(off) => put_member(row, off, entity_type, ordinal),
        None => false,
    }
}

/// Reads the element that a facet names.
pub(crate) fn read_named(facet: &FacetCascade) -> (r: Option<(u16, u32)>)
    ensures
        r == named_by(facet.bytes@),
{
    let concept: u16 = (facet.facet_classid() / 0x1_0000) as u16;
    if geo_identity_classid(concept).is_none() {
        return None;
    }
    match IdentityQuad::from_facet(facet).slot(OSM_ID_SLOT) {
        Some(ordinal) => Some((concept, ordinal)),
        None => None,
    }
}

/// Reads the identity facet: kind and ordinal. None where none was written.
pub fn read_identity(row: &NodeRow) -> (r: Option<(u16, u32)>)
    ensures
        r == identity_of(*row),
{
    match slab_offset_of_slot(GEO_IDENTITY_SLOT) {
        Some(off) => {
            let bytes: [u8; 16] = slot_bytes(row, off);
            read_named(&FacetCascade::from_bytes(&bytes))
        },
        None => None,
    }
}

/// A member facet names the element it was written for.
pub proof fn law_member_facet_round_trip(kind: u16, ordinal: u32)
    requires
        nameable(kind, ordinal),
    ensures
        member_facet(kind, ordinal).len() == 16,
        facet_concept(member_facet(kind, ordinal)) == kind,
        named_by(member_facet(kind, ordinal)) == Some((kind, ordinal)),
        forall|i: int| 1 <= i < 4 ==> (#[trigger] facet_field(member_facet(kind, ordinal), i)) is None,
{
    let quad = one_ordinal(ordinal);
    law_concept_of_class(kind);
    lemma_facet_len(class_of(kind as nat), quad);
    assert forall|i: int| 0 <= i < 4 implies storable(#[trigger] quad[i]) by {
        assert(i == 0 || i == 1 || i == 2 || i == 3);
    }
    law_facet_round_trip(class_of(kind as nat) as u32, quad);
    assert(facet_field(member_facet(kind, ordinal), 0) == quad[0]);
    assert forall|i: int| 1 <= i < 4 implies (#[trigger] facet_field(
        member_facet(kind, ordinal),
        i,
    )) is None by {
        assert(quad[i] is None);
    }
}

/// The identity that was written is the identity that is read, over the whole
/// range of kinds and ordinals.
pub proof fn law_identity_round_trip(before: NodeRow, after: NodeRow, kind: u16, ordinal: u32)
    requires
        nameable(kind, ordinal),
        slot_written(before, after, GEO_IDENTITY_SLOT as int, member_facet(kind, ordinal)),
    ensures
        identity_of(after) == Some((kind, ordinal)),
{
    law_member_facet_round_trip(kind, ordinal);
    law_slots_are_disjoint(
        before.value@,
        GEO_IDENTITY_SLOT as int,
        member_facet(kind, ordinal),
        GEO_IDENTITY_SLOT as int,
    );
}

/// A slot of zeros names nothing: it does not read as ordinal 0.
pub proof fn law_blank_slot_names_nothing(b: Seq<u8>)
    requires
        b.len() == 16,
        forall|i: int| 0 <= i < 16 ==> #[trigger] b[i] == 0,
    ensures
        named_by(b) is None,
{
    lemma_blank_class(b);
}

/// The class of a slot of zeros is 0.
pub proof fn lemma_blank_class(b: Seq<u8>)
    requires
        b.len() == 16,
        forall|i: int| 0 <= i < 16 ==> #[trigger] b[i] == 0,
    ensures
        facet_concept(b) == 0,
{
    lemma_zero_value(b.subrange(0, 4));
}

proof fn lemma_zero_value(s: Seq<u8>)
    requires
        forall|i: int| 0 <= i < s.len() ==> #[trigger] s[i] == 0,
    ensures
        crate::bytes::le_value(s) == 0,
    decreases s.len(),
{
    if s.len() > 0 {
        let rest = s.subrange(1, s.len() as int);
        assert forall|i: int| 0 <= i < rest.len() implies #[trigger] rest[i] == 0 by {
            assert(rest[i] == s[i + 1]);
        }
        lemma_zero_value(rest);
    }
}

} // verus!
