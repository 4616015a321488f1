use osm_soa_bake::facet::{FacetCascade, IdentityQuad, MAX_ORDINAL};
use osm_soa_bake::identity::{read_identity, write_identity, OSM_ID_SLOT};
use osm_soa_bake::node::{
    slab_offset_of_slot, NodeGuid, NodeRow, GEO_IDENTITY_SLOT, ROW_SLOTS, SLOT_BYTES,
};
use osm_soa_bake::read::{OSM_NODE, OSM_RELATION, OSM_WAY};

fn blank() -> NodeRow {
    NodeRow {
        key: NodeGuid { bytes: [0; 16] },
        edges: [0; 16],
        value: [0u8; 480],
    }
}

#[test]
fn the_slot_is_addressed_by_index_never_by_a_literal_offset() {
    // Slot 2 is the FIRST value slot, so it sits at slab offset 0.
    assert_eq!(slab_offset_of_slot(GEO_IDENTITY_SLOT), Some(0));
    assert_eq!(slab_offset_of_slot(3), Some(16));
    // Key and edge slots are not slab-addressable.
    assert_eq!(slab_offset_of_slot(0), None);
    assert_eq!(slab_offset_of_slot(1), None);
    // Nor is anything past the stride.
    assert_eq!(slab_offset_of_slot(ROW_SLOTS), None);
    // The last real slot IS addressable, so the guard is a boundary and
    // not a function that always refuses.
    assert_eq!(slab_offset_of_slot(ROW_SLOTS - 1), Some((30 - 1) * 16));
}

#[test]
fn an_ordinal_round_trips_across_the_whole_u24_range() {
    for ord in [0u32, 1, 2, 255, 256, 65_535, 65_536, MAX_ORDINAL] {
        let mut row = blank();
        assert!(write_identity(&mut row, OSM_NODE, ord), "ordinal {ord}");
        assert_eq!(
            read_identity(&row),
            Some((OSM_NODE, ord)),
            "ordinal {ord} corrupted"
        );
    }
}

#[test]
fn an_ordinal_past_capacity_is_refused_rather_than_truncated() {
    // The failure this guards: a narrowed identity points at the WRONG
    // element and still reads as valid. Refusal is the only safe outcome.
    let mut row = blank();
    assert!(!write_identity(&mut row, OSM_NODE, MAX_ORDINAL + 1));
    assert_eq!(row.value, [0u8; 480], "a refused write must not land");
    // Boundary asserted from both sides.
    assert!(write_identity(&mut row, OSM_NODE, MAX_ORDINAL));
}

#[test]
fn the_kind_is_recoverable_from_the_slot_alone() {
    // The reason EntityType can go: three kinds, same ordinal, three
    // readings.
    for kind in [OSM_NODE, OSM_WAY, OSM_RELATION] {
        let mut row = blank();
        assert!(write_identity(&mut row, kind, 42));
        assert_eq!(read_identity(&row), Some((kind, 42)));
    }
    // And they really differ — not three names for one stored value.
    let (mut a, mut b) = (blank(), blank());
    write_identity(&mut a, OSM_NODE, 42);
    write_identity(&mut b, OSM_WAY, 42);
    assert_ne!(a.value, b.value);
}

#[test]
fn a_non_geo_kind_is_refused_and_leaves_the_row_untouched() {
    let mut row = blank();
    assert!(
        !write_identity(&mut row, 0x0102, 7),
        "project concept accepted"
    );
    assert_eq!(
        row.value, [0u8; 480],
        "a refused write must not partially land"
    );
    // Can-fire half: the same row accepts a geo kind, so the guard
    // discriminates rather than refusing everything.
    assert!(write_identity(&mut row, OSM_NODE, 7));
}

#[test]
fn an_unwritten_slot_reads_as_not_asserted_never_as_ordinal_zero() {
    // Zero-fallback: an all-zero slot is dormant, not "osm_node ordinal 0".
    // This is exactly why IdentityQuad stores `ordinal + 1` — and ordinal 0
    // IS storable, which is what makes the distinction non-vacuous.
    assert_eq!(read_identity(&blank()), None);
    let mut row = blank();
    assert!(write_identity(&mut row, OSM_NODE, 0));
    assert_eq!(read_identity(&row), Some((OSM_NODE, 0)));
}

#[test]
fn writing_the_identity_touches_only_its_own_slot() {
    // Field isolation: the facet must not
    // bleed into the neighbouring slot.
    let mut row = blank();
    assert!(write_identity(&mut row, OSM_WAY, MAX_ORDINAL));
    let off = slab_offset_of_slot(GEO_IDENTITY_SLOT).unwrap();
    let rest: usize = row.value[off + SLOT_BYTES..]
        .iter()
        .map(|b| usize::from(*b))
        .sum();
    assert_eq!(rest, 0, "no byte past the identity slot may be written");
}

#[test]
fn the_other_three_quad_slots_stay_empty_for_a_geo_row() {
    // A geo bake fills ONE of the four identifier spaces. The rest must
    // read as absent, not as ordinal 0 — otherwise a later bake joining a
    // second space would find its slot already claimed.
    let mut row = blank();
    assert!(write_identity(&mut row, OSM_NODE, 12_345));
    let off = slab_offset_of_slot(GEO_IDENTITY_SLOT).unwrap();
    let bytes: [u8; SLOT_BYTES] = row.value[off..off + SLOT_BYTES].try_into().unwrap();
    let quad = IdentityQuad::from_facet(&FacetCascade::from_bytes(&bytes));
    assert_eq!(quad.filled(), 1, "a geo row fills exactly one slot");
    for slot in 0..4 {
        if slot != OSM_ID_SLOT {
            assert_eq!(quad.slot(slot), None, "slot {slot} must stay absent");
        }
    }
}
