use osm_soa_bake::cluster::{
    facets, read_facet, write_member, write_tag, Facet, CLUSTER_SLOTS,
};
use osm_soa_bake::facet::MAX_ORDINAL;
use osm_soa_bake::node::{slab_offset_of_slot, NodeGuid, NodeRow, RESERVED_SLOTS, ROW_SLOTS};
use osm_soa_bake::read::{OSM_NODE, OSM_WAY};

fn blank() -> NodeRow {
    NodeRow {
        key: NodeGuid { bytes: [0; 16] },
        edges: [0; 16],
        value: [0u8; 480],
    }
}

#[test]
fn a_cluster_row_carries_thirty_value_facets() {
    assert_eq!(CLUSTER_SLOTS, 30);
    assert_eq!(RESERVED_SLOTS + CLUSTER_SLOTS, ROW_SLOTS);
}

#[test]
fn a_tile_cluster_round_trips_members_and_their_tags() {
    // The shape the size claim rests on: one key, many features, tags
    // included. Two ways and a node, each carrying a tag.
    let mut row = blank();
    assert!(write_member(&mut row, 2, OSM_WAY, 100));
    assert!(write_tag(&mut row, 3, 100, 7, 42)); // highway=residential
    assert!(write_member(&mut row, 4, OSM_WAY, 101));
    assert!(write_tag(&mut row, 5, 101, 7, 43)); // highway=service
    assert!(write_member(&mut row, 6, OSM_NODE, 102));

    let got = facets(&row);
    assert_eq!(got.len(), 5, "five occupied slots, no more, no fewer");
    assert_eq!(
        got[0].1,
        Facet::Member {
            kind: OSM_WAY,
            ordinal: 100
        }
    );
    assert_eq!(
        got[1].1,
        Facet::Tag {
            member: 100,
            key: 7,
            value: 42
        }
    );
    assert_eq!(
        got[4].1,
        Facet::Member {
            kind: OSM_NODE,
            ordinal: 102
        }
    );

    // The two tags share a KEY ordinal but differ in VALUE — so the
    // reading is not collapsing the pair into one field.
    let (
        Facet::Tag {
            key: k0, value: v0, ..
        },
        Facet::Tag {
            key: k1, value: v1, ..
        },
    ) = (got[1].1, got[3].1)
    else {
        panic!("slots 3 and 5 must be tags")
    };
    assert_eq!(k0, k1);
    assert_ne!(v0, v1);
}

#[test]
fn a_tag_binds_to_its_member_by_ordinal_not_by_position() {
    // The property that makes a slot readable alone. A tag written FAR
    // from its member still resolves to it, so a reordering or a gap
    // cannot silently re-attach it to the wrong element.
    let mut row = blank();
    assert!(write_member(&mut row, 2, OSM_WAY, 500));
    assert!(write_tag(&mut row, 31, 500, 9, 9));
    let got = facets(&row);
    assert_eq!(got.len(), 2);
    let Facet::Tag { member, .. } = got[1].1 else {
        panic!("slot 31 must be a tag")
    };
    assert_eq!(member, 500, "the tag names its member, wherever it sits");

    // Anti-vacuity: a tag for a DIFFERENT member reads as that member,
    // so the field is genuinely read rather than defaulted.
    let mut other = blank();
    assert!(write_tag(&mut other, 31, 501, 9, 9));
    let Facet::Tag { member, .. } = read_facet(&other, 31).unwrap() else {
        panic!()
    };
    assert_eq!(member, 501);
}

#[test]
fn the_two_facet_kinds_are_discriminated_by_classid_alone() {
    // Same slot, same payload shape — only the classid differs, and that
    // is what the ClassView reading turns on.
    let mut a = blank();
    let mut b = blank();
    assert!(write_member(&mut a, 5, OSM_WAY, 77));
    assert!(write_tag(&mut b, 5, 77, 0, 0));
    assert!(matches!(read_facet(&a, 5), Some(Facet::Member { .. })));
    assert!(matches!(read_facet(&b, 5), Some(Facet::Tag { .. })));
    // And the classids really differ — not one id read two ways.
    let off = slab_offset_of_slot(5).unwrap();
    assert_ne!(a.value[off..off + 4], b.value[off..off + 4]);
}

#[test]
fn an_unfilled_slot_reads_as_absent_and_gaps_do_not_terminate_the_row() {
    let mut row = blank();
    assert!(read_facet(&row, 2).is_none());
    // A gap in the middle must not hide what follows it.
    assert!(write_member(&mut row, 2, OSM_NODE, 1));
    assert!(write_member(&mut row, 20, OSM_NODE, 2));
    assert_eq!(facets(&row).len(), 2, "the gap must not truncate the read");
    assert!(read_facet(&row, 10).is_none());
}

#[test]
fn slots_outside_the_value_slab_are_refused_in_both_directions() {
    let mut row = blank();
    // The key and edge slots are not writable as facets.
    assert!(!write_member(&mut row, 0, OSM_NODE, 1));
    assert!(!write_member(&mut row, 1, OSM_NODE, 1));
    assert!(!write_tag(&mut row, 1, 1, 1, 1));
    assert!(!write_member(&mut row, ROW_SLOTS, OSM_NODE, 1));
    assert_eq!(row.value, [0u8; 480], "a refused write must not land");
    // Can-fire half.
    assert!(write_member(&mut row, RESERVED_SLOTS, OSM_NODE, 1));
}

#[test]
fn an_over_capacity_ordinal_is_refused_rather_than_truncated() {
    // A narrowed ordinal points at the WRONG element or tag and still
    // reads as valid — the failure mode worth refusing.
    let mut row = blank();
    assert!(!write_member(&mut row, 2, OSM_NODE, MAX_ORDINAL + 1));
    assert!(!write_tag(&mut row, 2, MAX_ORDINAL + 1, 0, 0));
    assert!(!write_tag(&mut row, 2, 0, MAX_ORDINAL + 1, 0));
    assert!(!write_tag(&mut row, 2, 0, 0, MAX_ORDINAL + 1));
    assert_eq!(row.value, [0u8; 480]);
    // Boundary from the other side.
    assert!(write_tag(
        &mut row,
        2,
        MAX_ORDINAL,
        MAX_ORDINAL,
        MAX_ORDINAL
    ));
}

#[test]
fn a_full_cluster_row_beats_one_feature_per_row_on_bytes_per_feature() {
    // The size claim, as arithmetic over the real stride rather than a
    // recalled figure. Ten members with two tags each fills all 30 slots.
    let mut row = blank();
    let mut slot = RESERVED_SLOTS;
    for m in 0..10u32 {
        assert!(write_member(&mut row, slot, OSM_WAY, m));
        slot += 1;
        for t in 0..2u32 {
            assert!(write_tag(&mut row, slot, m, 7, t));
            slot += 1;
        }
    }
    assert_eq!(slot, ROW_SLOTS, "ten members with two tags fills the row");
    assert_eq!(facets(&row).len(), 30);

    // 512 bytes carrying 10 features AND their 20 tags.
    const STRIDE: usize = 512;
    let per_feature = STRIDE / 10;
    assert_eq!(per_feature, 51);
    // The superseded path spends the whole stride on one feature and
    // stores no tags at all.
    assert!(
        per_feature * 10 <= STRIDE && per_feature < STRIDE,
        "a cluster row must beat 512 B/feature"
    );
}
