use osm_soa_bake::access::RestrictionMask;
use osm_soa_bake::book::IdentityCodebook;
use osm_soa_bake::node::NodeRow;
use osm_soa_bake::read::{OSM_NODE, OSM_STREET_NODE};
use osm_soa_bake::row::{build_row, EdgeNames, Keyed};
use osm_soa_bake::street::{
    edge_access, edge_heading, edge_mask, edge_name, is_street_node, set_edge_geometry,
    set_edge_names, set_turn_restrictions, slot_offset, street_labels, turn_restrictions,
    StreetDto,
    EDGE_GEOMETRY_SLOT, EDGE_SLOTS, NAME_NONE, NAME_SLOT, TURN_SLOT,
};
use osm_soa_bake::tags::{TagSpan, TagStore};
use osm_soa_bake::tms::tiers_of;

fn junction(names: &[u16]) -> NodeRow {
    let none = TagStore::default().resolve().expect("empty books");
    let mut r = build_row(&Keyed {
        morton: 42,
        tiers: tiers_of(42),
        // A REAL junction row: the kind the bake stamps, plus an ordinal
        // so the identity facet is actually written. The previous helper
        // used `OSM_WAY` with no ordinal — a row that cannot exist in a
        // bake, and which only passed because nothing read the kind.
        entity_type: OSM_STREET_NODE,
        osm_id: 0,
        identity_ordinal: Some(1),
        identity: 0,
        tags: TagSpan::default(),
        edge_names: EdgeNames::default(),
    }, &none);
    set_edge_names(&mut r, names);
    r
}

/// The edge lanes are readable only on a row whose identity facet says
/// `osm_street_node`. The accessors ask for the kind themselves, so no caller can
/// forget to.
#[test]
fn edge_lanes_are_mute_on_a_row_that_is_not_a_street_node() {
    // A tagged POI, with bytes in the name slot — the shape a misdirected
    // read would find. It must decode to nothing, not to eight streets.
    let none = TagStore::default().resolve().expect("empty books");
    let mut poi = build_row(&Keyed {
        morton: 42,
        tiers: tiers_of(42),
        entity_type: OSM_NODE,
        osm_id: 7,
        identity_ordinal: Some(7),
        identity: 0,
        tags: TagSpan::default(),
        edge_names: EdgeNames::default(),
    }, &none);
    set_edge_names(&mut poi, &[11u16, 12, 13]);

    assert!(!is_street_node(&poi), "an osm_node row is not a junction");
    for e in 0..EDGE_SLOTS {
        assert_eq!(
            edge_name(&poi, e),
            NAME_NONE,
            "edge {e} must be mute on a non-junction row"
        );
    }
    assert_eq!(edge_mask(&poi, 11).count(), 0);
    assert!(StreetDto::at(&poi, 0).is_none());

    // Two-sided: the identical bytes on a real junction row DO decode, so
    // this test cannot pass by the lanes being broken for everyone.
    let j = junction(&[11u16, 12, 13]);
    assert!(is_street_node(&j));
    assert_eq!(edge_name(&j, 0), 11);
    assert_eq!(edge_mask(&j, 11).count(), 1);
}

/// The three lanes occupy disjoint bytes and survive each other — the
/// property that makes a shared slot safe rather than merely compact.
#[test]
fn the_edge_lanes_do_not_overwrite_one_another() {
    let mut r = junction(&[11u16, 22, 33]);
    let headings: Vec<u8> = (1..=EDGE_SLOTS).map(|e| e * 3).collect();
    let access: Vec<u8> = (1..=EDGE_SLOTS).map(|e| e * 5).collect();
    set_edge_geometry(&mut r, &headings, &access);
    set_turn_restrictions(
        &mut r,
        RestrictionMask(0xDEAD_BEEF_1234_5678),
    );

    for e in 0..EDGE_SLOTS {
        assert_eq!(edge_heading(&r, e), (e + 1) * 3, "heading {e}");
        assert_eq!(edge_access(&r, e), (e + 1) * 5, "access {e}");
    }
    assert_eq!(turn_restrictions(&r).0, 0xDEAD_BEEF_1234_5678);
    // The name lane is untouched — the slot next door is a different slot.
    assert_eq!(edge_name(&r, 0), 11);
    assert_eq!(edge_name(&r, 1), 22);
}

/// The geometry slot is the first tag slot of other rows. It is safe here only
/// because readers ask for the kind first, on these lanes too.
#[test]
fn the_new_lanes_are_also_mute_on_a_non_junction_row() {
    let none = TagStore::default().resolve().expect("empty books");
    let mut poi = build_row(&Keyed {
        morton: 42,
        tiers: tiers_of(42),
        entity_type: OSM_NODE,
        osm_id: 7,
        identity_ordinal: Some(7),
        identity: 0,
        tags: TagSpan::default(),
        edge_names: EdgeNames::default(),
    }, &none);
    // Bytes present in exactly the places a tagged row's first tag lands.
    set_edge_geometry(&mut poi, &[9; 8], &[9; 8]);
    set_turn_restrictions(&mut poi, RestrictionMask(u64::MAX));

    for e in 0..EDGE_SLOTS {
        assert_eq!(edge_heading(&poi, e), 0, "heading {e} must be mute");
        assert_eq!(edge_access(&poi, e), 0, "access {e} must be mute");
    }
    assert_eq!(
        turn_restrictions(&poi).0,
        0,
        "a non-junction row forbids nothing; an all-ones read would forbid every turn"
    );

    // Two-sided: identical bytes on a real junction DO decode.
    let mut j = junction(&[11u16]);
    set_edge_geometry(&mut j, &[9; 8], &[9; 8]);
    set_turn_restrictions(&mut j, RestrictionMask(u64::MAX));
    assert_eq!(edge_heading(&j, 0), 9);
    assert_eq!(edge_access(&j, 0), 9);
    assert_eq!(turn_restrictions(&j).0, u64::MAX);
}

/// The packing follows from arithmetic: one byte per edge for
/// each lane means both fit one 16-byte slot exactly. If either widens,
/// this fails and the layout must be re-decided rather than silently
/// spilling into the turn slot.
#[test]
fn both_edge_lanes_fill_exactly_one_slot() {
    assert_eq!(
        EDGE_SLOTS as usize * 2,
        16,
        "heading(8) + access(8) = one slot"
    );
    assert_eq!(
        slot_offset(TURN_SLOT) - slot_offset(EDGE_GEOMETRY_SLOT),
        16,
        "the turn slot must begin exactly where the geometry slot ends"
    );
}

#[test]
fn the_mask_selects_exactly_the_edges_carrying_that_name() {
    // A 4-way junction where two edges are Hauptstrasse (7) and two are
    // a cross street (9) — the ordinary case.
    let r = junction(&[7, 9, 7, 9]);
    let m = edge_mask(&r, 7);
    assert_eq!(m.count(), 2);
    assert!(m.has(0) && m.has(2));
    assert!(
        !m.has(1) && !m.has(3),
        "the cross street must not be included"
    );
    assert_eq!(edge_mask(&r, 9).count(), 2);
}

#[test]
fn unnamed_edges_are_absent_rather_than_pooled_into_street_zero() {
    // 54% of Berlin's drivable ways are unnamed (mostly service roads).
    // If NAME_NONE matched, they would all become one enormous street.
    let r = junction(&[0, 0, 5, 0]);
    assert_eq!(
        edge_mask(&r, NAME_NONE).count(),
        0,
        "street 0 must be empty"
    );
    assert_eq!(edge_mask(&r, 5).count(), 1);
    assert!(
        StreetDto::at(&r, 0).is_none(),
        "an unnamed edge has no street"
    );
    // ...paired with the named one, so the guard discriminates.
    assert_eq!(StreetDto::at(&r, 2).unwrap().name, 5);
}

#[test]
fn a_street_continues_through_a_junction_only_with_two_or_more_edges() {
    let through = junction(&[7, 9, 7, 9]);
    let ends = junction(&[7, 9, 9, 9]);
    let s = StreetDto {
        name: 7,
        seed_edge: 0,
    };
    assert!(s.continues_through(&through));
    assert!(
        !s.continues_through(&ends),
        "one edge is an endpoint, not a through"
    );
}

#[test]
fn the_dto_is_identity_only_and_stays_four_bytes() {
    // The point of the design: a street is not a record of its edges.
    assert!(core::mem::size_of::<StreetDto>() <= 4);
}

#[test]
fn edge_slots_past_the_budget_read_as_unnamed_not_out_of_bounds() {
    // Max measured junction degree is 7; slot 8+ must be a clean miss
    // rather than a panic or a read into the next slot.
    let r = junction(&[7, 7, 7, 7, 7, 7, 7, 7]);
    assert_eq!(edge_name(&r, EDGE_SLOTS), NAME_NONE);
    assert_eq!(edge_name(&r, 200), NAME_NONE);
    assert_eq!(edge_mask(&r, 7).count(), u32::from(EDGE_SLOTS));
}

#[test]
fn names_land_in_the_name_slot_and_touch_no_other_slot() {
    // Field isolation: writing names must not disturb any neighbouring
    // slot, including the EntityType lane the row already carries.
    let mut r = junction(&[]);
    let before = r.value;
    set_edge_names(&mut r, &[1, 2, 3]);
    let base = slot_offset(NAME_SLOT);
    for (i, (a, b)) in before.iter().zip(r.value.iter()).enumerate() {
        if !(base..base + 16).contains(&i) {
            assert_eq!(a, b, "byte {i} changed outside the name slot");
        }
    }
}

#[test]
fn street_names_come_out_of_the_row_and_the_book() {
    let labels = IdentityCodebook::try_new(vec![
        "(none)".to_string(),
        "Friedrichstra\u{df}e".to_string(),
        "Unter den Linden".to_string(),
    ])
    .expect("small book");
    let r = junction(&[2, 0, 1, 2, 9]);
    assert_eq!(
        street_labels(&r, &labels),
        vec!["Unter den Linden", "Friedrichstra\u{df}e", "Unter den Linden"]
    );
    assert!(street_labels(&junction(&[]), &labels).is_empty());
}
