use osm_soa_bake::mask::WideFieldMask;
use osm_soa_bake::node::NodeRow;
use osm_soa_bake::project::{project, projected_mask, Projected, FACET_PAYLOAD_BYTES};
use osm_soa_bake::read::OSM_WAY;
use osm_soa_bake::row::{build_row, EdgeNames, Keyed};
use osm_soa_bake::tags::{TagSpan, TagStore};
use osm_soa_bake::tms::tiers_of;

fn row_with(code: u64) -> NodeRow {
    let none = TagStore::default().resolve().expect("empty books");
    build_row(
        &Keyed {
            morton: code,
            tiers: tiers_of(code),
            entity_type: OSM_WAY,
            osm_id: 0,
            identity_ordinal: None,
            identity: 0,
            tags: TagSpan::default(),
            edge_names: EdgeNames::default(),
        },
        &none,
    )
}

#[test]
fn a_projection_reads_the_facet_bytes_at_the_addresses_the_mask_names() {
    let row = row_with(0x0123_4567_89AB_CDEF);
    let full = WideFieldMask::full_for(FACET_PAYLOAD_BYTES as usize);
    let got: Vec<Projected> = project(&row, &full, &full);
    assert_eq!(got.len(), FACET_PAYLOAD_BYTES as usize);
    // Each projected byte IS the row's key byte at that address — read in
    // place, not copied through an intermediate.
    for p in &got {
        assert_eq!(p.byte, row.key.as_bytes()[4 + p.position as usize]);
    }
}

#[test]
fn the_role_mask_narrows_and_never_widens() {
    // Fail-closed: intersecting can only remove positions.
    let row = row_with(0xDEAD_BEEF_CAFE_F00D);
    let surface = WideFieldMask::full_for(FACET_PAYLOAD_BYTES as usize);
    let role = WideFieldMask::from_positions(&[1, 4, 9]);
    let got: Vec<u8> = project(&row, &surface, &role).iter().map(|p| p.position).collect();
    assert_eq!(got, vec![1, 4, 9]);
    // A role naming positions the surface does not offer adds nothing.
    let greedy = WideFieldMask::from_positions(&[1, 200]);
    let got2: Vec<u8> = project(&row, &surface, &greedy).iter().map(|p| p.position).collect();
    assert_eq!(got2, vec![1], "a role cannot widen the surface");
}

#[test]
fn an_empty_role_projects_nothing_and_that_is_discriminating() {
    let row = row_with(1);
    let surface = WideFieldMask::full_for(FACET_PAYLOAD_BYTES as usize);
    assert_eq!(project(&row, &surface, &WideFieldMask::empty()).len(), 0);
    // ...paired with a role that DOES admit, so "nothing" means something.
    let one = WideFieldMask::from_positions(&[3]);
    assert_eq!(project(&row, &surface, &one).len(), 1);
}

#[test]
fn positions_past_the_facet_register_are_skipped_not_folded() {
    // Position 12+ is a value-slab field read through a different surface.
    // Folding it onto a facet byte would silently show the wrong value.
    let row = row_with(0xFFFF_FFFF_FFFF_FFFF);
    let surface = WideFieldMask::from_positions(&[11, 12, 13, 63]);
    let got: Vec<u8> = project(&row, &surface, &surface).iter().map(|p| p.position).collect();
    assert_eq!(got, vec![11], "only the in-register position projects");
}

#[test]
fn projected_mask_agrees_with_what_project_yields() {
    // The wire's mask_words and the values must describe the same set, or
    // a client decodes values against the wrong addresses.
    let row = row_with(0x1122_3344_5566_7788);
    let surface = WideFieldMask::from_positions(&[0, 5, 11, 40]);
    let role = WideFieldMask::from_positions(&[0, 11, 40]);
    let m = projected_mask(&surface, &role);
    let yielded: Vec<u8> = project(&row, &surface, &role).iter().map(|p| p.position).collect();
    assert_eq!(yielded, vec![0, 11]);
    assert_eq!(m.count() as usize, yielded.len());
    for p in &yielded {
        assert!(m.has(*p));
    }
    assert!(!m.has(40), "out-of-register positions are not advertised");
}
