use osm_soa_bake::capability::{
    covered, locate_fragment, locate_tile, project_fields, registration, street_edges, Capability,
};
use osm_soa_bake::fragment::BoundaryIndex;
use osm_soa_bake::mask::WideFieldMask;
use osm_soa_bake::project::FACET_PAYLOAD_BYTES;
use osm_soa_bake::read::{Anchor, Feature, OSM_STREET_NODE};
use osm_soa_bake::row::{build_row, key_feature};
use osm_soa_bake::slab::RowSlab;
use osm_soa_bake::street::set_edge_names;
use osm_soa_bake::tags::{TagSpan, TagStore};
use osm_soa_bake::tms::{cell_to_morton, tiers_of, TileXy};

/// The slippy-tile cell of a longitude and latitude at zoom `z`.
fn lonlat_to_tile(lon: f64, lat: f64, z: u32) -> (u32, u32) {
    let n = (1u64 << z.min(32)) as f64;
    let x = ((lon + 180.0) / 360.0 * n).floor();
    let lat_rad = lat.clamp(-85.051_128_78, 85.051_128_78).to_radians();
    let merc_y = (lat_rad.tan() + 1.0 / lat_rad.cos()).ln();
    let y = ((1.0 - merc_y / std::f64::consts::PI) / 2.0 * n).floor();
    let max = n - 1.0;
    (x.clamp(0.0, max) as u32, y.clamp(0.0, max) as u32)
}

fn point_to_cell(lon: f64, lat: f64) -> TileXy {
    let (x, y_xyz) = lonlat_to_tile(lon, lat, 32);
    TileXy { x, y_xyz }
}

#[test]
fn the_covered_set_is_derived_from_the_enum() {
    let mine = covered();
    assert_eq!(mine.len(), Capability::ALL.len());
    for (c, name) in Capability::ALL.into_iter().zip(&mine) {
        assert_eq!(c.name(), *name);
    }
}

#[test]
fn capability_names_are_distinct() {
    // A copy-paste that gave two variants the same name would still
    // satisfy the roundtrip if the duplicate matched a real entry.
    let mut names = covered();
    names.sort_unstable();
    let before = names.len();
    names.dedup();
    assert_eq!(names.len(), before, "two variants share a name");
}

#[test]
fn every_arm_actually_executes_its_primitive() {
    // A registration is fiction unless each arm runs and returns something
    // real. Each assertion below would fail on a stub returning a default.
    let berlin = (13.404954, 52.520008);
    let cell = point_to_cell(berlin.0, berlin.1);
    let morton = cell_to_morton(cell);
    assert_ne!(morton, 0);
    assert_ne!(tiers_of(morton).leaf, 0, "the finest tier must be carried");

    // A slab of one real row, and the tile that contains it.
    let none = TagStore::default().resolve().expect("empty books");
    let mut k = key_feature(&Feature {
        anchor: Anchor::Published(cell),
        entity_type: OSM_STREET_NODE,
        osm_id: 1,
        tags: TagSpan::default(),
    });
    k.identity_ordinal = Some(0);
    let row = build_row(&k, &none);
    let mut bytes = Vec::new();
    row.push_to(&mut bytes);
    let slab = RowSlab::new(&bytes).expect("one row is a valid slab");
    assert_eq!(locate_tile(&slab, 0, 0, 0), 0..1, "z=0 contains everything");

    let index = BoundaryIndex::new(vec![0, morton]).expect("sorted firsts");
    let found = locate_fragment(&index, morton, morton + 1);
    assert!(!found.is_empty(), "the point's own fragment must be found");

    // Projection: a full surface admits the facet register; an empty role
    // admits nothing. Both halves, so neither is vacuous.
    let full = WideFieldMask::full_for(FACET_PAYLOAD_BYTES as usize);
    let empty = WideFieldMask::full_for(0);
    assert_eq!(
        project_fields(&row, &full, &full).len(),
        FACET_PAYLOAD_BYTES as usize
    );
    assert!(project_fields(&row, &full, &empty).is_empty());

    // Street edges: an unnamed junction yields nothing; a named one does.
    let mut named = row;
    set_edge_names(&mut named, &[7, 7]);
    assert_eq!(street_edges(&row, 7).count(), 0);
    assert_eq!(street_edges(&named, 7).count(), 2);
}

#[test]
fn a_registration_names_this_library_and_what_it_covers() {
    let names: &'static [&'static str] = Box::leak(covered().into_boxed_slice());
    let r = registration(names, &[0x0F01_1000]);
    assert_eq!(r.consumer, "osm-soa-bake");
    assert_eq!(r.covered.len(), 6);
    assert_eq!(r.subject_classids, &[0x0F01_1000]);
}
