use osm_soa_bake::node::NODE_ROW_STRIDE;
use osm_soa_bake::read::OSM_NODE;
use osm_soa_bake::row::{build_row, EdgeNames, Keyed};
use osm_soa_bake::slab::{morton_bounds, RowSlab, SlabError, ROW_ALIGN};
use osm_soa_bake::tags::{TagSpan, TagStore};
use osm_soa_bake::tms::tiers_of;

/// Build a slab from Morton codes, laid out exactly as the baker writes.
fn slab_of(codes: &[u64]) -> Vec<u8> {
    let none = TagStore::default().resolve().expect("empty books");
    let mut v = Vec::with_capacity(codes.len() * NODE_ROW_STRIDE);
    for &c in codes {
        let k = Keyed {
            morton: c,
            tiers: tiers_of(c),
            entity_type: OSM_NODE,
            osm_id: 0,
            identity_ordinal: None,
            identity: 0,
            tags: TagSpan::default(),
            edge_names: EdgeNames::default(),
        };
        build_row(&k, &none).push_to(&mut v);
    }
    v
}

/// 64-byte-aligned backing, since a `Vec<u8>` only guarantees 1: the buffer, and where
/// the bytes start in it.
fn aligned(bytes: &[u8]) -> (Vec<u8>, usize) {
    let mut buf = vec![0u8; bytes.len() + 2 * ROW_ALIGN];
    let at = (ROW_ALIGN - buf.as_ptr() as usize % ROW_ALIGN) % ROW_ALIGN;
    buf[at..at + bytes.len()].copy_from_slice(bytes);
    (buf, at)
}

#[test]
fn a_slab_is_a_cast_not_a_decode() {
    let raw = slab_of(&[1, 2, 3]);
    let (a, at) = aligned(&raw);
    let s = RowSlab::new(&a[at..at + raw.len()]).unwrap();
    assert_eq!(s.len(), 3);
    assert_eq!(s.rows().expect("aligned").len(), 3);
    // The slab lies on the same bytes the file holds: no copy.
    assert_eq!(s.as_bytes().as_ptr() as usize, a.as_ptr() as usize + at);
    // The rows read out are the rows that were written.
    let mut again = Vec::new();
    for r in s.rows().expect("aligned") {
        r.push_to(&mut again);
    }
    assert_eq!(again, raw);
    assert_eq!(s.morton_at(1), 2);
}

#[test]
fn an_empty_slab_is_valid_and_is_not_alignment_checked() {
    // An empty slice's pointer dangles, so it carries no alignment at all; the
    // legitimate zero-row slab must be accepted all the same.
    let empty: &[u8] = &[];
    assert_ne!(
        (empty.as_ptr() as usize) % ROW_ALIGN,
        0,
        "precondition: an empty slice dangles rather than being aligned"
    );
    let s = RowSlab::new(empty).expect("an empty slab is valid");
    assert_eq!(s.len(), 0);
    assert!(s.is_empty());
    assert!(s.rows().expect("empty is always projectable").is_empty());
    assert!(s.rows_at(1).expect("at any address").is_empty());
    // And a query over it answers empty rather than panicking.
    assert!(s.tile_range(14, 8802, 5373).is_empty());
    // The same via an empty Vec, which is how a zero-row file reads.
    let v: Vec<u8> = Vec::new();
    assert!(RowSlab::new(&v).is_ok());
}

#[test]
fn a_ragged_or_misaligned_range_is_refused_not_cast() {
    // Both must be refused, and the guard has to discriminate: a well-formed range
    // still succeeds.
    let raw = slab_of(&[1]);
    let (a, at) = aligned(&raw);
    assert_eq!(
        RowSlab::new(&a[at..at + 500]).err(),
        Some(SlabError::NotRowAligned { len: 500 })
    );
    // An 8-offset sub-slice is NOT 64-aligned. It is a slab, because a lookup reads
    // bytes. What it cannot do is hand out its rows, and both halves are asserted so
    // neither can silently change.
    let unaligned = RowSlab::new(&a[at + 8..at + 8 + 512]).expect("construction does not gate");
    assert_eq!(unaligned.len(), 1, "the slab is usable");
    assert!(
        unaligned.rows().is_none(),
        "…but the rows are unavailable over an unaligned buffer"
    );
    // Morton arithmetic works anyway.
    let _ = unaligned.morton_at(0);

    let ok = RowSlab::new(&a[at..at + 512]).expect("aligned");
    assert!(ok.rows().is_some(), "an aligned buffer keeps its rows");
}

#[test]
fn an_address_decides_whether_rows_are_given() {
    let raw = slab_of(&[7, 9]);
    let s = RowSlab::new(&raw).unwrap();
    for address in [0usize, 64, 4096, 1 << 20] {
        assert_eq!(s.rows_at(address), Some(s.copied()));
    }
    for address in [1usize, 8, 32, 63, 65, 4104] {
        assert_eq!(s.rows_at(address), None);
    }
    assert_eq!(s.rows().is_some(), raw.as_ptr() as usize % 64 == 0);
    let mut again = Vec::new();
    for r in s.copied() {
        r.push_to(&mut again);
    }
    assert_eq!(again, raw);
}

#[test]
fn a_slab_tells_its_shape_and_never_its_bytes() {
    let raw = slab_of(&[1, 2, 3]);
    let s = RowSlab::new(&raw).unwrap();
    assert_eq!(s.shape(), "RowSlab { n_rows: 3, row_stride: 512 }");
    assert_eq!(
        RowSlab::new(&[]).unwrap().shape(),
        "RowSlab { n_rows: 0, row_stride: 512 }"
    );
}

#[test]
fn a_tile_is_a_contiguous_range_and_its_bounds_are_computed() {
    // Codes chosen so tile (1, 0, 0) — the TMS-flipped top-left quadrant —
    // owns a known middle run. The point is that the endpoints come from
    // arithmetic, and the rows between them are one slice.
    let (lo, hi) = morton_bounds(1, 0, 0);
    let inside = (lo as u64) + 5;
    let codes = [0u64, inside, inside + 1, u64::MAX];
    let mut sorted = codes;
    sorted.sort_unstable();
    let raw = slab_of(&sorted);
    let s = RowSlab::new(&raw).unwrap();
    let r = s.tile_range(1, 0, 0);
    for i in r.clone() {
        let m = u128::from(s.morton_at(i));
        assert!(m >= lo && m < hi, "row {i} escaped the computed bounds");
    }
    assert_eq!(r.len(), 2, "exactly the two rows inside the tile");
}

#[test]
fn the_whole_world_is_every_row_and_a_far_tile_is_none() {
    // Can-fire paired with can-stay-silent: z=0 must cover everything,
    // and a tile with no rows must return an EMPTY range rather than a
    // clamped or wrapped one.
    let raw = slab_of(&[1, 1 << 40, 1 << 60]);
    let s = RowSlab::new(&raw).unwrap();
    assert_eq!(s.tile_range(0, 0, 0).len(), 3);
    let (lo, hi) = morton_bounds(32, 0, 0);
    assert!(hi > lo, "a z=32 tile is a non-empty interval");
    assert!(s.tile_range(32, 12345, 12345).is_empty());
}

#[test]
fn deeper_tiles_nest_inside_their_parent() {
    // Prefix containment is the property the whole layout rests on: a
    // child's interval must sit inside its parent's.
    let (plo, phi) = morton_bounds(8, 137, 83);
    for (cx, cy) in [(274u32, 166u32), (275, 166), (274, 167), (275, 167)] {
        let (clo, chi) = morton_bounds(9, cx, cy);
        assert!(
            clo >= plo && chi <= phi,
            "child ({cx},{cy}) escaped its parent"
        );
    }
}
