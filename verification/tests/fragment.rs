use osm_soa_bake::fragment::{
    fragment_path, BoundaryIndex, RowAddr, FRAGMENT_BYTES, FRAGMENT_ROWS, MAX_FRAGMENTS,
};

#[test]
fn the_namespace_is_exactly_two_to_the_thirty_two_rows() {
    assert_eq!(FRAGMENT_ROWS, 65_536);
    assert_eq!(FRAGMENT_BYTES, 33_554_432);
    assert_eq!(MAX_FRAGMENTS as u64 * FRAGMENT_ROWS as u64, 4_294_967_296);
    // 2^32 rows x 512 B = 2 TiB.
    assert_eq!(
        MAX_FRAGMENTS as u64 * FRAGMENT_BYTES as u64,
        2 * 1024 * 1024 * 1024 * 1024
    );
}

#[test]
fn a_row_address_is_a_u32_and_round_trips() {
    for i in [
        0usize,
        1,
        65_535,
        65_536,
        65_537,
        2_526_607,
        u32::MAX as usize,
    ] {
        let a = RowAddr::of_row(i).expect("inside the namespace");
        assert_eq!(a.to_u32() as usize, i);
        assert_eq!(RowAddr::from_u32(a.to_u32()), a);
    }
    // The boundary is real: row 2^32 has no address.
    assert!(RowAddr::of_row(1usize << 32).is_none());
    // ...paired with the last one that does, so the guard discriminates.
    assert!(RowAddr::of_row((1usize << 32) - 1).is_some());
}

#[test]
fn row_65536_is_fragment_1_row_0_not_fragment_0() {
    // The off-by-one that would silently overfill fragment 0.
    assert_eq!(
        RowAddr::of_row(65_536).unwrap(),
        RowAddr {
            fragment: 1,
            row: 0
        }
    );
    assert_eq!(
        RowAddr::of_row(65_535).unwrap(),
        RowAddr {
            fragment: 0,
            row: 65_535
        }
    );
}

#[test]
fn paths_are_computed_and_two_level() {
    assert_eq!(fragment_path(0), "00/0000.soa");
    assert_eq!(fragment_path(0x1234), "12/1234.soa");
    assert_eq!(fragment_path(u16::MAX), "ff/ffff.soa");
    // No directory exceeds 256 entries.
    let dirs: std::collections::BTreeSet<String> = (0u32..=u16::MAX as u32)
        .map(|i| fragment_path(i as u16)[..2].to_string())
        .collect();
    assert_eq!(dirs.len(), 256);
}

#[test]
fn locate_finds_the_last_fragment_at_or_before_the_code() {
    let idx = BoundaryIndex::new(vec![10, 20, 30]).unwrap();
    assert_eq!(idx.locate(9), None, "before the corpus");
    assert_eq!(idx.locate(10), Some(0));
    assert_eq!(idx.locate(19), Some(0));
    assert_eq!(idx.locate(20), Some(1));
    assert_eq!(idx.locate(999), Some(2), "past the end narrows to the last");
}

#[test]
fn an_unsorted_index_is_refused_rather_than_silently_wrong() {
    // locate() is a binary search; an unsorted body would not error, it
    // would answer wrongly. Refuse at construction instead.
    assert!(BoundaryIndex::new(vec![10, 5, 30]).is_none());
    // ...and the guard discriminates: equal neighbours are legal (a
    // fragment can begin on the same code the previous one ended within).
    assert!(BoundaryIndex::new(vec![10, 10, 30]).is_some());
}

#[test]
fn a_straddling_range_names_every_fragment_it_touches() {
    let idx = BoundaryIndex::new(vec![0, 100, 200, 300]).unwrap();
    // Wholly inside one fragment.
    assert_eq!(idx.locate_range(110, 120), 1..2);
    // Straddling a boundary — the case fixed-row fragments introduce.
    assert_eq!(idx.locate_range(150, 250), 1..3);
    // Spanning everything.
    assert_eq!(idx.locate_range(0, u64::MAX), 0..4);
    // Empty interval touches nothing.
    assert_eq!(idx.locate_range(150, 150), 0..0);
}

#[test]
fn the_index_wire_round_trips_and_rejects_garbage() {
    let idx = BoundaryIndex::new(vec![1, 2, 3, 1 << 63]).unwrap();
    let b = idx.to_le_bytes();
    assert_eq!(BoundaryIndex::from_le_bytes(&b).unwrap(), idx);
    assert_eq!(b.len(), 8 + 4 * 8);
    // Bad magic, truncated body, and a non-monotone body are all refused.
    let mut bad = b.clone();
    bad[0] = b'X';
    assert!(BoundaryIndex::from_le_bytes(&bad).is_none());
    assert!(BoundaryIndex::from_le_bytes(&b[..b.len() - 1]).is_none());
    let mut unsorted = b.clone();
    for i in 0..8 {
        unsorted.swap(8 + i, 8 + 3 * 8 + i);
    }
    assert!(BoundaryIndex::from_le_bytes(&unsorted).is_none());
}
