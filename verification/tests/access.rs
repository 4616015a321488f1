use osm_soa_bake::access::{
    access_from_tags, bicycle_contraflow_from_tags, oneway_from_tags, pack_access, unpack_access,
    way_access_byte, RestrictionMask, ACCESS_ALL, ACCESS_BIKE, ACCESS_CAR, ACCESS_FOOT,
    ONEWAY_BACKWARD, ONEWAY_FORWARD, ONEWAY_NONE,
};

#[test]
fn untagged_way_is_fully_open() {
    assert_eq!(access_from_tags(&[("highway", "residential")]), ACCESS_ALL);
}

#[test]
fn blanket_deny_then_specific_reopen_matches_osm_specificity_convention() {
    // access=private;bicycle=yes means "closed except to bikes" — the
    // MORE SPECIFIC tag wins over the blanket one, tag order in the way
    // notwithstanding (OSM tags are unordered key=value pairs).
    let mask = access_from_tags(&[("access", "private"), ("bicycle", "yes")]);
    assert_eq!(
        mask, ACCESS_BIKE,
        "bicycle=yes must re-open after access=private"
    );
}

#[test]
fn blanket_deny_alone_closes_everything() {
    assert_eq!(access_from_tags(&[("access", "no")]), 0);
}

#[test]
fn bicycle_no_closes_only_bicycle() {
    let mask = access_from_tags(&[("bicycle", "no")]);
    assert_eq!(mask, ACCESS_CAR | ACCESS_FOOT);
}

#[test]
fn oneway_reads_the_three_real_encodings() {
    assert_eq!(oneway_from_tags(&[("oneway", "yes")]), ONEWAY_FORWARD);
    assert_eq!(oneway_from_tags(&[("oneway", "1")]), ONEWAY_FORWARD);
    assert_eq!(oneway_from_tags(&[("oneway", "-1")]), ONEWAY_BACKWARD);
    assert_eq!(oneway_from_tags(&[("oneway", "no")]), ONEWAY_NONE);
    assert_eq!(oneway_from_tags(&[]), ONEWAY_NONE);
}

#[test]
fn contraflow_needs_the_exact_tag_not_a_guess() {
    assert!(bicycle_contraflow_from_tags(&[("oneway:bicycle", "no")]));
    assert!(!bicycle_contraflow_from_tags(&[("oneway:bicycle", "yes")]));
    assert!(!bicycle_contraflow_from_tags(&[("oneway", "yes")]));
}

#[test]
fn pack_unpack_round_trips_every_combination() {
    for access in 0..8u8 {
        for oneway in 0..4u8 {
            for contraflow in [false, true] {
                let b = pack_access(access, oneway, contraflow);
                assert_eq!(unpack_access(b), (access, oneway & 0b11, contraflow));
            }
        }
    }
}

#[test]
fn restriction_mask_forbids_exactly_the_pair_set_not_its_neighbours() {
    let m = RestrictionMask::empty().with_forbidden(2, 5);
    assert!(m.is_forbidden(2, 5));
    // Two-sided: a mask that forbids everything would pass the line
    // above for the wrong reason. These must all read as ALLOWED.
    assert!(!m.is_forbidden(5, 2), "reverse direction must not alias");
    assert!(!m.is_forbidden(2, 2), "self-loop must not alias");
    assert!(!m.is_forbidden(2, 6), "adjacent slot must not alias");
    assert!(!m.is_forbidden(3, 5), "adjacent from-slot must not alias");
}

#[test]
fn restriction_mask_out_of_range_slots_are_inert_not_a_panic() {
    let m = RestrictionMask::empty().with_forbidden(9, 3);
    assert_eq!(
        m,
        RestrictionMask::empty(),
        "an invalid write must not corrupt the mask"
    );
    assert!(!m.is_forbidden(9, 3));
}

#[test]
fn restriction_mask_byte_round_trips() {
    let m = RestrictionMask::empty()
        .with_forbidden(0, 7)
        .with_forbidden(3, 1)
        .with_forbidden(7, 7);
    assert_eq!(RestrictionMask::from_bytes(m.to_bytes()), m);
}

#[test]
fn restriction_mask_can_hold_every_pair_at_once_the_real_worst_case() {
    // A degree-8 junction could in principle forbid every transition. 64 bits must hold all 64 without collision.
    let mut m = RestrictionMask::empty();
    for from in 0..8u8 {
        for to in 0..8u8 {
            m = m.with_forbidden(from, to);
        }
    }
    assert_eq!(m.0, u64::MAX);
    for from in 0..8u8 {
        for to in 0..8u8 {
            assert!(m.is_forbidden(from, to));
        }
    }
}

/// The producer's one call must carry all three readings — a composition
/// that silently dropped one would still return a plausible byte.
///
/// Each case therefore differs from the permissive default in a DIFFERENT
/// field, so dropping any single `*_from_tags` call fails at least one.
#[test]
fn the_way_access_byte_carries_all_three_readings() {
    // Untagged: permissive, and NOT zero — absence means "not restricted"
    // in OSM, so a zero byte here would forbid everything by accident.
    let (a, o, c) = unpack_access(way_access_byte(&[("highway", "residential")]));
    assert_eq!(a, ACCESS_ALL, "an untagged way must not be closed");
    assert_eq!(o, ONEWAY_NONE);
    assert!(!c);

    // Oneway only — access and contraflow must stay at their defaults.
    let (a, o, c) = unpack_access(way_access_byte(&[
        ("highway", "residential"),
        ("oneway", "yes"),
    ]));
    assert_eq!(a, ACCESS_ALL);
    assert_eq!(o, ONEWAY_FORWARD, "the oneway reading was dropped");
    assert!(!c);

    // Access only — the OSM specificity convention: closed EXCEPT bikes.
    let (a, o, c) = unpack_access(way_access_byte(&[("access", "private"), ("bicycle", "yes")]));
    assert_eq!(a, ACCESS_BIKE, "the access reading was dropped");
    assert_eq!(o, ONEWAY_NONE);
    assert!(!c);

    // Contraflow only — the field a router needs to avoid sending a
    // cyclist the long way round a street they may legally use.
    let (a, o, c) = unpack_access(way_access_byte(&[
        ("highway", "residential"),
        ("oneway", "yes"),
        ("oneway:bicycle", "no"),
    ]));
    assert_eq!(a, ACCESS_ALL);
    assert_eq!(o, ONEWAY_FORWARD);
    assert!(c, "the contraflow reading was dropped");

    // All three at once, each non-default, so the packing cannot be
    // satisfied by any two of them.
    let byte = way_access_byte(&[
        ("access", "private"),
        ("bicycle", "yes"),
        ("oneway", "-1"),
        ("oneway:bicycle", "no"),
    ]);
    assert_eq!(unpack_access(byte), (ACCESS_BIKE, ONEWAY_BACKWARD, true));
}
