use std::collections::{HashMap, HashSet};

use osm_soa_bake::junction::{
    facet_total, facets_for, FACET_B, I4_MAX, I4_MIN, SIGNED360_B,
};

#[test]
fn one_facet_carries_two_headings_and_a_fork_needs_more() {
    // The arity claim, two-sided: degree 2 fits one facet, degree 3 does
    // not. If `facets_for` ever returned 1 for everything this fails.
    assert_eq!(facets_for(1), 1);
    assert_eq!(facets_for(2), 1);
    assert_eq!(facets_for(3), 2, "a three-way fork does NOT fit one facet");
    assert_eq!(facets_for(4), 2);
    assert_eq!(facets_for(5), 3);
}

#[test]
fn the_i4_window_is_asymmetric_and_the_bounds_are_the_real_ones() {
    // -8..+7, not -7..+7 and not -8..+8. A symmetric guess would pass a
    // sloppy test and mis-size the escape share by two codepoints.
    assert!((I4_MIN..=I4_MAX).contains(&-8));
    assert!((I4_MIN..=I4_MAX).contains(&7));
    assert!(!(I4_MIN..=I4_MAX).contains(&8));
    assert!(!(I4_MIN..=I4_MAX).contains(&-9));
    assert_eq!(I4_MAX - I4_MIN + 1, 16, "a nibble holds 16 values");
}

#[test]
fn two_signed360_fill_the_v3_payload_exactly() {
    // The whole proposal rests on this: 2 x 6 B = 12 B = the content-blind
    // register. One byte either way and the scheme needs a second facet or
    // wastes the tail.
    assert_eq!(2 * SIGNED360_B, FACET_B - 4, "classid takes the first 4 B");
    assert_eq!(2 * SIGNED360_B, 12);
}

#[test]
fn facet_total_counts_per_junction_not_per_node() {
    let mut deg = HashMap::new();
    deg.insert(1i64, 2u32);
    deg.insert(2i64, 3u32);
    deg.insert(3i64, 8u32);
    let js: HashSet<i64> = [1, 2, 3].into_iter().collect();
    // 1 + 2 + 4 = 7. A version summing degrees would say 13; a version
    // counting junctions would say 3.
    assert_eq!(facet_total(&js, &deg), 7);
}

#[test]
fn a_junction_with_no_recorded_degree_still_costs_one_facet() {
    // Defensive: a junction absent from the degree map must not make the
    // total silently smaller than the junction count.
    let deg = HashMap::new();
    let js: HashSet<i64> = [1i64, 2, 3].into_iter().collect();
    assert_eq!(facet_total(&js, &deg), 3);
}
