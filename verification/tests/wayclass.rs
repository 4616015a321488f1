use osm_soa_bake::wayclass::{present_any, says_separate, SIDEWALK_KEYS};

#[test]
fn absence_values_are_not_infrastructure_but_separate_is_a_cross_reference() {
    // Column (ii)'s tag rule, and the trap inside it. `sidewalk=no` means
    // there is none. `sidewalk=separate` means there IS one and it is
    // mapped as its own way — so it must NOT be counted as the attribute
    // form (that would double-count against the geometry form), and it must
    // still be visible as the cross-reference that links the two mappings.
    let none: Vec<(&str, &str)> = vec![("highway", "residential"), ("sidewalk", "no")];
    let sep: Vec<(&str, &str)> = vec![("highway", "residential"), ("sidewalk", "separate")];
    let real: Vec<(&str, &str)> = vec![("highway", "residential"), ("sidewalk:left", "yes")];

    assert!(!present_any(&none, &SIDEWALK_KEYS), "no is an absence");
    assert!(
        !present_any(&sep, &SIDEWALK_KEYS),
        "separate is geometry elsewhere, not an attribute sidewalk"
    );
    assert!(present_any(&real, &SIDEWALK_KEYS), "a side key counts");

    assert!(says_separate(&sep, &SIDEWALK_KEYS), "the cross-reference");
    assert!(!says_separate(&none, &SIDEWALK_KEYS));
    assert!(!says_separate(&real, &SIDEWALK_KEYS));
}

