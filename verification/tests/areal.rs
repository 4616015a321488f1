use osm_soa_bake::areal::{
    classify, foot_access, Foot, C_BUILDING, C_GREEN, C_LINEAR_WATER, C_WATER, C_WOOD,
};

#[test]
fn foot_access_reads_the_specific_key_first_and_silence_is_not_denial() {
    // The whole point of column 6: absence is its own category. Folding
    // Silent into Denied would make "silent+walked" — the finding — vanish.
    assert_eq!(foot_access(&[("landuse", "meadow")]), Foot::Silent);
    assert_eq!(foot_access(&[("foot", "yes")]), Foot::Allowed);
    assert_eq!(foot_access(&[("foot", "no")]), Foot::Denied);
    assert_eq!(foot_access(&[("access", "private")]), Foot::Denied);
    // `foot` is the specific key and must win: a wood closed to cars but
    // open to walkers is Allowed, and reading `access` first would call it
    // Denied and hide a legitimately walkable area.
    assert_eq!(
        foot_access(&[("access", "private"), ("foot", "yes")]),
        Foot::Allowed
    );
    // An unrecognised value is silence, not a guess.
    assert_eq!(foot_access(&[("foot", "unknown_value")]), Foot::Silent);
}

#[test]
fn classify_puts_wald_wiesen_and_wasser_where_they_belong() {
    // The tag rule, including the trap: `waterway=river` is a LINE and
    // `waterway=riverbank` is an AREA, so they must not share a class —
    // column 4 prices them differently on purpose.
    let c = |t: &[(&str, &str)]| classify(t).map(|(b, _)| b);
    assert_eq!(c(&[("natural", "water")]), Some(C_WATER));
    assert_eq!(c(&[("waterway", "riverbank")]), Some(C_WATER));
    assert_eq!(c(&[("waterway", "river")]), Some(C_LINEAR_WATER));
    assert_eq!(c(&[("natural", "wood")]), Some(C_WOOD));
    assert_eq!(c(&[("landuse", "forest")]), Some(C_WOOD));
    assert_eq!(c(&[("landuse", "meadow")]), Some(C_GREEN));
    assert_eq!(c(&[("leisure", "park")]), Some(C_GREEN));
    // A building wins over any area tag it also carries; double-counting it here would corrupt the comparison.
    assert_eq!(
        c(&[("building", "yes"), ("landuse", "forest")]),
        Some(C_BUILDING)
    );
    assert_eq!(c(&[("highway", "residential")]), None);
}

