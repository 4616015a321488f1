use osm_soa_bake::housenumber::{classify_number, side_verdict, to_decimal, Door, NumKind, Side};

/// Doors in the order they were read, from positions in metres and numbers.
fn doors(at: &[(f64, f64)]) -> Vec<Door> {
    let mut out = Vec::new();
    for (read, p) in at.iter().enumerate() {
        let along = (p.0 * 1000.0) as i64;
        let number = (p.1 * 100_000.0) as u64;
        out.push(Door { along, read, number });
    }
    out
}

#[test]
fn a_range_is_not_a_position_and_a_suffix_is_not_a_range() {
    // Anything that sorts or interpolates has to
    // prove it first. Collapsing Range into Plain would let a consumer
    // interpolate "12-14" as the number 12 and place two houses on one.
    assert_eq!(classify_number("12"), NumKind::Plain);
    assert_eq!(classify_number("12a"), NumKind::Suffixed);
    assert_eq!(classify_number("12 B"), NumKind::Suffixed);
    assert_eq!(classify_number("12-14"), NumKind::Range);
    assert_eq!(classify_number("12/14"), NumKind::Range);
    assert_eq!(classify_number("12,14"), NumKind::Range);
    // A separator wins over a suffix: "12a-14b" is a range, not a suffix.
    assert_eq!(classify_number("12a-14b"), NumKind::Range);
    assert_eq!(classify_number(""), NumKind::Other);
    assert_eq!(classify_number("1½"), NumKind::Other);
}

#[test]
fn a_sparse_other_side_is_a_one_sided_template_not_a_failure() {
    // The industrial-complex case, and the defect it exposed. A street with
    // one numbered side and a factory, park or railway opposite has an
    // ORDERED side and a near-empty one. The distinction is made at the level the classifier uses: an
    // empty or one-address side is TooFew, a scrambled one is Irregular, and
    // those must not be the same value.
    let ordered = doors(&[(0.0, 1.0), (1.0, 3.0), (2.0, 5.0), (3.0, 7.0)]);
    assert_eq!(side_verdict(ordered.clone()), Side::Up);

    // The factory side: nothing, or a single address for the whole complex.
    assert_eq!(side_verdict(doors(&[])), Side::TooFew);
    assert_eq!(side_verdict(doors(&[(1.5, 40.0)])), Side::TooFew);
    assert_eq!(side_verdict(doors(&[(1.0, 40.0), (2.0, 42.0)])), Side::TooFew);

    // …and a genuinely scrambled other side is a DIFFERENT verdict, or the
    // split the report now makes would be a distinction without a
    // difference.
    let scrambled = doors(&[(0.0, 5.0), (1.0, 1.0), (2.0, 9.0), (3.0, 3.0)]);
    assert_ne!(side_verdict(scrambled.clone()), Side::TooFew);
    assert_eq!(side_verdict(scrambled), Side::Irregular);
}

#[test]
fn the_decimal_preserves_the_order_a_human_reads_off_the_doors() {
    // The only property the encoding exists for. If 12a did not sort between
    // 12 and 13, the whole scheme would be a renaming rather than an
    // ordering, and every template verdict built on it would be noise.
    let v = |s: &str| to_decimal(s).unwrap();
    assert!(v("12") < v("12a"));
    assert!(v("12a") < v("12b"));
    assert!(v("12b") < v("13"));
    assert!(v("9") < v("10"), "and it is numeric, not lexical");
    assert_eq!(v("12"), 1_200_000);
    // Case must not change the position.
    assert_eq!(v("12A"), v("12a"));
}

#[test]
fn a_range_gets_no_position_rather_than_a_fabricated_one() {
    // Taking the lower bound of "12-14" would put two houses on one point —
    // the exact defect the encoding is meant to remove. Better to refuse.
    assert!(to_decimal("12-14").is_none());
    assert!(to_decimal("12/14").is_none());
    assert!(to_decimal("12,14").is_none());
    assert!(to_decimal("").is_none());
    assert!(to_decimal("no-number").is_none());
    // …while the ordinary cases still work, or the refusal would be a
    // blanket one and the coverage figure meaningless.
    assert!(to_decimal("7").is_some());
    assert!(to_decimal("7c").is_some());
}

#[test]
fn a_side_is_monotone_up_down_or_neither_and_two_points_are_never_evidence() {
    // Two points are monotone in BOTH directions, so a template fitted to
    // them is a tautology — MIN_SIDE exists for that, and it must show.
    assert_eq!(side_verdict(doors(&[(0.0, 1.0), (1.0, 3.0)])), Side::TooFew);
    assert_eq!(
        side_verdict(doors(&[(0.0, 1.0), (1.0, 3.0), (2.0, 5.0)])),
        Side::Up
    );
    assert_eq!(
        side_verdict(doors(&[(0.0, 5.0), (1.0, 3.0), (2.0, 1.0)])),
        Side::Down
    );
    // Genuinely scrambled: neither direction reaches the tolerance.
    assert_eq!(
        side_verdict(doors(&[(0.0, 5.0), (1.0, 1.0), (2.0, 9.0), (3.0, 3.0)])),
        Side::Irregular
    );
}

#[test]
fn the_verdict_sorts_by_position_rather_than_trusting_input_order() {
    // Addresses arrive in file order, not along the street. A version that
    // skipped the sort would read a perfectly ordered street as irregular
    // and under-state the template everywhere.
    let scrambled = doors(&[(2.0, 5.0), (0.0, 1.0), (1.0, 3.0)]);
    assert_eq!(side_verdict(scrambled), Side::Up);
}

#[test]
fn one_outlier_does_not_condemn_an_otherwise_clean_street() {
    // MONOTONE_TOL made visible: a single infill house numbered out of
    // sequence is normal, and a strict rule would classify most real
    // streets as irregular.
    //
    // The arithmetic matters: N points give N-1 WINDOWS,
    // so ten points with one inversion is 8/9 = 88.9 %, BELOW the bar.
    // Eleven points give ten windows, so one inversion is exactly the 90 %
    // the constant allows.
    let mut v: Vec<(f64, f64)> = (0..11)
        .map(|i| (f64::from(i), f64::from(i) * 2.0))
        .collect();
    v[10] = (10.0, 1.0);
    assert_eq!(side_verdict(doors(&v)), Side::Up);
    // …but two inversions in the same eleven is 8/10 = 80 % and must fail,
    // or the allowance would be unbounded.
    let mut w: Vec<(f64, f64)> = (0..11)
        .map(|i| (f64::from(i), f64::from(i) * 2.0))
        .collect();
    w[5] = (5.0, 0.0);
    w[10] = (10.0, 1.0);
    assert_eq!(side_verdict(doors(&w)), Side::Irregular);
}
