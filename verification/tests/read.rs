use std::collections::HashMap;

use osm_soa_bake::read::{
    anchor_relation, build_junctions, is_restriction, AnchorVia, Member, PosMap, RawRelation,
};
use osm_soa_bake::tags::TagSpan;
use osm_soa_bake::tms::{mean_cell, TileXy};

fn cell(x: u32, y: u32) -> TileXy {
    TileXy { x, y_xyz: y }
}

#[test]
fn a_node_shared_by_two_ways_is_a_junction_the_others_are_not() {
    // A T: way 1 runs 10-11-12, way 2 runs 20-11-21. Node 11 is the
    // shared vertex; every other node belongs to exactly one way.
    let mut coords: PosMap = HashMap::new();
    for (id, xy) in [
        (10, cell(0, 0)),
        (11, cell(1, 0)),
        (12, cell(2, 0)),
        (20, cell(1, 1)),
        (21, cell(1, 2)),
    ] {
        coords.insert(id, xy);
    }
    let mut ways = vec![(1i64, vec![10, 11, 12]), (2i64, vec![20, 11, 21])];

    let junctions = build_junctions(&mut ways, &coords);

    assert_eq!(junctions.len(), 1, "exactly one shared node");
    let j = &junctions[0];
    assert_eq!(j.node_id, 11);
    assert_eq!(j.cell, cell(1, 0));
    // Deterministic order: ways sorted by id, so way 1 before way 2.
    assert_eq!(j.edge_ways, vec![1, 2]);
    // Node 11 sits at index 1 in way 1's list (`[10, 11, 12]`) and index
    // 1 in way 2's list (`[20, 11, 21]`) too — a coincidence of this
    // fixture, not a rule; the loop-back test below is what proves the
    // field discriminates when the indices genuinely differ.
    assert_eq!(j.edge_way_index, vec![1, 1]);

    // ...and it's genuinely discriminating: nodes 10/12/20/21, each
    // touched by exactly one way exactly once, must NOT appear at all.
    for solo in [10, 12, 20, 21] {
        assert!(
            !junctions.iter().any(|j| j.node_id == solo),
            "node {solo} is not shared and must not be a junction"
        );
    }
}

#[test]
fn a_way_that_loops_back_through_one_node_contributes_two_edge_occurrences() {
    // Way 1 visits node 5 twice (a lasso shape: 1-2-5-3-4-5-1-back-out via
    // a second way so 5 also qualifies via a real second reference — a
    // SOLE way revisiting its own node must still not, by itself, count
    // as "shared" under the >=2-DISTINCT-touch population definition; what's under test here is
    // that once a node DOES qualify (via way 2), every occurrence across
    // ALL ways — including a repeated one within a single way — becomes
    // its own edge slot, not deduplicated to one.
    let mut coords: PosMap = HashMap::new();
    for (id, xy) in [(1, cell(0, 0)), (2, cell(1, 0)), (5, cell(2, 0))] {
        coords.insert(id, xy);
    }
    let mut ways = vec![(1i64, vec![1, 5, 2, 5]), (2i64, vec![5, 1])];

    let junctions = build_junctions(&mut ways, &coords);
    let j = junctions
        .iter()
        .find(|j| j.node_id == 5)
        .expect("node 5 qualifies (way 2 also touches it)");
    // Way 1 visits node 5 at two positions -> two entries of way id 1;
    // way 2 visits it once -> one entry of way id 2. Three total, not
    // deduplicated to "which ways touch this node".
    assert_eq!(j.edge_ways, vec![1, 1, 2]);
    // The two way-1 occurrences must carry DIFFERENT indices (positions 1
    // and 3 in `[1, 5, 2, 5]`) — this is the field a bearing needs: two
    // identical indices here would make both occurrences resolve to the
    // same neighbor and report an identical heading, which is exactly the
    // silently-wrong outcome this field exists to prevent.
    assert_eq!(j.edge_way_index, vec![1, 3, 0]);

    // Node 1 is touched once by way 1 and once by way 2 -> a genuine
    // 2-way junction too, one entry each.
    let j1 = junctions
        .iter()
        .find(|j| j.node_id == 1)
        .expect("node 1 also qualifies");
    assert_eq!(j1.edge_ways, vec![1, 2]);
    assert_eq!(j1.edge_way_index, vec![0, 1]);

    // Node 2 is touched ONLY by way 1, at one position -> not a junction.
    assert!(!junctions.iter().any(|j| j.node_id == 2));
}

#[test]
fn a_junction_node_with_no_resolved_coordinate_is_dropped_not_fabricated() {
    // Pass 1 indexes every node it sees; a way that references a node id
    // pass 1 never saw (a real, if rare, extract inconsistency) must not
    // produce a junction row keyed at a made-up position.
    let mut coords: PosMap = HashMap::new();
    coords.insert(10, cell(0, 0)); // node 11 deliberately absent
    let mut ways = vec![(1i64, vec![10, 11]), (2i64, vec![10, 11])];
    let junctions = build_junctions(&mut ways, &coords);
    assert_eq!(junctions.len(), 1, "only the resolvable junction ships");
    assert_eq!(junctions[0].node_id, 10);
}

/// The slippy-tile cell of a longitude and latitude at zoom `z`.
fn lonlat_to_tile(lon: f64, lat: f64, z: u32) -> (u32, u32) {
    let n = (1u64 << z.min(32)) as f64;
    let x = ((lon + 180.0) / 360.0 * n).floor();
    let lat_rad = lat.clamp(-85.051_128_78, 85.051_128_78).to_radians();
    let merc_y = (lat_rad.tan() + 1.0 / lat_rad.cos()).ln();
    let y = ((1.0 - merc_y / std::f64::consts::PI) / 2.0 * n).floor();
    let max = n - 1.0;
    (x.clamp(0.0, max) as u32, y.clamp(0.0, max) as u32)
}

fn point_to_cell(lon: f64, lat: f64) -> TileXy {
    let (x, y_xyz) = lonlat_to_tile(lon, lat, 32);
    TileXy { x, y_xyz }
}

fn maps() -> (PosMap, PosMap) {
    // A junction at (13.40, 52.50) with two approach roads.
    //
    // The way centroids are deliberately ASYMMETRIC about the junction. A
    // first draft used (13.30, 52.40) and (13.50, 52.60), which are
    // symmetric — so the from/via/to centroid landed exactly on the via
    // node and the discriminating assertion in
    // `via_node_anchors_at_the_junction_not_the_member_centroid` could not
    // fail no matter what the code did. The `assert_ne!` caught it. Keep
    // these asymmetric or that test goes vacuous.
    let cell = |lon, lat| point_to_cell(lon, lat);
    let coords = HashMap::from([(1i64, cell(13.40, 52.50)), (2i64, cell(13.60, 52.70))]);
    let ways = HashMap::from([(10i64, cell(13.32, 52.44)), (20i64, cell(13.50, 52.60))]);
    (coords, ways)
}

fn m(is_node: bool, id: i64, via: bool) -> Member {
    Member { is_node, id, via }
}

/// A relation fixture. Anchoring never reads tags, so an empty span keeps
/// these fixtures about geometry — which is the only thing they test.
fn rel(restriction: bool, members: Vec<Member>) -> RawRelation {
    RawRelation {
        restriction,
        members,
        tags: TagSpan::default(),
    }
}

#[test]
fn via_node_anchors_at_the_junction_not_the_member_centroid() {
    // The load-bearing case: 93.4% of Berlin's restrictions take this path.
    let (c, w) = maps();
    let rel = rel(
        true,
        vec![m(false, 10, false), m(true, 1, true), m(false, 20, false)],
    );
    let (anchor, how) = anchor_relation(&rel, &c, &w);
    assert_eq!(how, AnchorVia::Node);
    assert_eq!(
        anchor,
        Some(point_to_cell(13.40, 52.50)),
        "must be the via node exactly"
    );
    // Two-sided: it must NOT be the centroid of from/via/to, which is where
    // a naive implementation would put it.
    let centroid = mean_cell(&[
        point_to_cell(13.32, 52.44),
        point_to_cell(13.40, 52.50),
        point_to_cell(13.50, 52.60),
    ]);
    assert_ne!(
        centroid,
        Some(point_to_cell(13.40, 52.50)),
        "fixture must not be symmetric about the via"
    );
    assert_ne!(anchor, centroid, "a centroid anchor would be wrong here");
}

#[test]
fn via_way_anchors_at_that_ways_centroid() {
    let (c, w) = maps();
    let rel = rel(true, vec![m(false, 10, false), m(false, 20, true)]);
    let (anchor, how) = anchor_relation(&rel, &c, &w);
    assert_eq!(how, AnchorVia::Way);
    assert_eq!(anchor, Some(point_to_cell(13.50, 52.60)));
}

#[test]
fn no_via_falls_back_to_a_genuine_member_centroid() {
    let (c, w) = maps();
    let rel = rel(false, vec![m(true, 1, false), m(true, 2, false)]);
    let (anchor, how) = anchor_relation(&rel, &c, &w);
    assert_eq!(how, AnchorVia::Absent);
    // A real average of two distinct members, not just the first one — and
    // the average is taken in CELL space, which is what makes the anchor a
    // grid point by construction.
    let want = mean_cell(&[point_to_cell(13.40, 52.50), point_to_cell(13.60, 52.70)]);
    assert_eq!(anchor, want);
    assert_ne!(
        anchor,
        Some(point_to_cell(13.40, 52.50)),
        "must not collapse to member 0"
    );
    // Worth pinning explicitly: the cell-space mean is NOT the cell of the
    // lon/lat midpoint. Mercator's y is non-linear in latitude, so the mean
    // of projections is not the projection of the mean. Over this fixture's
    // deliberately wide 0.2° span the two differ; over a real feature's
    // extent they converge (Mercator is conformal, so cells are locally
    // isotropic). `tier_probe` measures the real distribution.
    assert_ne!(
        anchor,
        Some(point_to_cell(13.50, 52.60)),
        "cell-space mean differs from the coordinate midpoint at this span"
    );
}

#[test]
fn an_unresolvable_via_falls_back_rather_than_failing() {
    // A via clipped out of the extract must not sink the whole relation.
    let (c, w) = maps();
    let rel = rel(
        true,
        vec![m(true, 999, true), m(true, 1, false), m(true, 2, false)],
    );
    let (anchor, how) = anchor_relation(&rel, &c, &w);
    assert_eq!(
        how,
        AnchorVia::Absent,
        "an absent via is reported as absent"
    );
    assert_eq!(
        anchor,
        mean_cell(&[point_to_cell(13.40, 52.50), point_to_cell(13.60, 52.70)]),
        "still anchored, via the cell-space centroid"
    );
}

#[test]
fn a_super_relation_is_unanchorable_and_that_is_discriminating() {
    let (c, w) = maps();
    // route_master and friends: every member is another relation, filtered
    // out before this point, so the member list is empty. 689 of Berlin's
    // 18,128 tagged relations are this shape.
    let empty = rel(false, vec![]);
    assert_eq!(anchor_relation(&empty, &c, &w).0, None);
    // ...and members that exist but resolve to nothing.
    let ghosts = rel(false, vec![m(true, 777, false), m(false, 888, false)]);
    assert_eq!(anchor_relation(&ghosts, &c, &w).0, None);
    // Can-stay-silent paired with can-fire: an ordinary relation DOES
    // anchor, so `None` means something.
    let ok = rel(false, vec![m(true, 1, false)]);
    assert!(anchor_relation(&ok, &c, &w).0.is_some());
}

#[test]
fn only_the_first_via_is_consulted_and_ordering_does_not_matter() {
    // The via is found by role, not by position, so a relation whose via is
    // last resolves identically to one whose via is first. This is what
    // makes collecting members and resolving afterwards safe regardless of
    // element order in the file.
    let (c, w) = maps();
    let first = rel(true, vec![m(true, 1, true), m(false, 10, false)]);
    let last = rel(true, vec![m(false, 10, false), m(true, 1, true)]);
    assert_eq!(
        anchor_relation(&first, &c, &w),
        anchor_relation(&last, &c, &w)
    );
    assert_eq!(anchor_relation(&last, &c, &w).1, AnchorVia::Node);
}

#[test]
fn restriction_type_detection_discriminates() {
    assert!(is_restriction(Some("restriction")));
    assert!(is_restriction(Some("restriction:hgv")));
    // ...and does not fire on everything, which is the half that matters:
    // multipolygon is the single most common relation type in the extract.
    assert!(!is_restriction(Some("multipolygon")));
    assert!(!is_restriction(Some("route_master")));
    assert!(!is_restriction(None));
}
