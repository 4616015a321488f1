use std::collections::HashSet;

use osm_soa_bake::network::{cross_properly, Dsu};
use osm_soa_bake::read::NON_ROUTABLE;

#[test]
fn same_named_ways_split_into_components_only_when_disconnected() {
    // A name is not a road. Two ways sharing a node are ONE road; two
    // sharing nothing are TWO, and an address between them cannot tell which
    // it belongs to from the name alone.
    let mut d = Dsu::new(2);
    assert_ne!(d.find(0), d.find(1), "no shared node, two roads");
    d.union(0, 1);
    assert_eq!(d.find(0), d.find(1), "shared node, one road");
}

#[test]
fn union_find_splits_a_disconnected_name_group() {
    // Two-sided: two ways sharing a node are ONE
    // corridor, two ways sharing nothing are TWO — and a union-find that
    // merged everything would report every group connected and hide the
    // whole finding.
    let mut d = Dsu::new(3);
    d.union(0, 1);
    let comps: HashSet<usize> = (0..3).map(|i| d.find(i)).collect();
    assert_eq!(comps.len(), 2, "0-1 joined, 2 alone");

    let mut e = Dsu::new(3);
    assert_eq!(
        (0..3).map(|i| e.find(i)).collect::<HashSet<_>>().len(),
        3,
        "nothing joined without a union"
    );
}

#[test]
fn non_routable_markers_exclude_only_what_carries_no_traffic() {
    // The split has to be right: too wide and
    // real roads vanish from the graph, too narrow and platforms become
    // junctions.
    assert!(NON_ROUTABLE.contains(&"construction"));
    assert!(NON_ROUTABLE.contains(&"platform"));
    assert!(!NON_ROUTABLE.contains(&"footway"), "pedestrians route");
    assert!(!NON_ROUTABLE.contains(&"service"), "driveways route");
    assert!(!NON_ROUTABLE.contains(&"residential"));
}


/// On which side of `a`-`b` a point lies.
fn orient(a: (f64, f64), b: (f64, f64), c: (f64, f64)) -> i8 {
    let v = (b.0 - a.0) * (c.1 - a.1) - (b.1 - a.1) * (c.0 - a.0);
    if v > 1e-9 {
        1
    } else if v < -1e-9 {
        -1
    } else {
        0
    }
}

fn segments_cross(p1: (f64, f64), p2: (f64, f64), p3: (f64, f64), p4: (f64, f64)) -> bool {
    cross_properly(
        orient(p3, p4, p1),
        orient(p3, p4, p2),
        orient(p1, p2, p3),
        orient(p1, p2, p4),
    )
}

#[test]
fn a_proper_crossing_counts_and_a_shared_endpoint_does_not() {
    // Two segments meeting AT a point is how a junction is written; two segments
    // whose interiors cross is a bridge.
    let cross = segments_cross((0.0, 0.0), (10.0, 10.0), (0.0, 10.0), (10.0, 0.0));
    assert!(cross, "interiors intersect");

    let touching = segments_cross((0.0, 0.0), (10.0, 0.0), (10.0, 0.0), (20.0, 0.0));
    assert!(!touching, "a shared endpoint is a junction, not a crossing");

    let apart = segments_cross((0.0, 0.0), (10.0, 0.0), (0.0, 5.0), (10.0, 5.0));
    assert!(!apart, "parallel segments do not cross");

    let t_junction = segments_cross((0.0, 0.0), (10.0, 0.0), (5.0, 0.0), (5.0, 10.0));
    assert!(
        !t_junction,
        "a T touching the line is not a proper crossing"
    );
}
