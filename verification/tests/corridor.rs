use std::collections::HashMap;

use osm_soa_bake::corridor::{build_corridors, Way};

fn refs_of(ways: &[Way]) -> HashMap<i64, u32> {
    let mut m = HashMap::new();
    for w in ways {
        for &n in &w.nodes {
            *m.entry(n).or_insert(0) += 1;
        }
    }
    m
}

fn way(nodes: &[i64], class: &'static str) -> Way {
    Way {
        nodes: nodes.to_vec(),
        class,
    }
}

#[test]
fn two_ways_meeting_at_a_free_end_become_one_corridor() {
    // The whole point: an OSM split that is not a junction is merged away.
    let ways = vec![way(&[1, 2, 3], "classified"), way(&[3, 4, 5], "classified")];
    let r = refs_of(&ways);
    let (cor, declined) = build_corridors(&ways, &r);
    assert_eq!(cor.len(), 1, "one corridor");
    assert_eq!(
        cor[0].1,
        vec![1, 2, 3, 4, 5],
        "joined, shared node not repeated"
    );
    assert_eq!(declined, 0);
}

#[test]
fn a_third_way_at_the_node_makes_it_a_real_junction() {
    // The half that keeps this from being a name-assembly in disguise: a
    // T-junction must NOT be merged, or the corridor invents a through-road
    // where a driver actually has a choice. Without this the probe would
    // report long corridors by swallowing junctions.
    let ways = vec![
        way(&[1, 2, 3], "classified"),
        way(&[3, 4, 5], "classified"),
        way(&[3, 6, 7], "classified"),
    ];
    let r = refs_of(&ways);
    let (cor, _) = build_corridors(&ways, &r);
    assert_eq!(cor.len(), 3, "three ways, three corridors — nothing merged");
}

#[test]
fn an_end_landing_in_the_interior_of_another_way_is_not_a_merge_point() {
    // `end_count == 2` alone is not enough: node 3 is the END of two ways
    // AND an interior node of a third. Merging there would drive straight
    // past a real turn-off. This is why the routable refcount is checked
    // separately from the end count.
    let ways = vec![
        way(&[1, 2, 3], "classified"),
        way(&[3, 4, 5], "classified"),
        way(&[8, 3, 9], "classified"),
    ];
    let r = refs_of(&ways);
    assert_eq!(r[&3], 3, "node 3 is referenced three times");
    let (cor, _) = build_corridors(&ways, &r);
    assert_eq!(cor.len(), 3, "the interior reference blocks the merge");
}

#[test]
fn a_reversed_way_is_flipped_rather_than_dropped() {
    // OSM way direction is arbitrary. If the second way runs the other way
    // round, the corridor must reverse it — a version that only handled
    // head-to-tail would silently emit two corridors and understate the gain.
    let ways = vec![way(&[1, 2, 3], "foot"), way(&[5, 4, 3], "foot")];
    let r = refs_of(&ways);
    let (cor, _) = build_corridors(&ways, &r);
    assert_eq!(cor.len(), 1);
    assert_eq!(cor[0].1, vec![1, 2, 3, 4, 5]);
}

#[test]
fn a_class_change_declines_the_merge_and_the_decline_is_counted() {
    // The constraint is a choice, so its cost is measured rather than
    // assumed harmless — and the counter must actually move, or the report
    // would claim a free constraint.
    let ways = vec![
        way(&[1, 2, 3], "classified"),
        way(&[3, 4, 5], "residential"),
    ];
    let r = refs_of(&ways);
    let (cor, declined) = build_corridors(&ways, &r);
    assert_eq!(cor.len(), 2, "different classes stay apart");
    assert_eq!(declined, 1, "and the decline is counted");
}

#[test]
fn a_closed_ring_is_emitted_once_and_not_merged_with_itself() {
    // A roundabout is one way whose two ends are the same node. Both ends
    // land in the same bucket, which a naive merge would read as a merge
    // point and splice the way onto itself.
    let ways = vec![way(&[1, 2, 3, 4, 1], "classified")];
    let r = refs_of(&ways);
    let (cor, _) = build_corridors(&ways, &r);
    assert_eq!(cor.len(), 1);
    assert_eq!(cor[0].1, vec![1, 2, 3, 4, 1]);
}
