use osm_soa_bake::bake::{
    bake, bake_features, build_rows, key_features, slots_filled, write_rows,
};
use osm_soa_bake::parity::{check_bake, compare, read_row, recover};
use osm_soa_bake::read::{
    read_features, read_features_with_chains, Anchor, Element, Feature, MemberKind, RawMember,
    OSM_NODE, OSM_RELATION, OSM_WAY,
};
use osm_soa_bake::slab::RowSlab;
use osm_soa_bake::tags::{ResolvedTags, TagSpan, TagStore};
use osm_soa_bake::tms::{cell_to_morton, TileXy};
use osm_soa_bake::vocab::OSM_ELEMENT_TAG;

fn cell(x: u32, y_xyz: u32) -> TileXy {
    TileXy { x, y_xyz }
}

/// A node with two tags, a node at the same place without any, a way with more
/// tags than a row carries, and a relation.
fn extract() -> (Vec<Feature>, ResolvedTags) {
    let mut store = TagStore::default();
    let amenity = store.push(&[("amenity", "cafe"), ("name", "Eck")]);
    let none = store.push(&[]);
    let many: Vec<(String, String)> = (0..61)
        .map(|i| (format!("k{i:02}"), format!("v{i:02}")))
        .collect();
    let texts: Vec<(&str, &str)> = many
        .iter()
        .map(|(k, v)| (k.as_str(), v.as_str()))
        .collect();
    let long = store.push(&texts);
    let route = store.push(&[("type", "route")]);
    let here = cell(2_307_000_000, 1_407_000_000);
    let features = vec![
        Feature {
            anchor: Anchor::Published(here),
            entity_type: OSM_NODE,
            osm_id: 42,
            tags: amenity,
        },
        Feature {
            anchor: Anchor::Published(here),
            entity_type: OSM_NODE,
            osm_id: 43,
            tags: none,
        },
        Feature {
            anchor: Anchor::Derived(here),
            entity_type: OSM_WAY,
            osm_id: 42,
            tags: long,
        },
        Feature {
            anchor: Anchor::Derived(cell(17, 4_000_000_000)),
            entity_type: OSM_RELATION,
            osm_id: -7,
            tags: route,
        },
    ];
    (features, store.resolve().expect("small books"))
}

#[test]
fn what_is_baked_is_read_back_from_the_bytes_alone() {
    let (features, tags) = extract();
    let (b, rows) = bake_features(&features, &tags).expect("four elements");
    assert_eq!(b.continuations, 2, "61 tags take three rows");
    assert_eq!(b.keyed.len(), 6);
    assert_eq!(b.collisions, 4, "five rows share one cell");
    assert_eq!(b.book.len(), 4);
    assert_eq!(slots_filled(&rows), 6 + 2 + 61 + 1, "identities and tags");

    let mut bytes = Vec::new();
    write_rows(&mut bytes, &rows);
    assert_eq!(bytes.len(), 6 * 512);
    let slab = RowSlab::new(&bytes).expect("whole rows");
    let got = recover(&slab.copied()).expect("every row names its element");
    assert_eq!(got.len(), 4);
    for f in &features {
        let key = format!("{:04x}:{}", f.entity_type, f.osm_id);
        let o = b.book.ordinal(&key).expect("the element is in the book");
        let e = &got[&o];
        assert_eq!(e.kind, f.entity_type);
        assert_eq!(e.code, cell_to_morton(f.anchor.cell()));
        assert_eq!(e.tags, tags.span(f.tags));
    }
    for i in 1..slab.len() {
        assert!(slab.morton_at(i - 1) <= slab.morton_at(i), "key order");
    }

    let report = compare(&features, &tags, &b.book, &got).expect("known ordinals");
    assert!(report.is_clean());
    assert_eq!(report.sources, 4);
    assert_eq!(report.recovered, 4);
    assert_eq!(report.checked, 4);
    assert_eq!(report.node_pos_ok, 2);
    assert_eq!(report.derived_pos_ok, 2);
    assert_eq!(report.tags_ok, 4);
    assert_eq!(report.unrecovered(), 0);
}

#[test]
fn the_steps_of_a_bake_agree_with_the_whole() {
    let (features, tags) = extract();
    let (whole, rows) = bake_features(&features, &tags).expect("bake");
    let b = bake(key_features(&features)).expect("bake");
    assert_eq!(build_rows(&b, &tags), rows);
    assert_eq!(b.book.digest(), whole.book.digest());
}

#[test]
fn a_bake_of_distinct_elements_has_parity() {
    let (features, tags) = extract();
    let (b, r) = check_bake(&features, &tags).expect("bake");
    assert!(r.is_clean());
    assert_eq!(r.sources, b.book.len() as u64);

    // One element given twice is one element with the tags of both.
    let mut twice = features.clone();
    twice.push(twice[0]);
    let (_, r) = check_bake(&twice, &tags).expect("bake");
    assert_eq!((r.sources, r.recovered), (4, 4));
    assert_eq!((r.tags_ok, r.tags_bad), (3, 1));
}

#[test]
fn two_bakes_of_one_extract_are_identical() {
    let nodes: Vec<(i64, TileXy)> = (1..5).map(|i| (i, cell(7, 7))).collect();
    let many: Vec<(String, String)> = (0..70).map(|i| (format!("k{i}"), format!("v{i}"))).collect();
    let many: Vec<(&str, &str)> = many.iter().map(|(k, v)| (k.as_str(), v.as_str())).collect();
    let at = |id: i64| RawMember {
        kind: MemberKind::Node,
        id,
        role: None,
    };
    let members = [at(1), at(2)];
    // All of these share one cell, and two take more than one row.
    let elements = [
        Element::Node {
            id: 1,
            cell: cell(7, 7),
            tags: &many,
        },
        Element::Relation {
            id: 9,
            members: &members,
            tags: &many[..40],
        },
        Element::Node {
            id: 2,
            cell: cell(7, 7),
            tags: &many[..1],
        },
        Element::Way {
            id: 3,
            refs: &[3, 4],
            tags: &many[..2],
        },
    ];
    let bake_once = || {
        let (features, store, _) = read_features(&nodes, &elements);
        let tags = store.resolve().expect("small books");
        let (b, rows) = bake_features(&features, &tags).expect("bake");
        let mut bytes = Vec::new();
        write_rows(&mut bytes, &rows);
        (bytes, b.book.digest())
    };
    let first = bake_once();
    assert_eq!(first.0.len(), 7 * 512);
    assert_eq!(first, bake_once());
}

#[test]
fn a_difference_is_reported_and_not_smoothed_over() {
    let (features, tags) = extract();
    let (b, rows) = bake_features(&features, &tags).expect("bake");
    let mut got = recover(&rows).expect("named");

    // A lost element.
    let gone = b.book.ordinal("0f03:-7").expect("the relation");
    let relation = got.remove(&gone).expect("recovered");
    let r = compare(&features, &tags, &b.book, &got).expect("known ordinals");
    assert!(!r.is_clean());
    assert_eq!((r.sources, r.checked, r.unrecovered()), (4, 3, 1));
    got.insert(gone, relation);

    // Wrong tags, a wrong place and a wrong kind, each on its own.
    let way = b.book.ordinal("0f02:42").expect("the way");
    let swapped = &mut got.get_mut(&way).expect("recovered").tags;
    swapped.swap(0, 1);
    let r = compare(&features, &tags, &b.book, &got).expect("known ordinals");
    assert_eq!((r.tags_ok, r.tags_bad), (3, 1), "order counts");
    got.get_mut(&way).expect("recovered").tags.swap(0, 1);

    let node = b.book.ordinal("0f01:42").expect("the node");
    got.get_mut(&node).expect("recovered").code += 1;
    let r = compare(&features, &tags, &b.book, &got).expect("known ordinals");
    assert_eq!((r.node_pos_ok, r.node_pos_bad), (1, 1));
    got.get_mut(&node).expect("recovered").code -= 1;

    got.get_mut(&way).expect("recovered").code += 1;
    got.get_mut(&way).expect("recovered").kind = OSM_NODE;
    let r = compare(&features, &tags, &b.book, &got).expect("known ordinals");
    assert_eq!((r.derived_pos_ok, r.derived_pos_bad, r.kind_bad), (1, 1, 1));

    // An ordinal that the book does not hold.
    let stray = got.remove(&way).expect("recovered");
    got.insert(99, stray);
    assert!(compare(&features, &tags, &b.book, &got).is_none());

    // An element that the source does not have.
    let (b, rows) = bake_features(&features, &tags).expect("bake");
    let got = recover(&rows).expect("named");
    let r = compare(&features[..3], &tags, &b.book, &got).expect("known ordinals");
    assert_eq!((r.sources, r.checked, r.unknown), (3, 3, 1));
    assert!(!r.is_clean());
}

#[test]
fn a_row_without_an_identity_says_nothing() {
    let (features, tags) = extract();
    let mut b = bake(key_features(&features)).expect("bake");
    b.keyed[2].identity_ordinal = None;
    let rows = build_rows(&b, &tags);
    assert!(read_row(&rows[2]).is_none());
    assert!(read_row(&rows[1]).is_some());
    assert!(recover(&rows).is_none());
}

#[test]
fn a_bake_does_not_depend_on_the_order_of_its_features() {
    let (mut features, tags) = extract();
    // Without its tags this one would tie with the way at the same place.
    features.remove(1);
    let (a, rows) = bake_features(&features, &tags).expect("bake");
    let mut turned = features.clone();
    turned.reverse();
    let (b, again) = bake_features(&turned, &tags).expect("bake");
    assert_eq!(a.book.digest(), b.book.digest());
    assert_eq!(rows, again);
}

#[test]
fn an_extract_is_read_into_features_chains_and_junctions() {
    let nodes = [
        (1, cell(10, 10)),
        (2, cell(20, 10)),
        (3, cell(30, 10)),
        (4, cell(20, 30)),
    ];
    let from = RawMember {
        kind: MemberKind::Way,
        id: 100,
        role: Some("from"),
    };
    let via = RawMember {
        kind: MemberKind::Node,
        id: 2,
        role: Some("via"),
    };
    let members = [from, via];
    let elements = [
        Element::Relation {
            id: 500,
            members: &members,
            tags: &[("type", "restriction")],
        },
        Element::Node {
            id: 1,
            cell: cell(10, 10),
            tags: &[("amenity", "bench")],
        },
        Element::Node {
            id: 2,
            cell: cell(20, 10),
            tags: &[],
        },
        Element::Way {
            id: 100,
            refs: &[1, 2, 3],
            tags: &[("highway", "residential")],
        },
        Element::Way {
            id: 101,
            refs: &[4, 2],
            tags: &[("highway", "service")],
        },
        Element::Way {
            id: 102,
            refs: &[77],
            tags: &[("highway", "service")],
        },
        Element::Relation {
            id: 501,
            members: &[],
            tags: &[("type", "route_master")],
        },
    ];
    let (features, store, stats, chains, junctions) = read_features_with_chains(&nodes, &elements);
    assert_eq!(stats.nodes_indexed, 4);
    assert_eq!(stats.tagged_nodes, 1);
    assert_eq!(stats.tagged_ways, 2);
    assert_eq!(stats.ways_unresolved, 1);
    assert_eq!(stats.relations_anchored, 1);
    assert_eq!(stats.relations_unanchorable, 1);
    assert_eq!(stats.restrictions, 1);
    assert_eq!(stats.restrictions_via_node, 1);
    assert_eq!(stats.restrictions_via_way, 0);
    assert_eq!(stats.restrictions_no_via, 0);
    assert_eq!(stats.tag_pairs, 4, "the relation without a place has no feature");
    assert_eq!(stats.distinct_tag_values, 5, "its tags are stored all the same");

    let ids: Vec<(u16, i64)> = features.iter().map(|f| (f.entity_type, f.osm_id)).collect();
    assert_eq!(
        ids,
        vec![(OSM_NODE, 1), (OSM_WAY, 100), (OSM_WAY, 101), (OSM_RELATION, 500)]
    );
    assert_eq!(features[1].anchor.cell(), cell(20, 10));
    assert_eq!(features[2].anchor.cell(), cell(20, 20));
    assert_eq!(features[3].anchor.cell(), cell(20, 10), "at the junction");

    assert_eq!(chains[&100], vec![cell(10, 10), cell(20, 10), cell(30, 10)]);
    assert_eq!(chains[&101], vec![cell(20, 30), cell(20, 10)]);
    assert_eq!(junctions.len(), 1);
    assert_eq!(junctions[0].node_id, 2);
    assert_eq!(junctions[0].edge_ways, vec![100, 101]);
    assert_eq!(junctions[0].edge_way_index, vec![1, 1]);

    let tags = store.resolve().expect("small books");
    let first = tags.span(features[0].tags)[0];
    assert_eq!(tags.text(first), Some(("amenity", "bench")));

    let (again, _, _) = read_features(&nodes, &elements);
    assert_eq!(again.len(), features.len());
    let (counted, of_all) = (stats.tagged_nodes + stats.tagged_ways, features.len() as u64);
    assert_eq!(counted + stats.relations_anchored, of_all);

    let (b, rows) = bake_features(&again, &tags).expect("bake");
    let got = recover(&rows).expect("named");
    let report = compare(&again, &tags, &b.book, &got).expect("known ordinals");
    assert!(report.is_clean());
}

#[test]
fn an_empty_span_is_a_feature_without_tags() {
    let tags = TagStore::default().resolve().expect("empty books");
    let f = Feature {
        anchor: Anchor::Published(cell(1, 1)),
        entity_type: OSM_NODE,
        osm_id: 1,
        tags: TagSpan::default(),
    };
    let (b, rows) = bake_features(&[f], &tags).expect("bake");
    assert_eq!(rows.len(), 1);
    assert_eq!(b.continuations, 0);
    let (ordinal, e) = read_row(&rows[0]).expect("named");
    assert_eq!(ordinal, 0);
    assert!(e.tags.is_empty());
}

#[test]
fn what_has_no_place_is_counted_once_and_adds_nothing_else() {
    let lost = RawMember {
        kind: MemberKind::Node,
        id: 9,
        role: Some("from"),
    };
    let found = RawMember {
        kind: MemberKind::Node,
        id: 1,
        role: Some("from"),
    };
    let (lost, found) = ([lost], [found]);
    let tags = [("type", "restriction"), ("restriction", "no_u_turn")];
    let nodes = [(1, cell(10, 10))];
    let elements = [
        Element::Relation {
            id: 1,
            members: &[],
            tags: &tags,
        },
        Element::Relation {
            id: 2,
            members: &lost,
            tags: &tags,
        },
    ];
    let (features, store, stats) = read_features(&nodes, &elements);
    assert!(features.is_empty());
    assert_eq!(store.pair_count(), 4);
    assert_eq!(stats.tag_pairs, 0);
    assert_eq!(stats.relations_unanchorable, 2);
    assert_eq!(stats.restrictions, 0);
    assert_eq!(stats.restrictions_no_via, 0);

    let elements = [
        elements[0],
        Element::Relation {
            id: 3,
            members: &found,
            tags: &tags,
        },
    ];
    let (features, store, stats) = read_features(&nodes, &elements);
    assert_eq!(features.len(), 1);
    assert_eq!(store.pair_count(), 4);
    assert_eq!(stats.tag_pairs, 2);
    assert_eq!(stats.restrictions, 1);
    assert_eq!(stats.restrictions_no_via, 1, "at the centroid of its members");
}

#[test]
fn a_feature_of_the_tag_concept_is_read_back_too() {
    let mut store = TagStore::default();
    let span = store.push(&[("a", "b"), ("c", "d")]);
    let tags = store.resolve().expect("small books");
    let feature = Feature {
        anchor: Anchor::Published(cell(5, 6)),
        entity_type: OSM_ELEMENT_TAG,
        osm_id: 77,
        tags: span,
    };
    let (b, report) = check_bake(&[feature], &tags).expect("bake");
    assert_eq!(b.book.len(), 1);
    assert!(report.is_clean());
    assert_eq!(report.sources, 1);
    assert_eq!(report.recovered, 1);
    assert_eq!(report.checked, 1);
}
