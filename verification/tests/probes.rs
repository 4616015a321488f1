use std::collections::{HashMap, HashSet};

use osm_soa_bake::address::{
    outcome, second_round, settle, way_form, Ambiguous, Form, Outcome, Postcodes, Settled,
};
use osm_soa_bake::areal::{
    class_name, delta_bytes, price, tally_access, Foot, C_BUILDING, C_GREEN, C_LINEAR_WATER,
    C_OTHER, C_WATER, C_WOOD,
};
use osm_soa_bake::bake::{bake_features, write_rows};
use osm_soa_bake::boundary::{boundary, edge_uses, Boundary, ClassedWay};
use osm_soa_bake::building::{
    is_footprint, referrers, shared_nodes, shared_walls, way_kind, KindedWay, Referrers, Shared,
    WallReport, WayKind,
};
use osm_soa_bake::corridor::{build_corridors, class_of, median, run_cover, tile_cuts, Way};
use osm_soa_bake::housenumber::{
    areal_kind, classify_number, parity_split, street_pattern, to_decimal, NumKind, Pattern, Side,
};
use osm_soa_bake::junction::{
    adjacency, branch_degrees, degree_histogram, fork_nodes, junction_nodes, junction_vertices,
    locality, turn_fit, turn_of, Adjacency, Locality, Turn, TurnFit,
};
use osm_soa_bake::network::{
    components, grade_separated, name_groups, phantom_junctions, reference_counts, shape_nodes,
    ways_that_meet, NameGroups, Phantoms,
};
use osm_soa_bake::occupancy::{row_occupancy, slab_occupancy, Occupancy};
use osm_soa_bake::read::{Anchor, Feature, MemberKind, RawMember, OSM_NODE};
use osm_soa_bake::road::roads;
use osm_soa_bake::slab::RowSlab;
use osm_soa_bake::tags::TagStore;
use osm_soa_bake::tally::{count_of, tally, Edge};
use osm_soa_bake::tier::{fitting, tile_demand, Tile};
use osm_soa_bake::tms::TileXy;
use osm_soa_bake::wayclass::{primary_key, way_forms, Forms};

#[test]
fn references_count_every_touch() {
    let ways = vec![vec![1, 2, 3, 2], vec![2, 4]];
    let refs = reference_counts(&ways);
    let want = HashMap::from([(1, 1), (2, 3), (3, 1), (4, 1)]);
    assert_eq!(refs, want);
    assert_eq!(shape_nodes(&[1, 2, 3, 99], &refs), 3);
    assert!(reference_counts(&[]).is_empty());
}

#[test]
fn a_ring_ends_where_it_begins_and_an_end_counts_once() {
    let open = branch_degrees(&[vec![1, 2, 3]]);
    assert_eq!(open, HashMap::from([(1, 1), (2, 2), (3, 1)]));
    let ring = branch_degrees(&[vec![1, 2, 3, 1]]);
    assert_eq!(ring, HashMap::from([(1, 2), (2, 2), (3, 2)]));
    let cross = branch_degrees(&[vec![1, 2, 3], vec![4, 2, 5]]);
    assert_eq!(cross[&2], 4);
}

#[test]
fn phantoms_are_shared_nodes_that_no_two_roads_share() {
    let refs = [(2, 0), (1, 1), (0, 2), (1, 0), (3, 4), (0, 1)];
    assert_eq!(
        phantom_junctions(&refs),
        Phantoms {
            class_blind: 4,
            junctions: 2,
            phantom: 2,
        }
    );
}

#[test]
fn junctions_are_shared_nodes_and_forks_have_three_branches() {
    // Three ways meet at 2, two at 3, and one passes 5.
    let ways = vec![vec![1, 2, 3], vec![4, 5, 2], vec![3, 6], vec![2, 7]];
    let junctions = junction_nodes(&reference_counts(&ways));
    assert_eq!(junctions, HashSet::from([2, 3]));
    let degree = branch_degrees(&ways);
    assert_eq!((degree[&2], degree[&3], degree[&5]), (4, 2, 2));
    assert_eq!(fork_nodes(&junctions, &degree), HashSet::from([2]));
    assert_eq!(degree_histogram(&junctions, &degree), [0, 0, 1, 0, 1, 0, 0, 0, 0, 0]);
    assert_eq!(junction_vertices(&ways, &junctions), 5);
    assert_eq!(junction_vertices(&[], &junctions), 0);

    // Nine and more are counted together, and an unknown node has no branch.
    let many = HashMap::from([(1, 9), (2, 30), (3, 8)]);
    let all = HashSet::from([1, 2, 3, 4]);
    assert_eq!(degree_histogram(&all, &many), [1, 0, 0, 0, 0, 0, 0, 0, 1, 2]);
    assert!(junction_nodes(&HashMap::from([(1, 1), (2, 0)])).is_empty());
}

#[test]
fn ways_meet_a_set_where_they_have_a_node_of_it() {
    let ways = vec![vec![1, 2], vec![3], vec![], vec![4, 2, 2]];
    assert_eq!(ways_that_meet(&ways, &HashSet::from([2])), 2);
    assert_eq!(ways_that_meet(&ways, &HashSet::from([1, 3, 9])), 2);
    assert_eq!(ways_that_meet(&ways, &HashSet::new()), 0);
}

#[test]
fn names_invent_joins_between_pieces_that_do_not_meet() {
    // Ways and pieces of each name; one way alone is no group.
    let names = [(1, 1), (2, 1), (2, 2), (7, 3), (5, 5)];
    assert_eq!(
        name_groups(&names),
        NameGroups {
            groups: 4,
            split: 3,
            invented: 7,
        }
    );
    assert_eq!(
        name_groups(&[]),
        NameGroups {
            groups: 0,
            split: 0,
            invented: 0,
        }
    );
}

#[test]
fn bridges_tunnels_and_layers_do_not_meet_what_they_cross() {
    assert!(grade_separated(&[("bridge", "yes")]));
    assert!(grade_separated(&[("tunnel", "culvert")]));
    assert!(grade_separated(&[("layer", "-1")]));
    assert!(!grade_separated(&[("bridge", "no"), ("layer", "0")]));
    assert!(!grade_separated(&[("highway", "service")]));
}

#[test]
fn ways_hang_together_over_other_ways() {
    let ways = vec![vec![1, 2], vec![3, 4], vec![2, 3], vec![9]];
    let (piece, n) = components(&ways);
    assert_eq!(n, 2);
    assert_eq!(piece, vec![0, 0, 0, 1]);
}

#[test]
fn a_road_is_a_name_and_a_connection() {
    // Two ways called 7 that touch only by way of one called 8.
    let ways = vec![vec![1, 2], vec![2, 3], vec![3, 4], vec![4, 5]];
    let r = roads(&[7, 8, 7, 7], &ways);
    assert_eq!(r[2], r[3]);
    assert_ne!(r[0], r[2], "the way between carries another name");
    assert_ne!(r[0], r[1], "they meet, but under different names");
    assert_eq!(r, vec![0, 1, 2, 2]);
    assert_eq!(roads(&[], &[]), Vec::<usize>::new());
}

#[test]
fn near_neighbours_are_small_offsets() {
    let ways = vec![vec![1, 50, 2, 3], vec![3, 4], vec![4, 9]];
    let junctions = HashSet::from([1, 2, 3, 4, 9]);
    let rank = HashMap::from([(1, 0), (2, 7), (3, 15), (4, -200)]);
    let l = locality(&ways, &junctions, &rank);
    assert_eq!(
        l,
        Locality {
            edges: 3,
            within_i4: 1,
            within_i8: 2,
            sum_abs: 7 + 8 + 215,
        },
        "node 9 has no rank and node 50 is no junction"
    );
    assert_eq!(
        adjacency(&l),
        Adjacency {
            nibbles: 2 + 16,
            bytes: 3 + 8,
            ids: 24,
        }
    );
}

#[test]
fn a_turn_is_local_where_both_ways_meet_its_node() {
    let node = |id, role| RawMember {
        kind: MemberKind::Node,
        id,
        role: Some(role),
    };
    let way = |id, role| RawMember {
        kind: MemberKind::Way,
        id,
        role: Some(role),
    };
    let turn = Turn {
        via: 5,
        from: 10,
        to: 11,
    };
    assert_eq!(
        turn_of(&[way(10, "from"), node(5, "via"), way(11, "to")]),
        Some(turn)
    );
    assert_eq!(
        turn_of(&[way(9, "from"), node(5, "via"), way(11, "to"), way(10, "from")]),
        Some(turn),
        "the last of a role counts"
    );
    assert_eq!(turn_of(&[way(10, "from"), way(5, "via"), way(11, "to")]), None);
    assert_eq!(turn_of(&[way(10, "from"), node(5, "via")]), None);

    let ids = [10, 11, 12];
    let ways = vec![vec![1, 5], vec![5, 6], vec![6, 7]];
    let junctions = HashSet::from([5, 6]);
    assert_eq!(turn_fit(&turn, &junctions, &ids, &ways), TurnFit::Local);
    let far = Turn { to: 12, ..turn };
    assert_eq!(turn_fit(&far, &junctions, &ids, &ways), TurnFit::NotIncident);
    let off = Turn { via: 1, ..turn };
    assert_eq!(turn_fit(&off, &junctions, &ids, &ways), TurnFit::NotAJunction);
}

#[test]
fn a_building_that_is_also_a_road_is_a_building() {
    assert_eq!(way_kind(&[("highway", "steps"), ("building:part", "yes")]), WayKind::Building);
    assert_eq!(way_kind(&[("highway", "steps")]), WayKind::Highway);
    assert_eq!(way_kind(&[("landuse", "forest")]), WayKind::Other);
}

#[test]
fn shared_nodes_are_told_apart_by_who_shares_them() {
    let ways = [
        KindedWay {
            kind: WayKind::Building,
            nodes: vec![1, 2, 3, 1],
        },
        KindedWay {
            kind: WayKind::Building,
            nodes: vec![2, 4],
        },
        KindedWay {
            kind: WayKind::Highway,
            nodes: vec![4, 5, 6],
        },
        KindedWay {
            kind: WayKind::Highway,
            nodes: vec![6, 5],
        },
        KindedWay {
            kind: WayKind::Other,
            nodes: vec![8, 8],
        },
    ];
    let (who, order) = referrers(&ways);
    assert_eq!(order, vec![1, 2, 3, 4, 5, 6, 8]);
    assert_eq!(
        who[&4],
        Referrers {
            refs: 2,
            building: true,
            highway: true,
        }
    );
    let list: Vec<Referrers> = order.iter().map(|n| who[n]).collect();
    assert_eq!(
        shared_nodes(&list),
        Shared {
            total: 6,
            building_only: 2,
            highway: 2,
            mixed: 1,
            other_only: 1,
        }
    );
}

#[test]
fn a_wall_between_two_houses_is_one_wall_used_twice() {
    let left = vec![1, 2, 3, 4, 1];
    let right = vec![2, 5, 6, 3, 2];
    let alone = vec![7, 8, 9, 7];
    assert!(is_footprint(&left));
    assert!(!is_footprint(&[1, 2, 1]));
    assert!(!is_footprint(&[1, 2, 3, 4]));
    assert_eq!(
        shared_walls(&[left, right, alone]),
        WallReport {
            slots: 11,
            distinct: 10,
            shared: 1,
            with_shared: 2,
        }
    );
}

#[test]
fn only_other_classes_share_a_boundary() {
    let ways = [
        ClassedWay {
            class: C_WATER,
            nodes: vec![1, 2, 3, 1],
        },
        ClassedWay {
            class: C_WOOD,
            nodes: vec![3, 2, 4],
        },
        ClassedWay {
            class: C_WATER,
            nodes: vec![2, 1],
        },
    ];
    let uses = edge_uses(&ways);
    let all = [C_WATER, C_WOOD, C_GREEN, C_BUILDING, C_LINEAR_WATER, C_OTHER];
    assert_eq!(
        boundary(&ways, &uses, C_WATER, &all),
        Boundary {
            slots: 4,
            shared: 1,
        }
    );
    assert_eq!(
        boundary(&ways, &uses, C_WOOD, &[C_WATER]),
        Boundary {
            slots: 2,
            shared: 1,
        }
    );
    assert_eq!(boundary(&ways, &uses, C_WOOD, &[C_GREEN]).shared, 0);
}

#[test]
fn an_address_names_one_road_or_it_is_said_why_not() {
    assert_eq!(outcome(false, true, &[1]), Outcome::NoStreet);
    assert_eq!(outcome(true, false, &[]), Outcome::NoSuchName);
    assert_eq!(outcome(true, true, &[]), Outcome::TooFar);
    assert_eq!(outcome(true, true, &[9]), Outcome::One(9));
    assert_eq!(outcome(true, true, &[9, 8]), Outcome::Several);
    assert_eq!(way_form(&[("building", "yes")]), Form::BuildingWay);
    assert_eq!(way_form(&[("amenity", "bank")]), Form::OtherWay);
}

#[test]
fn a_postcode_settles_what_the_name_could_not() {
    let mut p = Postcodes::new();
    p.learn(1, 10115);
    p.learn(2, 10117);
    p.learn(2, 10115);
    p.learn(2, 10115);
    let case = |code, roads: &[usize]| Ambiguous {
        code,
        roads: roads.to_vec(),
    };
    let cases = [
        case(Some(10117), &[1, 2]),
        case(Some(10115), &[1, 2]),
        case(Some(99999), &[1, 2]),
        case(Some(10115), &[3, 4]),
        case(None, &[1, 2]),
    ];
    second_round(&mut p, &cases);
    let verdicts: Vec<Settled> = cases.iter().map(|c| settle(&p, c)).collect();
    assert_eq!(
        verdicts,
        vec![
            Settled::One,
            Settled::Several,
            Settled::NoMatch,
            Settled::NoData,
            Settled::NoPostcode,
        ]
    );
    assert!(p.has(1, 10115) && !p.has(1, 10117) && !p.has_any(3));
}

#[test]
fn the_slots_of_a_tile_are_its_members_and_their_tags() {
    let coded = [(0x1_0005, 2), (0x2_0000, 0), (0x1_FFFF, 27), (0x2_0001, 30)];
    let tiles = tile_demand(&coded, 16);
    assert_eq!(
        tiles,
        vec![
            Tile {
                prefix: 1,
                members: 2,
                slots: 31,
            },
            Tile {
                prefix: 2,
                members: 2,
                slots: 32,
            },
        ]
    );
    assert_eq!(fitting(&tiles), 0);
    let single = tile_demand(&coded, 0);
    assert_eq!(single.len(), 4);
    assert_eq!(fitting(&single), 3);
}

#[test]
fn occupancy_counts_slots_bytes_and_runs() {
    let mut v = vec![0u8; 480];
    assert_eq!(
        row_occupancy(&v),
        Occupancy {
            filled_slots: 0,
            nonzero_bytes: 0,
            zero_runs: 1,
            zero_bytes: 480,
            trailing_zeros: 480,
        }
    );
    v[0] = 1;
    v[17] = 2;
    v[18] = 2;
    assert_eq!(
        row_occupancy(&v),
        Occupancy {
            filled_slots: 2,
            nonzero_bytes: 3,
            zero_runs: 2,
            zero_bytes: 477,
            trailing_zeros: 461,
        }
    );
}

#[test]
fn a_baked_slab_fills_an_identity_slot_in_every_row() {
    let tags = TagStore::default().resolve().expect("empty books");
    let features: Vec<Feature> = (0..3)
        .map(|i| Feature {
            anchor: Anchor::Published(TileXy { x: i, y_xyz: i }),
            entity_type: OSM_NODE,
            osm_id: i64::from(i),
            tags: Default::default(),
        })
        .collect();
    let (_, rows) = bake_features(&features, &tags).expect("bake");
    let mut bytes = Vec::new();
    write_rows(&mut bytes, &rows);
    let o = slab_occupancy(&RowSlab::new(&bytes).expect("whole rows"));
    assert_eq!(o.filled_slots, 3);
    assert_eq!(o.nonzero_bytes + o.zero_bytes, 3 * 480);
    assert_eq!(o.trailing_zeros, 3 * (480 - 5), "class and one byte of ordinal");
}

#[test]
fn keys_are_tallied_in_order() {
    let edges = vec![Edge::between(5, 1), Edge::between(1, 5), Edge::between(2, 2)];
    let t = tally(edges);
    assert_eq!(t, vec![(Edge { a: 1, b: 5 }, 2), (Edge { a: 2, b: 2 }, 1)]);
    assert_eq!(count_of(&t, Edge::between(5, 1)), 2);
    assert_eq!(count_of(&t, Edge::between(5, 5)), 0);
    assert_eq!(tally(vec![3i64, -1, 3]), vec![(-1, 1), (3, 2)]);
}

#[test]
fn corridors_are_maximal_in_both_directions() {
    // The seed stands at the far end: the walk has to go on backwards.
    let way = |nodes: &[i64]| Way {
        nodes: nodes.to_vec(),
        class: "service",
    };
    let ways = vec![way(&[2, 3]), way(&[1, 2]), way(&[0, 1])];
    let lists: Vec<Vec<i64>> = ways.iter().map(|w| w.nodes.clone()).collect();
    let (c, declined) = build_corridors(&ways, &reference_counts(&lists));
    assert_eq!(c.len(), 1);
    assert_eq!(c[0].0, 3, "three ways");
    let mut route = c[0].1.clone();
    if route[0] != 0 {
        route.reverse();
    }
    assert_eq!(route, vec![0, 1, 2, 3]);
    assert_eq!(declined, 0);
}

#[test]
fn road_classes_medians_and_runs() {
    assert_eq!(class_of("primary_link"), "classified");
    assert_eq!(class_of("residential"), "residential");
    assert_eq!(class_of("service"), "service");
    assert_eq!(class_of("footway"), "foot");
    assert_eq!(class_of("cycleway"), "cycle");
    assert_eq!(class_of("proposed"), "other");
    assert_eq!(median(&mut vec![5, 1, 3]), 3);
    assert_eq!(median(&mut vec![4, 1, 3, 2]), 3);
    assert_eq!(median(&mut vec![]), 0);
    assert_eq!(run_cover(&[0, 0, 0, 1, 0, 0], 3), 3);
    assert_eq!(run_cover(&[0, 0, 0, 1, 0, 0], 2), 5);
    let cell = |x| TileXy { x, y_xyz: 0 };
    let cells = [cell(0), cell(7), cell(8), cell(9), cell(16)];
    assert_eq!(tile_cuts(&cells, 3), vec![0, 2, 4, 4]);
}

#[test]
fn a_chain_is_priced_four_ways() {
    assert_eq!(delta_bytes(&[100, 101, 99]), 2 + 1 + 1);
    let p = price(
        &[1000, 1001, 1002],
        &[525_200_000, 525_200_010, 525_200_000],
        &[134_000_000, 134_000_000, 134_000_100],
        &[1000, 5],
        &[-60],
    );
    assert_eq!(p.raw, 24);
    assert_eq!(p.deltas, (2 + 1 + 1) + (5 + 1 + 1) + (4 + 1 + 2));
    assert_eq!(p.turn_bits, 2 + 1 + 3);
    assert_eq!(p.angles, 2 + 3 + 1);
}

#[test]
fn silence_is_counted_apart_from_denial() {
    let a = tally_access(&[
        (Foot::Silent, true),
        (Foot::Silent, false),
        (Foot::Denied, true),
        (Foot::Allowed, true),
    ]);
    assert_eq!((a.rings, a.allowed, a.denied, a.silent), (4, 1, 1, 2));
    assert_eq!((a.walked, a.silent_walked, a.denied_walked), (3, 1, 1));
    assert_eq!(class_name(C_WOOD), "wood");
    assert_eq!(class_name(0), "other");
}

#[test]
fn streets_have_patterns() {
    assert_eq!(street_pattern(Side::Up, Side::Up), Pattern::Parallel);
    assert_eq!(street_pattern(Side::Up, Side::Down), Pattern::Horseshoe);
    assert_eq!(street_pattern(Side::TooFew, Side::Down), Pattern::OneSided);
    assert_ne!(
        street_pattern(Side::Irregular, Side::Down),
        street_pattern(Side::TooFew, Side::Down)
    );
    let at = |numbers: [&str; 3]| numbers.map(|n| to_decimal(n).unwrap());
    assert!(parity_split(&at(["1", "3", "5"]), &at(["2", "4", "6"])));
    assert!(parity_split(&at(["1a", "3zz", "5"]), &at(["2da", "4", "6"])));
    assert!(!parity_split(&at(["1", "3", "5"]), &at(["7", "9", "11"])));
    assert!(!parity_split(&at(["1", "2", "5"]), &at(["2", "4", "6"])));
}

#[test]
fn numbers_are_trimmed_and_letters_are_letters() {
    // White space of any script, and letters of any script.
    assert_eq!(classify_number(" 12\u{a0}"), NumKind::Plain);
    assert_eq!(to_decimal(" 12\u{2003}"), Some(1_200_000));
    assert_eq!(classify_number("12ä"), NumKind::Suffixed);
    assert_eq!(classify_number("12 #"), NumKind::Other);
    assert_eq!(to_decimal("12a"), Some(1_201_000));
    assert_eq!(to_decimal("12Z"), Some(1_226_000));
    assert_eq!(to_decimal("12ab"), Some(1_228_000));
    assert_eq!(to_decimal("a"), None);
}

#[test]
fn a_suffix_never_reaches_the_next_number() {
    let v = |s: &str| to_decimal(s).unwrap();
    for n in [1u64, 12, 999_999] {
        let (bare, next) = (v(&format!("{n}")), v(&format!("{}", n + 1)));
        for first in 'a'..='z' {
            let one = v(&format!("{n}{first}"));
            assert!(bare < one && one < next);
            for second in ('a'..='z').chain('A'..='Z') {
                let two = v(&format!("{n}{first}{second}"));
                assert!(v(&format!("{n}z")) < two && one < two && two < next);
            }
        }
    }
    // Pairs follow the single letters, and each other.
    assert!(v("12z") < v("12aa") && v("12az") < v("12ba") && v("12zy") < v("12zz"));
    assert_eq!(v("12cu"), 1_299_000, "the last that is a number of hundredths");
    assert_eq!(v("12cv"), 1_299_001);
    assert_eq!(v("12da"), 1_299_006);
    assert_eq!(v("12zz"), 1_299_603);
}

#[test]
fn what_lies_beside_a_street() {
    assert_eq!(areal_kind(&[("highway", "service")]), None);
    assert_eq!(areal_kind(&[("landuse", "port")]), Some("industry"));
    assert_eq!(areal_kind(&[("landuse", "residential"), ("natural", "wood")]), None);
    assert_eq!(areal_kind(&[("natural", "wood")]), Some("wood"));
    assert_eq!(areal_kind(&[("leisure", "park")]), Some("green"));
    assert_eq!(areal_kind(&[("aeroway", "runway")]), Some("railway"));
    assert_eq!(areal_kind(&[("man_made", "works")]), Some("industry"));
}

#[test]
fn a_way_is_a_sidewalk_or_has_one() {
    let own = way_forms(&[("footway", "sidewalk")], "footway");
    assert!(own.own_sidewalk && !own.road);
    let road = way_forms(
        &[("sidewalk", "both"), ("cycleway", "separate")],
        "residential",
    );
    assert_eq!(
        road,
        Forms {
            own_sidewalk: false,
            own_cycleway: false,
            road: true,
            with_sidewalk: true,
            sidewalk_apart: false,
            with_cycleway: false,
            cycleway_apart: true,
        }
    );
    assert_eq!(primary_key(&[("landuse", "x"), ("railway", "y")]), Some("railway"));
    assert_eq!(primary_key(&[("name", "x")]), None);
}
