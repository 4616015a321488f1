use osm_soa_bake::cluster::{facets, Facet};
use osm_soa_bake::identity::read_identity;
use osm_soa_bake::node::{
    slab_offset_of_slot, NodeRow, GEO_IDENTITY_SLOT, GEO_SLOPE_SLOT, NODE_ROW_STRIDE, SLOT_BYTES,
};
use osm_soa_bake::read::{Anchor, Feature, Junction, OSM_NODE, OSM_STREET_NODE, OSM_WAY};
use osm_soa_bake::row::{
    assign_identities, build_row, expand_tag_overflow, junction_keyed, key_feature,
    resolve_identities, Keyed, CLASSID_GEO_V3, TAGS_PER_ROW,
};
use osm_soa_bake::street::EDGE_SLOTS;
use osm_soa_bake::tags::{ResolvedTags, TagSpan, TagStore};
use osm_soa_bake::tms::TileXy;
use osm_soa_bake::vocab::CLASSVIEW_V3_SUBSTRATE;

/// Empty codebooks, for the tests whose subject is layout rather than tags.
fn no_tags() -> ResolvedTags {
    TagStore::default()
        .resolve()
        .expect("an empty store resolves")
}

/// The slippy-tile cell of a longitude and latitude at zoom `z`.
fn lonlat_to_tile(lon: f64, lat: f64, z: u32) -> (u32, u32) {
    let n = (1u64 << z.min(32)) as f64;
    let x = ((lon + 180.0) / 360.0 * n).floor();
    let lat_rad = lat.clamp(-85.051_128_78, 85.051_128_78).to_radians();
    let merc_y = (lat_rad.tan() + 1.0 / lat_rad.cos()).ln();
    let y = ((1.0 - merc_y / std::f64::consts::PI) / 2.0 * n).floor();
    let max = n - 1.0;
    (x.clamp(0.0, max) as u32, y.clamp(0.0, max) as u32)
}

fn point_to_cell(lon: f64, lat: f64) -> TileXy {
    let (x, y_xyz) = lonlat_to_tile(lon, lat, 32);
    TileXy { x, y_xyz }
}

fn feat(lon: f64, lat: f64) -> Feature {
    Feature {
        anchor: Anchor::Published(point_to_cell(lon, lat)),
        entity_type: OSM_WAY,
        osm_id: 1,
        tags: TagSpan::default(),
    }
}

#[test]
fn the_key_classid_is_composed_from_the_codebook_not_a_literal() {
    // Pins the composed value against the halves it is built from.
    assert_eq!(
        (CLASSID_GEO_V3 >> 16) as u16,
        OSM_NODE,
        "the canon half must be the minted osm_node concept"
    );
    assert_eq!(
        CLASSID_GEO_V3 as u16,
        CLASSVIEW_V3_SUBSTRATE,
        "the custom half must be the V3 substrate ClassView"
    );
    // Anti-vacuity: the two halves are genuinely different values, so the
    // assertions above are not both reading the same number.
    assert_ne!(
        u32::from(OSM_NODE),
        u32::from(CLASSVIEW_V3_SUBSTRATE)
    );
}

#[test]
fn row_is_exactly_the_canon_stride() {
    assert_eq!(core::mem::size_of::<NodeRow>(), NODE_ROW_STRIDE);
    assert_eq!(NODE_ROW_STRIDE, 512);
}

#[test]
fn key_carries_all_four_spatial_tiers() {
    // The V3 mint must not drop `leaf` — the failure the forced TailVariant
    // exists to prevent. Berlin Mitte has a non-zero leaf tier at z=32.
    let k = key_feature(&feat(13.404954, 52.520008));
    let row = build_row(&k, &no_tags());
    let b = row.key.as_bytes();
    let heel = u16::from_le_bytes([b[4], b[5]]);
    let hip = u16::from_le_bytes([b[6], b[7]]);
    let twig = u16::from_le_bytes([b[8], b[9]]);
    let leaf = u16::from_le_bytes([b[10], b[11]]);
    assert_eq!(
        (heel, hip, twig, leaf),
        (k.tiers.heel, k.tiers.hip, k.tiers.twig, k.tiers.leaf)
    );
    assert_ne!(leaf, 0, "the 4th tier must be carried, not dropped");
    assert_eq!(row.key.classid(), CLASSID_GEO_V3);
}

#[test]
fn the_codebook_key_is_kind_qualified_so_node_42_and_way_42_stay_distinct() {
    // OSM ids are unique only WITHIN an element type. An unqualified key
    // would map node 42 and way 42 to one ordinal — a silent identity
    // merge, the worst class of bug here because both rows still read as
    // valid.
    let mut batch = vec![
        key_feature(&Feature {
            anchor: Anchor::Published(point_to_cell(13.4, 52.5)),
            entity_type: OSM_NODE,
            osm_id: 42,
            tags: TagSpan::default(),
        }),
        key_feature(&Feature {
            anchor: Anchor::Published(point_to_cell(13.4, 52.5)),
            entity_type: OSM_WAY,
            osm_id: 42,
            tags: TagSpan::default(),
        }),
    ];
    resolve_identities(&mut batch).expect("two keys fit");
    let (a, b) = (batch[0].identity_ordinal, batch[1].identity_ordinal);
    assert!(a.is_some() && b.is_some(), "both must resolve");
    assert_ne!(a, b, "same id, different kind must not share an ordinal");

    // Anti-vacuity: the SAME (kind, id) twice DOES share an ordinal, so
    // the distinction is the kind and not "every row gets a fresh number".
    let mut same = vec![batch[0], batch[0]];
    resolve_identities(&mut same).expect("one distinct key fits");
    assert_eq!(same[0].identity_ordinal, same[1].identity_ordinal);
}

#[test]
fn a_row_built_before_the_pre_bake_stage_carries_no_identity_at_all() {
    // `build_row` is pure layout: without a resolved ordinal it must leave
    // the slot dormant rather than invent one. A fabricated identity would
    // point at the wrong element and still read as valid.
    let k = key_feature(&feat(13.404954, 52.520008));
    assert_eq!(k.identity_ordinal, None);
    let row = build_row(&k, &no_tags());
    assert_eq!(read_identity(&row), None);
    assert_eq!(row.value, [0u8; 480], "no slot may be written");
}

#[test]
fn the_kind_lands_in_the_identity_slot_and_the_entity_type_lane_stays_dormant() {
    // A geo row reads its value slab as facet slots, so the kind is the
    // identity slot's own class.
    let mut k = key_feature(&feat(13.404954, 52.520008));
    k.entity_type = OSM_WAY;
    // A real ~2^34 OSM id — far past u24, which is exactly why it must go
    // through the codebook rather than into the slot.
    k.osm_id = 12_000_000_001;
    let mut batch = vec![k];
    let book = resolve_identities(&mut batch).expect("one key fits the book");
    let row = build_row(&batch[0], &no_tags());

    // The kind + ordinal are recoverable from the slot alone, and the
    // ordinal pulls back to the original id through the codebook.
    let (kind, ordinal) = read_identity(&row).expect("identity written");
    assert_eq!(kind, OSM_WAY);
    assert_eq!(
        book.key(ordinal),
        Some(format!("{:04x}:{}", OSM_WAY, 12_000_000_001i64).as_str()),
        "the ordinal must pull back to the id it was minted from"
    );

    // Field isolation: only slot 2 is written.
    let slot = slab_offset_of_slot(GEO_IDENTITY_SLOT).unwrap();
    let others: usize = row
        .value
        .iter()
        .enumerate()
        .filter(|(i, _)| !(slot..slot + SLOT_BYTES).contains(i))
        .map(|(_, b)| usize::from(*b))
        .sum();
    assert_eq!(others, 0, "no slot but the identity facet may be written");
}

/// A store holding `n` distinct tags on one feature, plus its span.
fn tags_of(n: u32) -> (ResolvedTags, TagSpan) {
    let mut store = TagStore::default();
    let pairs: Vec<(String, String)> = (0..n)
        .map(|i| (format!("k{i:04}"), format!("v{i:04}")))
        .collect();
    let texts: Vec<(&str, &str)> = pairs
        .iter()
        .map(|(k, v)| (k.as_str(), v.as_str()))
        .collect();
    let span = store.push(&texts);
    (store.resolve().expect("small books"), span)
}

#[test]
fn a_features_tags_land_in_its_own_row_and_read_back() {
    let (tags, span) = tags_of(3);
    let mut k = key_feature(&feat(13.404954, 52.520008));
    k.tags = span;
    let mut batch = vec![k];
    resolve_identities(&mut batch).unwrap();
    let row = build_row(&batch[0], &tags);

    let ordinal = batch[0].identity_ordinal.unwrap();
    let got: Vec<(u32, u32)> = facets(&row)
        .into_iter()
        .filter_map(|(_, f)| match f {
            Facet::Tag {
                member, key, value, ..
            } if member == ordinal => Some((key, value)),
            _ => None,
        })
        .collect();
    assert_eq!(
        got,
        tags.span(span),
        "every tag, in order, bound to the feature"
    );

    // Can-stay-silent half: a feature with no tags writes none, so the
    // read above is measuring stored tags rather than always finding some.
    let bare_keyed = Keyed {
        tags: TagSpan::default(),
        ..batch[0]
    };
    let bare = build_row(&bare_keyed, &tags);
    assert_eq!(facets(&bare).len(), 1, "identity only");
}

#[test]
fn the_reserved_slope_slot_is_never_written_by_a_tag() {
    // RESERVE-DON'T-RECLAIM, as a behaviour rather than a comment: packing
    // tags from slot 3 would collide the day a slope facet lands, and the
    // collision would read as a valid slope.
    let (tags, span) = tags_of(TAGS_PER_ROW as u32);
    let mut k = key_feature(&feat(13.404954, 52.520008));
    k.tags = span;
    let mut batch = vec![k];
    resolve_identities(&mut batch).unwrap();
    let row = build_row(&batch[0], &tags);

    let off = slab_offset_of_slot(GEO_SLOPE_SLOT).unwrap();
    assert_eq!(
        row.value[off..off + SLOT_BYTES],
        [0u8; 16],
        "the slope slot must stay dormant even on a full row"
    );
    // …and the row really is full, so the assertion is not passing because
    // there were few tags.
    assert_eq!(facets(&row).len(), 1 + TAGS_PER_ROW);
}

#[test]
fn overflow_splits_into_continuations_that_reassemble_by_ordinal() {
    // Two-sided on the boundary: exactly TAGS_PER_ROW must NOT split, one
    // more must. A test that only checked the splitting half would pass on
    // an implementation that split everything.
    let (_, exact) = tags_of(TAGS_PER_ROW as u32);
    let mut at_bound = vec![Keyed {
        tags: exact,
        ..key_feature(&feat(13.4, 52.5))
    }];
    assert_eq!(
        expand_tag_overflow(&mut at_bound),
        0,
        "a full row must not split"
    );
    assert_eq!(at_bound.len(), 1);

    let n = TAGS_PER_ROW as u32 * 2 + 5;
    let (tags, span) = tags_of(n);
    let mut over = vec![Keyed {
        tags: span,
        ..key_feature(&feat(13.4, 52.5))
    }];
    assert_eq!(
        expand_tag_overflow(&mut over),
        2,
        "three rows, two of them new"
    );
    resolve_identities(&mut over).unwrap();

    // Every row carries the SAME identity, and the union of their tags is
    // the original list with nothing lost or duplicated.
    let ordinals: Vec<Option<u32>> = over.iter().map(|k| k.identity_ordinal).collect();
    assert!(
        ordinals.windows(2).all(|w| w[0] == w[1]),
        "one feature, one ordinal"
    );

    let mut seen: Vec<(u32, u32)> = Vec::new();
    for k in &over {
        assert!(k.tags.len as usize <= TAGS_PER_ROW);
        let row = build_row(k, &tags);
        seen.extend(
            facets(&row)
                .into_iter()
                .filter_map(|(_, f)| match f {
                    Facet::Tag { key, value, .. } => Some((key, value)),
                    Facet::Member { .. } => None,
                }),
        );
    }
    assert_eq!(
        seen,
        tags.span(span),
        "reassembly must be lossless and in order"
    );
    assert_eq!(seen.len(), n as usize);
}

fn junction_at(node_id: i64, lon: f64, lat: f64) -> Junction {
    Junction {
        node_id,
        cell: point_to_cell(lon, lat),
        // Unused by junction_keyed; names are resolved before.
        edge_ways: Vec::new(),
        edge_way_index: Vec::new(),
    }
}

#[test]
fn a_junction_with_no_named_edges_produces_no_row() {
    // Every incident way unnamed (NAME_NONE) is the common case — a
    // service-road junction. It must cost nothing, not a row of zeros.
    let j = junction_at(1, 13.4, 52.5);
    assert!(junction_keyed(&j, &[]).is_empty());
}

#[test]
fn a_junction_within_the_edge_budget_produces_exactly_one_row() {
    let j = junction_at(2, 13.4, 52.5);
    let names = [7u16, 9, 7];
    let rows = junction_keyed(&j, &names);
    assert_eq!(rows.len(), 1);
    assert_eq!(rows[0].edge_names.as_slice(), &names[..]);
    assert_eq!(rows[0].entity_type, OSM_STREET_NODE);
    assert_eq!(rows[0].osm_id, 2);
    assert!(
        rows[0].tags.len == 0,
        "a junction row carries no ordinary tags — its payload is edge_names alone"
    );
}

/// A junction row must be distinguishable from an ordinary node row by
/// the row's own bytes — the whole reason `osm_street_node` (`0x0F0B`)
/// was minted.
///
/// Two-sided, and the second half is what makes it a real falsifier: a
/// junction is ALSO a published OSM node, so both rows carry the same
/// `osm_id`. If the junction kept stamping `OSM_NODE`, `identity_key`
/// would produce the identical string for both, `resolve_identities`
/// would collapse them to ONE ordinal, and nothing on disk would separate
/// them — which is exactly the state that cost 1,084,213 false hits when
/// a reader tried to tell them apart by slot occupancy instead.
#[test]
fn a_junction_row_is_a_street_node_not_a_plain_node() {
    let node_id = 4_242;
    let j = junction_at(node_id, 13.4, 52.5);
    let mut rows = junction_keyed(&j, &[7u16, 9]);
    assert_eq!(rows.len(), 1);
    assert_eq!(
        rows[0].entity_type,
        OSM_STREET_NODE,
        "a junction is the derived concept, not the published node"
    );

    // The same OSM node, keyed as an ordinary node — the collision case.
    let plain = Keyed {
        entity_type: OSM_NODE,
        ..rows[0]
    };
    rows.push(plain);
    resolve_identities(&mut rows).unwrap();
    assert_ne!(
        rows[0].identity_ordinal, rows[1].identity_ordinal,
        "junction and node share an osm_id; only the KIND separates them, \
         so a shared ordinal means the kind is not reaching the codebook"
    );

    // And it survives the round trip through the row's actual bytes:
    // `write_identity` refuses a non-Geo concept, so a green read here
    // also proves `osm_street_node` is a concept the identity slot takes.
    let row = build_row(&rows[0], &no_tags());
    let (kind, _) = read_identity(&row)
        .expect("a junction row must carry a readable identity facet");
    assert_eq!(kind, OSM_STREET_NODE);
}

#[test]
fn a_junction_over_the_edge_budget_splits_into_continuations_sharing_one_identity() {
    // One Berlin junction exceeds EDGE_SLOTS.
    // Two-sided on the boundary, same discipline as the tag-overflow test
    // above: exactly EDGE_SLOTS must NOT split, one more must.
    let j = junction_at(3, 13.4, 52.5);
    let at_bound: Vec<u16> = (1..=EDGE_SLOTS as u16).collect();
    assert_eq!(
        junction_keyed(&j, &at_bound).len(),
        1,
        "a full bucket must not split"
    );

    let over: Vec<u16> = (1..=EDGE_SLOTS as u16 + 3).collect();
    let mut rows = junction_keyed(&j, &over);
    assert_eq!(
        rows.len(),
        2,
        "9 more slots than the budget covers -> 2 rows"
    );
    resolve_identities(&mut rows).unwrap();

    // Same identity key on both — a reader groups them as ONE junction.
    assert_eq!(rows[0].identity_ordinal, rows[1].identity_ordinal);
    assert!(rows[0].identity_ordinal.is_some());

    // Nothing lost, nothing duplicated: the union of both rows' edge
    // names, in order, reproduces the input exactly.
    let mut reassembled: Vec<u16> = Vec::new();
    for r in &rows {
        reassembled.extend_from_slice(r.edge_names.as_slice());
    }
    assert_eq!(reassembled, over);
}

#[test]
fn morton_sort_is_trie_order_and_byte_sort_is_not() {
    // The trap this module's sort key exists to avoid: the tiers are LE
    // u16 inside the GUID, so sorting raw key bytes is NOT cascade order.
    let a = key_feature(&feat(13.404954, 52.520008));
    let b = key_feature(&feat(13.5, 52.6));
    let (lo, hi) = if a.morton < b.morton { (a, b) } else { (b, a) };
    let (rl, rh) = (build_row(&lo, &no_tags()), build_row(&hi, &no_tags()));
    assert!(lo.morton < hi.morton);
    // Byte-lexicographic order over the key does not agree in general;
    // assert we did NOT rely on it by checking the tier tuple instead.
    let t = |r: &NodeRow| {
        let b = r.key.as_bytes();
        (
            u16::from_le_bytes([b[4], b[5]]),
            u16::from_le_bytes([b[6], b[7]]),
        )
    };
    assert!(t(&rl) <= t(&rh), "coarse tiers must be non-decreasing");
}

#[test]
fn identities_number_only_genuine_collisions() {
    // Two distinct places keep identity 0; a repeated place gets 1.
    let mut k = vec![
        key_feature(&feat(13.404954, 52.520008)),
        key_feature(&feat(13.404954, 52.520008)),
        key_feature(&feat(13.5, 52.6)),
    ];
    k.sort_by_key(|x| x.morton);
    let c = assign_identities(&mut k);
    assert_eq!(c, 1, "exactly one collision");
    assert_eq!(k.iter().filter(|x| x.identity == 0).count(), 2);
}
