use osm_soa_bake::tags::{Interner, TagStore};

#[test]
fn interning_is_by_content_and_ids_are_stable() {
    let mut i = Interner::default();
    let a = i.intern("highway");
    let b = i.intern("name");
    assert_eq!(i.intern("highway"), a, "same text, same id");
    assert_ne!(a, b, "different text, different id");
    assert_eq!(i.len(), 2, "no duplicate stored");
}

#[test]
fn the_remap_carries_provisional_ids_onto_sorted_ordinals() {
    // The load-bearing property: a provisional id is first-seen order and
    // an ordinal is sorted order, so they genuinely differ — and the remap
    // must bridge them. Interning in reverse-sorted order makes a
    // remap that quietly returned the identity fail here.
    let mut i = Interner::default();
    let z = i.intern("zebra");
    let a = i.intern("alpha");
    assert_eq!((z, a), (0, 1), "first-seen order");

    let (book, remap) = i.into_codebook().expect("small book");
    assert_eq!(remap[z as usize], book.ordinal("zebra").unwrap());
    assert_eq!(remap[a as usize], book.ordinal("alpha").unwrap());
    assert_ne!(
        remap[z as usize], z,
        "sorted order must differ from first-seen order here"
    );
    assert_eq!(book.key(remap[z as usize]), Some("zebra"));
    assert_eq!(book.key(remap[a as usize]), Some("alpha"));
}

#[test]
fn tags_round_trip_through_the_store_as_text() {
    // Parity in miniature: text in, ordinals stored, the same text out.
    let mut store = TagStore::default();
    let a = store.push(&[("highway", "residential"), ("name", "Alexanderplatz")]);
    let b = store.push(&[("amenity", "cafe")]);
    let empty = store.push(&[]);

    assert_eq!(a.len, 2);
    assert_eq!(b.len, 1);
    assert!(empty.is_empty());
    assert_eq!(store.distinct_keys(), 3);
    assert_eq!(store.distinct_values(), 3);
    assert_eq!(store.pair_count(), 3);

    let resolved = store.resolve().expect("small books");
    let got: Vec<(&str, &str)> = resolved
        .span(a)
        .iter()
        .map(|&p| resolved.text(p).unwrap())
        .collect();
    assert_eq!(
        got,
        vec![("highway", "residential"), ("name", "Alexanderplatz")]
    );
    assert_eq!(
        resolved
            .span(b)
            .iter()
            .map(|&p| resolved.text(p).unwrap())
            .collect::<Vec<_>>(),
        vec![("amenity", "cafe")]
    );
    assert!(resolved.span(empty).is_empty());
}

#[test]
fn a_repeated_value_under_a_different_key_stays_one_value_entry() {
    // The saving that makes the value codebook affordable, and the trap it
    // must not fall into: `building=yes` and `oneway=yes` share the VALUE
    // "yes" but not the key, so the value side must dedupe across keys
    // while the pairs stay distinct.
    let mut store = TagStore::default();
    let a = store.push(&[("building", "yes")]);
    let b = store.push(&[("oneway", "yes")]);
    assert_eq!(store.distinct_keys(), 2);
    assert_eq!(store.distinct_values(), 1, "one \"yes\"");

    let r = store.resolve().unwrap();
    assert_eq!(r.text(r.span(a)[0]), Some(("building", "yes")));
    assert_eq!(r.text(r.span(b)[0]), Some(("oneway", "yes")));
    assert_ne!(
        r.span(a)[0],
        r.span(b)[0],
        "sharing a value must not collapse the pairs"
    );
}

#[test]
fn key_and_value_spaces_are_separate_books() {
    // A single shared book would make `highway` (a key) and `highway` (the
    // value of `route=highway`) one ordinal — reading a row would then be
    // unable to say which side it came from. Same text, two books, two
    // ordinal spaces that are allowed to collide numerically.
    let mut store = TagStore::default();
    let s = store.push(&[("highway", "bus_stop"), ("route", "highway")]);
    let r = store.resolve().unwrap();
    assert_eq!(r.keys.key(0), Some("highway"));
    assert_eq!(r.values.key(0), Some("bus_stop"));
    assert_eq!(r.text(r.span(s)[0]), Some(("highway", "bus_stop")));
    assert_eq!(r.text(r.span(s)[1]), Some(("route", "highway")));
}
