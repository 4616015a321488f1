use osm_soa_bake::access::{access_from_tags, RestrictionMask, ACCESS_BIKE};
use osm_soa_bake::book::{text_before, CodebookError, IdentityCodebook};
use osm_soa_bake::chains::{decode_chain, encode_chain, write_chains, ChainError, Chains};
use osm_soa_bake::codebook::{
    hash_slab, read_books, write_books, BookError, Books, Header, SlabHasher, MAGIC,
};
use osm_soa_bake::facet::{IdentityQuad, MAX_ORDINAL};
use osm_soa_bake::fragment::BoundaryIndex;
use osm_soa_bake::lance_abi::AbiError;
use osm_soa_bake::mask::WideFieldMask;
use osm_soa_bake::read::{anchor_members, is_routable, Member, MemberKind, RawMember};
use osm_soa_bake::row::{element_key, element_of_key};
use osm_soa_bake::slab::SlabError;
use osm_soa_bake::tags::Interner;
use osm_soa_bake::text::{has_prefix, one_of, push_decimal, push_hex, push_signed, tag};
use osm_soa_bake::tms::{AnchorRounding, TileXy};
use osm_soa_bake::varint::{get_varint, put_varint, unzigzag, varint_len, zigzag};
use osm_soa_bake::vocab::{geo_identity_classid, OSM_NODE, OSM_STREET_NODE};

fn book(keys: &[&str]) -> IdentityCodebook {
    IdentityCodebook::try_new(keys.iter().map(|s| (*s).to_string()).collect()).expect("small book")
}

fn sidecar() -> Vec<u8> {
    let header = Header {
        rows: 1,
        slots_written: 2,
        slab: 3,
        rounding: AnchorRounding::HalfUp,
    };
    let books = Books {
        identities: book(&["0f01:1"]),
        tag_keys: book(&["k"]),
        tag_values: book(&["v"]),
        labels: book(&[]),
    };
    let mut out = Vec::new();
    write_books(&mut out, &header, &books);
    out
}

#[test]
fn varints_have_exact_bytes() {
    let wire = |v| {
        let mut out = Vec::new();
        put_varint(&mut out, v);
        out
    };
    assert_eq!(wire(0), vec![0]);
    assert_eq!(wire(127), vec![127]);
    assert_eq!(wire(128), vec![0x80, 1]);
    assert_eq!(wire(300), vec![0xac, 2]);
    assert_eq!(wire(u64::MAX).len(), 10);
    for v in [0, 1, 127, 128, 16_383, 16_384, u64::MAX] {
        let w = wire(v);
        assert_eq!(varint_len(v), w.len());
        assert_eq!(get_varint(&w, 0), Some((v, w.len())));
        assert_eq!(get_varint(&w[..w.len() - 1], 0), None, "cut short");
    }
    // Ten bytes whose value does not fit.
    let mut over = vec![0xff; 9];
    over.push(2);
    assert_eq!(get_varint(&over, 0), None);
    assert_eq!(zigzag(0), 0);
    assert_eq!(zigzag(-1), 1);
    assert_eq!(zigzag(1), 2);
    assert_eq!(zigzag(i64::MIN), u64::MAX);
    for v in [0, 5, -5, i64::MAX, i64::MIN] {
        assert_eq!(unzigzag(zigzag(v)), v);
    }
}

#[test]
fn every_chain_error_has_its_input() {
    let c = |x, y_xyz| TileXy { x, y_xyz };
    let mut buf = Vec::new();
    let mut chains = vec![(1, vec![c(1, 1), c(2, 2)]), (2, vec![c(9, 9)])];
    write_chains(&mut buf, 5, &mut chains).expect("write");

    let mut twice = vec![(1, vec![c(1, 1)]), (1, vec![c(2, 2)])];
    assert_eq!(
        write_chains(&mut Vec::new(), 5, &mut twice),
        Err(ChainError::DuplicateOrdinal)
    );

    let mut bad = buf.clone();
    bad[7] = b'9';
    assert_eq!(Chains::from_bytes(bad).err().unwrap(), ChainError::BadMagic);
    assert_eq!(
        Chains::from_bytes(buf[..buf.len() - 1].to_vec()).err().unwrap(),
        ChainError::Truncated
    );
    // The second index entry takes the ordinal of the first.
    let mut order = buf.clone();
    order[36] = 1;
    assert_eq!(
        Chains::from_bytes(order).err().unwrap(),
        ChainError::IndexNotAscending
    );
    // The second index entry points behind the blob.
    let mut outside = buf.clone();
    outside[47] = 0x7f;
    assert_eq!(
        Chains::from_bytes(outside).err().unwrap(),
        ChainError::IndexOutOfBounds
    );

    assert_eq!(decode_chain(&[0x80]), Err(ChainError::BadVarint));
    assert_eq!(decode_chain(&[]), Err(ChainError::BadVarint));
    // One step west of the first column.
    let mut rec = Vec::new();
    encode_chain(&mut rec, &[c(0, 0), c(1, 0)]);
    assert_eq!(decode_chain(&rec), Ok(vec![c(0, 0), c(1, 0)]));
    rec[3] = 1;
    assert_eq!(decode_chain(&rec), Err(ChainError::DeltaOverflow));
    assert_eq!(decode_chain(&[0]), Ok(vec![]));
}

#[test]
fn every_book_error_has_its_input() {
    let good = sidecar();
    let (header, books) = read_books(&good).expect("read");
    assert_eq!(header.slots_written, 2);
    assert!(books.labels.is_empty());

    let mut bad = good.clone();
    bad[0] = b'X';
    let mut magic = MAGIC;
    magic[0] = b'X';
    assert_eq!(read_books(&bad).unwrap_err(), BookError::Magic(magic));

    let mut bad = good.clone();
    bad[32] = 9;
    assert_eq!(read_books(&bad).unwrap_err(), BookError::Rounding(9));

    let mut bad = good.clone();
    bad[36] = 3;
    assert_eq!(read_books(&bad).unwrap_err(), BookError::BookCount(3));

    assert_eq!(
        read_books(&good[..good.len() - 1]).unwrap_err(),
        BookError::Truncated
    );

    // The first text, made something that is not text.
    let mut bad = good.clone();
    let at = 40 + 8 + 4 + 4;
    assert_eq!(&bad[at..at + 6], b"0f01:1");
    bad[at] = 0xff;
    assert_eq!(read_books(&bad).unwrap_err(), BookError::Utf8);

    // The first text, made another one.
    let mut bad = good.clone();
    bad[at + 5] = b'2';
    assert_eq!(
        read_books(&bad).unwrap_err(),
        BookError::Digest {
            book: 0,
            recorded: book(&["0f01:1"]).digest(),
            rebuilt: book(&["0f01:2"]).digest(),
        }
    );

    // A book that holds one text twice.
    let mut bad = good[..40].to_vec();
    bad.extend_from_slice(&0u64.to_le_bytes());
    bad.extend_from_slice(&2u32.to_le_bytes());
    for _ in 0..2 {
        bad.extend_from_slice(&1u32.to_le_bytes());
        bad.push(b'a');
    }
    assert_eq!(
        read_books(&bad).unwrap_err(),
        BookError::Codebook(CodebookError::Duplicate)
    );
}

#[test]
fn errors_say_what_happened() {
    assert_eq!(
        BookError::Magic([1, 2, 3, 4, 5, 6, 7, 255]).message(),
        format!(
            "not a codebook file (magic {:?})",
            [1, 2, 3, 4, 5, 6, 7, 255]
        )
    );
    assert_eq!(
        BookError::BookCount(3).message(),
        "expected 4 books, found 3"
    );
    assert_eq!(
        BookError::Digest {
            book: 2,
            recorded: 0xdead,
            rebuilt: 0xbeef,
        }
        .message(),
        format!(
            "book 2 digest mismatch: recorded {:016x}, rebuilt {:016x} — the slab's ordinals do \
             not address this book",
            0xdead, 0xbeef
        )
    );
    assert_eq!(BookError::Utf8.message(), "a key is not valid UTF-8");
    assert_eq!(BookError::Truncated.message(), "file ended mid-record");
    assert_eq!(
        BookError::Codebook(CodebookError::Duplicate).message(),
        "codebook: Duplicate"
    );
    assert_eq!(
        BookError::Rounding(7).message(),
        "unknown anchor-rounding rule 7 — refused, not defaulted"
    );
    assert_eq!(
        BookError::SlabMismatch {
            field: "row count",
            recorded: 3,
            actual: 2,
        }
        .message(),
        "slab row count mismatch: sidecar records 3, slab has 2 — these two artifacts are not \
         from the same bake"
    );
    let wrong = AbiError::WrongType {
        got: "Int64".to_string(),
    };
    assert!(wrong.message().contains("Int64"));
    let slab = AbiError::Slab(SlabError::NotRowAligned { len: 700 });
    assert!(slab.message().contains("700"));
}

#[test]
fn the_digest_can_be_eaten_in_pieces() {
    let bytes: Vec<u8> = (0..=255).collect();
    let mut h = SlabHasher::new();
    h.eat(&bytes[..100]);
    h.eat(&[]);
    h.eat(&bytes[100..]);
    assert_eq!(h.finish(), hash_slab(&bytes));
    assert_eq!(hash_slab(&[]), 0xcbf2_9ce4_8422_2325);
    assert_eq!(hash_slab(b"a"), 0xaf63_dc4c_8601_ec8c);
}

#[test]
fn books_are_sorted_and_refuse_doubles() {
    let b = book(&["b", "a", "ä", "aa"]);
    let keys: Vec<Option<&str>> = (0..5).map(|i| b.key(i)).collect();
    assert_eq!(keys, vec![Some("a"), Some("aa"), Some("b"), Some("ä"), None]);
    assert_eq!(b.ordinal("b"), Some(2));
    assert_eq!(b.ordinal("c"), None);
    assert!(text_before("Z", "a") && !text_before("b", "a"));
    let twice = vec!["x".to_string(), "x".to_string()];
    assert_eq!(
        IdentityCodebook::try_new(twice).unwrap_err(),
        CodebookError::Duplicate
    );
}

#[test]
fn a_quad_tells_absent_from_zero() {
    let q = IdentityQuad::empty();
    assert_eq!(q.filled(), 0);
    let q = q.with_slot(1, Some(0)).expect("fits");
    assert_eq!((q.slot(0), q.slot(1)), (None, Some(0)));
    let q = q.with_slot(1, None).expect("cleared");
    assert_eq!(q.filled(), 0);
    assert!(q.with_slot(4, Some(1)).is_none());
    assert!(q.with_slot(0, Some(MAX_ORDINAL + 1)).is_none());
    assert_eq!(geo_identity_classid(OSM_NODE), Some(0x0F01_1000));
    assert_eq!(geo_identity_classid(OSM_STREET_NODE + 1), None);
}

#[test]
fn masks_hold_every_position() {
    let m = WideFieldMask::from_positions(&[0, 63, 64, 255]);
    assert_eq!(m.count(), 4);
    for p in [0, 63, 64, 255] {
        assert!(m.has(p));
    }
    assert!(!m.has(1) && !m.has(65));
    assert_eq!(WideFieldMask::full_for(300).count(), 256);
    let both = m.intersect(&WideFieldMask::full_for(64));
    assert_eq!(both.count(), 2);
}

#[test]
fn a_range_starts_at_its_own_fragment() {
    let index = BoundaryIndex::new(vec![0, 100]).expect("sorted");
    assert_eq!(index.locate_range(100, 101), 1..2);
    assert_eq!(index.locate_range(99, 101), 0..2);
    assert!(BoundaryIndex::default().is_empty());
    assert_eq!(BoundaryIndex::default().locate(7), None);
}

#[test]
fn a_key_that_fills_fragments_is_found_in_all_of_them() {
    let index = BoundaryIndex::new(vec![10, 10, 30]).expect("sorted");
    assert_eq!(index.locate_range(10, 11), 0..2);
    assert_eq!(index.locate_range(5, 11), 0..2);
    assert_eq!(index.locate_range(11, 30), 1..2);
    assert_eq!(index.locate_range(11, 31), 1..3);
    assert_eq!(index.locate_range(30, 31), 2..3);
    assert_eq!(index.locate_range(40, 50), 2..3);
    // Nothing starts before the end of the interval.
    assert_eq!(index.locate_range(0, 10), 0..0);
}

#[test]
fn texts_are_written_and_found() {
    let mut s = String::new();
    push_decimal(&mut s, 0);
    push_signed(&mut s, i64::MIN);
    push_hex(&mut s, 0xab, 4);
    assert_eq!(s, "0-922337203685477580800ab");
    assert!(has_prefix("restriction:hgv", "restriction"));
    assert!(!has_prefix("restrict", "restriction"));
    assert!(one_of("b", &["a", "b"]) && !one_of("c", &["a", "b"]));
    let tags = [("k", "1"), ("k", "2")];
    assert_eq!(tag(&tags, "k"), Some("1"), "the first one counts");
    assert_eq!(tag(&tags, "q"), None);
    let mut i = Interner::default();
    assert!(i.is_empty());
    assert_eq!((i.intern("é"), i.intern("e"), i.intern("é")), (0, 1, 0));
}

#[test]
fn members_are_nodes_and_ways_and_a_via_is_a_role() {
    let m = |kind, id, role| RawMember { kind, id, role };
    let got = anchor_members(&[
        m(MemberKind::Relation, 1, Some("via")),
        m(MemberKind::Way, 2, Some("from")),
        m(MemberKind::Node, 3, Some("via")),
        m(MemberKind::Node, 4, None),
    ]);
    let want = |is_node, id, via| Member { is_node, id, via };
    assert_eq!(
        got,
        vec![want(false, 2, false), want(true, 3, true), want(true, 4, false)]
    );
    assert!(is_routable(&[("highway", "residential")]));
    assert!(!is_routable(&[("highway", "platform")]));
    assert!(!is_routable(&[("building", "yes")]));
}

#[test]
fn a_specific_tag_wins_wherever_it_stands() {
    let after = access_from_tags(&[("access", "no"), ("bicycle", "yes")]);
    let before = access_from_tags(&[("bicycle", "yes"), ("access", "no")]);
    assert_eq!(after, ACCESS_BIKE);
    assert_eq!(before, ACCESS_BIKE);
    let m = RestrictionMask::empty().with_forbidden(1, 2);
    assert_eq!(m.to_bytes(), (1u64 << 10).to_le_bytes());
}

#[test]
fn a_key_names_its_element_and_nothing_else_does() {
    for (kind, id) in [
        (0x0F01, 42),
        (0x0F02, 0),
        (0, -1),
        (u16::MAX, i64::MAX),
        (1, i64::MIN),
    ] {
        let key = element_key(kind, id);
        assert_eq!(key, format!("{kind:04x}:{id}"));
        assert_eq!(element_of_key(&key), Some((kind, id)));
    }
    for text in [
        "",
        "0f01",
        "0f01:",
        "0F01:42",
        "0f01:+42",
        "0f01:042",
        "0f01:-0",
        "0f01-42",
        "0f01:4x",
        "f01:42",
        "0f01:9223372036854775808",
        "0f01:99999999999999999999999",
    ] {
        assert_eq!(element_of_key(text), None, "{text}");
    }
}
