use osm_soa_bake::chains::{decode_chain, read_chains_header, write_chains, ChainError, Chains};
use osm_soa_bake::tms::TileXy;

fn c(x: u32, y: u32) -> TileXy {
    TileXy { x, y_xyz: y }
}

/// A ring that walks all four delta-sign quadrants, so zigzag is exercised
/// on genuinely negative steps — a monotone fixture would pass with plain
/// (wrong) unsigned deltas too.
fn ring() -> Vec<TileXy> {
    vec![
        c(1_000_000, 2_000_000),
        c(1_000_500, 2_000_010),
        c(1_000_490, 2_000_600),
        c(999_900, 2_000_580),
        c(999_910, 2_000_005),
        c(1_000_000, 2_000_000),
    ]
}

fn build(chains: Vec<(u32, Vec<TileXy>)>) -> Vec<u8> {
    let mut chains = chains;
    let mut buf = Vec::new();
    write_chains(&mut buf, 0xDEAD_BEEF_CAFE_F00D, &mut chains).expect("write");
    buf
}

#[test]
fn roundtrip_is_exact_including_negative_deltas() {
    let buf = build(vec![(7, ring()), (42, vec![c(5, 5)]), (100, ring())]);
    let ch = Chains::from_bytes(buf).expect("parse");
    assert_eq!(ch.slab_digest(), 0xDEAD_BEEF_CAFE_F00D);
    assert_eq!(ch.len(), 3);
    // Exact equality — integer cells, no tolerance.
    assert_eq!(ch.get(7).unwrap().unwrap(), ring());
    assert_eq!(ch.get(42).unwrap().unwrap(), vec![c(5, 5)]);
    assert_eq!(ch.get(100).unwrap().unwrap(), ring());
    // Anti-vacuity: the fixture really does step negatively on both axes.
    let r = ring();
    assert!(r.windows(2).any(|w| w[1].x < w[0].x));
    assert!(r.windows(2).any(|w| w[1].y_xyz < w[0].y_xyz));
}

/// `read_chains_header` must agree with `Chains::from_bytes`'s own
/// parsed fields exactly: a
/// caller uses it as a cheap stand-in for the digest check of a full open.
#[test]
fn read_chains_header_agrees_with_from_bytes() {
    let buf = build(vec![(7, ring()), (100, vec![c(1, 1)])]);
    let full = Chains::from_bytes(buf.clone()).expect("from_bytes");

    let (slab_digest, count, blob_len) =
        read_chains_header(&buf).expect("read_chains_header");
    assert_eq!(slab_digest, full.slab_digest());
    assert_eq!(count, full.len());
    assert_eq!(blob_len, full.blob_len());
}

/// The falsifier that actually matters: it must succeed on a source
/// truncated right after the 24-byte header — proving it never reads the
/// index or blob. `Chains::from_bytes` on the same truncated bytes must
/// fail, which is the contrast that shows this is doing meaningfully
/// less work, not just wrapping the same call.
#[test]
fn read_chains_header_never_reads_past_the_header_even_when_truncated() {
    let full = build(vec![(7, ring()), (100, vec![c(1, 1)])]);
    assert!(
        full.len() > 24,
        "fixture must actually have body bytes past the header"
    );
    let truncated = &full[..24];

    let (slab_digest, count, blob_len) =
        read_chains_header(truncated).expect("header-only read must succeed");
    assert_eq!(slab_digest, 0xDEAD_BEEF_CAFE_F00D);
    assert_eq!(count, 2);
    assert!(blob_len > 0);

    let err = Chains::from_bytes(truncated.to_vec()).err().expect("full parse must fail");
    assert_eq!(err, ChainError::Truncated);
}

/// A short source (fewer than 24 bytes) must report `Truncated`, not
/// panic or silently return zeroed fields.
#[test]
fn read_chains_header_reports_truncated_on_a_too_short_source() {
    let short = [0u8; 10];
    let err = read_chains_header(&short[..]).expect_err("must fail");
    assert_eq!(err, ChainError::Truncated);
}

/// A malformed magic must be refused identically by both readers — the
/// cheap path must not accept what the full path would reject.
#[test]
fn read_chains_header_rejects_bad_magic_the_same_way_from_bytes_does() {
    let mut buf = build(vec![(7, ring())]);
    buf[0] = b'X';

    let full_err = Chains::from_bytes(buf.clone()).err().expect("full parse must reject");
    let header_err =
        read_chains_header(&buf).expect_err("header read must reject");
    assert_eq!(full_err, ChainError::BadMagic);
    assert_eq!(header_err, ChainError::BadMagic);
}

/// `iter()` must yield every stored ordinal, in ascending order, and its
/// raw bytes must decode to EXACTLY what `get()` returns for that same
/// ordinal — proving the zero-copy slice and the decode-on-demand path
/// agree, not just that both compile.
#[test]
fn iter_yields_raw_records_that_decode_to_the_same_chains_as_get() {
    let ch = Chains::from_bytes(build(vec![(100, ring()), (7, vec![c(5, 5)]), (42, ring())]))
        .unwrap();

    let collected: Vec<(u32, Vec<TileXy>)> = ch
        .iter()
        .into_iter()
        .map(|(ordinal, raw)| (ordinal, decode_chain(raw).expect("decode")))
        .collect();

    // Ascending storage order (write_chains sorts by ordinal), not
    // insertion order — the anti-vacuity check that iter() isn't just
    // echoing the input Vec unchanged.
    assert_eq!(
        collected.iter().map(|(o, _)| *o).collect::<Vec<_>>(),
        vec![7, 42, 100]
    );
    assert_eq!(collected[0].1, vec![c(5, 5)]);
    assert_eq!(collected[1].1, ring());
    assert_eq!(collected[2].1, ring());

    // And each entry matches get() for the same ordinal — two different
    // read paths over the same stored bytes must agree.
    for (ordinal, decoded) in &collected {
        assert_eq!(ch.get(*ordinal).unwrap().as_ref(), Some(decoded));
    }
}

/// Empty sidecar: iter() must yield nothing, not panic on an empty
/// index/blob.
#[test]
fn iter_on_an_empty_chains_file_yields_nothing() {
    let ch = Chains::from_bytes(build(vec![])).unwrap();
    assert_eq!(ch.iter().len(), 0);
}

#[test]
fn absent_ordinal_is_none_not_an_error() {
    let ch = Chains::from_bytes(build(vec![(7, ring())])).unwrap();
    assert_eq!(ch.get(6).unwrap(), None);
    assert_eq!(ch.get(8).unwrap(), None);
}

#[test]
fn duplicate_ordinal_is_refused_at_write() {
    let mut chains = vec![(7, ring()), (7, vec![c(1, 1)])];
    let mut buf = Vec::new();
    assert!(write_chains(&mut buf, 1, &mut chains).is_err());
}

/// Can-fire half of the falsifier: corrupt one payload byte and the decode
/// must CHANGE or FAIL — never silently return the original chain. Without
/// this, the roundtrip test cannot distinguish a working codec from one
/// that ignores its input.
#[test]
fn a_corrupted_record_does_not_decode_to_the_original() {
    let buf = build(vec![(7, ring())]);
    let ch = Chains::from_bytes(buf.clone()).unwrap();
    let good = ch.get(7).unwrap().unwrap();
    let blob_at = ch.blob_at();
    let mut evil = buf;
    evil[blob_at + 3] ^= 0x55; // inside the first record's varints
    match Chains::from_bytes(evil).unwrap().get(7) {
        Err(_) => {}                                    // loud failure: fine
        Ok(decoded) => assert_ne!(decoded, Some(good)), // or a different chain
    }
}

#[test]
fn structural_violations_are_loud() {
    assert_eq!(
        Chains::from_bytes(b"NOTCHAIN".to_vec()).err().unwrap(),
        ChainError::BadMagic
    );
    let mut buf = build(vec![(7, ring())]);
    buf.truncate(30);
    assert_eq!(Chains::from_bytes(buf).err().unwrap(), ChainError::Truncated);
}

#[test]
fn a_chains_file_tells_its_shape_and_never_its_bytes() {
    let mut buf = Vec::new();
    let mut chains = vec![(1, vec![c(1, 1)]), (2, vec![c(9, 9)])];
    write_chains(&mut buf, 0xBEEF, &mut chains).expect("write");
    let ch = Chains::from_bytes(buf).expect("parse");
    let want = format!(
        "Chains {{ slab_digest: 000000000000beef, count: 2, blob_len: {}, .. }}",
        ch.blob_len()
    );
    assert_eq!(ch.shape(), want);
}
