use osm_soa_bake::book::IdentityCodebook;
use osm_soa_bake::codebook::{
    hash_slab, read_books, verify_slab, write_books, BookError, Books, Header, BOOKS, MAGIC,
};
use osm_soa_bake::tms::AnchorRounding;

/// One book as the file holds it: its digest, its length and its entries.
fn write_book(out: &mut Vec<u8>, b: &IdentityCodebook) {
    out.extend_from_slice(&b.digest().to_le_bytes());
    out.extend_from_slice(&(b.len() as u32).to_le_bytes());
    for i in 0..b.len() as u32 {
        let k = b.key(i).unwrap();
        out.extend_from_slice(&(k.len() as u32).to_le_bytes());
        out.extend_from_slice(k.as_bytes());
    }
}

fn book(keys: &[&str]) -> IdentityCodebook {
    IdentityCodebook::try_new(keys.iter().map(|s| (*s).to_string()).collect()).expect("small book")
}

fn head() -> Header {
    Header {
        rows: 7,
        slots_written: 42,
        slab: 0xdead_beef_0bad_f00d,
        rounding: AnchorRounding::HalfUp,
    }
}

fn sample() -> Books {
    Books {
        identities: book(&["0f01:42", "0f02:42", "0f02:7"]),
        tag_keys: book(&["highway", "name"]),
        tag_values: book(&["residential", "Unter den Linden", "café"]),
        labels: book(&["Unter den Linden", "Friedrichstraße"]),
    }
}

#[test]
fn books_round_trip_through_the_file() {
    let want = sample();
    let mut buf = Vec::new();
    write_books(&mut buf, &head(), &want);
    let (gh, got) = read_books(&buf).expect("read");
    assert_eq!(gh, head(), "the header must survive verbatim");

    let pairs = [
        (&want.identities, &got.identities),
        (&want.tag_keys, &got.tag_keys),
        (&want.tag_values, &got.tag_values),
        (&want.labels, &got.labels),
    ];
    for (a, b) in pairs {
        assert_eq!(a.len(), b.len());
        assert_eq!(a.digest(), b.digest());
        for i in 0..a.len() as u32 {
            assert_eq!(a.key(i), b.key(i), "ordinal {i} must resolve identically");
        }
    }
    // Non-ASCII survives byte-for-byte — OSM values are full Unicode and a
    // length-prefixed read that assumed one byte per char would corrupt
    // exactly the names a renderer displays.
    assert_eq!(
        got.tag_values.ordinal("café"),
        want.tag_values.ordinal("café")
    );
    assert!(got.tag_values.ordinal("café").is_some());

    // The fourth book specifically: it must be its OWN address space, not
    // a mirror of tag_values sharing the same ordinal for the same string.
    // Both books happen to contain "Unter den Linden" here, and if the
    // reader accidentally aliased the two books this would still pass —
    // so the discriminating half is that the label book's ordinal space
    // is independently u16-sized, checked by the dedicated test below.
    assert_eq!(got.labels.len(), want.labels.len());
    assert!(got.labels.ordinal("Unter den Linden").is_some());
    assert!(got.labels.ordinal("Friedrichstraße").is_some());
}

#[test]
fn a_stale_three_book_file_is_refused_by_magic_not_silently_misread() {
    // The whole reason for the version bump: a v2 (`\x02`) sidecar has 3
    // books, and a `\x03` reader that ignored the magic and trusted the
    // book count would read book 3 as whatever bytes happen to follow the
    // third book's last entry — a wrong read, not a loud one. Bumping the
    // magic means the file is refused before that can happen at all.
    let three = Books {
        identities: book(&["0f01:1"]),
        tag_keys: book(&["highway"]),
        tag_values: book(&["residential"]),
        labels: book(&["Unter den Linden"]), // never written below
    };
    let mut buf = Vec::new();
    buf.extend_from_slice(b"OSMCBK\0\x02"); // the OLD magic, verbatim
    let h = head();
    buf.extend_from_slice(&h.rows.to_le_bytes());
    buf.extend_from_slice(&h.slots_written.to_le_bytes());
    buf.extend_from_slice(&h.slab.to_le_bytes());
    buf.extend_from_slice(&h.rounding.wire().to_le_bytes());
    buf.extend_from_slice(&3u32.to_le_bytes()); // v2's book count
    for b in [&three.identities, &three.tag_keys, &three.tag_values] {
        write_book(&mut buf, b);
    }
    assert!(
        matches!(read_books(&buf), Err(BookError::Magic(m)) if m == *b"OSMCBK\0\x02"),
        "an old-format sidecar must be named as OUTDATED, not misread as v3"
    );

    // ...paired with the positive: a genuine v3 4-book file still reads,
    // so the refusal is discriminating on the magic, not on book count.
    let mut ok = Vec::new();
    write_books(&mut ok, &head(), &sample());
    assert!(read_books(&ok).is_ok());
}

#[test]
fn a_book_whose_contents_shifted_is_refused_rather_than_read() {
    // THE failure this module exists for. A key inserted early shifts every
    // later ordinal by one, so a slab baked against the old book resolves
    // to a NEIGHBOURING element — valid-looking on both sides, and
    // invisible to verify_bijective. The digest is what catches it.
    let mut buf = Vec::new();
    write_books(&mut buf, &head(), &sample());

    // Rewrite the identity book with one extra early-sorting key, leaving
    // the recorded digest untouched — exactly the drift being guarded.
    let drifted = book(&["0f01:1", "0f01:42", "0f02:42", "0f02:7"]);
    let mut tampered = Vec::new();
    tampered.extend_from_slice(&MAGIC);
    let h = head();
    tampered.extend_from_slice(&h.rows.to_le_bytes());
    tampered.extend_from_slice(&h.slots_written.to_le_bytes());
    tampered.extend_from_slice(&h.slab.to_le_bytes());
    tampered.extend_from_slice(&h.rounding.wire().to_le_bytes());
    tampered.extend_from_slice(&(BOOKS as u32).to_le_bytes());
    tampered.extend_from_slice(&sample().identities.digest().to_le_bytes()); // stale
    tampered.extend_from_slice(&(drifted.len() as u32).to_le_bytes());
    for i in 0..drifted.len() as u32 {
        let k = drifted.key(i).unwrap();
        tampered.extend_from_slice(&(k.len() as u32).to_le_bytes());
        tampered.extend_from_slice(k.as_bytes());
    }

    assert!(
        matches!(
            read_books(&tampered),
            Err(BookError::Digest { book: 0, .. })
        ),
        "a shifted book must be refused"
    );

    // Can-stay-silent half: the untampered file still reads, so the digest
    // check is discriminating rather than rejecting everything.
    assert!(read_books(&buf).is_ok());
}

#[test]
fn a_slab_from_a_different_bake_is_refused() {
    // The WRONG MARRIAGE: both artifacts individually valid, from different
    // bakes. Nothing about either file notices on its own — every ordinal
    // still resolves, to a plausible neighbour.
    let stride = 512usize;
    let slab = vec![7u8; stride * 3];
    let h = Header {
        rows: 3,
        slots_written: 9,
        slab: hash_slab(&slab),
        rounding: AnchorRounding::HalfUp,
    };
    assert!(
        verify_slab(&h, &slab, stride).is_ok(),
        "its own slab passes"
    );

    // One byte different: same length, same row count, different bake.
    let mut other = slab.clone();
    other[stride] ^= 1;
    assert!(matches!(
        verify_slab(&h, &other, stride),
        Err(BookError::SlabMismatch {
            field: "digest",
            ..
        })
    ));

    // A different row count is caught before the digest is even computed.
    let short = vec![7u8; stride * 2];
    assert!(matches!(
        verify_slab(&h, &short, stride),
        Err(BookError::SlabMismatch {
            field: "row count",
            ..
        })
    ));
}

#[test]
fn an_unknown_rounding_rule_is_refused_not_defaulted() {
    // A reader that silently assumed half-up would reproduce derived
    // anchors WRONG for a bake made under any other rule, and every one of
    // them would still look like a valid cell.
    assert_eq!(
        AnchorRounding::from_wire(0),
        None,
        "unspecified is not a rule"
    );
    assert_eq!(AnchorRounding::from_wire(99), None);
    assert_eq!(
        AnchorRounding::from_wire(AnchorRounding::HalfUp.wire()),
        Some(AnchorRounding::HalfUp),
        "…and the rule in force round-trips, so the refusal discriminates"
    );

    let mut buf = Vec::new();
    write_books(&mut buf, &head(), &sample());
    // Zero the rounding field in place: byte offset 8 + 8 + 8 + 8.
    buf[32..36].copy_from_slice(&0u32.to_le_bytes());
    assert!(matches!(
        read_books(&buf),
        Err(BookError::Rounding(0))
    ));
}

#[test]
fn a_foreign_or_truncated_file_is_refused() {
    assert!(matches!(
        read_books(b"not-a-book".as_slice()),
        Err(BookError::Magic(_))
    ));

    let mut buf = Vec::new();
    write_books(&mut buf, &head(), &sample());
    // Every truncation point must refuse — a short read that silently
    // yielded a partial book would hand back ordinals addressing nothing.
    for cut in [8usize, 20, 36, 40, 48, 56] {
        assert!(
            read_books(&buf[..cut.min(buf.len())]).is_err(),
            "truncation at {cut} must be refused"
        );
    }
    // …and the whole file is fine, so the loop is not passing vacuously.
    assert!(read_books(&buf).is_ok());
}
