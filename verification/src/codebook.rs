//! The bake's codebooks, written beside its slab.
//!
//! A row stores ordinals, and an ordinal means nothing without the book that
//! assigned it. The sidecar holds the four books and says which slab they belong
//! to; a book that does not reproduce its recorded digest, and a slab that the
//! header does not describe, are refused.
//!
//! ```text
//! magic     8  OSMCBK, 0, 3
//! rows      8  rows the bake wrote
//! slots     8  facet slots the bake filled
//! slab      8  digest of the slab
//! rounding  4  anchor rounding rule; 0 is refused
//! books     4  always 4 (identities, tag keys, tag values, labels)
//! per book:
//!   digest  8  digest of the entries that follow
//!   count   4
//!   per entry: byte length (4), UTF-8 bytes
//! ```

use crate::book::{
    book_digest, entries_wire, entry_wire, fnv, fnv_eat, is_book_of, law_book_is_unique,
    law_fnv_streams, lemma_ascending_distinct, strictly_ascending, texts_of, CodebookError,
    IdentityCodebook, FNV_OFFSET,
};
use crate::bytes::{
    copy_range, le_at, le_bytes, lemma_le_bytes_len, lemma_le_round_trip, lemma_pow256_widths,
    push_slice, push_u32, push_u64, read_u32, read_u64,
};
use crate::facet::MAX_ENTRIES;
use crate::text::utf8_string;
use crate::tms::{rounding_wire, AnchorRounding};
use vstd::prelude::*;
use vstd::utf8::*;

verus! {

// ── The slab digest ─────────────────────────────────────────────────
/// The digest of a slab: FNV-1a over its bytes. A pairing check, not a seal.
pub fn hash_slab(bytes: &[u8]) -> (d: u64)
    ensures
        d == fnv(FNV_OFFSET, bytes@),
{
    let mut h: SlabHasher = SlabHasher::new();
    h.eat(bytes);
    h.finish()
}

/// Streaming form of [`hash_slab`].
#[derive(Debug, Clone, Copy, PartialEq, Eq, Structural)]
pub struct SlabHasher {
    state: u64,
}

impl Default for SlabHasher {
    fn default() -> (h: Self)
        ensures
            h@ == FNV_OFFSET,
    {
        SlabHasher { state: FNV_OFFSET }
    }
}

impl SlabHasher {
    /// The running state.
    pub closed spec fn view(&self) -> u64 {
        self.state
    }

    /// A hasher that has seen nothing.
    pub fn new() -> (h: Self)
        ensures
            h@ == FNV_OFFSET,
    {
        SlabHasher { state: FNV_OFFSET }
    }

    /// Feeds bytes.
    pub fn eat(&mut self, bytes: &[u8])
        ensures
            final(self)@ == fnv(old(self)@, bytes@),
    {
        self.state = fnv_eat(self.state, bytes);
    }

    /// The digest of everything fed.
    pub fn finish(self) -> (d: u64)
        ensures
            d == self@,
    {
        self.state
    }
}

/// Feeding a slab piece by piece gives the digest of the whole.
pub proof fn law_streaming_digest(a: Seq<u8>, b: Seq<u8>)
    ensures
        fnv(fnv(FNV_OFFSET, a), b) == fnv(FNV_OFFSET, a + b),
{
    law_fnv_streams(FNV_OFFSET, a, b);
}

// ── The sidecar ─────────────────────────────────────────────────────
/// What the bake says of the slab that a sidecar belongs to.
#[derive(Debug, Clone, Copy, PartialEq, Eq, Structural)]
pub struct Header {
    /// Rows the bake wrote.
    pub rows: u64,
    /// Facet slots the bake filled.
    pub slots_written: u64,
    /// Digest of those rows.
    pub slab: u64,
    /// The rule that derived anchors were rounded with.
    pub rounding: AnchorRounding,
}

/// File magic and format version.
pub const MAGIC: [u8; 8] = [0x4f, 0x53, 0x4d, 0x43, 0x42, 0x4b, 0x00, 0x03];

/// Books in the file, in order: identities, tag keys, tag values, labels.
pub const BOOKS: usize = 4;

/// What went wrong reading a sidecar.
#[derive(Debug, Clone, Copy, PartialEq, Eq)]
pub enum BookError {
    /// Not a codebook file, or a version that this reader does not know.
    Magic([u8; 8]),
    /// The header does not count four books.
    BookCount(u32),
    /// A text is not UTF-8.
    Utf8,
    /// The file ended inside a record.
    Truncated,
    /// A book does not reproduce its recorded digest: the slab's ordinals do not
    /// address this book.
    Digest { book: usize, recorded: u64, rebuilt: u64 },
    /// The texts make no book.
    Codebook(CodebookError),
    /// The header names no rounding rule that this reader knows. Refused, never
    /// defaulted.
    Rounding(u32),
    /// The slab is not the one that the sidecar describes.
    SlabMismatch { field: &'static str, recorded: u64, actual: u64 },
}

/// The four books of a bake.
#[derive(Debug)]
pub struct Books {
    pub identities: IdentityCodebook,
    pub tag_keys: IdentityCodebook,
    pub tag_values: IdentityCodebook,
    /// Street names, numbered apart from the tag values.
    pub labels: IdentityCodebook,
}

/// The texts of four books.
pub struct BookTexts {
    pub identities: Seq<Seq<char>>,
    pub tag_keys: Seq<Seq<char>>,
    pub tag_values: Seq<Seq<char>>,
    pub labels: Seq<Seq<char>>,
}

/// One book on the wire.
pub open spec fn book_wire(book: Seq<Seq<char>>) -> Seq<u8> {
    le_bytes(book_digest(book) as nat, 8) + (le_bytes(book.len(), 4) + entries_wire(book))
}

/// The header on the wire.
pub open spec fn header_wire(h: Header) -> Seq<u8> {
    MAGIC@ + (le_bytes(h.rows as nat, 8) + (le_bytes(h.slots_written as nat, 8) + (le_bytes(
        h.slab as nat,
        8,
    ) + (le_bytes(rounding_wire(h.rounding) as nat, 4) + le_bytes(4, 4)))))
}

/// The whole file.
pub open spec fn sidecar(h: Header, t: BookTexts) -> Seq<u8> {
    header_wire(h) + (book_wire(t.identities) + (book_wire(t.tag_keys) + (book_wire(t.tag_values)
        + book_wire(t.labels))))
}

/// Whether the length of every text fits its field.
pub open spec fn lengths_fit(book: Seq<Seq<char>>) -> bool {
    forall|i: int| 0 <= i < book.len() ==> encode_utf8(#[trigger] book[i]).len() <= u32::MAX
}

impl Books {
    /// The texts of the books.
    pub open spec fn texts(&self) -> BookTexts {
        BookTexts {
            identities: self.identities@,
            tag_keys: self.tag_keys@,
            tag_values: self.tag_values@,
            labels: self.labels@,
        }
    }
}

/// Whether every length of four books fits.
pub open spec fn all_lengths_fit(t: BookTexts) -> bool {
    lengths_fit(t.identities) && lengths_fit(t.tag_keys) && lengths_fit(t.tag_values)
        && lengths_fit(t.labels)
}

fn write_book(w: &mut Vec<u8>, book: &IdentityCodebook)
    ensures
        final(w)@ == old(w)@ + book_wire(book@),
{
    push_u64(w, book.digest());
    push_u32(w, book.len() as u32);
    let e: Vec<u8> = book.entries();
    push_slice(w, e.as_slice());
    assert(w@ =~= old(w)@ + book_wire(book@));
}

/// Appends the sidecar to `w`.
pub fn write_books(w: &mut Vec<u8>, header: &Header, books: &Books)
    requires
        all_lengths_fit(books.texts()),
    ensures
        final(w)@ == old(w)@ + sidecar(*header, books.texts()),
{
    push_slice(w, MAGIC.as_slice());
    push_u64(w, header.rows);
    push_u64(w, header.slots_written);
    push_u64(w, header.slab);
    push_u32(w, header.rounding.wire());
    push_u32(w, BOOKS as u32);
    assert(w@ =~= old(w)@ + header_wire(*header));
    write_book(w, &books.identities);
    write_book(w, &books.tag_keys);
    write_book(w, &books.tag_values);
    write_book(w, &books.labels);
    assert(w@ =~= old(w)@ + sidecar(*header, books.texts()));
}

// ── Reading ─────────────────────────────────────────────────────────
/// The `n` texts that stand at `pos`, and the offset behind them.
pub open spec fn keys_at(b: Seq<u8>, pos: int, n: nat) -> Result<(Seq<Seq<char>>, int), BookError>
    decreases n,
{
    if n == 0 {
        Ok((Seq::empty(), pos))
    } else if pos + 4 > b.len() || pos + 4 + le_at(b, pos, 4) > b.len() {
        Err(BookError::Truncated)
    } else {
        let end = pos + 4 + le_at(b, pos, 4);
        let text = b.subrange(pos + 4, end);
        if !valid_utf8(text) {
            Err(BookError::Utf8)
        } else {
            match keys_at(b, end, (n - 1) as nat) {
                Ok((rest, stop)) => Ok((seq![decode_utf8(text)] + rest, stop)),
                Err(e) => Err(e),
            }
        }
    }
}

/// The book of a list of distinct texts.
pub open spec fn the_book(keys: Seq<Seq<char>>) -> Seq<Seq<char>> {
    choose|book: Seq<Seq<char>>| is_book_of(book, keys)
}

/// The book that stands at `pos`, and the offset behind it.
pub open spec fn book_at(b: Seq<u8>, pos: int, index: usize) -> Result<
    (Seq<Seq<char>>, int),
    BookError,
> {
    if pos + 12 > b.len() {
        Err(BookError::Truncated)
    } else {
        match keys_at(b, pos + 12, le_at(b, pos + 8, 4)) {
            Err(e) => Err(e),
            Ok((keys, end)) => if keys.len() > MAX_ENTRIES {
                Err(BookError::Codebook(CodebookError::TooLarge))
            } else if !keys.no_duplicates() {
                Err(BookError::Codebook(CodebookError::Duplicate))
            } else if book_digest(the_book(keys)) != le_at(b, pos, 8) {
                Err(
                    BookError::Digest {
                        book: index,
                        recorded: le_at(b, pos, 8) as u64,
                        rebuilt: book_digest(the_book(keys)),
                    },
                )
            } else {
                Ok((the_book(keys), end))
            },
        }
    }
}

/// The four books that stand at `pos`, one behind the other.
pub open spec fn books_at(b: Seq<u8>, pos: int) -> Result<BookTexts, BookError> {
    match book_at(b, pos, 0) {
        Err(e) => Err(e),
        Ok((identities, p1)) => match book_at(b, p1, 1) {
            Err(e) => Err(e),
            Ok((tag_keys, p2)) => match book_at(b, p2, 2) {
                Err(e) => Err(e),
                Ok((tag_values, p3)) => match book_at(b, p3, 3) {
                    Err(e) => Err(e),
                    Ok((labels, _)) => Ok(BookTexts { identities, tag_keys, tag_values, labels }),
                },
            },
        },
    }
}

/// The rule of a wire value.
pub open spec fn rounding_of(v: nat) -> Option<AnchorRounding> {
    if v == 1 {
        Some(AnchorRounding::HalfUp)
    } else {
        None
    }
}

/// What a sidecar file holds.
pub open spec fn sidecar_in(b: Seq<u8>) -> Result<(Header, BookTexts), BookError> {
    if b.len() < 8 {
        Err(BookError::Truncated)
    } else if b.subrange(0, 8) != MAGIC@ {
        Err(BookError::Magic(choose|m: [u8; 8]| m@ == b.subrange(0, 8)))
    } else if b.len() < 36 {
        Err(BookError::Truncated)
    } else {
        match rounding_of(le_at(b, 32, 4)) {
            None => Err(BookError::Rounding(le_at(b, 32, 4) as u32)),
            Some(rounding) => if b.len() < 40 {
                Err(BookError::Truncated)
            } else if le_at(b, 36, 4) != BOOKS {
                Err(BookError::BookCount(le_at(b, 36, 4) as u32))
            } else {
                match books_at(b, 40) {
                    Err(e) => Err(e),
                    Ok(texts) => Ok(
                        (
                            Header {
                                rows: le_at(b, 8, 8) as u64,
                                slots_written: le_at(b, 16, 8) as u64,
                                slab: le_at(b, 24, 8) as u64,
                                rounding,
                            },
                            texts,
                        ),
                    ),
                }
            },
        }
    }
}

/// Reads the texts that stand at `pos`.
fn read_keys(r: &[u8], pos: usize, n: u32) -> (out: Result<(Vec<String>, usize), BookError>)
    requires
        pos <= r@.len(),
    ensures
        match keys_at(r@, pos as int, n as nat) {
            Ok((keys, end)) => out matches Ok((v, p)) && texts_of(v@) == keys && p == end && end
                <= r@.len(),
            Err(e) => out == Err::<(Vec<String>, usize), BookError>(e),
        },
{
    let total: usize = r.len();
    let mut keys: Vec<String> = Vec::new();
    let mut at: usize = pos;
    let mut left: u32 = n;
    assert(texts_of(keys@) =~= Seq::<Seq<char>>::empty());
    proof {
        match keys_at(r@, pos as int, n as nat) {
            Ok((rest, stop)) => {
                assert(texts_of(keys@) + rest =~= rest);
            },
            Err(e) => {},
        }
    }
    while left > 0
        invariant
            total == r@.len(),
            at <= total,
            keys_at(r@, pos as int, n as nat) == match keys_at(r@, at as int, left as nat) {
                Ok((rest, stop)) => Ok::<(Seq<Seq<char>>, int), BookError>(
                    (texts_of(keys@) + rest, stop),
                ),
                Err(e) => Err::<(Seq<Seq<char>>, int), BookError>(e),
            },
        decreases left,
    {
        if total - at < 4 {
            return Err(BookError::Truncated);
        }
        let len: usize = read_u32(r, at) as usize;
        if total - at - 4 < len {
            return Err(BookError::Truncated);
        }
        let end: usize = at + 4 + len;
        let text: Vec<u8> = copy_range(r, at + 4, end);
        let key: String = match utf8_string(text) {
            Some(k) => k,
            None => {
                return Err(BookError::Utf8);
            },
        };
        let ghost before = texts_of(keys@);
        let ghost this = key@;
        keys.push(key);
        proof {
            assert(texts_of(keys@) =~= before.push(this));
            match keys_at(r@, end as int, (left - 1) as nat) {
                Ok((rest, stop)) => {
                    assert(before + (seq![this] + rest) =~= texts_of(keys@) + rest);
                },
                Err(e) => {},
            }
        }
        at = end;
        left = left - 1;
    }
    assert(texts_of(keys@) + Seq::<Seq<char>>::empty() =~= texts_of(keys@));
    Ok((keys, at))
}

/// Reads the book that stands at `pos`.
fn read_book(r: &[u8], pos: usize, index: usize) -> (out: Result<
    (IdentityCodebook, usize),
    BookError,
>)
    requires
        pos <= r@.len(),
    ensures
        match book_at(r@, pos as int, index) {
            Ok((book, end)) => out matches Ok((c, p)) && c@ == book && p == end && end <= r@.len(),
            Err(e) => out == Err::<(IdentityCodebook, usize), BookError>(e),
        },
{
    if r.len() - pos < 12 {
        return Err(BookError::Truncated);
    }
    let recorded: u64 = read_u64(r, pos);
    let count: u32 = read_u32(r, pos + 8);
    let (keys, end): (Vec<String>, usize) = match read_keys(r, pos + 12, count) {
        Ok(v) => v,
        Err(e) => {
            return Err(e);
        },
    };
    let ghost texts = texts_of(keys@);
    let book: IdentityCodebook = match IdentityCodebook::try_new(keys) {
        Ok(b) => b,
        Err(e) => {
            return Err(BookError::Codebook(e));
        },
    };
    proof {
        assert(is_book_of(book@, texts));
        law_book_is_unique(book@, the_book(texts), texts);
    }
    let rebuilt: u64 = book.digest();
    if rebuilt != recorded {
        return Err(BookError::Digest { book: index, recorded, rebuilt });
    }
    Ok((book, end))
}

/// Whether the file starts with the magic, and the first eight bytes.
fn read_magic(r: &[u8]) -> (m: ([u8; 8], bool))
    requires
        r@.len() >= 8,
    ensures
        m.0@ == r@.subrange(0, 8),
        m.1 == (r@.subrange(0, 8) == MAGIC@),
{
    let mut m: [u8; 8] = [0; 8];
    let mut same: bool = true;
    let mut i: usize = 0;
    while i < 8
        invariant
            i <= 8,
            r@.len() >= 8,
            m@.len() == 8,
            forall|k: int| 0 <= k < i ==> #[trigger] m@[k] == r@[k],
            same == (forall|k: int| 0 <= k < i ==> r@[k] == #[trigger] MAGIC@[k]),
        decreases 8 - i,
    {
        m[i] = r[i];
        if r[i] != MAGIC[i] {
            assert(r@[i as int] != MAGIC@[i as int]);
            same = false;
        }
        i = i + 1;
    }
    proof {
        assert(m@ =~= r@.subrange(0, 8));
        if same {
            assert(r@.subrange(0, 8) =~= MAGIC@);
        } else {
            let k = choose|k: int| 0 <= k < 8 && r@[k] != #[trigger] MAGIC@[k];
            assert(r@.subrange(0, 8)[k] != MAGIC@[k]);
        }
    }
    (m, same)
}

/// Reads the sidecar, holding every book to its recorded digest.
pub fn read_books(r: &[u8]) -> (out: Result<(Header, Books), BookError>)
    ensures
        match sidecar_in(r@) {
            Ok((header, texts)) => out matches Ok((h, books)) && h == header && books.texts()
                == texts,
            Err(e) => out == Err::<(Header, Books), BookError>(e),
        },
{
    let total: usize = r.len();
    if total < 8 {
        return Err(BookError::Truncated);
    }
    let (m, same): ([u8; 8], bool) = read_magic(r);
    if !same {
        proof {
            let n = choose|n: [u8; 8]| n@ == r@.subrange(0, 8);
            assert(n@ =~= m@);
            assert(n =~= m);
        }
        return Err(BookError::Magic(m));
    }
    if total < 36 {
        return Err(BookError::Truncated);
    }
    let rows: u64 = read_u64(r, 8);
    let slots_written: u64 = read_u64(r, 16);
    let slab: u64 = read_u64(r, 24);
    let rw: u32 = read_u32(r, 32);
    let rounding: AnchorRounding = match AnchorRounding::from_wire(rw) {
        Some(rule) => rule,
        None => {
            proof {
                assert(rounding_wire(AnchorRounding::HalfUp) != rw);
            }
            return Err(BookError::Rounding(rw));
        },
    };
    if total < 40 {
        return Err(BookError::Truncated);
    }
    let n: u32 = read_u32(r, 36);
    if n != BOOKS as u32 {
        return Err(BookError::BookCount(n));
    }
    let (identities, p1): (IdentityCodebook, usize) = match read_book(r, 40, 0) {
        Ok(v) => v,
        Err(e) => {
            return Err(e);
        },
    };
    let (tag_keys, p2): (IdentityCodebook, usize) = match read_book(r, p1, 1) {
        Ok(v) => v,
        Err(e) => {
            return Err(e);
        },
    };
    let (tag_values, p3): (IdentityCodebook, usize) = match read_book(r, p2, 2) {
        Ok(v) => v,
        Err(e) => {
            return Err(e);
        },
    };
    let (labels, _p4): (IdentityCodebook, usize) = match read_book(r, p3, 3) {
        Ok(v) => v,
        Err(e) => {
            return Err(e);
        },
    };
    let header: Header = Header { rows, slots_written, slab, rounding };
    Ok((header, Books { identities, tag_keys, tag_values, labels }))
}

/// Checks a slab against the sidecar that claims it: the number of rows first,
/// then the digest.
pub fn verify_slab(header: &Header, slab_bytes: &[u8], stride: usize) -> (r: Result<(), BookError>)
    requires
        stride > 0,
    ensures
        ({
            let rows = slab_bytes@.len() / stride as nat;
            let digest = fnv(FNV_OFFSET, slab_bytes@);
            match r {
                Ok(()) => rows == header.rows && digest == header.slab,
                Err(BookError::SlabMismatch { field, recorded, actual }) => if rows != header.rows {
                    field@ == "row count"@ && recorded == header.rows && actual == rows
                } else {
                    digest != header.slab && field@ == "digest"@ && recorded == header.slab
                        && actual == digest
                },
                Err(_) => false,
            }
        }),
{
    let rows: u64 = (slab_bytes.len() / stride) as u64;
    if rows != header.rows {
        return Err(
            BookError::SlabMismatch { field: "row count", recorded: header.rows, actual: rows },
        );
    }
    let h: u64 = hash_slab(slab_bytes);
    if h != header.slab {
        return Err(BookError::SlabMismatch { field: "digest", recorded: header.slab, actual: h });
    }
    Ok(())
}

// ── Laws ────────────────────────────────────────────────────────────
/// The first entry stands first on the wire.
proof fn lemma_entries_front(book: Seq<Seq<char>>)
    requires
        book.len() > 0,
    ensures
        entries_wire(book) == entry_wire(book[0]) + entries_wire(
            book.subrange(1, book.len() as int),
        ),
    decreases book.len(),
{
    let tail = book.subrange(1, book.len() as int);
    if book.len() == 1 {
        assert(book.drop_last() =~= Seq::<Seq<char>>::empty());
        assert(tail =~= Seq::<Seq<char>>::empty());
        assert(entries_wire(book) =~= entry_wire(book[0]) + entries_wire(tail));
    } else {
        let front = book.drop_last();
        lemma_entries_front(front);
        let mid = front.subrange(1, front.len() as int);
        assert(tail.drop_last() =~= mid);
        assert(entries_wire(book) =~= entry_wire(book[0]) + (entries_wire(mid) + entry_wire(
            book.last(),
        )));
    }
}

/// Texts are read back from where they were written.
proof fn lemma_keys_round_trip(b: Seq<u8>, pos: int, book: Seq<Seq<char>>)
    requires
        0 <= pos,
        lengths_fit(book),
        pos + entries_wire(book).len() <= b.len(),
        b.subrange(pos, pos + entries_wire(book).len()) == entries_wire(book),
    ensures
        keys_at(b, pos, book.len()) == Ok::<(Seq<Seq<char>>, int), BookError>(
            (book, pos + entries_wire(book).len()),
        ),
    decreases book.len(),
{
    if book.len() == 0 {
        assert(book =~= Seq::<Seq<char>>::empty());
    } else {
        let tail = book.subrange(1, book.len() as int);
        let text = encode_utf8(book[0]);
        let n = text.len();
        lemma_entries_front(book);
        lemma_pow256_widths();
        lemma_le_round_trip(n, 4);
        let w = entries_wire(book);
        let rest = entries_wire(tail);
        let here = b.subrange(pos, pos + w.len());
        assert(w.len() == 4 + n + rest.len());
        assert(b.subrange(pos, pos + 4) =~= here.subrange(0, 4));
        assert(here.subrange(0, 4) =~= le_bytes(n, 4));
        assert(b.subrange(pos + 4, pos + 4 + n) =~= here.subrange(4, 4 + n as int));
        assert(here.subrange(4, 4 + n as int) =~= text);
        encode_utf8_valid_utf8(book[0]);
        encode_utf8_decode_utf8(book[0]);
        let end = pos + 4 + n;
        assert(b.subrange(end, end + rest.len()) =~= here.subrange(4 + n as int, w.len() as int));
        assert(here.subrange(4 + n as int, w.len() as int) =~= rest);
        assert forall|i: int| 0 <= i < tail.len() implies encode_utf8(#[trigger] tail[i]).len()
            <= u32::MAX by {
            assert(tail[i] == book[i + 1]);
        }
        lemma_keys_round_trip(b, end, tail);
        assert(seq![book[0]] + tail =~= book);
    }
}

/// A book is read back from where it was written.
proof fn lemma_book_round_trip(b: Seq<u8>, pos: int, book: Seq<Seq<char>>, index: usize)
    requires
        0 <= pos,
        lengths_fit(book),
        strictly_ascending(book),
        book.len() <= MAX_ENTRIES,
        pos + book_wire(book).len() <= b.len(),
        b.subrange(pos, pos + book_wire(book).len()) == book_wire(book),
    ensures
        book_at(b, pos, index) == Ok::<(Seq<Seq<char>>, int), BookError>(
            (book, pos + book_wire(book).len()),
        ),
{
    let d = book_digest(book) as nat;
    let w = book_wire(book);
    let e = entries_wire(book);
    let here = b.subrange(pos, pos + w.len());
    lemma_pow256_widths();
    lemma_le_round_trip(d, 8);
    lemma_le_round_trip(book.len(), 4);
    assert(w.len() == 12 + e.len());
    assert(b.subrange(pos, pos + 8) =~= here.subrange(0, 8));
    assert(here.subrange(0, 8) =~= le_bytes(d, 8));
    assert(b.subrange(pos + 8, pos + 12) =~= here.subrange(8, 12));
    assert(here.subrange(8, 12) =~= le_bytes(book.len(), 4));
    assert(b.subrange(pos + 12, pos + 12 + e.len()) =~= here.subrange(12, w.len() as int));
    assert(here.subrange(12, w.len() as int) =~= e);
    lemma_keys_round_trip(b, pos + 12, book);
    lemma_ascending_distinct(book);
    assert(is_book_of(book, book));
    law_book_is_unique(book, the_book(book), book);
}

/// Whether texts are the texts of books.
pub open spec fn are_books(t: BookTexts) -> bool {
    &&& strictly_ascending(t.identities) && t.identities.len() <= MAX_ENTRIES
    &&& strictly_ascending(t.tag_keys) && t.tag_keys.len() <= MAX_ENTRIES
    &&& strictly_ascending(t.tag_values) && t.tag_values.len() <= MAX_ENTRIES
    &&& strictly_ascending(t.labels) && t.labels.len() <= MAX_ENTRIES
}

proof fn lemma_header_len(h: Header)
    ensures
        header_wire(h).len() == 40,
{
    lemma_le_bytes_len(h.rows as nat, 8);
    lemma_le_bytes_len(h.slots_written as nat, 8);
    lemma_le_bytes_len(h.slab as nat, 8);
    lemma_le_bytes_len(rounding_wire(h.rounding) as nat, 4);
    lemma_le_bytes_len(4, 4);
}

/// The header fields of a file that starts with a header.
proof fn lemma_header_fields(b: Seq<u8>, h: Header)
    requires
        b.len() >= 40,
        b.subrange(0, 40) == header_wire(h),
    ensures
        b.subrange(0, 8) == MAGIC@,
        le_at(b, 8, 8) == h.rows,
        le_at(b, 16, 8) == h.slots_written,
        le_at(b, 24, 8) == h.slab,
        le_at(b, 32, 4) == rounding_wire(h.rounding),
        le_at(b, 36, 4) == 4,
{
    let w = b.subrange(0, 40);
    lemma_header_len(h);
    lemma_pow256_widths();
    lemma_le_round_trip(h.rows as nat, 8);
    lemma_le_round_trip(h.slots_written as nat, 8);
    lemma_le_round_trip(h.slab as nat, 8);
    lemma_le_round_trip(rounding_wire(h.rounding) as nat, 4);
    lemma_le_round_trip(4, 4);
    assert(b.subrange(0, 8) =~= w.subrange(0, 8));
    assert(w.subrange(0, 8) =~= MAGIC@);
    assert(b.subrange(8, 16) =~= w.subrange(8, 16));
    assert(w.subrange(8, 16) =~= le_bytes(h.rows as nat, 8));
    assert(b.subrange(16, 24) =~= w.subrange(16, 24));
    assert(w.subrange(16, 24) =~= le_bytes(h.slots_written as nat, 8));
    assert(b.subrange(24, 32) =~= w.subrange(24, 32));
    assert(w.subrange(24, 32) =~= le_bytes(h.slab as nat, 8));
    assert(b.subrange(32, 36) =~= w.subrange(32, 36));
    assert(w.subrange(32, 36) =~= le_bytes(rounding_wire(h.rounding) as nat, 4));
    assert(b.subrange(36, 40) =~= w.subrange(36, 40));
    assert(w.subrange(36, 40) =~= le_bytes(4, 4));
}

/// The pieces of a file that is four parts behind a header.
proof fn lemma_five_parts(
    head: Seq<u8>,
    a: Seq<u8>,
    b: Seq<u8>,
    c: Seq<u8>,
    d: Seq<u8>,
    rest: Seq<u8>,
)
    ensures
        ({
            let all = head + (a + (b + (c + d))) + rest;
            let p0 = head.len() as int;
            let p1 = p0 + a.len();
            let p2 = p1 + b.len();
            let p3 = p2 + c.len();
            let p4 = p3 + d.len();
            &&& all.len() == p4 + rest.len()
            &&& all.subrange(0, p0) == head
            &&& all.subrange(p0, p1) == a
            &&& all.subrange(p1, p2) == b
            &&& all.subrange(p2, p3) == c
            &&& all.subrange(p3, p4) == d
        }),
{
    let all = head + (a + (b + (c + d))) + rest;
    let p0 = head.len() as int;
    let p1 = p0 + a.len();
    let p2 = p1 + b.len();
    let p3 = p2 + c.len();
    let p4 = p3 + d.len();
    assert(all.subrange(0, p0) =~= head);
    assert(all.subrange(p0, p1) =~= a);
    assert(all.subrange(p1, p2) =~= b);
    assert(all.subrange(p2, p3) =~= c);
    assert(all.subrange(p3, p4) =~= d);
}

/// What the reader gives back of what the writer wrote: the header verbatim and
/// all four books, every text under the ordinal it had. What stands behind the
/// sidecar plays no part.
#[verifier::spinoff_prover]
pub proof fn law_sidecar_round_trip(h: Header, t: BookTexts, rest: Seq<u8>)
    requires
        are_books(t),
        all_lengths_fit(t),
    ensures
        sidecar_in(sidecar(h, t) + rest) == Ok::<(Header, BookTexts), BookError>((h, t)),
{
    let b = sidecar(h, t) + rest;
    let (w0, w1, w2, w3) = (
        book_wire(t.identities),
        book_wire(t.tag_keys),
        book_wire(t.tag_values),
        book_wire(t.labels),
    );
    lemma_header_len(h);
    lemma_five_parts(header_wire(h), w0, w1, w2, w3, rest);
    lemma_header_fields(b, h);
    let p1: int = 40 + w0.len() as int;
    let p2: int = p1 + w1.len();
    let p3: int = p2 + w2.len();
    lemma_book_round_trip(b, 40, t.identities, 0);
    lemma_book_round_trip(b, p1, t.tag_keys, 1);
    lemma_book_round_trip(b, p2, t.tag_values, 2);
    lemma_book_round_trip(b, p3, t.labels, 3);
    assert(books_at(b, 40) == Ok::<BookTexts, BookError>(t));
    assert(rounding_of(le_at(b, 32, 4)) == Some(h.rounding));
}

/// A book whose texts do not reproduce the recorded digest is refused, whatever
/// else is right about it.
pub proof fn law_shifted_book_is_refused(b: Seq<u8>, pos: int, index: usize)
    requires
        book_at(b, pos, index) is Ok,
    ensures
        book_digest(book_at(b, pos, index)->Ok_0.0) == le_at(b, pos, 8),
{
}

/// The layout of a sidecar's header: eight bytes of magic that end in the version, three
/// numbers of eight bytes, then the rounding rule and the number of books in four each.
pub proof fn law_sidecar_layout(h: Header)
    ensures
        ({
            let w = header_wire(h);
            &&& w.len() == 40
            &&& w[0] == 'O' as u8 && w[1] == 'S' as u8 && w[2] == 'M' as u8 && w[3] == 'C' as u8
            &&& w[4] == 'B' as u8 && w[5] == 'K' as u8 && w[6] == 0 && w[7] == 3
            &&& w.subrange(8, 16) == le_bytes(h.rows as nat, 8)
            &&& w.subrange(16, 24) == le_bytes(h.slots_written as nat, 8)
            &&& w.subrange(24, 32) == le_bytes(h.slab as nat, 8)
            &&& w.subrange(32, 36) == seq![1u8, 0, 0, 0]
            &&& w.subrange(36, 40) == seq![4u8, 0, 0, 0]
        }),
{
    let w = header_wire(h);
    lemma_le_bytes_len(h.rows as nat, 8);
    lemma_le_bytes_len(h.slots_written as nat, 8);
    lemma_le_bytes_len(h.slab as nat, 8);
    lemma_le_bytes_len(1, 4);
    lemma_le_bytes_len(4, 4);
    assert(w.subrange(8, 16) =~= le_bytes(h.rows as nat, 8));
    assert(w.subrange(16, 24) =~= le_bytes(h.slots_written as nat, 8));
    assert(w.subrange(24, 32) =~= le_bytes(h.slab as nat, 8));
    reveal_with_fuel(le_bytes, 5);
    assert(le_bytes(1, 4) =~= seq![1u8, 0, 0, 0]);
    assert(le_bytes(4, 4) =~= seq![4u8, 0, 0, 0]);
    assert(w.subrange(32, 36) =~= seq![1u8, 0, 0, 0]);
    assert(w.subrange(36, 40) =~= seq![4u8, 0, 0, 0]);
}

/// A rule that was never stated is no rule: only one value names the rule in force, and
/// every other, zero among them, is refused.
pub proof fn law_unknown_rounding_is_refused(b: Seq<u8>)
    requires
        b.len() >= 40,
        b.subrange(0, 8) == MAGIC@,
        le_at(b, 32, 4) != 1,
    ensures
        sidecar_in(b) is Err,
        sidecar_in(b)->Err_0 is Rounding,
{
}

/// A sidecar that is read has the magic, the rule in force and four books, and its header
/// is what stands in it.
pub proof fn law_what_is_read_stands_there(b: Seq<u8>)
    requires
        sidecar_in(b) is Ok,
    ensures
        le_at(b, 36, 4) == 4,
        le_at(b, 32, 4) == 1,
        b.len() >= 40,
        b.subrange(0, 8) == MAGIC@,
        sidecar_in(b)->Ok_0.0.rows == le_at(b, 8, 8) as u64,
        sidecar_in(b)->Ok_0.0.slots_written == le_at(b, 16, 8) as u64,
        sidecar_in(b)->Ok_0.0.slab == le_at(b, 24, 8) as u64,
{
}

} // verus!
