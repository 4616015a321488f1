//! The codebook: texts numbered by their place in sorted order.
//!
//! An ordinal is a property of the whole set of texts, not of one text alone:
//! add a text that sorts early and every later ordinal shifts. A book therefore
//! has a digest, which stands for the set.

use crate::bytes::{le_bytes, push_le, push_slice};
use crate::facet::MAX_ENTRIES;
use crate::order::{in_order, sort, Ranked};
use crate::text::{lemma_same_bytes, same_text};
use vstd::prelude::*;
use vstd::seq_lib::*;
use vstd::utf8::*;

verus! {

// ── The order of texts ──────────────────────────────────────────────
/// Lexicographic order of byte sequences.
pub open spec fn lex_le(a: Seq<u8>, b: Seq<u8>) -> bool
    decreases a.len(),
{
    if a.len() == 0 {
        true
    } else if b.len() == 0 {
        false
    } else if a[0] == b[0] {
        lex_le(a.subrange(1, a.len() as int), b.subrange(1, b.len() as int))
    } else {
        a[0] < b[0]
    }
}

/// Texts are ordered by their UTF-8 bytes.
pub open spec fn text_le(a: Seq<char>, b: Seq<char>) -> bool {
    lex_le(encode_utf8(a), encode_utf8(b))
}

proof fn lemma_lex_total(a: Seq<u8>, b: Seq<u8>)
    ensures
        lex_le(a, b) || lex_le(b, a),
    decreases a.len(),
{
    if a.len() > 0 && b.len() > 0 && a[0] == b[0] {
        lemma_lex_total(a.subrange(1, a.len() as int), b.subrange(1, b.len() as int));
    }
}

proof fn lemma_lex_transitive(a: Seq<u8>, b: Seq<u8>, c: Seq<u8>)
    requires
        lex_le(a, b),
        lex_le(b, c),
    ensures
        lex_le(a, c),
    decreases a.len(),
{
    if a.len() > 0 && b.len() > 0 && c.len() > 0 && a[0] == b[0] && b[0] == c[0] {
        lemma_lex_transitive(
            a.subrange(1, a.len() as int),
            b.subrange(1, b.len() as int),
            c.subrange(1, c.len() as int),
        );
    }
}

proof fn lemma_lex_antisymmetric(a: Seq<u8>, b: Seq<u8>)
    requires
        lex_le(a, b),
        lex_le(b, a),
    ensures
        a == b,
    decreases a.len(),
{
    if a.len() > 0 && b.len() > 0 {
        let (x, y) = (a.subrange(1, a.len() as int), b.subrange(1, b.len() as int));
        lemma_lex_antisymmetric(x, y);
        assert(a =~= seq![a[0]] + x);
        assert(b =~= seq![b[0]] + y);
    } else {
        assert(a =~= b);
    }
}

/// Two texts that stand before each other are the same.
pub proof fn lemma_text_antisymmetric(a: Seq<char>, b: Seq<char>)
    requires
        text_le(a, b),
        text_le(b, a),
    ensures
        a == b,
{
    lemma_lex_antisymmetric(encode_utf8(a), encode_utf8(b));
    lemma_same_bytes(a, b);
}

/// Whether `a` stands before `b` or is the same.
pub fn text_before(a: &str, b: &str) -> (r: bool)
    ensures
        r == text_le(a@, b@),
{
    let (x, y): (&[u8], &[u8]) = (a.as_bytes(), b.as_bytes());
    let mut i: usize = 0;
    assert(x@.subrange(0, x@.len() as int) =~= x@);
    assert(y@.subrange(0, y@.len() as int) =~= y@);
    while i < x.len() && i < y.len()
        invariant
            i <= x@.len(),
            i <= y@.len(),
            lex_le(x@, y@) == lex_le(
                x@.subrange(i as int, x@.len() as int),
                y@.subrange(i as int, y@.len() as int),
            ),
            x@ == encode_utf8(a@),
            y@ == encode_utf8(b@),
        decreases x@.len() - i,
    {
        proof {
            let xs = x@.subrange(i as int, x@.len() as int);
            let ys = y@.subrange(i as int, y@.len() as int);
            assert(xs[0] == x@[i as int]);
            assert(ys[0] == y@[i as int]);
            assert(xs.subrange(1, xs.len() as int) =~= x@.subrange(i + 1, x@.len() as int));
            assert(ys.subrange(1, ys.len() as int) =~= y@.subrange(i + 1, y@.len() as int));
        }
        if x[i] != y[i] {
            return x[i] < y[i];
        }
        i = i + 1;
    }
    i >= x.len()
}

impl Ranked for String {
    open spec fn ranks_before(&self, other: &Self) -> bool {
        text_le(self@, other@)
    }

    proof fn lemma_total(a: &Self, b: &Self) {
        lemma_lex_total(encode_utf8(a@), encode_utf8(b@));
    }

    proof fn lemma_transitive(a: &Self, b: &Self, c: &Self) {
        lemma_lex_transitive(encode_utf8(a@), encode_utf8(b@), encode_utf8(c@));
    }

    fn before(&self, other: &Self) -> (r: bool) {
        text_before(self.as_str(), other.as_str())
    }
}

// ── Books as sequences ──────────────────────────────────────────────
/// The texts that a list of strings stands for.
pub open spec fn texts_of(keys: Seq<String>) -> Seq<Seq<char>> {
    keys.map_values(|k: String| k@)
}

/// Whether texts strictly ascend.
pub open spec fn strictly_ascending(s: Seq<Seq<char>>) -> bool {
    forall|i: int, j: int|
        #![trigger s[i], s[j]]
        0 <= i < j < s.len() ==> text_le(s[i], s[j]) && s[i] != s[j]
}

/// Whether two lists hold the same texts.
pub open spec fn same_texts(a: Seq<Seq<char>>, b: Seq<Seq<char>>) -> bool {
    forall|k: Seq<char>| #[trigger] a.contains(k) <==> b.contains(k)
}

/// Whether `book` is the sorted list of the texts in `keys`, each once.
pub open spec fn is_book_of(book: Seq<Seq<char>>, keys: Seq<Seq<char>>) -> bool {
    strictly_ascending(book) && same_texts(book, keys)
}

/// A set of texts has one book only.
pub proof fn law_book_is_unique(a: Seq<Seq<char>>, b: Seq<Seq<char>>, keys: Seq<Seq<char>>)
    requires
        is_book_of(a, keys),
        is_book_of(b, keys),
    ensures
        a == b,
{
    assert forall|k: Seq<char>| #[trigger] a.contains(k) <==> b.contains(k) by {
        assert(keys.contains(k) || !keys.contains(k));
    }
    lemma_ascending_unique(a, b);
}

proof fn lemma_ascending_unique(a: Seq<Seq<char>>, b: Seq<Seq<char>>)
    requires
        strictly_ascending(a),
        strictly_ascending(b),
        same_texts(a, b),
    ensures
        a == b,
    decreases a.len(),
{
    if a.len() == 0 {
        if b.len() > 0 {
            assert(b.contains(b[0]));
            assert(a.contains(b[0]));
        }
        assert(a =~= b);
    } else {
        assert(a.contains(a[a.len() - 1]));
        assert(b.contains(a.last()));
        let i = choose|i: int| 0 <= i < b.len() && b[i] == a.last();
        assert(b.contains(b[b.len() - 1]));
        assert(a.contains(b.last()));
        let j = choose|j: int| 0 <= j < a.len() && a[j] == b.last();
        if i < b.len() - 1 {
            assert(text_le(b[i], b[b.len() - 1]));
            if j < a.len() - 1 {
                assert(text_le(a[j], a[a.len() - 1]));
                lemma_text_antisymmetric(a.last(), b.last());
            }
        }
        assert(a.last() == b.last());
        let (x, y) = (a.drop_last(), b.drop_last());
        assert(strictly_ascending(x)) by {
            assert forall|p: int, q: int|
                #![trigger x[p], x[q]]
                0 <= p < q < x.len() implies text_le(x[p], x[q]) && x[p] != x[q] by {
                assert(a[p] != a[q]);
            }
        }
        assert(strictly_ascending(y)) by {
            assert forall|p: int, q: int|
                #![trigger y[p], y[q]]
                0 <= p < q < y.len() implies text_le(y[p], y[q]) && y[p] != y[q] by {
                assert(b[p] != b[q]);
            }
        }
        assert forall|k: Seq<char>| #[trigger] x.contains(k) <==> y.contains(k) by {
            lemma_drop_last_contains(a, k);
            lemma_drop_last_contains(b, k);
            assert(a.contains(k) <==> b.contains(k));
        }
        lemma_ascending_unique(x, y);
        assert(a =~= x.push(a.last()));
        assert(b =~= y.push(b.last()));
    }
}

proof fn lemma_drop_last_contains(a: Seq<Seq<char>>, k: Seq<char>)
    requires
        a.len() > 0,
        strictly_ascending(a),
    ensures
        a.drop_last().contains(k) <==> a.contains(k) && k != a.last(),
{
    let x = a.drop_last();
    if x.contains(k) {
        let i = choose|i: int| 0 <= i < x.len() && x[i] == k;
        assert(a[i] == k);
        assert(a[i] != a[a.len() - 1]);
    }
    if a.contains(k) && k != a.last() {
        let i = choose|i: int| 0 <= i < a.len() && a[i] == k;
        assert(x[i] == k);
    }
}

/// A strictly ascending list holds no text twice.
pub proof fn lemma_ascending_distinct(s: Seq<Seq<char>>)
    requires
        strictly_ascending(s),
    ensures
        s.no_duplicates(),
{
    assert forall|i: int, j: int|
        0 <= i < s.len() && 0 <= j < s.len() && i != j implies s[i] != s[j] by {
        if i < j {
            assert(s[i] != s[j]);
        } else {
            assert(s[j] != s[i]);
        }
    }
}

// ── The digest ──────────────────────────────────────────────────────
/// FNV-1a, 64 bit: where it starts.
pub const FNV_OFFSET: u64 = 0xcbf2_9ce4_8422_2325;

/// FNV-1a, 64 bit: what each step multiplies by.
pub const FNV_PRIME: u64 = 0x0000_0100_0000_01b3;

/// One step of FNV-1a.
pub open spec fn fnv_step(h: u64, b: u8) -> u64 {
    (((h ^ (b as u64)) as nat * FNV_PRIME as nat) % 0x1_0000_0000_0000_0000) as u64
}

/// FNV-1a over bytes, from a state.
pub open spec fn fnv(h: u64, s: Seq<u8>) -> u64
    decreases s.len(),
{
    if s.len() == 0 {
        h
    } else {
        fnv_step(fnv(h, s.drop_last()), s.last())
    }
}

/// Feeds bytes to a running FNV-1a state.
pub fn fnv_eat(h: u64, bytes: &[u8]) -> (r: u64)
    ensures
        r == fnv(h, bytes@),
{
    let mut state: u64 = h;
    let mut i: usize = 0;
    assert(bytes@.take(0) =~= Seq::<u8>::empty());
    while i < bytes.len()
        invariant
            i <= bytes@.len(),
            state == fnv(h, bytes@.take(i as int)),
        decreases bytes@.len() - i,
    {
        proof {
            assert(bytes@.take(i + 1).drop_last() =~= bytes@.take(i as int));
        }
        state = (state ^ (bytes[i] as u64)).wrapping_mul(FNV_PRIME);
        i = i + 1;
    }
    assert(bytes@.take(bytes@.len() as int) =~= bytes@);
    state
}

/// Bytes fed in two parts give what they give in one.
pub proof fn law_fnv_streams(h: u64, a: Seq<u8>, b: Seq<u8>)
    ensures
        fnv(fnv(h, a), b) == fnv(h, a + b),
    decreases b.len(),
{
    if b.len() == 0 {
        assert(a + b =~= a);
    } else {
        law_fnv_streams(h, a, b.drop_last());
        assert((a + b).drop_last() =~= a + b.drop_last());
        assert((a + b).last() == b.last());
    }
}

/// One text of a book on the wire: its byte length, then its bytes.
pub open spec fn entry_wire(key: Seq<char>) -> Seq<u8> {
    le_bytes(encode_utf8(key).len(), 4) + encode_utf8(key)
}

/// The texts of a book on the wire, in ordinal order.
pub open spec fn entries_wire(book: Seq<Seq<char>>) -> Seq<u8>
    decreases book.len(),
{
    if book.len() == 0 {
        Seq::empty()
    } else {
        entries_wire(book.drop_last()) + entry_wire(book.last())
    }
}

/// The digest of a book.
pub open spec fn book_digest(book: Seq<Seq<char>>) -> u64 {
    fnv(FNV_OFFSET, entries_wire(book))
}

// ── The codebook ────────────────────────────────────────────────────
/// Why a set of texts makes no book.
#[derive(Debug, Clone, Copy, PartialEq, Eq, Structural)]
pub enum CodebookError {
    /// More texts than ordinals.
    TooLarge,
    /// One text twice.
    Duplicate,
}

/// Texts, numbered by their place in sorted order.
#[derive(Debug)]
pub struct IdentityCodebook {
    keys: Vec<String>,
}

impl View for IdentityCodebook {
    type V = Seq<Seq<char>>;

    closed spec fn view(&self) -> Seq<Seq<char>> {
        texts_of(self.keys@)
    }
}

impl IdentityCodebook {
    #[verifier::type_invariant]
    spec fn inv(&self) -> bool {
        strictly_ascending(texts_of(self.keys@)) && self.keys@.len() <= MAX_ENTRIES
    }

    /// Builds the book of a list of texts. More texts than there are ordinals
    /// are refused, and so is a list that holds a text twice.
    pub fn try_new(keys: Vec<String>) -> (r: Result<Self, CodebookError>)
        ensures
            match r {
                Ok(book) => keys@.len() <= MAX_ENTRIES && texts_of(keys@).no_duplicates()
                    && is_book_of(book@, texts_of(keys@)) && book@.len() == keys@.len(),
                Err(CodebookError::TooLarge) => keys@.len() > MAX_ENTRIES,
                Err(CodebookError::Duplicate) => keys@.len() <= MAX_ENTRIES && !texts_of(
                    keys@,
                ).no_duplicates(),
            },
    {
        if keys.len() > MAX_ENTRIES {
            return Err(CodebookError::TooLarge);
        }
        let ghost given = keys@;
        let sorted: Vec<String> = sort(keys);
        let n: usize = sorted.len();
        let ghost texts = texts_of(sorted@);
        proof {
            lemma_sorted_texts(given, sorted@);
        }
        let mut i: usize = 1;
        while i < n
            invariant
                1 <= i,
                n == sorted@.len(),
                texts == texts_of(sorted@),
                in_order(sorted@),
                sorted@.to_multiset() == given.to_multiset(),
                given == keys@,
                given.len() <= MAX_ENTRIES,
                forall|a: int, b: int|
                    #![trigger texts[a], texts[b]]
                    0 <= a < b < i && b < n ==> text_le(texts[a], texts[b]) && texts[a]
                        != texts[b],
            decreases n - i,
        {
            if same_text(sorted[i - 1].as_str(), sorted[i].as_str()) {
                proof {
                    assert(texts[i - 1] == texts[i as int]);
                    lemma_duplicate_survives(given, sorted@, i - 1, i as int);
                }
                return Err(CodebookError::Duplicate);
            }
            proof {
                assert forall|a: int, b: int|
                    #![trigger texts[a], texts[b]]
                    0 <= a < b < i + 1 && b < n implies text_le(texts[a], texts[b]) && texts[a]
                    != texts[b] by {
                    if b == i {
                        assert(sorted@[a].ranks_before(&sorted@[b]));
                        assert(sorted@[i - 1].ranks_before(&sorted@[i as int]));
                        if a < i - 1 && texts[a] == texts[b] {
                            assert(sorted@[a].ranks_before(&sorted@[i - 1]));
                            assert(text_le(texts[a], texts[i - 1]));
                            assert(text_le(texts[i - 1], texts[a]));
                            lemma_text_antisymmetric(texts[a], texts[i - 1]);
                        }
                    }
                }
            }
            i = i + 1;
        }
        proof {
            lemma_ascending_distinct(texts);
            lemma_distinct_survives(given, sorted@);
        }
        Ok(IdentityCodebook { keys: sorted })
    }

    /// How many texts the book holds.
    pub fn len(&self) -> (n: usize)
        ensures
            n == self@.len(),
            n <= MAX_ENTRIES,
            strictly_ascending(self@),
    {
        proof {
            use_type_invariant(self);
        }
        self.keys.len()
    }

    /// Whether the book holds no text.
    pub fn is_empty(&self) -> (b: bool)
        ensures
            b == (self@.len() == 0),
    {
        self.keys.len() == 0
    }

    /// The text of an ordinal.
    pub fn key(&self, ordinal: u32) -> (k: Option<&str>)
        ensures
            match k {
                Some(text) => ordinal < self@.len() && text@ == self@[ordinal as int],
                None => ordinal >= self@.len(),
            },
    {
        if (ordinal as usize) < self.keys.len() {
            Some(self.keys[ordinal as usize].as_str())
        } else {
            None
        }
    }

    /// The ordinal of a text.
    pub fn ordinal(&self, key: &str) -> (o: Option<u32>)
        ensures
            match o {
                Some(at) => at < self@.len() && self@[at as int] == key@,
                None => !self@.contains(key@),
            },
    {
        proof {
            use_type_invariant(self);
        }
        let mut lo: usize = 0;
        let mut hi: usize = self.keys.len();
        let ghost texts = self@;
        while lo < hi
            invariant
                texts == texts_of(self.keys@),
                strictly_ascending(texts),
                lo <= hi <= self.keys@.len() <= MAX_ENTRIES,
                forall|i: int| 0 <= i < lo ==> #[trigger] texts[i] != key@,
                forall|i: int| hi <= i < texts.len() ==> #[trigger] texts[i] != key@,
            decreases hi - lo,
        {
            let mid: usize = lo + (hi - lo) / 2;
            let here: &str = self.keys[mid].as_str();
            if same_text(here, key) {
                return Some(mid as u32);
            }
            if text_before(here, key) {
                proof {
                    assert forall|i: int| 0 <= i < mid + 1 implies #[trigger] texts[i] != key@ by {
                        if i < mid {
                            assert(text_le(texts[i], texts[mid as int]));
                            if texts[i] == key@ {
                                lemma_text_antisymmetric(texts[mid as int], key@);
                            }
                        }
                    }
                }
                lo = mid + 1;
            } else {
                proof {
                    assert forall|i: int| mid <= i < texts.len() implies #[trigger] texts[i]
                        != key@ by {
                        if i > mid {
                            assert(text_le(texts[mid as int], texts[i]));
                        }
                    }
                }
                hi = mid;
            }
        }
        proof {
            assert forall|i: int| 0 <= i < texts.len() implies #[trigger] texts[i] != key@ by {
                assert(i < lo || hi <= i);
            }
        }
        None
    }

    /// The bytes of the entries, in ordinal order. The length field holds the
    /// low 32 bits of a length.
    pub fn entries(&self) -> (out: Vec<u8>)
        ensures
            out@ == entries_wire(self@),
    {
        let mut out: Vec<u8> = Vec::new();
        let ghost texts = self@;
        let mut i: usize = 0;
        assert(texts.take(0) =~= Seq::<Seq<char>>::empty());
        while i < self.keys.len()
            invariant
                texts == texts_of(self.keys@),
                i <= self.keys@.len(),
                out@ == entries_wire(texts.take(i as int)),
            decreases self.keys@.len() - i,
        {
            let ghost before = out@;
            let b: &[u8] = self.keys[i].as_str().as_bytes();
            push_le(&mut out, b.len() as u64, 4);
            push_slice(&mut out, b);
            proof {
                assert(texts.take(i + 1).drop_last() =~= texts.take(i as int));
                assert(texts[i as int] == self.keys@[i as int]@);
                assert(out@ =~= before + entry_wire(texts[i as int]));
            }
            i = i + 1;
        }
        assert(texts.take(texts.len() as int) =~= texts);
        out
    }

    /// The digest of the book.
    pub fn digest(&self) -> (d: u64)
        ensures
            d == book_digest(self@),
    {
        let e: Vec<u8> = self.entries();
        fnv_eat(FNV_OFFSET, e.as_slice())
    }
}

proof fn lemma_contains_view(keys: Seq<String>, x: String)
    requires
        keys.contains(x),
    ensures
        texts_of(keys).contains(x@),
{
    let i = choose|i: int| 0 <= i < keys.len() && keys[i] == x;
    assert(texts_of(keys)[i] == x@);
}

/// Sorting keeps the texts.
pub proof fn lemma_sorted_texts(given: Seq<String>, sorted: Seq<String>)
    requires
        given.to_multiset() == sorted.to_multiset(),
    ensures
        same_texts(texts_of(sorted), texts_of(given)),
{
    broadcast use group_to_multiset_ensures;

    assert forall|k: Seq<char>| #[trigger] texts_of(sorted).contains(k) <==> texts_of(
        given,
    ).contains(k) by {
        if texts_of(sorted).contains(k) {
            let i = choose|i: int| 0 <= i < sorted.len() && texts_of(sorted)[i] == k;
            assert(sorted.contains(sorted[i]));
            assert(given.to_multiset().count(sorted[i]) > 0);
            lemma_contains_view(given, sorted[i]);
        }
        if texts_of(given).contains(k) {
            let i = choose|i: int| 0 <= i < given.len() && texts_of(given)[i] == k;
            assert(given.contains(given[i]));
            assert(sorted.to_multiset().count(given[i]) > 0);
            lemma_contains_view(sorted, given[i]);
        }
    }
}

/// Where the texts of a list are distinct, so are its strings, and a list of the
/// same strings has distinct texts.
proof fn lemma_distinct_survives(given: Seq<String>, sorted: Seq<String>)
    requires
        given.to_multiset() == sorted.to_multiset(),
        texts_of(sorted).no_duplicates(),
    ensures
        texts_of(given).no_duplicates(),
{
    broadcast use group_to_multiset_ensures;

    let (g, s) = (texts_of(given), texts_of(sorted));
    assert(sorted.no_duplicates()) by {
        assert forall|i: int, j: int|
            0 <= i < sorted.len() && 0 <= j < sorted.len() && i != j implies sorted[i]
            != sorted[j] by {
            assert(s[i] != s[j]);
        }
    }
    sorted.lemma_multiset_has_no_duplicates();
    given.lemma_multiset_has_no_duplicates_conv();
    assert forall|i: int, j: int| 0 <= i < g.len() && 0 <= j < g.len() && i != j implies g[i]
        != g[j] by {
        if g[i] == g[j] {
            assert(given[i] != given[j]);
            assert(given.contains(given[i]) && given.contains(given[j]));
            assert(sorted.to_multiset().count(given[i]) > 0);
            assert(sorted.to_multiset().count(given[j]) > 0);
            let a = choose|a: int| 0 <= a < sorted.len() && sorted[a] == given[i];
            let b = choose|b: int| 0 <= b < sorted.len() && sorted[b] == given[j];
            assert(s[a] == s[b]);
        }
    }
}

/// A text that stands twice in the sorted list stood twice in the given one.
proof fn lemma_duplicate_survives(given: Seq<String>, sorted: Seq<String>, a: int, b: int)
    requires
        given.to_multiset() == sorted.to_multiset(),
        0 <= a < b < sorted.len(),
        texts_of(sorted)[a] == texts_of(sorted)[b],
    ensures
        !texts_of(given).no_duplicates(),
{
    if texts_of(given).no_duplicates() {
        lemma_distinct_survives(sorted, given);
        assert(texts_of(sorted)[a] != texts_of(sorted)[b]);
    }
}

// ── Laws of order and digest ────────────────────────────────────────
/// Bytes are ordered by the first place where they differ; what ends there comes first.
pub proof fn law_the_first_difference_decides(a: Seq<u8>, b: Seq<u8>, k: int)
    requires
        0 <= k <= a.len(),
        k <= b.len(),
        forall|i: int| 0 <= i < k ==> #[trigger] a[i] == b[i],
    ensures
        k == a.len() ==> lex_le(a, b),
        k == b.len() && k < a.len() ==> !lex_le(a, b),
        k < a.len() && k < b.len() && a[k] != b[k] ==> (lex_le(a, b) <==> a[k] < b[k]),
    decreases k,
{
    if k > 0 {
        assert(a[0] == b[0]);
        let (x, y) = (a.subrange(1, a.len() as int), b.subrange(1, b.len() as int));
        assert forall|i: int| 0 <= i < k - 1 implies #[trigger] x[i] == y[i] by {
            assert(a[i + 1] == b[i + 1]);
        }
        law_the_first_difference_decides(x, y, k - 1);
    }
}

/// The digest is FNV-1a of 64 bits: from its offset on, each byte is mixed in and the
/// state multiplied by the prime, modulo two to the power 64.
pub proof fn law_the_digest_is_fnv_1a(h: u64, s: Seq<u8>)
    ensures
        fnv(h, s) == s.fold_left(
            h,
            |h: u64, b: u8| (((h ^ (b as u64)) * 0x100_0000_01b3) % 0x1_0000_0000_0000_0000) as u64,
        ),
        FNV_OFFSET == 14695981039346656037,
    decreases s.len(),
{
    reveal_with_fuel(Seq::fold_left, 2);
    if s.len() > 0 {
        law_the_digest_is_fnv_1a(h, s.drop_last());
    }
}

/// A book is written text by text, each behind its length, and what two books hold one
/// after the other is written one after the other.
pub proof fn law_entries_follow_each_other(a: Seq<Seq<char>>, b: Seq<Seq<char>>, text: Seq<char>)
    ensures
        entries_wire(a + b) == entries_wire(a) + entries_wire(b),
        entries_wire(seq![text]) == le_bytes(encode_utf8(text).len(), 4) + encode_utf8(text),
    decreases b.len(),
{
    reveal_with_fuel(entries_wire, 2);
    assert(seq![text].drop_last() =~= Seq::<Seq<char>>::empty());
    assert(entries_wire(seq![text]) =~= le_bytes(encode_utf8(text).len(), 4) + encode_utf8(text));
    if b.len() == 0 {
        assert(a + b =~= a);
        assert(entries_wire(a) + entries_wire(b) =~= entries_wire(a));
    } else {
        assert((a + b).drop_last() =~= a + b.drop_last());
        law_entries_follow_each_other(a, b.drop_last(), text);
        assert(entries_wire(a + b) =~= entries_wire(a) + entries_wire(b));
    }
}

} // verus!
