//! Tag text to codebook ordinals, resolved once, before the bake.
//!
//! An ordinal is a place in sorted order, so no ordinal is known until the last
//! tag has been read. While reading, texts are interned under provisional ids;
//! afterwards [`TagStore::resolve`] sorts them into books and rewrites every
//! pair. No text is lost on the way ([`TagStore::resolve`] says so).

use crate::book::{is_book_of, strictly_ascending, texts_of, CodebookError, IdentityCodebook};
use crate::facet::MAX_ENTRIES;
use crate::text::pairs;
use vstd::hash_map::StringHashMap;
use vstd::prelude::*;
use vstd::slice::slice_subrange;

verus! {

// ── Interning ───────────────────────────────────────────────────────
/// Gives each distinct text a provisional id, in the order of first sight.
pub struct Interner {
    ids: StringHashMap<u32>,
    texts: Vec<String>,
}

impl View for Interner {
    type V = Seq<Seq<char>>;

    closed spec fn view(&self) -> Seq<Seq<char>> {
        texts_of(self.texts@)
    }
}

impl Default for Interner {
    fn default() -> (i: Self)
        ensures
            i.wf(),
            i@ == Seq::<Seq<char>>::empty(),
    {
        let i: Interner = Interner { ids: StringHashMap::new(), texts: Vec::new() };
        assert(i@ =~= Seq::<Seq<char>>::empty());
        i
    }
}

impl Interner {
    /// No text twice, and the ids are the places of the texts.
    pub closed spec fn wf(&self) -> bool {
        &&& self@.no_duplicates()
        &&& forall|t: Seq<char>| #[trigger] self.ids@.contains_key(t) <==> self@.contains(t)
        &&& forall|t: Seq<char>| #[trigger]
            self.ids@.contains_key(t) ==> self.ids@[t] < self@.len() && self@[self.ids@[t] as int]
                == t
    }

    /// A text is interned once.
    pub proof fn law_interned_once(&self)
        requires
            self.wf(),
        ensures
            self@.no_duplicates(),
    {
    }

    /// The provisional id of a text; a new one where the text is new.
    pub fn intern(&mut self, s: &str) -> (id: u32)
        requires
            old(self).wf(),
            old(self)@.len() <= u32::MAX,
        ensures
            final(self).wf(),
            id < final(self)@.len(),
            final(self)@[id as int] == s@,
            old(self)@.contains(s@) ==> final(self)@ == old(self)@,
            !old(self)@.contains(s@) ==> final(self)@ == old(self)@.push(s@) && id == old(
                self,
            )@.len(),
    {
        match self.ids.get(s) {
            Some(id) => {
                return *id;
            },
            None => {},
        }
        let id: u32 = self.texts.len() as u32;
        let ghost before = self@;
        self.texts.push(s.to_owned());
        self.ids.insert(s.to_owned(), id);
        proof {
            assert(self@ =~= before.push(s@));
            assert(self@[id as int] == s@);
            assert forall|t: Seq<char>| #[trigger] self.ids@.contains_key(t) <==> self@.contains(
                t,
            ) by {
                if before.contains(t) {
                    let k = choose|k: int| 0 <= k < before.len() && before[k] == t;
                    assert(self@[k] == t);
                }
                if self@.contains(t) && t != s@ {
                    let k = choose|k: int| 0 <= k < self@.len() && self@[k] == t;
                    assert(before[k] == t);
                }
            }
        }
        id
    }

    /// How many distinct texts have been seen.
    pub fn len(&self) -> (n: usize)
        ensures
            n == self@.len(),
    {
        self.texts.len()
    }

    /// Whether none has.
    pub fn is_empty(&self) -> (b: bool)
        ensures
            b == (self@.len() == 0),
    {
        self.texts.len() == 0
    }

    /// The sorted book of the texts, and for every provisional id the ordinal of
    /// its text. More texts than ordinals are refused.
    pub fn into_codebook(self) -> (r: Result<(IdentityCodebook, Vec<u32>), CodebookError>)
        requires
            self.wf(),
        ensures
            match r {
                Ok((book, remap)) => {
                    &&& self@.len() <= MAX_ENTRIES
                    &&& is_book_of(book@, self@)
                    &&& book@.len() == self@.len()
                    &&& remap@.len() == self@.len()
                    &&& forall|id: int|
                        0 <= id < remap@.len() ==> (#[trigger] remap@[id]) < book@.len()
                            && book@[remap@[id] as int] == self@[id]
                },
                Err(e) => self@.len() > MAX_ENTRIES && e == CodebookError::TooLarge,
            },
    {
        let n: usize = self.texts.len();
        let mut keys: Vec<String> = Vec::new();
        let mut i: usize = 0;
        while i < n
            invariant
                i <= n,
                n == self.texts@.len(),
                keys@.len() == i,
                forall|k: int| 0 <= k < i ==> (#[trigger] keys@[k])@ == self@[k],
            decreases n - i,
        {
            keys.push(self.texts[i].clone());
            i = i + 1;
        }
        assert(texts_of(keys@) =~= self@);
        let book: IdentityCodebook = match IdentityCodebook::try_new(keys) {
            Ok(b) => b,
            Err(e) => {
                return Err(e);
            },
        };
        let mut remap: Vec<u32> = Vec::new();
        let mut id: usize = 0;
        while id < n
            invariant
                id <= n,
                n == self.texts@.len(),
                is_book_of(book@, self@),
                remap@.len() == id,
                forall|k: int|
                    0 <= k < id ==> (#[trigger] remap@[k]) < book@.len() && book@[remap@[k] as int]
                        == self@[k],
            decreases n - id,
        {
            proof {
                assert(self@[id as int] == self.texts@[id as int]@);
                assert(self@.contains(self@[id as int]));
                assert(book@.contains(self@[id as int]));
            }
            let o: Option<u32> = book.ordinal(self.texts[id].as_str());
            match o {
                Some(ordinal) => {
                    remap.push(ordinal);
                },
                None => {
                    assert(false);
                },
            }
            id = id + 1;
        }
        Ok((book, remap))
    }
}

// ── The store ───────────────────────────────────────────────────────
/// A feature's slice of the flat tag store.
#[derive(Debug, Clone, Copy, PartialEq, Eq, Structural)]
pub struct TagSpan {
    pub start: u32,
    pub len: u32,
}

impl Default for TagSpan {
    fn default() -> (s: Self)
        ensures
            s == (TagSpan { start: 0, len: 0 }),
    {
        TagSpan { start: 0, len: 0 }
    }
}

impl TagSpan {
    /// Whether the feature carries no tags.
    pub fn is_empty(self) -> (b: bool)
        ensures
            b == (self.len == 0),
    {
        self.len == 0
    }

    /// Whether the span lies inside a store of `n` pairs.
    pub open spec fn within(self, n: nat) -> bool {
        self.start + self.len <= n
    }

    /// The part of a list that the span addresses.
    pub open spec fn of<T>(self, s: Seq<T>) -> Seq<T> {
        s.subrange(self.start as int, self.start + self.len)
    }
}

/// Every tag of an extract, interned, addressed by span.
pub struct TagStore {
    keys: Interner,
    values: Interner,
    pairs: Vec<(u32, u32)>,
}

impl View for TagStore {
    type V = Seq<(Seq<char>, Seq<char>)>;

    /// The pairs, as texts.
    closed spec fn view(&self) -> Seq<(Seq<char>, Seq<char>)> {
        self.pairs@.map_values(
            |p: (u32, u32)| (self.keys@[p.0 as int], self.values@[p.1 as int]),
        )
    }
}

impl Default for TagStore {
    fn default() -> (s: Self)
        ensures
            s.wf(),
            s@ == Seq::<(Seq<char>, Seq<char>)>::empty(),
            s.key_texts() == Seq::<Seq<char>>::empty(),
            s.value_texts() == Seq::<Seq<char>>::empty(),
    {
        let s: TagStore = TagStore {
            keys: Interner::default(),
            values: Interner::default(),
            pairs: Vec::new(),
        };
        assert(s@ =~= Seq::<(Seq<char>, Seq<char>)>::empty());
        s
    }
}

/// The texts seen after `s`: one more where `t` is new.
pub open spec fn seen(s: Seq<Seq<char>>, t: Seq<char>) -> Seq<Seq<char>> {
    if s.contains(t) {
        s
    } else {
        s.push(t)
    }
}

/// The keys seen after a list of tags.
pub open spec fn keys_seen(s: Seq<Seq<char>>, tags: Seq<(Seq<char>, Seq<char>)>) -> Seq<Seq<char>>
    decreases tags.len(),
{
    if tags.len() == 0 {
        s
    } else {
        seen(keys_seen(s, tags.drop_last()), tags.last().0)
    }
}

/// The values seen after a list of tags.
pub open spec fn values_seen(s: Seq<Seq<char>>, tags: Seq<(Seq<char>, Seq<char>)>) -> Seq<
    Seq<char>,
>
    decreases tags.len(),
{
    if tags.len() == 0 {
        s
    } else {
        seen(values_seen(s, tags.drop_last()), tags.last().1)
    }
}

impl TagStore {
    /// The distinct keys, in the order of first sight.
    pub closed spec fn key_texts(&self) -> Seq<Seq<char>> {
        self.keys@
    }

    /// The distinct values, in the order of first sight.
    pub closed spec fn value_texts(&self) -> Seq<Seq<char>> {
        self.values@
    }

    /// The pairs, as provisional ids.
    pub closed spec fn ids(&self) -> Seq<(u32, u32)> {
        self.pairs@
    }

    /// Every id names a text, and there are no more texts than pairs.
    pub closed spec fn wf(&self) -> bool {
        &&& self.keys.wf()
        &&& self.values.wf()
        &&& self.keys@.len() <= self.pairs@.len()
        &&& self.values@.len() <= self.pairs@.len()
        &&& forall|i: int|
            0 <= i < self.pairs@.len() ==> (#[trigger] self.pairs@[i]).0 < self.keys@.len()
                && self.pairs@[i].1 < self.values@.len()
    }

    /// What [`Self::wf`] says of the ids and the texts.
    pub proof fn lemma_wf(&self)
        requires
            self.wf(),
        ensures
            self.ids().len() == self@.len(),
            self.key_texts().no_duplicates(),
            self.value_texts().no_duplicates(),
            self.key_texts().len() <= self@.len(),
            self.value_texts().len() <= self@.len(),
            forall|i: int|
                0 <= i < self@.len() ==> {
                    let p = #[trigger] self.ids()[i];
                    p.0 < self.key_texts().len() && p.1 < self.value_texts().len() && self@[i] == (
                        self.key_texts()[p.0 as int],
                        self.value_texts()[p.1 as int],
                    )
                },
    {
    }

    /// Interns the tags of one feature, and returns the span that addresses
    /// them.
    pub fn push(&mut self, tags: &[(&str, &str)]) -> (span: TagSpan)
        requires
            old(self).wf(),
            old(self)@.len() + tags@.len() <= u32::MAX,
        ensures
            final(self).wf(),
            final(self)@ == old(self)@ + pairs(tags@),
            span.start == old(self)@.len(),
            span.len == tags@.len(),
            final(self).ids().len() == final(self)@.len(),
            final(self).ids().subrange(0, old(self)@.len() as int) == old(self).ids(),
            final(self).key_texts() == keys_seen(old(self).key_texts(), pairs(tags@)),
            final(self).value_texts() == values_seen(old(self).value_texts(), pairs(tags@)),
    {
        let start: u32 = self.pairs.len() as u32;
        let n: usize = tags.len();
        let ghost all = pairs(tags@);
        let ghost (view0, ids0, keys0, values0) = (self@, self.pairs@, self.keys@, self.values@);
        let mut i: usize = 0;
        assert(all.take(0) =~= Seq::<(Seq<char>, Seq<char>)>::empty());
        assert(self@ =~= view0 + all.take(0));
        assert(self.pairs@.subrange(0, ids0.len() as int) =~= ids0);
        while i < n
            invariant
                i <= n,
                n == tags@.len(),
                all == pairs(tags@),
                self.wf(),
                start == ids0.len(),
                view0.len() == ids0.len(),
                ids0.len() + n <= u32::MAX,
                self.pairs@.len() == ids0.len() + i,
                self@ == view0 + all.take(i as int),
                self.pairs@.subrange(0, ids0.len() as int) == ids0,
                self.keys@ == keys_seen(keys0, all.take(i as int)),
                self.values@ == values_seen(values0, all.take(i as int)),
            decreases n - i,
        {
            let ghost (before, k0, v0, p0) = (self@, self.keys@, self.values@, self.pairs@);
            let k: u32 = self.keys.intern(tags[i].0);
            let v: u32 = self.values.intern(tags[i].1);
            self.pairs.push((k, v));
            proof {
                let next = all.take(i + 1);
                assert(next.drop_last() =~= all.take(i as int));
                assert(next.last() == (tags@[i as int].0@, tags@[i as int].1@));
                assert(self@ =~= before.push(next.last())) by {
                    assert forall|j: int| 0 <= j < before.len() implies self@[j] == before[j] by {
                        let p = p0[j];
                        assert(self.pairs@[j] == p);
                        assert(p.0 < k0.len() && p.1 < v0.len());
                    }
                }
                assert(self@ =~= view0 + next);
                assert(self.pairs@.subrange(0, ids0.len() as int) =~= p0.subrange(
                    0,
                    ids0.len() as int,
                ));
                assert forall|j: int| 0 <= j < self.pairs@.len() implies (
                #[trigger] self.pairs@[j]).0 < self.keys@.len() && self.pairs@[j].1
                    < self.values@.len() by {
                    if j < p0.len() {
                        assert(p0[j] == self.pairs@[j]);
                    }
                }
            }
            i = i + 1;
        }
        assert(all.take(n as int) =~= all);
        TagSpan { start, len: self.pairs.len() as u32 - start }
    }

    /// The provisional ids that a span addresses.
    pub fn span(&self, s: TagSpan) -> (r: &[(u32, u32)])
        requires
            self.wf(),
            s.within(self.ids().len()),
        ensures
            r@ == s.of(self.ids()),
    {
        let total: usize = self.pairs.len();
        let start: usize = s.start as usize;
        slice_subrange(self.pairs.as_slice(), start, start + s.len as usize)
    }

    /// Distinct keys seen.
    pub fn distinct_keys(&self) -> (n: usize)
        ensures
            n == self.key_texts().len(),
    {
        self.keys.len()
    }

    /// Distinct values seen.
    pub fn distinct_values(&self) -> (n: usize)
        ensures
            n == self.value_texts().len(),
    {
        self.values.len()
    }

    /// Pairs stored.
    pub fn pair_count(&self) -> (n: usize)
        ensures
            n == self@.len(),
    {
        self.pairs.len()
    }

    /// Builds both books and rewrites every pair to ordinals. Every pair keeps
    /// its texts. A side with more texts than ordinals is refused.
    pub fn resolve(self) -> (r: Result<ResolvedTags, CodebookError>)
        requires
            self.wf(),
        ensures
            match r {
                Ok(tags) => {
                    &&& tags.wf()
                    &&& tags.texts() == self@
                    &&& is_book_of(tags.keys@, self.key_texts())
                    &&& is_book_of(tags.values@, self.value_texts())
                    &&& self.key_texts().len() <= MAX_ENTRIES
                    &&& self.value_texts().len() <= MAX_ENTRIES
                },
                Err(e) => e == CodebookError::TooLarge && (self.key_texts().len() > MAX_ENTRIES
                    || self.value_texts().len() > MAX_ENTRIES),
            },
    {
        let ghost texts = self@;
        let TagStore { keys: key_ids, values: value_ids, pairs: old_pairs } = self;
        let ghost (k0, v0, p0) = (key_ids@, value_ids@, old_pairs@);
        let (keys, key_map): (IdentityCodebook, Vec<u32>) = match key_ids.into_codebook() {
            Ok(v) => v,
            Err(e) => {
                return Err(e);
            },
        };
        let (values, value_map): (IdentityCodebook, Vec<u32>) = match value_ids.into_codebook() {
            Ok(v) => v,
            Err(e) => {
                return Err(e);
            },
        };
        let n: usize = old_pairs.len();
        let mut new_pairs: Vec<(u32, u32)> = Vec::new();
        let mut i: usize = 0;
        while i < n
            invariant
                i <= n,
                n == old_pairs@.len(),
                old_pairs@ == p0,
                key_map@.len() == k0.len(),
                value_map@.len() == v0.len(),
                forall|j: int|
                    0 <= j < p0.len() ==> (#[trigger] p0[j]).0 < k0.len() && p0[j].1 < v0.len(),
                forall|id: int|
                    0 <= id < key_map@.len() ==> (#[trigger] key_map@[id]) < keys@.len()
                        && keys@[key_map@[id] as int] == k0[id],
                forall|id: int|
                    0 <= id < value_map@.len() ==> (#[trigger] value_map@[id]) < values@.len()
                        && values@[value_map@[id] as int] == v0[id],
                new_pairs@.len() == i,
                forall|j: int|
                    0 <= j < i ==> {
                        let p = #[trigger] new_pairs@[j];
                        p.0 < keys@.len() && p.1 < values@.len() && keys@[p.0 as int]
                            == k0[p0[j].0 as int] && values@[p.1 as int] == v0[p0[j].1 as int]
                    },
            decreases n - i,
        {
            assert(p0[i as int].0 < k0.len());
            let (k, v): (u32, u32) = old_pairs[i];
            new_pairs.push((key_map[k as usize], value_map[v as usize]));
            i = i + 1;
        }
        let tags: ResolvedTags = ResolvedTags { keys, values, pairs: new_pairs };
        assert(tags.texts() =~= texts);
        Ok(tags)
    }
}

/// The tags of a bake: two books, and every pair in ordinals.
pub struct ResolvedTags {
    pub keys: IdentityCodebook,
    pub values: IdentityCodebook,
    pub pairs: Vec<(u32, u32)>,
}

impl ResolvedTags {
    /// The ordinal pairs.
    pub open spec fn ordinals(&self) -> Seq<(u32, u32)> {
        self.pairs@
    }

    /// Every ordinal names a text.
    pub open spec fn wf(&self) -> bool {
        forall|i: int|
            0 <= i < self.pairs@.len() ==> (#[trigger] self.pairs@[i]).0 < self.keys@.len()
                && self.pairs@[i].1 < self.values@.len()
    }

    /// The pairs, as texts.
    pub open spec fn texts(&self) -> Seq<(Seq<char>, Seq<char>)> {
        self.pairs@.map_values(
            |p: (u32, u32)| (self.keys@[p.0 as int], self.values@[p.1 as int]),
        )
    }

    /// The ordinal pairs that a span addresses.
    pub fn span(&self, s: TagSpan) -> (r: &[(u32, u32)])
        requires
            s.within(self.ordinals().len()),
        ensures
            r@ == s.of(self.ordinals()),
    {
        let total: usize = self.pairs.len();
        let start: usize = s.start as usize;
        slice_subrange(self.pairs.as_slice(), start, start + s.len as usize)
    }

    /// How many pairs there are.
    pub fn pair_count(&self) -> (n: usize)
        ensures
            n == self.ordinals().len(),
    {
        self.pairs.len()
    }

    /// One pair as text; none where an ordinal names no text.
    pub fn text(&self, pair: (u32, u32)) -> (t: Option<(&str, &str)>)
        ensures
            match t {
                Some((k, v)) => pair.0 < self.keys@.len() && pair.1 < self.values@.len() && k@
                    == self.keys@[pair.0 as int] && v@ == self.values@[pair.1 as int],
                None => pair.0 >= self.keys@.len() || pair.1 >= self.values@.len(),
            },
    {
        match (self.keys.key(pair.0), self.values.key(pair.1)) {
            (Some(k), Some(v)) => Some((k, v)),
            _ => None,
        }
    }
}

/// Different texts never share an ordinal, and one text never has two: in a
/// book, ordinals are equal exactly where the texts are.
pub proof fn law_ordinals_are_faithful(book: Seq<Seq<char>>, a: int, b: int)
    requires
        strictly_ascending(book),
        0 <= a < book.len(),
        0 <= b < book.len(),
    ensures
        book[a] == book[b] <==> a == b,
{
    if a < b {
        assert(book[a] != book[b]);
    } else if b < a {
        assert(book[b] != book[a]);
    }
}

/// A feature's tags are the texts it was given: what its span holds in ordinals
/// reads, by the two books, as what its span holds in texts.
pub proof fn law_span_reads_as_text(tags: ResolvedTags, s: TagSpan)
    requires
        s.within(tags.ordinals().len()),
    ensures
        s.of(tags.ordinals()).map_values(
            |p: (u32, u32)| (tags.keys@[p.0 as int], tags.values@[p.1 as int]),
        ) == s.of(tags.texts()),
{
    assert(s.of(tags.ordinals()).map_values(
        |p: (u32, u32)| (tags.keys@[p.0 as int], tags.values@[p.1 as int]),
    ) =~= s.of(tags.texts()));
}

// ── Laws of what was seen ───────────────────────────────────────────
/// The keys that were seen are those that were, and those of the tags: none is missing,
/// none is invented, none stands twice, and those seen before keep their places.
pub proof fn law_every_key_is_seen_once(
    s: Seq<Seq<char>>,
    tags: Seq<(Seq<char>, Seq<char>)>,
    key: Seq<char>,
)
    requires
        s.no_duplicates(),
    ensures
        keys_seen(s, tags).no_duplicates(),
        keys_seen(s, tags).contains(key) <==> s.contains(key) || exists|i: int|
            0 <= i < tags.len() && (#[trigger] tags[i]).0 == key,
        s.is_prefix_of(keys_seen(s, tags)),
    decreases tags.len(),
{
    if tags.len() > 0 {
        let front = tags.drop_last();
        let last = tags.last().0;
        law_every_key_is_seen_once(s, front, key);
        law_every_key_is_seen_once(s, front, last);
        let (a, b) = (keys_seen(s, front), keys_seen(s, tags));
        lemma_seen(a, last, key);
        assert forall|i: int| 0 <= i < front.len() implies #[trigger] front[i] == tags[i] by {}
        if exists|i: int| 0 <= i < front.len() && (#[trigger] front[i]).0 == key {
            let i = choose|i: int| 0 <= i < front.len() && (#[trigger] front[i]).0 == key;
            assert(tags[i].0 == key);
        }
        if exists|i: int| 0 <= i < tags.len() && (#[trigger] tags[i]).0 == key {
            let i = choose|i: int| 0 <= i < tags.len() && (#[trigger] tags[i]).0 == key;
            if i < front.len() {
                assert(front[i].0 == key);
            }
        }
        assert(tags[tags.len() - 1].0 == last);
        assert(s.is_prefix_of(b)) by {
            assert(b.len() >= a.len());
            assert forall|i: int| 0 <= i < s.len() implies s[i] == b[i] by {
                assert(a.subrange(0, s.len() as int)[i] == s[i]);
            }
            assert(b.subrange(0, s.len() as int) =~= s);
        }
    } else {
        assert(s.subrange(0, s.len() as int) =~= s);
    }
}

proof fn lemma_seen(s: Seq<Seq<char>>, t: Seq<char>, x: Seq<char>)
    requires
        s.no_duplicates(),
    ensures
        seen(s, t).no_duplicates(),
        seen(s, t).contains(x) <==> s.contains(x) || x == t,
{
    let all = seen(s, t);
    if !s.contains(t) {
        if s.contains(x) {
            let i = choose|i: int| 0 <= i < s.len() && s[i] == x;
            assert(all[i] == x);
        }
        assert(all[s.len() as int] == t);
        if all.contains(x) {
            let i = choose|i: int| 0 <= i < all.len() && all[i] == x;
            if i < s.len() {
                assert(s[i] == x);
            }
        }
    }
}

/// The same of values.
pub proof fn law_every_value_is_seen_once(
    s: Seq<Seq<char>>,
    tags: Seq<(Seq<char>, Seq<char>)>,
    value: Seq<char>,
)
    requires
        s.no_duplicates(),
    ensures
        values_seen(s, tags).no_duplicates(),
        values_seen(s, tags).contains(value) <==> s.contains(value) || exists|i: int|
            0 <= i < tags.len() && (#[trigger] tags[i]).1 == value,
        s.is_prefix_of(values_seen(s, tags)),
    decreases tags.len(),
{
    if tags.len() > 0 {
        let front = tags.drop_last();
        let last = tags.last().1;
        law_every_value_is_seen_once(s, front, value);
        law_every_value_is_seen_once(s, front, last);
        let (a, b) = (values_seen(s, front), values_seen(s, tags));
        lemma_seen(a, last, value);
        assert forall|i: int| 0 <= i < front.len() implies #[trigger] front[i] == tags[i] by {}
        if exists|i: int| 0 <= i < front.len() && (#[trigger] front[i]).1 == value {
            let i = choose|i: int| 0 <= i < front.len() && (#[trigger] front[i]).1 == value;
            assert(tags[i].1 == value);
        }
        if exists|i: int| 0 <= i < tags.len() && (#[trigger] tags[i]).1 == value {
            let i = choose|i: int| 0 <= i < tags.len() && (#[trigger] tags[i]).1 == value;
            if i < front.len() {
                assert(front[i].1 == value);
            }
        }
        assert(tags[tags.len() - 1].1 == last);
        assert(s.is_prefix_of(b)) by {
            assert(b.len() >= a.len());
            assert forall|i: int| 0 <= i < s.len() implies s[i] == b[i] by {
                assert(a.subrange(0, s.len() as int)[i] == s[i]);
            }
            assert(b.subrange(0, s.len() as int) =~= s);
        }
    } else {
        assert(s.subrange(0, s.len() as int) =~= s);
    }
}

} // verus!
