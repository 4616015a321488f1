//! The 64k-row fragment: 64k files of 64k rows, 2^32 rows in all.
//!
//! A row has two addresses. The *logical* one is its Morton key; the *physical*
//! one is `(fragment, row)`, together one `u32`. [`BoundaryIndex`] is the whole
//! map between them: the first key of every fragment.

use crate::bytes::{
    le_at, le_bytes, lemma_le_bytes_len, lemma_le_round_trip, lemma_pow256_widths, push_slice,
    push_u32, push_u64, read_u32, read_u64,
};
use crate::node::NODE_ROW_STRIDE;
use crate::text::{hex, lemma_hex_injective, lemma_hex_len, pow16, push_hex};
use core::ops::Range;
use vstd::prelude::*;
use vstd::string::*;

verus! {

/// Rows per fragment: a row index inside a fragment is exactly a `u16`.
pub const FRAGMENT_ROWS: usize = 65_536;

/// Bytes per full fragment: 32 MiB.
pub const FRAGMENT_BYTES: usize = 33_554_432;

/// Fragments that a `u16` can name.
pub const MAX_FRAGMENTS: usize = 65_536;

/// The sizes fit together: a fragment is its rows, and the namespace is 2^32
/// rows.
pub proof fn law_namespace()
    ensures
        FRAGMENT_BYTES == FRAGMENT_ROWS * NODE_ROW_STRIDE,
        FRAGMENT_BYTES == 32 * 1024 * 1024,
        MAX_FRAGMENTS * FRAGMENT_ROWS == u32::MAX + 1,
{
}

// ── Addresses ───────────────────────────────────────────────────────
/// A row's address: which fragment, which row inside it.
#[derive(Debug, Clone, Copy, PartialEq, Eq, PartialOrd, Ord, Structural)]
pub struct RowAddr {
    pub fragment: u16,
    pub row: u16,
}

impl RowAddr {
    /// The global ordinal of the row.
    pub open spec fn ordinal(self) -> nat {
        (self.fragment * 65_536 + self.row) as nat
    }

    /// The global row ordinal that this address denotes.
    pub fn to_u32(self) -> (v: u32)
        ensures
            v == self.ordinal(),
    {
        self.fragment as u32 * 65_536 + self.row as u32
    }

    /// The address of a global row ordinal.
    pub fn from_u32(v: u32) -> (a: Self)
        ensures
            a.ordinal() == v,
            a.fragment == v / 65_536,
            a.row == v % 65_536,
    {
        RowAddr { fragment: (v / 65_536) as u16, row: (v % 65_536) as u16 }
    }

    /// The address of global row `i`; none past the namespace.
    pub fn of_row(i: usize) -> (a: Option<Self>)
        ensures
            match a {
                Some(addr) => addr.ordinal() == i,
                None => i > u32::MAX,
            },
    {
        if i as u64 <= 0xffff_ffff {
            Some(RowAddr::from_u32(i as u32))
        } else {
            None
        }
    }
}

/// An ordinal denotes one address only.
pub proof fn law_address_is_unique(a: RowAddr, b: RowAddr)
    requires
        a.ordinal() == b.ordinal(),
    ensures
        a == b,
        a.ordinal() <= u32::MAX,
{
}

/// The path of a fragment: `{hi:02x}/{id:04x}.soa`.
pub open spec fn path_of(id: nat) -> Seq<char> {
    hex(id / 256, 2) + "/"@ + hex(id, 4) + ".soa"@
}

/// Deterministic path of a fragment. Two levels, so that no directory holds more
/// than 256 entries.
pub fn fragment_path(id: u16) -> (p: String)
    ensures
        p@ == path_of(id as nat),
{
    let mut p: String = String::new();
    push_hex(&mut p, id as u64 / 256, 2);
    p.append("/");
    push_hex(&mut p, id as u64, 4);
    p.append(".soa");
    assert(p@ =~= path_of(id as nat));
    p
}

/// Different fragments have different paths.
pub proof fn law_paths_are_distinct(a: u16, b: u16)
    requires
        path_of(a as nat) == path_of(b as nat),
    ensures
        a == b,
{
    let (x, y) = (a as nat, b as nat);
    lemma_hex_len(x / 256, 2);
    lemma_hex_len(y / 256, 2);
    lemma_hex_len(x, 4);
    lemma_hex_len(y, 4);
    let n = "/"@.len();
    assert(path_of(x).subrange((2 + n) as int, (6 + n) as int) =~= hex(x, 4));
    assert(path_of(y).subrange((2 + n) as int, (6 + n) as int) =~= hex(y, 4));
    reveal_with_fuel(pow16, 5);
    lemma_hex_injective(x, y, 4);
}

// ── The boundary index ──────────────────────────────────────────────
/// Whether keys never descend.
pub open spec fn sorted(s: Seq<u64>) -> bool {
    forall|i: int, j: int| #![trigger s[i], s[j]] 0 <= i <= j < s.len() ==> s[i] <= s[j]
}

/// How many keys stand in front of the first that is not below `bound`.
pub open spec fn below(s: Seq<u64>, bound: int) -> nat
    decreases s.len(),
{
    if s.len() == 0 {
        0
    } else if s.last() < bound {
        s.len()
    } else {
        below(s.drop_last(), bound)
    }
}

/// In sorted keys, [`below`] splits the keys below the bound from the others.
pub proof fn lemma_below(s: Seq<u64>, bound: int)
    requires
        sorted(s),
    ensures
        below(s, bound) <= s.len(),
        forall|i: int| 0 <= i < below(s, bound) ==> #[trigger] s[i] < bound,
        forall|i: int| below(s, bound) <= i < s.len() ==> #[trigger] s[i] >= bound,
    decreases s.len(),
{
    if s.len() > 0 && s.last() >= bound {
        let front = s.drop_last();
        assert forall|i: int, j: int|
            #![trigger front[i], front[j]]
            0 <= i <= j < front.len() implies front[i] <= front[j] by {
            assert(s[i] <= s[j]);
        }
        lemma_below(front, bound);
        assert forall|i: int| 0 <= i < below(s, bound) implies #[trigger] s[i] < bound by {
            assert(front[i] == s[i]);
        }
        assert forall|i: int| below(s, bound) <= i < s.len() implies #[trigger] s[i] >= bound by {
            if i < front.len() {
                assert(front[i] == s[i]);
            }
        }
    }
}

/// Whether fragment `i` overlaps the keys from `lo` up to but not including `hi`: it
/// starts before `hi`, and it starts at `lo` or the next one starts beyond it.
pub open spec fn overlaps(s: Seq<u64>, lo: int, hi: int, i: int) -> bool {
    lo < hi && s[i] < hi && (i + 1 == s.len() || lo < s[i + 1] || lo == s[i])
}

/// The fragments that a range of keys needs: from the first that starts at `lo`, or
/// where none does the last that starts before it (the first of all, where none
/// does), up to the last that starts before `hi`.
pub open spec fn needed(s: Seq<u64>, lo: int, hi: int) -> (int, int) {
    if hi <= lo {
        (0, 0)
    } else if below(s, lo) < below(s, lo + 1) || below(s, lo) == 0 {
        (below(s, lo) as int, below(s, hi) as int)
    } else {
        (below(s, lo) - 1, below(s, hi) as int)
    }
}

/// The fragments needed are those that overlap.
proof fn lemma_needed(s: Seq<u64>, lo: int, hi: int)
    requires
        sorted(s),
    ensures
        0 <= needed(s, lo, hi).0 <= needed(s, lo, hi).1 <= s.len(),
        forall|i: int|
            0 <= i < s.len() ==> (needed(s, lo, hi).0 <= i < needed(s, lo, hi).1
                <==> #[trigger] overlaps(s, lo, hi, i)),
{
    lemma_below(s, lo);
    lemma_below(s, lo + 1);
    lemma_below(s, hi);
    let (p, q, e) = (below(s, lo) as int, below(s, lo + 1) as int, below(s, hi) as int);
    if lo < hi {
        if q < p {
            assert(s[q] < lo);
        }
        if e < q {
            assert(s[e] < lo + 1);
        }
        assert forall|i: int| 0 <= i < s.len() implies (needed(s, lo, hi).0 <= i < needed(
            s,
            lo,
            hi,
        ).1 <==> #[trigger] overlaps(s, lo, hi, i)) by {
            assert(i < e <==> s[i] < hi);
            assert(i < p <==> s[i] < lo);
            assert(i < q <==> s[i] < lo + 1);
            if i + 1 < s.len() {
                assert(i + 1 < q <==> s[i + 1] < lo + 1);
            }
        }
    }
}

/// The first key of every fragment, in fragment order.
#[derive(Debug, PartialEq, Eq)]
pub struct BoundaryIndex {
    firsts: Vec<u64>,
}

/// Wire magic of a serialized index, `OSBI`.
pub const BOUNDARY_MAGIC: [u8; 4] = [0x4f, 0x53, 0x42, 0x49];

/// The wire form of the keys.
pub open spec fn keys_wire(s: Seq<u64>) -> Seq<u8>
    decreases s.len(),
{
    if s.len() == 0 {
        Seq::empty()
    } else {
        keys_wire(s.drop_last()) + le_bytes(s.last() as nat, 8)
    }
}

/// The wire form of an index: magic, count, keys.
pub open spec fn index_wire(s: Seq<u64>) -> Seq<u8> {
    BOUNDARY_MAGIC@ + (le_bytes(s.len(), 4) + keys_wire(s))
}

/// Whether bytes start with a complete index.
pub open spec fn holds_index(b: Seq<u8>) -> bool {
    &&& b.len() >= 8
    &&& b.subrange(0, 4) == BOUNDARY_MAGIC@
    &&& b.len() >= 8 + 8 * le_at(b, 4, 4)
}

/// The keys that the bytes hold.
pub open spec fn wire_keys(b: Seq<u8>) -> Seq<u64> {
    Seq::new(le_at(b, 4, 4), |i: int| le_at(b, 8 + 8 * i, 8) as u64)
}

/// Whether keys make an index.
pub open spec fn indexable(s: Seq<u64>) -> bool {
    sorted(s) && s.len() <= MAX_FRAGMENTS
}

impl Default for BoundaryIndex {
    fn default() -> (index: Self)
        ensures
            index@ == Seq::<u64>::empty(),
    {
        BoundaryIndex { firsts: Vec::new() }
    }
}

impl Clone for BoundaryIndex {
    fn clone(&self) -> (index: Self)
        ensures
            index@ == self@,
    {
        proof {
            use_type_invariant(self);
        }
        let firsts: Vec<u64> = self.firsts.clone();
        assert(firsts@ =~= self.firsts@);
        BoundaryIndex { firsts }
    }
}

impl View for BoundaryIndex {
    type V = Seq<u64>;

    closed spec fn view(&self) -> Seq<u64> {
        self.firsts@
    }
}

impl BoundaryIndex {
    #[verifier::type_invariant]
    spec fn inv(&self) -> bool {
        indexable(self.firsts@)
    }

    /// Builds an index. Keys that descend are refused, since a search among
    /// them would answer wrongly, and so are more keys than fragments.
    pub fn new(firsts: Vec<u64>) -> (index: Option<Self>)
        ensures
            match index {
                Some(ix) => indexable(firsts@) && ix@ == firsts@,
                None => !indexable(firsts@),
            },
    {
        let n: usize = firsts.len();
        let mut i: usize = 1;
        while i < n
            invariant
                1 <= i,
                n == firsts@.len(),
                forall|a: int, b: int|
                    #![trigger firsts@[a], firsts@[b]]
                    0 <= a <= b < i && b < n ==> firsts@[a] <= firsts@[b],
            decreases n - i,
        {
            if firsts[i - 1] > firsts[i] {
                assert(firsts@[i - 1] > firsts@[i as int]);
                return None;
            }
            i = i + 1;
        }
        if n > MAX_FRAGMENTS {
            return None;
        }
        Some(BoundaryIndex { firsts })
    }

    /// How many fragments there are.
    pub fn len(&self) -> (n: usize)
        ensures
            n == self@.len(),
            indexable(self@),
    {
        proof {
            use_type_invariant(self);
        }
        self.firsts.len()
    }

    /// Whether there are none.
    pub fn is_empty(&self) -> (b: bool)
        ensures
            b == (self@.len() == 0),
    {
        self.firsts.len() == 0
    }

    /// Finds [`below`] by halving.
    fn search(&self, bound: u128) -> (p: usize)
        requires
            indexable(self.firsts@),
        ensures
            p == below(self@, bound as int),
    {
        let mut lo: usize = 0;
        let mut hi: usize = self.firsts.len();
        while lo < hi
            invariant
                indexable(self.firsts@),
                lo <= hi <= self.firsts@.len(),
                forall|i: int| 0 <= i < lo ==> #[trigger] self.firsts@[i] < bound,
                forall|i: int|
                    hi <= i < self.firsts@.len() ==> #[trigger] self.firsts@[i] >= bound,
            decreases hi - lo,
        {
            let mid: usize = lo + (hi - lo) / 2;
            if (self.firsts[mid] as u128) < bound {
                lo = mid + 1;
            } else {
                hi = mid;
            }
        }
        proof {
            lemma_below(self@, bound as int);
            let p = below(self@, bound as int);
            if lo < p {
                assert(self@[lo as int] < bound);
            } else if p < lo {
                assert(self@[p as int] >= bound);
            }
        }
        lo
    }

    /// The fragment that may hold `code`: the last one whose first key is not
    /// beyond it. None only where `code` precedes every key.
    pub fn locate(&self, code: u64) -> (f: Option<u16>)
        ensures
            match f {
                Some(i) => i < self@.len() && self@[i as int] <= code && forall|j: int|
                    i < j < self@.len() ==> #[trigger] self@[j] > code,
                None => forall|j: int| 0 <= j < self@.len() ==> #[trigger] self@[j] > code,
            },
            f == if below(self@, code + 1) > 0 {
                Some((below(self@, code + 1) - 1) as u16)
            } else {
                None
            },
    {
        proof {
            use_type_invariant(self);
            lemma_below(self@, code + 1);
        }
        let p: usize = self.search(code as u128 + 1);
        if p > 0 {
            Some((p - 1) as u16)
        } else {
            None
        }
    }

    /// Every fragment that overlaps the keys from `lo` up to but not including `hi`.
    /// Rows of one key may fill a fragment and go on in the next, so that several
    /// start at `lo`: the range starts at the first of them.
    pub fn locate_range(&self, lo: u64, hi: u64) -> (r: Range<usize>)
        ensures
            r.start == needed(self@, lo as int, hi as int).0,
            r.end == needed(self@, lo as int, hi as int).1,
            r.start <= r.end <= self@.len(),
            forall|i: int|
                0 <= i < self@.len() ==> (r.start <= i < r.end <==> #[trigger] overlaps(
                    self@,
                    lo as int,
                    hi as int,
                    i,
                )),
    {
        proof {
            use_type_invariant(self);
            lemma_below(self@, lo as int);
            lemma_below(self@, lo + 1);
            lemma_needed(self@, lo as int, hi as int);
        }
        if hi <= lo {
            return Range { start: 0, end: 0 };
        }
        let first: usize = self.search(lo as u128);
        let start: usize = if first == 0 || (first < self.firsts.len() && self.firsts[first]
            == lo) {
            first
        } else {
            first - 1
        };
        let end: usize = self.search(hi as u128);
        Range { start, end }
    }

    /// The wire form.
    pub fn to_le_bytes(&self) -> (v: Vec<u8>)
        ensures
            v@ == index_wire(self@),
    {
        proof {
            use_type_invariant(self);
        }
        let mut v: Vec<u8> = Vec::new();
        push_slice(&mut v, BOUNDARY_MAGIC.as_slice());
        push_u32(&mut v, self.firsts.len() as u32);
        let mut i: usize = 0;
        assert(self@.take(0) =~= Seq::<u64>::empty());
        assert(v@ =~= BOUNDARY_MAGIC@ + (le_bytes(self@.len(), 4) + keys_wire(self@.take(0))));
        while i < self.firsts.len()
            invariant
                i <= self.firsts@.len(),
                v@ == BOUNDARY_MAGIC@ + (le_bytes(self@.len(), 4) + keys_wire(
                    self@.take(i as int),
                )),
            decreases self.firsts@.len() - i,
        {
            push_u64(&mut v, self.firsts[i]);
            proof {
                assert(self@.take(i + 1).drop_last() =~= self@.take(i as int));
                assert(v@ =~= BOUNDARY_MAGIC@ + (le_bytes(self@.len(), 4) + keys_wire(
                    self@.take(i + 1),
                )));
            }
            i = i + 1;
        }
        assert(self@.take(self@.len() as int) =~= self@);
        v
    }

    /// Parses the wire form. A bad magic, a short buffer or keys that make no
    /// index are refused; nothing is read in part.
    pub fn from_le_bytes(b: &[u8]) -> (index: Option<Self>)
        ensures
            match index {
                Some(ix) => holds_index(b@) && indexable(wire_keys(b@)) && ix@ == wire_keys(b@),
                None => !(holds_index(b@) && indexable(wire_keys(b@))),
            },
    {
        if b.len() < 8 {
            return None;
        }
        let mut k: usize = 0;
        while k < 4
            invariant
                k <= 4,
                b@.len() >= 8,
                forall|j: int| 0 <= j < k ==> b@[j] == #[trigger] BOUNDARY_MAGIC@[j],
            decreases 4 - k,
        {
            if b[k] != BOUNDARY_MAGIC[k] {
                assert(b@.subrange(0, 4)[k as int] != BOUNDARY_MAGIC@[k as int]);
                return None;
            }
            k = k + 1;
        }
        assert(b@.subrange(0, 4) =~= BOUNDARY_MAGIC@);
        let count: u32 = read_u32(b, 4);
        if (b.len() as u64) < 8 + 8 * (count as u64) {
            return None;
        }
        let n: usize = count as usize;
        let total: usize = b.len();
        let mut firsts: Vec<u64> = Vec::new();
        let mut i: usize = 0;
        while i < n
            invariant
                i <= n,
                n == le_at(b@, 4, 4),
                total == b@.len(),
                total >= 8 + 8 * n,
                firsts@.len() == i,
                forall|j: int| 0 <= j < i ==> #[trigger] firsts@[j] == le_at(b@, 8 + 8 * j, 8),
            decreases n - i,
        {
            firsts.push(read_u64(b, 8 + 8 * i));
            i = i + 1;
        }
        assert(firsts@ =~= wire_keys(b@));
        BoundaryIndex::new(firsts)
    }
}

/// Where key `i` stands in the wire form.
proof fn lemma_key_at(s: Seq<u64>, i: int)
    requires
        0 <= i < s.len(),
    ensures
        keys_wire(s).len() == 8 * s.len(),
        keys_wire(s).subrange(8 * i, 8 * i + 8) == le_bytes(s[i] as nat, 8),
    decreases s.len(),
{
    let front = s.drop_last();
    lemma_le_bytes_len(s.last() as nat, 8);
    if i < front.len() {
        lemma_key_at(front, i);
        assert(keys_wire(s).subrange(8 * i, 8 * i + 8) =~= keys_wire(front).subrange(
            8 * i,
            8 * i + 8,
        ));
    } else {
        lemma_keys_len(front);
        assert(keys_wire(s).subrange(8 * i, 8 * i + 8) =~= le_bytes(s[i] as nat, 8));
    }
}

proof fn lemma_keys_len(s: Seq<u64>)
    ensures
        keys_wire(s).len() == 8 * s.len(),
    decreases s.len(),
{
    if s.len() > 0 {
        lemma_keys_len(s.drop_last());
        lemma_le_bytes_len(s.last() as nat, 8);
    }
}

/// An index is read back from its wire form, whatever follows it.
pub proof fn law_index_round_trip(s: Seq<u64>, rest: Seq<u8>)
    requires
        indexable(s),
    ensures
        holds_index(index_wire(s) + rest),
        wire_keys(index_wire(s) + rest) == s,
{
    let b = index_wire(s) + rest;
    lemma_pow256_widths();
    lemma_keys_len(s);
    lemma_le_round_trip(s.len(), 4);
    assert(b.subrange(0, 4) =~= BOUNDARY_MAGIC@);
    assert(b.subrange(4, 8) =~= le_bytes(s.len(), 4));
    assert forall|i: int| 0 <= i < s.len() implies le_at(b, 8 + 8 * i, 8) == #[trigger] s[i] by {
        lemma_key_at(s, i);
        assert(b.subrange(8 + 8 * i, 16 + 8 * i) =~= keys_wire(s).subrange(8 * i, 8 * i + 8));
        lemma_le_round_trip(s[i] as nat, 8);
    }
    assert(wire_keys(b) =~= s);
}

/// A range names every fragment that may hold one of its keys: where fragment `i`
/// starts at `code`, or starts before it and the next one starts beyond it, `i` is
/// in the range of every interval that holds `code`.
pub proof fn law_range_is_complete(s: Seq<u64>, lo: u64, hi: u64, code: u64, i: int)
    requires
        indexable(s),
        lo <= code < hi,
        0 <= i < s.len(),
        s[i] <= code,
        i + 1 < s.len() ==> code < s[i + 1] || s[i] == code,
    ensures
        needed(s, lo as int, hi as int).0 <= i < needed(s, lo as int, hi as int).1,
{
    lemma_needed(s, lo as int, hi as int);
    if i + 1 < s.len() {
        assert(s[i] <= s[i + 1]);
    }
    assert(overlaps(s, lo as int, hi as int, i));
}

/// Every fragment of a range but its first starts inside the interval.
pub proof fn law_range_is_tight(s: Seq<u64>, lo: u64, hi: u64, i: int)
    requires
        indexable(s),
        needed(s, lo as int, hi as int).0 < i < needed(s, lo as int, hi as int).1,
    ensures
        0 <= i < s.len(),
        lo <= s[i] < hi,
{
    lemma_below(s, lo as int);
    lemma_below(s, hi as int);
}

/// How many keys of an index lie below a bound.
pub proof fn law_keys_below_are_counted(s: Seq<u64>, bound: int)
    requires
        sorted(s),
    ensures
        below(s, bound) == s.filter(|k: u64| k < bound).len(),
    decreases s.len(),
{
    reveal(Seq::filter);
    let p = |k: u64| k < bound;
    if s.len() > 0 {
        let front = s.drop_last();
        assert forall|i: int, j: int|
            #![trigger front[i], front[j]]
            0 <= i <= j < front.len() implies front[i] <= front[j] by {
            assert(s[i] <= s[j]);
        }
        law_keys_below_are_counted(front, bound);
        if s.last() < bound {
            assert forall|i: int| 0 <= i < s.len() implies #[trigger] s[i] < bound by {
                assert(s[i] <= s[s.len() - 1]);
            }
            lemma_all_kept(s, p);
        }
    }
}

proof fn lemma_all_kept(s: Seq<u64>, p: spec_fn(u64) -> bool)
    requires
        forall|i: int| 0 <= i < s.len() ==> p(#[trigger] s[i]),
    ensures
        s.filter(p).len() == s.len(),
    decreases s.len(),
{
    reveal(Seq::filter);
    if s.len() > 0 {
        let front = s.drop_last();
        assert forall|i: int| 0 <= i < front.len() implies p(#[trigger] front[i]) by {
            assert(p(s[i]));
        }
        assert(p(s[s.len() - 1]));
        lemma_all_kept(front, p);
    }
}

/// The layout of an index: its magic, the number of keys in four bytes, eight bytes for
/// each.
pub proof fn law_index_layout(s: Seq<u64>)
    ensures
        ({
            let w = index_wire(s);
            &&& w.len() == 8 + 8 * s.len()
            &&& w[0] == 'O' as u8 && w[1] == 'S' as u8 && w[2] == 'B' as u8 && w[3] == 'I' as u8
            &&& w.subrange(4, 8) == le_bytes(s.len(), 4)
            &&& forall|i: int|
                0 <= i < s.len() ==> w.subrange(8 + 8 * i, 16 + 8 * i) == le_bytes(
                    #[trigger] s[i] as nat,
                    8,
                )
        }),
{
    let w = index_wire(s);
    lemma_keys_len(s);
    lemma_le_bytes_len(s.len(), 4);
    assert(w.subrange(4, 8) =~= le_bytes(s.len(), 4));
    assert forall|i: int| 0 <= i < s.len() implies w.subrange(8 + 8 * i, 16 + 8 * i) == le_bytes(
        #[trigger] s[i] as nat,
        8,
    ) by {
        lemma_key_at(s, i);
        assert(w.subrange(8 + 8 * i, 16 + 8 * i) =~= keys_wire(s).subrange(8 * i, 8 * i + 8));
    }
}

/// The path of a fragment is its high byte, a slash, its number and the suffix, in
/// hexadecimal.
pub proof fn law_a_path_spells_its_number(id: u16)
    ensures
        ({
            let p = path_of(id as nat);
            &&& p.len() == 11
            &&& crate::text::numeral_value(p.take(2), 16) == Some((id / 256) as nat)
            &&& p[2] == '/'
            &&& crate::text::numeral_value(p.subrange(3, 7), 16) == Some(id as nat)
            &&& p.skip(7) == ".soa"@
        }),
{
    let p = path_of(id as nat);
    reveal_strlit("/");
    reveal_strlit(".soa");
    reveal_with_fuel(pow16, 5);
    lemma_hex_len(id as nat / 256, 2);
    lemma_hex_len(id as nat, 4);
    crate::text::lemma_hex_value(id as nat / 256, 2);
    crate::text::lemma_hex_value(id as nat, 4);
    assert(p.take(2) =~= hex(id as nat / 256, 2));
    assert(p.subrange(3, 7) =~= hex(id as nat, 4));
    assert(p.skip(7) =~= ".soa"@);
}

} // verus!
