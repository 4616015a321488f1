//! How many facet slots the tiles of a tier would need, with one row per tile:
//! one slot for every member and one for every tag pair.

use crate::cluster::CLUSTER_SLOTS;
use std::collections::HashMap;
use vstd::prelude::*;
use vstd::std_specs::hash::*;

verus! {

broadcast use group_hash_axioms;

/// What a tile holds.
#[derive(Debug, Clone, Copy, PartialEq, Eq, Structural)]
pub struct Tile {
    /// The Morton code of its members without the bits below its tier.
    pub prefix: u64,
    pub members: u64,
    /// One slot for every member and one for each of its tag pairs.
    pub slots: u64,
}

/// A feature as the probe sees it: its Morton code and how many tags it has.
pub type Coded = (u64, u32);

/// How many of the first `k` features lie in a tile.
pub open spec fn members_in(s: Seq<Coded>, shift: u32, prefix: u64, k: int) -> nat
    decreases k,
{
    if k <= 0 {
        0
    } else {
        members_in(s, shift, prefix, k - 1) + if s[k - 1].0 >> shift == prefix {
            1nat
        } else {
            0
        }
    }
}

/// How many slots the first `k` features need in a tile.
pub open spec fn slots_in(s: Seq<Coded>, shift: u32, prefix: u64, k: int) -> nat
    decreases k,
{
    if k <= 0 {
        0
    } else {
        slots_in(s, shift, prefix, k - 1) + if s[k - 1].0 >> shift == prefix {
            1 + s[k - 1].1 as nat
        } else {
            0
        }
    }
}

/// How many slots the first `k` features need in all.
pub open spec fn slot_total(s: Seq<Coded>, k: int) -> nat
    decreases k,
{
    if k <= 0 {
        0
    } else {
        slot_total(s, k - 1) + 1 + s[k - 1].1 as nat
    }
}

/// Whether a tile is listed.
pub open spec fn lists_tile(tiles: Seq<Tile>, prefix: u64) -> bool {
    exists|t: int| 0 <= t < tiles.len() && (#[trigger] tiles[t]).prefix == prefix
}

/// Whether these are the tiles of the first `k` features: each that has a
/// member, once, with what its members need.
pub open spec fn are_tiles(tiles: Seq<Tile>, s: Seq<Coded>, shift: u32, k: int) -> bool {
    &&& forall|t: int|
        0 <= t < tiles.len() ==> {
            let tile = #[trigger] tiles[t];
            &&& tile.members == members_in(s, shift, tile.prefix, k)
            &&& tile.members > 0
            &&& tile.slots == slots_in(s, shift, tile.prefix, k)
        }
    &&& forall|a: int, b: int|
        #![trigger tiles[a], tiles[b]]
        0 <= a < b < tiles.len() ==> tiles[a].prefix != tiles[b].prefix
    &&& forall|i: int| 0 <= i < k ==> lists_tile(tiles, (#[trigger] s[i]).0 >> shift)
}

proof fn lemma_slots_at_most(s: Seq<Coded>, shift: u32, prefix: u64, k: int)
    requires
        0 <= k <= s.len(),
    ensures
        members_in(s, shift, prefix, k) <= slots_in(s, shift, prefix, k) <= slot_total(s, k),
        slot_total(s, k) <= slot_total(s, s.len() as int),
    decreases k,
{
    if k > 0 {
        lemma_slots_at_most(s, shift, prefix, k - 1);
    }
    lemma_total_grows(s, k);
}

proof fn lemma_total_grows(s: Seq<Coded>, k: int)
    requires
        0 <= k <= s.len(),
    ensures
        slot_total(s, k) <= slot_total(s, s.len() as int),
    decreases s.len() - k,
{
    if k < s.len() {
        lemma_total_grows(s, k + 1);
    }
}

/// What is not listed has no member.
proof fn lemma_unlisted(s: Seq<Coded>, shift: u32, prefix: u64, k: int)
    requires
        0 <= k <= s.len(),
        forall|i: int| 0 <= i < k ==> (#[trigger] s[i]).0 >> shift != prefix,
    ensures
        members_in(s, shift, prefix, k) == 0,
        slots_in(s, shift, prefix, k) == 0,
    decreases k,
{
    if k > 0 {
        assert(s[k - 1].0 >> shift != prefix);
        lemma_unlisted(s, shift, prefix, k - 1);
    }
}

/// The tiles of a tier, in the order in which they first occur. A tier is given
/// by how many low bits of the code it leaves out.
pub fn tile_demand(coded: &[Coded], shift: u32) -> (tiles: Vec<Tile>)
    requires
        shift < 64,
        slot_total(coded@, coded@.len() as int) <= u64::MAX,
    ensures
        are_tiles(tiles@, coded@, shift, coded@.len() as int),
{
    let mut tiles: Vec<Tile> = Vec::new();
    let mut at: HashMap<u64, usize> = HashMap::new();
    let mut i: usize = 0;
    while i < coded.len()
        invariant
            i <= coded@.len(),
            shift < 64,
            slot_total(coded@, coded@.len() as int) <= u64::MAX,
            are_tiles(tiles@, coded@, shift, i as int),
            forall|p: u64| #[trigger] at@.contains_key(p) <==> lists_tile(tiles@, p),
            forall|p: u64| #[trigger]
                at@.contains_key(p) ==> at@[p] < tiles@.len() && tiles@[at@[p] as int].prefix == p,
        decreases coded@.len() - i,
    {
        let (code, tags): (u64, u32) = coded[i];
        let prefix: u64 = code >> shift;
        let ghost before = tiles@;
        let ghost at0 = at@;
        proof {
            lemma_slots_at_most(coded@, shift, prefix, i + 1);
        }
        match at.get(&prefix) {
            Some(t) => {
                let t: usize = *t;
                let old_tile: Tile = tiles[t];
                assert(before[t as int].prefix == prefix);
                tiles.set(
                    t,
                    Tile {
                        prefix,
                        members: old_tile.members + 1,
                        slots: old_tile.slots + 1 + tags as u64,
                    },
                );
                proof {
                    lemma_tile_changed(before, tiles@, coded@, shift, i as int, t as int);
                    assert forall|p: u64| lists_tile(tiles@, p) <==> lists_tile(before, p) by {
                        lemma_same_prefixes(before, tiles@, p);
                    }
                }
            },
            None => {
                proof {
                    assert(!lists_tile(before, prefix));
                    assert forall|j: int| 0 <= j < i implies (#[trigger] coded@[j]).0 >> shift
                        != prefix by {
                        assert(lists_tile(before, coded@[j].0 >> shift));
                    }
                    lemma_unlisted(coded@, shift, prefix, i as int);
                }
                at.insert(prefix, tiles.len());
                tiles.push(Tile { prefix, members: 1, slots: 1 + tags as u64 });
                proof {
                    lemma_tile_added(before, tiles@, coded@, shift, i as int);
                    assert forall|p: u64| #[trigger] at@.contains_key(p) <==> lists_tile(
                        tiles@,
                        p,
                    ) by {
                        lemma_more_prefixes(before, tiles@, p);
                    }
                    assert forall|p: u64| #[trigger] at@.contains_key(p) implies at@[p]
                        < tiles@.len() && tiles@[at@[p] as int].prefix == p by {
                        if p != prefix {
                            assert(at0.contains_key(p));
                        }
                    }
                }
            },
        }
        i = i + 1;
    }
    tiles
}

proof fn lemma_same_prefixes(a: Seq<Tile>, b: Seq<Tile>, p: u64)
    requires
        a.len() == b.len(),
        forall|t: int| 0 <= t < a.len() ==> (#[trigger] a[t]).prefix == b[t].prefix,
    ensures
        lists_tile(a, p) <==> lists_tile(b, p),
{
    if lists_tile(a, p) {
        let t = choose|t: int| 0 <= t < a.len() && (#[trigger] a[t]).prefix == p;
        assert(b[t].prefix == p);
    }
    if lists_tile(b, p) {
        let t = choose|t: int| 0 <= t < b.len() && (#[trigger] b[t]).prefix == p;
        assert(a[t].prefix == p);
    }
}

proof fn lemma_more_prefixes(a: Seq<Tile>, b: Seq<Tile>, p: u64)
    requires
        b.len() == a.len() + 1,
        forall|t: int| 0 <= t < a.len() ==> #[trigger] a[t] == b[t],
    ensures
        lists_tile(b, p) <==> lists_tile(a, p) || b[a.len() as int].prefix == p,
{
    if lists_tile(a, p) {
        let t = choose|t: int| 0 <= t < a.len() && (#[trigger] a[t]).prefix == p;
        assert(b[t].prefix == p);
    }
    if lists_tile(b, p) {
        let t = choose|t: int| 0 <= t < b.len() && (#[trigger] b[t]).prefix == p;
        if t < a.len() {
            assert(a[t].prefix == p);
        }
    }
}

/// One more member of a listed tile.
proof fn lemma_tile_changed(
    a: Seq<Tile>,
    b: Seq<Tile>,
    s: Seq<Coded>,
    shift: u32,
    k: int,
    t: int,
)
    requires
        are_tiles(a, s, shift, k),
        0 <= k < s.len(),
        0 <= t < a.len(),
        a[t].prefix == s[k].0 >> shift,
        b == a.update(
            t,
            Tile {
                prefix: a[t].prefix,
                members: (a[t].members + 1) as u64,
                slots: (a[t].slots + 1 + s[k].1) as u64,
            },
        ),
        a[t].members + 1 <= u64::MAX,
        a[t].slots + 1 + s[k].1 <= u64::MAX,
    ensures
        are_tiles(b, s, shift, k + 1),
{
    assert forall|m: int| 0 <= m < b.len() implies {
        let tile = #[trigger] b[m];
        &&& tile.members == members_in(s, shift, tile.prefix, k + 1)
        &&& tile.members > 0
        &&& tile.slots == slots_in(s, shift, tile.prefix, k + 1)
    } by {
        assert(a[m].prefix == b[m].prefix);
        if m < t {
            assert(a[m].prefix != a[t].prefix);
        } else if t < m {
            assert(a[t].prefix != a[m].prefix);
        }
    }
    assert forall|m: int, n: int|
        #![trigger b[m], b[n]]
        0 <= m < n < b.len() implies b[m].prefix != b[n].prefix by {
        assert(a[m].prefix != a[n].prefix);
    }
    assert forall|i: int| 0 <= i < k + 1 implies lists_tile(b, (#[trigger] s[i]).0 >> shift) by {
        if i < k {
            lemma_same_prefixes(a, b, s[i].0 >> shift);
        } else {
            assert(b[t].prefix == s[k].0 >> shift);
        }
    }
}

/// A tile that was not listed.
proof fn lemma_tile_added(a: Seq<Tile>, b: Seq<Tile>, s: Seq<Coded>, shift: u32, k: int)
    requires
        are_tiles(a, s, shift, k),
        0 <= k < s.len(),
        !lists_tile(a, s[k].0 >> shift),
        members_in(s, shift, s[k].0 >> shift, k) == 0,
        slots_in(s, shift, s[k].0 >> shift, k) == 0,
        b == a.push(Tile { prefix: s[k].0 >> shift, members: 1, slots: (1 + s[k].1) as u64 }),
    ensures
        are_tiles(b, s, shift, k + 1),
{
    assert forall|m: int| 0 <= m < b.len() implies {
        let tile = #[trigger] b[m];
        &&& tile.members == members_in(s, shift, tile.prefix, k + 1)
        &&& tile.members > 0
        &&& tile.slots == slots_in(s, shift, tile.prefix, k + 1)
    } by {
        if m < a.len() {
            assert(a[m] == b[m]);
        }
    }
    assert forall|m: int, n: int|
        #![trigger b[m], b[n]]
        0 <= m < n < b.len() implies b[m].prefix != b[n].prefix by {
        assert(a[m] == b[m]);
        if n < a.len() {
            assert(a[m].prefix != a[n].prefix);
        }
    }
    assert forall|i: int| 0 <= i < k + 1 implies lists_tile(b, (#[trigger] s[i]).0 >> shift) by {
        lemma_more_prefixes(a, b, s[i].0 >> shift);
    }
}

/// How many of the first `k` tiles fit one cluster row.
pub open spec fn fits_below(tiles: Seq<Tile>, k: int) -> nat
    decreases k,
{
    if k <= 0 {
        0
    } else {
        fits_below(tiles, k - 1) + if tiles[k - 1].slots <= CLUSTER_SLOTS {
            1nat
        } else {
            0
        }
    }
}

/// How many tiles fit one cluster row.
pub fn fitting(tiles: &[Tile]) -> (n: usize)
    ensures
        n == fits_below(tiles@, tiles@.len() as int),
{
    let mut n: usize = 0;
    let mut i: usize = 0;
    while i < tiles.len()
        invariant
            i <= tiles@.len(),
            n == fits_below(tiles@, i as int),
            n <= i,
        decreases tiles@.len() - i,
    {
        if tiles[i].slots <= CLUSTER_SLOTS as u64 {
            n = n + 1;
        }
        i = i + 1;
    }
    n
}

// ── Laws of tiles ───────────────────────────────────────────────────
/// A tile holds the features whose code begins as its own does, and needs one slot for
/// each and one for each of their tags.
pub proof fn law_a_tile_holds_its_features(s: Seq<Coded>, shift: u32, prefix: u64, k: int)
    requires
        0 <= k <= s.len(),
    ensures
        members_in(s, shift, prefix, k) == s.take(k).filter(
            |f: Coded| f.0 >> shift == prefix,
        ).len(),
        slots_in(s, shift, prefix, k) == s.take(k).filter(
            |f: Coded| f.0 >> shift == prefix,
        ).fold_left(0int, |sum: int, f: Coded| sum + 1 + f.1),
    decreases k,
{
    reveal(Seq::filter);
    reveal_with_fuel(Seq::fold_left, 2);
    let p = |f: Coded| f.0 >> shift == prefix;
    if k > 0 {
        law_a_tile_holds_its_features(s, shift, prefix, k - 1);
        let (here, front) = (s.take(k), s.take(k - 1));
        assert(here.drop_last() =~= front);
        if p(s[k - 1]) {
            assert(here.filter(p).drop_last() =~= front.filter(p));
        }
    }
}

/// A tile fits one cluster row where it needs thirty slots or fewer.
pub proof fn law_thirty_slots_fit(tiles: Seq<Tile>, k: int)
    requires
        0 <= k <= tiles.len(),
    ensures
        fits_below(tiles, k) == tiles.take(k).filter(|t: Tile| t.slots <= 30).len(),
    decreases k,
{
    reveal(Seq::filter);
    if k > 0 {
        law_thirty_slots_fit(tiles, k - 1);
        assert(tiles.take(k).drop_last() =~= tiles.take(k - 1));
    }
}

/// Tiles of a tier leave no feature out: each has a tile, with slots for it and its tags.
pub proof fn law_no_feature_is_left_out(tiles: Seq<Tile>, s: Seq<Coded>, shift: u32, i: int)
    requires
        are_tiles(tiles, s, shift, s.len() as int),
        0 <= i < s.len(),
    ensures
        exists|t: int|
            0 <= t < tiles.len() && (#[trigger] tiles[t]).prefix == s[i].0 >> shift && tiles[t].slots
                >= 1 + s[i].1,
{
    let n = s.len() as int;
    assert(lists_tile(tiles, s[i].0 >> shift));
    let t = choose|t: int| 0 <= t < tiles.len() && (#[trigger] tiles[t]).prefix == s[i].0 >> shift;
    lemma_slots_grow(s, shift, s[i].0 >> shift, i + 1, n);
    assert(tiles[t].slots == slots_in(s, shift, tiles[t].prefix, n));
}

proof fn lemma_slots_grow(s: Seq<Coded>, shift: u32, prefix: u64, a: int, b: int)
    requires
        0 <= a <= b <= s.len(),
    ensures
        slots_in(s, shift, prefix, a) <= slots_in(s, shift, prefix, b),
    decreases b - a,
{
    if a < b {
        lemma_slots_grow(s, shift, prefix, a, b - 1);
    }
}

/// A tile of a tier lists its members and the slots they need, and every tile has one.
pub proof fn law_a_tile_lists_what_it_holds(tiles: Seq<Tile>, s: Seq<Coded>, shift: u32, t: int)
    requires
        are_tiles(tiles, s, shift, s.len() as int),
        0 <= t < tiles.len(),
    ensures
        tiles[t].members > 0,
        tiles[t].members == s.filter(|f: Coded| f.0 >> shift == tiles[t].prefix).len(),
        tiles[t].slots == s.filter(|f: Coded| f.0 >> shift == tiles[t].prefix).fold_left(
            0int,
            |sum: int, f: Coded| sum + 1 + f.1,
        ),
        forall|u: int|
            0 <= u < tiles.len() && u != t ==> (#[trigger] tiles[u]).prefix != tiles[t].prefix,
{
    let prefix = tiles[t].prefix;
    law_a_tile_holds_its_features(s, shift, prefix, s.len() as int);
    assert(s.take(s.len() as int) =~= s);
    assert((|f: Coded| f.0 >> shift == tiles[t].prefix) == (|f: Coded| f.0 >> shift == prefix));
    assert forall|u: int| 0 <= u < tiles.len() && u != t implies (#[trigger] tiles[u]).prefix
        != tiles[t].prefix by {
        if u < t {
            assert(tiles[u].prefix != tiles[t].prefix);
        } else {
            assert(tiles[t].prefix != tiles[u].prefix);
        }
    }
}

} // verus!
