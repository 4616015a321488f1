//! The areal layer: what a way is an area of, whether one may walk there, and
//! what its boundary costs to write down.

use crate::text::{has_key, listed, one_of, pairs, same_text, tag, value_of};
use crate::varint::{leb, lemma_word_len, varint_len, zigzag, zigzagged};
use vstd::prelude::*;

verus! {

/// Class bits.
pub const C_WATER: u8 = 1;

pub const C_WOOD: u8 = 2;

pub const C_GREEN: u8 = 4;

pub const C_BUILDING: u8 = 8;

pub const C_LINEAR_WATER: u8 = 16;

pub const C_OTHER: u8 = 32;

/// Values of `waterway` that are lines.
pub const LINEAR_WATER: [&'static str; 6] = ["river", "stream", "canal", "ditch", "drain", "brook"];

/// Values of `natural` that are open and green.
pub const NATURAL_GREEN: [&'static str; 3] = ["scrub", "heath", "grassland"];

/// Values of `landuse` that hold water.
pub const LANDUSE_WATER: [&'static str; 2] = ["reservoir", "basin"];

/// Values of `landuse` that are grass.
pub const LANDUSE_GRASS: [&'static str; 4] = ["meadow", "grass", "village_green", "greenfield"];

/// Values of `landuse` that are farmed.
pub const LANDUSE_FARM: [&'static str; 5] = [
    "farmland",
    "orchard",
    "vineyard",
    "allotments",
    "farmyard",
];

/// Values of `leisure` that are open to the public. A garden is frequently not,
/// and is kept apart.
pub const LEISURE_PARK: [&'static str; 3] = ["park", "nature_reserve", "common"];

/// The class of a `waterway`.
pub open spec fn waterway_class(v: Seq<char>) -> (u8, Seq<char>) {
    if v == "riverbank"@ {
        (C_WATER, "waterway=riverbank"@)
    } else if listed(v, LINEAR_WATER@) {
        (C_LINEAR_WATER, "waterway (linear)"@)
    } else {
        (C_OTHER, "waterway (other)"@)
    }
}

/// The class of a `natural` area.
pub open spec fn natural_class(v: Seq<char>) -> (u8, Seq<char>) {
    if v == "water"@ {
        (C_WATER, "natural=water"@)
    } else if v == "wetland"@ {
        (C_WATER, "natural=wetland"@)
    } else if v == "wood"@ {
        (C_WOOD, "natural=wood"@)
    } else if listed(v, NATURAL_GREEN@) {
        (C_GREEN, "natural=scrub/heath/grassland"@)
    } else if v == "coastline"@ {
        (C_WATER, "natural=coastline"@)
    } else {
        (C_OTHER, "natural (other)"@)
    }
}

/// The class of a `landuse` area.
pub open spec fn landuse_class(v: Seq<char>) -> (u8, Seq<char>) {
    if v == "forest"@ {
        (C_WOOD, "landuse=forest"@)
    } else if listed(v, LANDUSE_WATER@) {
        (C_WATER, "landuse=reservoir/basin"@)
    } else if listed(v, LANDUSE_GRASS@) {
        (C_GREEN, "landuse=meadow/grass"@)
    } else if listed(v, LANDUSE_FARM@) {
        (C_GREEN, "landuse=farm/allotment"@)
    } else if v == "forestry"@ {
        (C_WOOD, "landuse=forestry"@)
    } else {
        (C_OTHER, "landuse (other)"@)
    }
}

/// The class of a `leisure` area, if it is of interest.
pub open spec fn leisure_class(v: Seq<char>) -> Option<(u8, Seq<char>)> {
    if listed(v, LEISURE_PARK@) {
        Some((C_GREEN, "leisure=park/reserve"@))
    } else if v == "garden"@ {
        Some((C_GREEN, "leisure=garden"@))
    } else {
        None
    }
}

/// The class that tags put a way in. A building wins over any area tag that it
/// also carries; then water, nature, land use and leisure, in this order.
pub open spec fn areal_class(tags: Seq<(Seq<char>, Seq<char>)>) -> Option<(u8, Seq<char>)> {
    if has_key(tags, "building"@) || has_key(tags, "building:part"@) {
        Some((C_BUILDING, "building"@))
    } else {
        match value_of(tags, "waterway"@) {
            Some(v) => Some(waterway_class(v)),
            None => match value_of(tags, "natural"@) {
                Some(v) => Some(natural_class(v)),
                None => match value_of(tags, "landuse"@) {
                    Some(v) => Some(landuse_class(v)),
                    None => match value_of(tags, "leisure"@) {
                        Some(v) => leisure_class(v),
                        None => None,
                    },
                },
            },
        }
    }
}

/// The class that tags put a way in, and its name.
pub fn classify(tags: &[(&str, &str)]) -> (c: Option<(u8, &'static str)>)
    ensures
        match c {
            Some((bit, name)) => areal_class(pairs(tags@)) == Some((bit, name@)),
            None => areal_class(pairs(tags@)) is None,
        },
{
    if tag(tags, "building").is_some() || tag(tags, "building:part").is_some() {
        return Some((C_BUILDING, "building"));
    }
    if let Some(v) = tag(tags, "waterway") {
        if same_text(v, "riverbank") {
            return Some((C_WATER, "waterway=riverbank"));
        } else if one_of(v, LINEAR_WATER.as_slice()) {
            return Some((C_LINEAR_WATER, "waterway (linear)"));
        }
        return Some((C_OTHER, "waterway (other)"));
    }
    if let Some(v) = tag(tags, "natural") {
        if same_text(v, "water") {
            return Some((C_WATER, "natural=water"));
        } else if same_text(v, "wetland") {
            return Some((C_WATER, "natural=wetland"));
        } else if same_text(v, "wood") {
            return Some((C_WOOD, "natural=wood"));
        } else if one_of(v, NATURAL_GREEN.as_slice()) {
            return Some((C_GREEN, "natural=scrub/heath/grassland"));
        } else if same_text(v, "coastline") {
            return Some((C_WATER, "natural=coastline"));
        }
        return Some((C_OTHER, "natural (other)"));
    }
    if let Some(v) = tag(tags, "landuse") {
        if same_text(v, "forest") {
            return Some((C_WOOD, "landuse=forest"));
        } else if one_of(v, LANDUSE_WATER.as_slice()) {
            return Some((C_WATER, "landuse=reservoir/basin"));
        } else if one_of(v, LANDUSE_GRASS.as_slice()) {
            return Some((C_GREEN, "landuse=meadow/grass"));
        } else if one_of(v, LANDUSE_FARM.as_slice()) {
            return Some((C_GREEN, "landuse=farm/allotment"));
        } else if same_text(v, "forestry") {
            return Some((C_WOOD, "landuse=forestry"));
        }
        return Some((C_OTHER, "landuse (other)"));
    }
    if let Some(v) = tag(tags, "leisure") {
        if one_of(v, LEISURE_PARK.as_slice()) {
            return Some((C_GREEN, "leisure=park/reserve"));
        } else if same_text(v, "garden") {
            return Some((C_GREEN, "leisure=garden"));
        }
    }
    None
}

/// The name of a class bit.
pub open spec fn bit_name(bit: u8) -> Seq<char> {
    if bit == C_WATER {
        "water"@
    } else if bit == C_WOOD {
        "wood"@
    } else if bit == C_GREEN {
        "green"@
    } else if bit == C_BUILDING {
        "building"@
    } else if bit == C_LINEAR_WATER {
        "linear water"@
    } else {
        "other"@
    }
}

/// The name of a class bit.
pub fn class_name(bit: u8) -> (n: &'static str)
    ensures
        n@ == bit_name(bit),
{
    if bit == C_WATER {
        "water"
    } else if bit == C_WOOD {
        "wood"
    } else if bit == C_GREEN {
        "green"
    } else if bit == C_BUILDING {
        "building"
    } else if bit == C_LINEAR_WATER {
        "linear water"
    } else {
        "other"
    }
}

// ── May one walk there? ─────────────────────────────────────────────
/// Values of `highway` that a pedestrian uses.
pub const FOOT_HIGHWAY: [&'static str; 8] = [
    "footway",
    "path",
    "steps",
    "pedestrian",
    "living_street",
    "track",
    "bridleway",
    "cycleway",
];

/// Values that allow.
pub const ALLOWING: [&'static str; 7] = [
    "yes",
    "permissive",
    "designated",
    "official",
    "destination",
    "customers",
    "public",
];

/// Values that deny.
pub const DENYING: [&'static str; 5] = ["no", "private", "forestry", "agricultural", "delivery"];

/// What the tags of an area say about crossing it on foot.
#[derive(Debug, Clone, Copy, PartialEq, Eq, Structural)]
pub enum Foot {
    /// They allow it.
    Allowed,
    /// They deny it.
    Denied,
    /// They say nothing. That is no denial.
    Silent,
}

/// What a value says.
pub open spec fn foot_value(v: Seq<char>) -> Foot {
    if listed(v, ALLOWING@) {
        Foot::Allowed
    } else if listed(v, DENYING@) {
        Foot::Denied
    } else {
        Foot::Silent
    }
}

/// What tags say: `foot` where it is there, else `access`.
pub open spec fn foot_of(tags: Seq<(Seq<char>, Seq<char>)>) -> Foot {
    match value_of(tags, "foot"@) {
        Some(v) => foot_value(v),
        None => match value_of(tags, "access"@) {
            Some(v) => foot_value(v),
            None => Foot::Silent,
        },
    }
}

fn read_foot_value(v: &str) -> (f: Foot)
    ensures
        f == foot_value(v@),
{
    if one_of(v, ALLOWING.as_slice()) {
        Foot::Allowed
    } else if one_of(v, DENYING.as_slice()) {
        Foot::Denied
    } else {
        Foot::Silent
    }
}

/// What tags say about crossing an area on foot. `foot` is the specific key and
/// wins over `access`; a value that is not known is silence.
pub fn foot_access(tags: &[(&str, &str)]) -> (f: Foot)
    ensures
        f == foot_of(pairs(tags@)),
{
    match tag(tags, "foot") {
        Some(v) => read_foot_value(v),
        None => match tag(tags, "access") {
            Some(v) => read_foot_value(v),
            None => Foot::Silent,
        },
    }
}

/// The specific key decides, whatever the general one says.
pub proof fn law_foot_wins_over_access(
    a: Seq<(Seq<char>, Seq<char>)>,
    b: Seq<(Seq<char>, Seq<char>)>,
)
    requires
        value_of(a, "foot"@) is Some,
        value_of(a, "foot"@) == value_of(b, "foot"@),
    ensures
        foot_of(a) == foot_of(b),
{
}

/// How areas of one tag were found: what they say, and whether a path runs
/// through them.
#[derive(Debug, Clone, Copy, PartialEq, Eq, Structural)]
pub struct Access {
    pub rings: u64,
    pub allowed: u64,
    pub denied: u64,
    pub silent: u64,
    pub walked: u64,
    /// A path runs through it and nothing says that one may.
    pub silent_walked: u64,
    /// A path runs through it and the tag forbids it.
    pub denied_walked: u64,
}

impl Default for Access {
    fn default() -> (a: Self)
        ensures
            a == tally(Seq::empty()),
    {
        Access {
            rings: 0,
            allowed: 0,
            denied: 0,
            silent: 0,
            walked: 0,
            silent_walked: 0,
            denied_walked: 0,
        }
    }
}

/// How many areas have a property.
pub open spec fn rings_with(seen: Seq<(Foot, bool)>, p: spec_fn((Foot, bool)) -> bool) -> nat {
    crate::read::count(seen, p)
}

/// The tally of areas.
pub open spec fn tally(seen: Seq<(Foot, bool)>) -> Access {
    Access {
        rings: seen.len() as u64,
        allowed: rings_with(seen, |r: (Foot, bool)| r.0 == Foot::Allowed) as u64,
        denied: rings_with(seen, |r: (Foot, bool)| r.0 == Foot::Denied) as u64,
        silent: rings_with(seen, |r: (Foot, bool)| r.0 == Foot::Silent) as u64,
        walked: rings_with(seen, |r: (Foot, bool)| r.1) as u64,
        silent_walked: rings_with(seen, |r: (Foot, bool)| r.1 && r.0 == Foot::Silent) as u64,
        denied_walked: rings_with(seen, |r: (Foot, bool)| r.1 && r.0 == Foot::Denied) as u64,
    }
}

/// Tallies areas.
pub fn tally_access(seen: &[(Foot, bool)]) -> (a: Access)
    ensures
        a == tally(seen@),
{
    let mut a: Access = Access::default();
    let mut i: usize = 0;
    assert(seen@.take(0) =~= Seq::<(Foot, bool)>::empty());
    while i < seen.len()
        invariant
            i <= seen@.len(),
            a == tally(seen@.take(i as int)),
            a.rings == i,
            a.allowed <= i && a.denied <= i && a.silent <= i,
            a.walked <= i && a.silent_walked <= i && a.denied_walked <= i,
            small(seen@.take(i as int)),
        decreases seen@.len() - i,
    {
        let (foot, walked): (Foot, bool) = seen[i];
        proof {
            assert(seen@.take(i + 1).drop_last() =~= seen@.take(i as int));
            assert(seen@.take(i + 1).last() == (foot, walked));
        }
        a.rings = a.rings + 1;
        match foot {
            Foot::Allowed => {
                a.allowed = a.allowed + 1;
            },
            Foot::Denied => {
                a.denied = a.denied + 1;
            },
            Foot::Silent => {
                a.silent = a.silent + 1;
            },
        }
        if walked {
            a.walked = a.walked + 1;
            match foot {
                Foot::Silent => {
                    a.silent_walked = a.silent_walked + 1;
                },
                Foot::Denied => {
                    a.denied_walked = a.denied_walked + 1;
                },
                Foot::Allowed => {},
            }
        }
        i = i + 1;
    }
    assert(seen@.take(seen@.len() as int) =~= seen@);
    a
}

/// No count is larger than the list.
spec fn small(seen: Seq<(Foot, bool)>) -> bool {
    &&& rings_with(seen, |r: (Foot, bool)| r.0 == Foot::Allowed) <= seen.len()
    &&& rings_with(seen, |r: (Foot, bool)| r.0 == Foot::Denied) <= seen.len()
    &&& rings_with(seen, |r: (Foot, bool)| r.0 == Foot::Silent) <= seen.len()
    &&& rings_with(seen, |r: (Foot, bool)| r.1) <= seen.len()
    &&& rings_with(seen, |r: (Foot, bool)| r.1 && r.0 == Foot::Silent) <= seen.len()
    &&& rings_with(seen, |r: (Foot, bool)| r.1 && r.0 == Foot::Denied) <= seen.len()
}

// ── What a boundary costs ───────────────────────────────────────────
/// The bytes of a signed number as a zigzag varint.
pub open spec fn signed_cost(v: int) -> nat {
    leb(zigzagged(v)).len()
}

/// The bytes of a list of numbers, each as its difference to the one before, the
/// first to 0.
pub open spec fn delta_cost(s: Seq<i64>) -> nat
    decreases s.len(),
{
    if s.len() == 0 {
        0
    } else {
        delta_cost(s.drop_last()) + signed_cost(
            s.last() - if s.len() == 1 {
                0
            } else {
                s[s.len() - 2] as int
            },
        )
    }
}

/// Whether every difference fits in 64 bits.
pub open spec fn deltas_fit(s: Seq<i64>) -> bool {
    forall|i: int, j: int|
        #![trigger s[i], s[j]]
        0 <= i && j == i + 1 && j < s.len() ==> i64::MIN <= s[j] - s[i] <= i64::MAX
}

proof fn lemma_cost_bound(v: int)
    requires
        i64::MIN <= v <= i64::MAX,
    ensures
        signed_cost(v) <= 10,
{
    lemma_word_len(zigzagged(v));
}

/// The bytes that a list of numbers takes as zigzag varints of their differences.
pub fn delta_bytes(s: &[i64]) -> (n: u64)
    requires
        deltas_fit(s@),
        s@.len() <= 0xffff_ffff_ffff_fff,
    ensures
        n == delta_cost(s@),
{
    let mut n: u64 = 0;
    let mut prev: i64 = 0;
    let mut i: usize = 0;
    assert(s@.take(0) =~= Seq::<i64>::empty());
    while i < s.len()
        invariant
            i <= s@.len() <= 0xffff_ffff_ffff_fff,
            deltas_fit(s@),
            n == delta_cost(s@.take(i as int)),
            n <= 10 * i,
            prev == if i == 0 {
                0
            } else {
                s@[i - 1]
            },
        decreases s@.len() - i,
    {
        let v: i64 = s[i];
        proof {
            let next = s@.take(i + 1);
            assert(next.drop_last() =~= s@.take(i as int));
            assert(next.last() == v);
            if i > 0 {
                assert(i64::MIN <= s@[i as int] - s@[i - 1] <= i64::MAX);
                assert(next[next.len() - 2] == s@[i - 1]);
            }
            lemma_cost_bound(v - prev);
        }
        n = n + varint_len(zigzag(v - prev)) as u64;
        prev = v;
        i = i + 1;
    }
    assert(s@.take(s@.len() as int) =~= s@);
    n
}

/// The bytes of numbers as varints.
pub open spec fn varint_cost(s: Seq<u64>) -> nat
    decreases s.len(),
{
    if s.len() == 0 {
        0
    } else {
        varint_cost(s.drop_last()) + leb(s.last() as nat).len()
    }
}

/// The bytes of signed numbers as zigzag varints.
pub open spec fn zigzag_cost(s: Seq<i64>) -> nat
    decreases s.len(),
{
    if s.len() == 0 {
        0
    } else {
        zigzag_cost(s.drop_last()) + signed_cost(s.last() as int)
    }
}

/// The bytes that numbers take as varints.
pub fn varint_bytes(s: &[u64]) -> (n: u64)
    requires
        s@.len() <= 0xffff_ffff_ffff_fff,
    ensures
        n == varint_cost(s@),
        n <= 10 * s@.len(),
{
    let mut n: u64 = 0;
    let mut i: usize = 0;
    assert(s@.take(0) =~= Seq::<u64>::empty());
    while i < s.len()
        invariant
            i <= s@.len() <= 0xffff_ffff_ffff_fff,
            n == varint_cost(s@.take(i as int)),
            n <= 10 * i,
        decreases s@.len() - i,
    {
        proof {
            let next = s@.take(i + 1);
            assert(next.drop_last() =~= s@.take(i as int));
            assert(next.last() == s@[i as int]);
            lemma_word_len(s@[i as int] as nat);
        }
        n = n + varint_len(s[i]) as u64;
        i = i + 1;
    }
    assert(s@.take(s@.len() as int) =~= s@);
    n
}

/// The bytes that signed numbers take as zigzag varints.
pub fn zigzag_bytes(s: &[i64]) -> (n: u64)
    requires
        s@.len() <= 0xffff_ffff_ffff_fff,
    ensures
        n == zigzag_cost(s@),
        n <= 10 * s@.len(),
{
    let mut n: u64 = 0;
    let mut i: usize = 0;
    assert(s@.take(0) =~= Seq::<i64>::empty());
    while i < s.len()
        invariant
            i <= s@.len() <= 0xffff_ffff_ffff_fff,
            n == zigzag_cost(s@.take(i as int)),
            n <= 10 * i,
        decreases s@.len() - i,
    {
        proof {
            let next = s@.take(i + 1);
            assert(next.drop_last() =~= s@.take(i as int));
            assert(next.last() == s@[i as int]);
            lemma_cost_bound(s@[i as int] as int);
        }
        n = n + varint_len(zigzag(s[i])) as u64;
        i = i + 1;
    }
    assert(s@.take(s@.len() as int) =~= s@);
    n
}

/// Four prices of one chain, in bytes.
#[derive(Debug, Clone, Copy, PartialEq, Eq, Structural)]
pub struct Prices {
    /// The ids as they are.
    pub raw: u64,
    /// Ids and coordinates as differences.
    pub deltas: u64,
    /// An orientation, a turn bit per corner and a length per edge.
    pub turn_bits: u64,
    /// An orientation, a length per edge and a quantised turn per vertex.
    pub angles: u64,
}

/// Prices a chain: its ids, its coordinates on the extract's grid, the lengths
/// of its edges in centimetres and its quantised turns.
pub fn price(ids: &[i64], lat: &[i64], lon: &[i64], lengths: &[u64], turns: &[i64]) -> (p: Prices)
    requires
        deltas_fit(ids@),
        deltas_fit(lat@),
        deltas_fit(lon@),
        ids@.len() <= 0xff_ffff_ffff_ffff,
        lat@.len() <= 0xff_ffff_ffff_ffff,
        lon@.len() <= 0xff_ffff_ffff_ffff,
        lengths@.len() <= 0xff_ffff_ffff_ffff,
        turns@.len() <= 0xff_ffff_ffff_ffff,
    ensures
        p.raw == 8 * ids@.len(),
        p.deltas == delta_cost(ids@) + delta_cost(lat@) + delta_cost(lon@),
        p.turn_bits == 2 + (ids@.len() + 7) / 8 + varint_cost(lengths@),
        p.angles == 2 + varint_cost(lengths@) + zigzag_cost(turns@),
{
    proof {
        lemma_delta_bound(ids@);
        lemma_delta_bound(lat@);
        lemma_delta_bound(lon@);
    }
    let n: u64 = ids.len() as u64;
    let edges: u64 = varint_bytes(lengths);
    Prices {
        raw: n * 8,
        deltas: delta_bytes(ids) + delta_bytes(lat) + delta_bytes(lon),
        turn_bits: 2 + (n + 7) / 8 + edges,
        angles: 2 + edges + zigzag_bytes(turns),
    }
}

proof fn lemma_delta_bound(s: Seq<i64>)
    requires
        deltas_fit(s),
    ensures
        delta_cost(s) <= 10 * s.len(),
    decreases s.len(),
{
    if s.len() > 0 {
        let front = s.drop_last();
        assert(deltas_fit(front)) by {
            assert forall|i: int, j: int|
                #![trigger front[i], front[j]]
                0 <= i && j == i + 1 && j < front.len() implies i64::MIN <= front[j] - front[i]
                <= i64::MAX by {
                assert(front[i] == s[i] && front[j] == s[j]);
            }
        }
        lemma_delta_bound(front);
        if s.len() > 1 {
            let k = s.len() - 1;
            assert(i64::MIN <= s[k] - s[k - 1] <= i64::MAX);
        }
        lemma_cost_bound(
            s.last() - if s.len() == 1 {
                0
            } else {
                s[s.len() - 2] as int
            },
        );
    }
}

// ── Laws of classes ─────────────────────────────────────────────────
proof fn lemma_linear_list(v: Seq<char>)
    ensures
        listed(v, LINEAR_WATER@) <==> v == "river"@ || v == "stream"@ || v == "canal"@ || v == "ditch"@ || v == "drain"@ || v == "brook"@,
{
    let a = LINEAR_WATER@;
    assert(a[0]@ == "river"@);
    assert(a[1]@ == "stream"@);
    assert(a[2]@ == "canal"@);
    assert(a[3]@ == "ditch"@);
    assert(a[4]@ == "drain"@);
    assert(a[5]@ == "brook"@);
    if listed(v, a) {
        let i = choose|i: int| 0 <= i < a.len() && (#[trigger] a[i])@ == v;
        assert(i == 0 || i == 1 || i == 2 || i == 3 || i == 4 || i == 5);
    }
}

proof fn lemma_natural_list(v: Seq<char>)
    ensures
        listed(v, NATURAL_GREEN@) <==> v == "scrub"@ || v == "heath"@ || v == "grassland"@,
{
    let a = NATURAL_GREEN@;
    assert(a[0]@ == "scrub"@);
    assert(a[1]@ == "heath"@);
    assert(a[2]@ == "grassland"@);
    if listed(v, a) {
        let i = choose|i: int| 0 <= i < a.len() && (#[trigger] a[i])@ == v;
        assert(i == 0 || i == 1 || i == 2);
    }
}

proof fn lemma_water_list(v: Seq<char>)
    ensures
        listed(v, LANDUSE_WATER@) <==> v == "reservoir"@ || v == "basin"@,
{
    let a = LANDUSE_WATER@;
    assert(a[0]@ == "reservoir"@);
    assert(a[1]@ == "basin"@);
    if listed(v, a) {
        let i = choose|i: int| 0 <= i < a.len() && (#[trigger] a[i])@ == v;
        assert(i == 0 || i == 1);
    }
}

proof fn lemma_grass_list(v: Seq<char>)
    ensures
        listed(v, LANDUSE_GRASS@) <==> v == "meadow"@ || v == "grass"@ || v == "village_green"@ || v == "greenfield"@,
{
    let a = LANDUSE_GRASS@;
    assert(a[0]@ == "meadow"@);
    assert(a[1]@ == "grass"@);
    assert(a[2]@ == "village_green"@);
    assert(a[3]@ == "greenfield"@);
    if listed(v, a) {
        let i = choose|i: int| 0 <= i < a.len() && (#[trigger] a[i])@ == v;
        assert(i == 0 || i == 1 || i == 2 || i == 3);
    }
}

proof fn lemma_farm_list(v: Seq<char>)
    ensures
        listed(v, LANDUSE_FARM@) <==> v == "farmland"@ || v == "orchard"@ || v == "vineyard"@ || v == "allotments"@ || v == "farmyard"@,
{
    let a = LANDUSE_FARM@;
    assert(a[0]@ == "farmland"@);
    assert(a[1]@ == "orchard"@);
    assert(a[2]@ == "vineyard"@);
    assert(a[3]@ == "allotments"@);
    assert(a[4]@ == "farmyard"@);
    if listed(v, a) {
        let i = choose|i: int| 0 <= i < a.len() && (#[trigger] a[i])@ == v;
        assert(i == 0 || i == 1 || i == 2 || i == 3 || i == 4);
    }
}

proof fn lemma_park_list(v: Seq<char>)
    ensures
        listed(v, LEISURE_PARK@) <==> v == "park"@ || v == "nature_reserve"@ || v == "common"@,
{
    let a = LEISURE_PARK@;
    assert(a[0]@ == "park"@);
    assert(a[1]@ == "nature_reserve"@);
    assert(a[2]@ == "common"@);
    if listed(v, a) {
        let i = choose|i: int| 0 <= i < a.len() && (#[trigger] a[i])@ == v;
        assert(i == 0 || i == 1 || i == 2);
    }
}

proof fn lemma_allowing_list(v: Seq<char>)
    ensures
        listed(v, ALLOWING@) <==> v == "yes"@ || v == "permissive"@ || v == "designated"@ || v == "official"@ || v == "destination"@ || v == "customers"@ || v == "public"@,
{
    let a = ALLOWING@;
    assert(a[0]@ == "yes"@);
    assert(a[1]@ == "permissive"@);
    assert(a[2]@ == "designated"@);
    assert(a[3]@ == "official"@);
    assert(a[4]@ == "destination"@);
    assert(a[5]@ == "customers"@);
    assert(a[6]@ == "public"@);
    if listed(v, a) {
        let i = choose|i: int| 0 <= i < a.len() && (#[trigger] a[i])@ == v;
        assert(i == 0 || i == 1 || i == 2 || i == 3 || i == 4 || i == 5 || i == 6);
    }
}

proof fn lemma_denying_list(v: Seq<char>)
    ensures
        listed(v, DENYING@) <==> v == "no"@ || v == "private"@ || v == "forestry"@ || v == "agricultural"@ || v == "delivery"@,
{
    let a = DENYING@;
    assert(a[0]@ == "no"@);
    assert(a[1]@ == "private"@);
    assert(a[2]@ == "forestry"@);
    assert(a[3]@ == "agricultural"@);
    assert(a[4]@ == "delivery"@);
    if listed(v, a) {
        let i = choose|i: int| 0 <= i < a.len() && (#[trigger] a[i])@ == v;
        assert(i == 0 || i == 1 || i == 2 || i == 3 || i == 4);
    }
}

/// Whether tags have a key.
pub open spec fn carries(tags: Seq<(Seq<char>, Seq<char>)>, key: Seq<char>) -> bool {
    exists|i: int| 0 <= i < tags.len() && (#[trigger] tags[i]).0 == key
}

/// Whether tag `at` is the first with a key.
pub open spec fn is_first(tags: Seq<(Seq<char>, Seq<char>)>, key: Seq<char>, at: int) -> bool {
    0 <= at < tags.len() && tags[at].0 == key && forall|i: int|
        0 <= i < at ==> (#[trigger] tags[i]).0 != key
}

/// A building or a part of one is a building, whatever else it is tagged as.
pub proof fn law_a_building_is_a_building(tags: Seq<(Seq<char>, Seq<char>)>)
    ensures
        carries(tags, "building"@) || carries(tags, "building:part"@) ==> areal_class(tags) == Some(
            (8u8, "building"@),
        ),
        !carries(tags, "building"@) && !carries(tags, "building:part"@) && !carries(
            tags,
            "waterway"@,
        ) && !carries(tags, "natural"@) && !carries(tags, "landuse"@) && !carries(tags, "leisure"@)
            ==> areal_class(tags) is None,
{
    crate::text::law_first_tag_counts(tags, "building"@, 0);
    crate::text::law_first_tag_counts(tags, "building:part"@, 0);
    crate::text::law_first_tag_counts(tags, "waterway"@, 0);
    crate::text::law_first_tag_counts(tags, "natural"@, 0);
    crate::text::law_first_tag_counts(tags, "landuse"@, 0);
    crate::text::law_first_tag_counts(tags, "leisure"@, 0);
}

/// What is no building and has a `waterway` is classed by that alone: a bank is water,
/// the six kinds of running water are lines, and the rest is neither.
pub proof fn law_waterways_come_first(tags: Seq<(Seq<char>, Seq<char>)>, at: int)
    requires
        is_first(tags, "waterway"@, at),
        !carries(tags, "building"@),
        !carries(tags, "building:part"@),
    ensures
        areal_class(tags) matches Some((bit, name)) && {
            let v = tags[at].1;
            &&& bit == 1 <==> v == "riverbank"@
            &&& bit == 16 <==> v == "river"@ || v == "stream"@ || v == "canal"@ || v == "ditch"@ || v == "drain"@ || v == "brook"@
            &&& bit == 32 <==> v != "riverbank"@ && v != "river"@ && v != "stream"@ && v != "canal"@ && v != "ditch"@ && v != "drain"@ && v != "brook"@
        },
{
    crate::text::law_first_tag_counts(tags, "building"@, 0);
    crate::text::law_first_tag_counts(tags, "building:part"@, 0);
    crate::text::law_first_tag_counts(tags, "waterway"@, at);
    lemma_linear_list(tags[at].1);
    reveal_strlit("riverbank");
    reveal_strlit("river");
    reveal_strlit("stream");
    reveal_strlit("canal");
    reveal_strlit("ditch");
    reveal_strlit("drain");
    reveal_strlit("brook");
    assert("riverbank"@.len() == 9);
    assert("river"@.len() == 5);
    assert("stream"@.len() == 6);
    assert("canal"@.len() == 5);
    assert("ditch"@.len() == 5);
    assert("drain"@.len() == 5);
    assert("brook"@.len() == 5);
    assert("river"@[0] == 'r' && "canal"@[0] == 'c');
    assert("river"@[0] == 'r' && "ditch"@[0] == 'd');
    assert("river"@[0] == 'r' && "drain"@[0] == 'd');
    assert("river"@[0] == 'r' && "brook"@[0] == 'b');
    assert("canal"@[0] == 'c' && "ditch"@[0] == 'd');
    assert("canal"@[0] == 'c' && "drain"@[0] == 'd');
    assert("canal"@[0] == 'c' && "brook"@[0] == 'b');
    assert("ditch"@[1] == 'i' && "drain"@[1] == 'r');
    assert("ditch"@[0] == 'd' && "brook"@[0] == 'b');
    assert("drain"@[0] == 'd' && "brook"@[0] == 'b');
}

/// Without a waterway, nature decides alone: water, wetland and coastline are water,
/// wood is woodland, scrub, heath and grassland are green.
pub proof fn law_nature_comes_next(tags: Seq<(Seq<char>, Seq<char>)>, at: int)
    requires
        is_first(tags, "natural"@, at),
        !carries(tags, "building"@),
        !carries(tags, "building:part"@),
        !carries(tags, "waterway"@),
    ensures
        areal_class(tags) matches Some((bit, name)) && {
            let v = tags[at].1;
            &&& bit == 1 <==> v == "water"@ || v == "wetland"@ || v == "coastline"@
            &&& bit == 2 <==> v == "wood"@
            &&& bit == 4 <==> v == "scrub"@ || v == "heath"@ || v == "grassland"@
            &&& bit == 1 || bit == 2 || bit == 4 || bit == 32
            &&& v == "water"@ ==> name == "natural=water"@
            &&& v == "wetland"@ ==> name == "natural=wetland"@
            &&& v == "coastline"@ ==> name == "natural=coastline"@
            &&& bit == 2 ==> name == "natural=wood"@
            &&& bit == 4 ==> name == "natural=scrub/heath/grassland"@
            &&& bit == 32 ==> name == "natural (other)"@
        },
{
    crate::text::law_first_tag_counts(tags, "building"@, 0);
    crate::text::law_first_tag_counts(tags, "building:part"@, 0);
    crate::text::law_first_tag_counts(tags, "waterway"@, 0);
    crate::text::law_first_tag_counts(tags, "natural"@, at);
    lemma_natural_list(tags[at].1);
    reveal_strlit("water");
    reveal_strlit("wetland");
    reveal_strlit("coastline");
    reveal_strlit("wood");
    reveal_strlit("scrub");
    reveal_strlit("heath");
    reveal_strlit("grassland");
    assert("water"@.len() == 5);
    assert("wetland"@.len() == 7);
    assert("coastline"@.len() == 9);
    assert("wood"@.len() == 4);
    assert("scrub"@.len() == 5);
    assert("heath"@.len() == 5);
    assert("grassland"@.len() == 9);
    assert("water"@[0] == 'w' && "scrub"@[0] == 's');
    assert("water"@[0] == 'w' && "heath"@[0] == 'h');
    assert("coastline"@[0] == 'c' && "grassland"@[0] == 'g');
    assert("scrub"@[0] == 's' && "heath"@[0] == 'h');
}

/// Without either, land use decides alone.
pub proof fn law_land_use_follows(tags: Seq<(Seq<char>, Seq<char>)>, at: int)
    requires
        is_first(tags, "landuse"@, at),
        !carries(tags, "building"@),
        !carries(tags, "building:part"@),
        !carries(tags, "waterway"@),
        !carries(tags, "natural"@),
    ensures
        areal_class(tags) matches Some((bit, name)) && {
            let v = tags[at].1;
            &&& bit == 1 <==> v == "reservoir"@ || v == "basin"@
            &&& bit == 2 <==> v == "forest"@ || v == "forestry"@
            &&& bit == 4 <==> v == "meadow"@ || v == "grass"@ || v == "village_green"@ || v == "greenfield"@
                || v == "farmland"@ || v == "orchard"@ || v == "vineyard"@ || v == "allotments"@ || v == "farmyard"@
            &&& bit == 1 || bit == 2 || bit == 4 || bit == 32
            &&& v == "forest"@ ==> name == "landuse=forest"@
            &&& v == "forestry"@ ==> name == "landuse=forestry"@
            &&& bit == 1 ==> name == "landuse=reservoir/basin"@
            &&& (v == "meadow"@ || v == "grass"@ || v == "village_green"@ || v == "greenfield"@) ==> name
                == "landuse=meadow/grass"@
            &&& (v == "farmland"@ || v == "orchard"@ || v == "vineyard"@ || v == "allotments"@ || v == "farmyard"@)
                ==> name == "landuse=farm/allotment"@
            &&& bit == 32 ==> name == "landuse (other)"@
        },
{
    crate::text::law_first_tag_counts(tags, "building"@, 0);
    crate::text::law_first_tag_counts(tags, "building:part"@, 0);
    crate::text::law_first_tag_counts(tags, "waterway"@, 0);
    crate::text::law_first_tag_counts(tags, "natural"@, 0);
    crate::text::law_first_tag_counts(tags, "landuse"@, at);
    let v = tags[at].1;
    lemma_water_list(v);
    lemma_grass_list(v);
    lemma_farm_list(v);
    reveal_strlit("forest");
    reveal_strlit("forestry");
    reveal_strlit("reservoir");
    reveal_strlit("basin");
    reveal_strlit("meadow");
    reveal_strlit("grass");
    reveal_strlit("village_green");
    reveal_strlit("greenfield");
    reveal_strlit("farmland");
    reveal_strlit("orchard");
    reveal_strlit("vineyard");
    reveal_strlit("allotments");
    reveal_strlit("farmyard");
    assert("forest"@.len() == 6);
    assert("forestry"@.len() == 8);
    assert("reservoir"@.len() == 9);
    assert("basin"@.len() == 5);
    assert("meadow"@.len() == 6);
    assert("grass"@.len() == 5);
    assert("village_green"@.len() == 13);
    assert("greenfield"@.len() == 10);
    assert("farmland"@.len() == 8);
    assert("orchard"@.len() == 7);
    assert("vineyard"@.len() == 8);
    assert("allotments"@.len() == 10);
    assert("farmyard"@.len() == 8);
    assert("forest"@[0] == 'f' && "meadow"@[0] == 'm');
    assert("forestry"@[1] == 'o' && "farmland"@[1] == 'a');
    assert("forestry"@[0] == 'f' && "vineyard"@[0] == 'v');
    assert("forestry"@[1] == 'o' && "farmyard"@[1] == 'a');
    assert("basin"@[0] == 'b' && "grass"@[0] == 'g');
    assert("greenfield"@[0] == 'g' && "allotments"@[0] == 'a');
    assert("farmland"@[0] == 'f' && "vineyard"@[0] == 'v');
    assert("farmland"@[4] == 'l' && "farmyard"@[4] == 'y');
    assert("vineyard"@[0] == 'v' && "farmyard"@[0] == 'f');
}

/// Leisure comes last: parks, reserves and commons are green, and so are gardens, under
/// a name of their own; every other value is no area at all.
pub proof fn law_leisure_comes_last(tags: Seq<(Seq<char>, Seq<char>)>, at: int)
    requires
        is_first(tags, "leisure"@, at),
        !carries(tags, "building"@),
        !carries(tags, "building:part"@),
        !carries(tags, "waterway"@),
        !carries(tags, "natural"@),
        !carries(tags, "landuse"@),
    ensures
        ({
            let (v, c) = (tags[at].1, areal_class(tags));
            &&& (v == "park"@ || v == "nature_reserve"@ || v == "common"@) ==> c == Some(
                (4u8, "leisure=park/reserve"@),
            )
            &&& v == "garden"@ ==> c == Some((4u8, "leisure=garden"@))
            &&& c is None <==> v != "park"@ && v != "nature_reserve"@ && v != "common"@ && v != "garden"@
        }),
{
    crate::text::law_first_tag_counts(tags, "building"@, 0);
    crate::text::law_first_tag_counts(tags, "building:part"@, 0);
    crate::text::law_first_tag_counts(tags, "waterway"@, 0);
    crate::text::law_first_tag_counts(tags, "natural"@, 0);
    crate::text::law_first_tag_counts(tags, "landuse"@, 0);
    crate::text::law_first_tag_counts(tags, "leisure"@, at);
    lemma_park_list(tags[at].1);
    reveal_strlit("park");
    reveal_strlit("nature_reserve");
    reveal_strlit("common");
    reveal_strlit("garden");
    assert("park"@.len() == 4);
    assert("nature_reserve"@.len() == 14);
    assert("common"@.len() == 6);
    assert("garden"@.len() == 6);
    assert("common"@[0] == 'c' && "garden"@[0] == 'g');
}

/// No two classes share a bit or a name.
pub proof fn law_classes_have_names(bit: u8)
    ensures
        bit_name(1) == "water"@ && bit_name(2) == "wood"@ && bit_name(4) == "green"@,
        bit_name(8) == "building"@ && bit_name(16) == "linear water"@,
        bit != 1 && bit != 2 && bit != 4 && bit != 8 && bit != 16 ==> bit_name(bit) == "other"@,
{
}

/// Seven values of the first `foot` tag allow crossing, five deny it, and every other
/// says nothing; without such a tag the first `access` tag speaks, in the same words;
/// without either there is silence, which is no denial.
pub proof fn law_who_may_cross(tags: Seq<(Seq<char>, Seq<char>)>, at: int)
    requires
        is_first(tags, "foot"@, at) || !carries(tags, "foot"@) && is_first(tags, "access"@, at),
    ensures
        ({
            let (v, f) = (tags[at].1, foot_of(tags));
            &&& f == Foot::Allowed <==> v == "yes"@ || v == "permissive"@ || v == "designated"@ || v == "official"@ || v == "destination"@ || v == "customers"@ || v == "public"@
            &&& f == Foot::Denied <==> v == "no"@ || v == "private"@ || v == "forestry"@ || v == "agricultural"@ || v == "delivery"@
        }),
{
    crate::text::law_first_tag_counts(tags, "foot"@, at);
    crate::text::law_first_tag_counts(tags, "access"@, at);
    lemma_allowing_list(tags[at].1);
    lemma_denying_list(tags[at].1);
    reveal_strlit("yes");
    reveal_strlit("permissive");
    reveal_strlit("designated");
    reveal_strlit("official");
    reveal_strlit("destination");
    reveal_strlit("customers");
    reveal_strlit("public");
    reveal_strlit("no");
    reveal_strlit("private");
    reveal_strlit("forestry");
    reveal_strlit("agricultural");
    reveal_strlit("delivery");
    reveal_strlit("foot");
    reveal_strlit("access");
    assert("yes"@.len() == 3);
    assert("permissive"@.len() == 10);
    assert("designated"@.len() == 10);
    assert("official"@.len() == 8);
    assert("destination"@.len() == 11);
    assert("customers"@.len() == 9);
    assert("public"@.len() == 6);
    assert("no"@.len() == 2);
    assert("private"@.len() == 7);
    assert("forestry"@.len() == 8);
    assert("agricultural"@.len() == 12);
    assert("delivery"@.len() == 8);
    assert("foot"@.len() == 4);
    assert("access"@.len() == 6);
    assert("permissive"@[0] == 'p' && "designated"@[0] == 'd');
    assert("official"@[0] == 'o' && "forestry"@[0] == 'f');
    assert("official"@[0] == 'o' && "delivery"@[0] == 'd');
    assert("public"@[0] == 'p' && "access"@[0] == 'a');
    assert("forestry"@[0] == 'f' && "delivery"@[0] == 'd');
}

/// What says nothing of walkers and nothing of access is silent.
pub proof fn law_silence_is_no_denial(tags: Seq<(Seq<char>, Seq<char>)>)
    requires
        !carries(tags, "foot"@),
        !carries(tags, "access"@),
    ensures
        foot_of(tags) == Foot::Silent,
{
    crate::text::law_first_tag_counts(tags, "foot"@, 0);
    crate::text::law_first_tag_counts(tags, "access"@, 0);
}

/// Every area of a tally is allowed, denied or silent, and a walked one is allowed where
/// it is neither denied nor silent.
pub proof fn law_tally_adds_up(seen: Seq<(Foot, bool)>)
    requires
        seen.len() <= u64::MAX,
    ensures
        tally(seen).rings == seen.len(),
        tally(seen).allowed + tally(seen).denied + tally(seen).silent == tally(seen).rings,
        tally(seen).walked == seen.filter(|r: (Foot, bool)| r.1).len(),
        tally(seen).allowed == seen.filter(|r: (Foot, bool)| r.0 == Foot::Allowed).len(),
        tally(seen).denied == seen.filter(|r: (Foot, bool)| r.0 == Foot::Denied).len(),
        tally(seen).silent_walked == seen.filter(
            |r: (Foot, bool)| r.0 == Foot::Silent && r.1,
        ).len(),
        tally(seen).denied_walked == seen.filter(
            |r: (Foot, bool)| r.0 == Foot::Denied && r.1,
        ).len(),
{
    lemma_tally(seen);
}

proof fn lemma_tally(seen: Seq<(Foot, bool)>)
    ensures
        small(seen),
        rings_with(seen, |r: (Foot, bool)| r.0 == Foot::Allowed) + rings_with(
            seen,
            |r: (Foot, bool)| r.0 == Foot::Denied,
        ) + rings_with(seen, |r: (Foot, bool)| r.0 == Foot::Silent) == seen.len(),
        rings_with(seen, |r: (Foot, bool)| r.1) == seen.filter(|r: (Foot, bool)| r.1).len(),
        rings_with(seen, |r: (Foot, bool)| r.0 == Foot::Allowed) == seen.filter(
            |r: (Foot, bool)| r.0 == Foot::Allowed,
        ).len(),
        rings_with(seen, |r: (Foot, bool)| r.0 == Foot::Denied) == seen.filter(
            |r: (Foot, bool)| r.0 == Foot::Denied,
        ).len(),
        rings_with(seen, |r: (Foot, bool)| r.1 && r.0 == Foot::Silent) == seen.filter(
            |r: (Foot, bool)| r.0 == Foot::Silent && r.1,
        ).len(),
        rings_with(seen, |r: (Foot, bool)| r.1 && r.0 == Foot::Denied) == seen.filter(
            |r: (Foot, bool)| r.0 == Foot::Denied && r.1,
        ).len(),
    decreases seen.len(),
{
    reveal(Seq::filter);
    if seen.len() > 0 {
        lemma_tally(seen.drop_last());
    }
}

/// What numbers cost adds up, wherever a list of them is cut.
pub proof fn law_costs_add_up(a: Seq<u64>, b: Seq<u64>, c: Seq<i64>, d: Seq<i64>)
    ensures
        varint_cost(a + b) == varint_cost(a) + varint_cost(b),
        zigzag_cost(c + d) == zigzag_cost(c) + zigzag_cost(d),
    decreases b.len() + d.len(),
{
    if b.len() > 0 {
        law_costs_add_up(a, b.drop_last(), c, d);
        assert((a + b).drop_last() =~= a + b.drop_last());
    } else if d.len() > 0 {
        law_costs_add_up(a, b, c, d.drop_last());
        assert((c + d).drop_last() =~= c + d.drop_last());
    } else {
        assert(a + b =~= a);
        assert(c + d =~= c);
    }
}

/// A list of numbers costs as differences what the signed list of its steps costs, the
/// first of which goes from 0.
pub proof fn law_differences_are_of_neighbours(s: Seq<i64>)
    requires
        deltas_fit(s),
    ensures
        delta_cost(s) == zigzag_cost(
            Seq::new(
                s.len(),
                |i: int|
                    if i == 0 {
                        s[0]
                    } else {
                        (s[i] - s[i - 1]) as i64
                    },
            ),
        ),
    decreases s.len(),
{
    let steps = Seq::new(
        s.len(),
        |i: int|
            if i == 0 {
                s[0]
            } else {
                (s[i] - s[i - 1]) as i64
            },
    );
    if s.len() > 0 {
        let t = s.drop_last();
        assert(deltas_fit(t)) by {
            assert forall|i: int, j: int|
                #![trigger t[i], t[j]]
                0 <= i && j == i + 1 && j < t.len() implies i64::MIN <= t[j] - t[i] <= i64::MAX by {
                assert(s[i] == t[i] && s[j] == t[j]);
            }
        }
        law_differences_are_of_neighbours(t);
        let before = Seq::new(
            t.len(),
            |i: int|
                if i == 0 {
                    t[0]
                } else {
                    (t[i] - t[i - 1]) as i64
                },
        );
        assert(steps.drop_last() =~= before);
        if s.len() > 1 {
            assert(i64::MIN <= s[s.len() - 1] - s[s.len() - 2] <= i64::MAX);
        }
    }
}

} // verus!
