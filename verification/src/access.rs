//! Per-edge access: who may use an edge, in which direction, and which turns a
//! junction forbids.
//!
//! One byte per edge:
//!
//! ```text
//! bit  0..3  access (car, bicycle, foot)
//! bit  3..5  oneway (0 none, 1 forward, 2 backward)
//! bit  5     bicycle contraflow
//! ```
//!
//! Explicit tags only. A way with none of these tags is fully open: nothing is
//! inferred from its highway class.

use crate::bytes::{le_bytes, le_value, lemma_le_round_trip, lemma_le_value_bound,
    lemma_le_value_round_trip, lemma_pow256_widths, read_le, u64_bytes};
use crate::text::{pairs, same_text, tag, value_of};
use vstd::prelude::*;

verus! {

/// Car may use this edge.
pub const ACCESS_CAR: u8 = 1;

/// Bicycle may use this edge.
pub const ACCESS_BIKE: u8 = 2;

/// Foot may use this edge.
pub const ACCESS_FOOT: u8 = 4;

/// All three modes: the default for a way without an access-denying tag.
pub const ACCESS_ALL: u8 = 7;

/// No oneway restriction.
pub const ONEWAY_NONE: u8 = 0;

/// Traversable in way order only.
pub const ONEWAY_FORWARD: u8 = 1;

/// Traversable against way order only.
pub const ONEWAY_BACKWARD: u8 = 2;

/// A mode of travel that access tags speak of.
#[derive(Debug, Clone, Copy, PartialEq, Eq, Structural)]
pub enum Mode {
    Car,
    Bike,
    Foot,
}

/// Whether a key speaks of a mode.
pub open spec fn speaks_of(key: Seq<char>, mode: Mode) -> bool {
    match mode {
        Mode::Car => key == "motor_vehicle"@ || key == "motorcar"@,
        Mode::Bike => key == "bicycle"@,
        Mode::Foot => key == "foot"@,
    }
}

/// Values that open a mode.
pub open spec fn allows(value: Seq<char>) -> bool {
    value == "yes"@ || value == "designated"@ || value == "permissive"@ || value == "destination"@
}

/// What one tag says about a mode: open, closed, or nothing.
pub open spec fn ruling(tag: (Seq<char>, Seq<char>), mode: Mode) -> Option<bool> {
    if !speaks_of(tag.0, mode) {
        None
    } else if allows(tag.1) {
        Some(true)
    } else if tag.1 == "no"@ {
        Some(false)
    } else {
        None
    }
}

/// What the tags that speak of a mode say: the last of them that says anything
/// counts.
pub open spec fn verdict(tags: Seq<(Seq<char>, Seq<char>)>, mode: Mode) -> Option<bool>
    decreases tags.len(),
{
    if tags.len() == 0 {
        None
    } else {
        match ruling(tags.last(), mode) {
            Some(open) => Some(open),
            None => verdict(tags.drop_last(), mode),
        }
    }
}

/// Whether a blanket tag closes the way, wherever in the list it stands.
pub open spec fn closed_by_default(tags: Seq<(Seq<char>, Seq<char>)>) -> bool {
    exists|i: int|
        0 <= i < tags.len() && (#[trigger] tags[i]).0 == "access"@ && (tags[i].1 == "no"@
            || tags[i].1 == "private"@)
}

/// Whether a mode may use the way: the tags that speak of the mode decide, the
/// blanket tag only where they are silent.
pub open spec fn is_open(tags: Seq<(Seq<char>, Seq<char>)>, mode: Mode) -> bool {
    match verdict(tags, mode) {
        Some(open) => open,
        None => !closed_by_default(tags),
    }
}

/// The access bits of three modes.
pub open spec fn access_mask(car: bool, bike: bool, foot: bool) -> int {
    (if car {
        1int
    } else {
        0
    }) + (if bike {
        2int
    } else {
        0
    }) + (if foot {
        4int
    } else {
        0
    })
}

/// Whether a value opens a mode.
fn is_allowing(v: &str) -> (r: bool)
    ensures
        r == allows(v@),
{
    same_text(v, "yes") || same_text(v, "designated") || same_text(v, "permissive") || same_text(
        v,
        "destination",
    )
}

/// What one tag says about a mode.
fn rule(k: &str, v: &str, mode: Mode) -> (r: Option<bool>)
    ensures
        r == ruling((k@, v@), mode),
{
    let speaks: bool = match mode {
        Mode::Car => same_text(k, "motor_vehicle") || same_text(k, "motorcar"),
        Mode::Bike => same_text(k, "bicycle"),
        Mode::Foot => same_text(k, "foot"),
    };
    if !speaks {
        None
    } else if is_allowing(v) {
        Some(true)
    } else if same_text(v, "no") {
        Some(false)
    } else {
        None
    }
}

/// Whether a blanket tag closes the way.
fn is_closed_by_default(tags: &[(&str, &str)]) -> (r: bool)
    ensures
        r == closed_by_default(pairs(tags@)),
{
    let ghost all = pairs(tags@);
    let mut i: usize = 0;
    while i < tags.len()
        invariant
            i <= tags@.len(),
            all == pairs(tags@),
            forall|k: int|
                0 <= k < i ==> !((#[trigger] all[k]).0 == "access"@ && (all[k].1 == "no"@
                    || all[k].1 == "private"@)),
        decreases tags@.len() - i,
    {
        assert(all[i as int] == (tags@[i as int].0@, tags@[i as int].1@));
        if same_text(tags[i].0, "access") && (same_text(tags[i].1, "no") || same_text(
            tags[i].1,
            "private",
        )) {
            return true;
        }
        i = i + 1;
    }
    false
}

/// Whether a mode may use the way.
fn mode_open(tags: &[(&str, &str)], mode: Mode) -> (r: bool)
    ensures
        r == is_open(pairs(tags@), mode),
{
    let ghost all = pairs(tags@);
    let mut n: usize = tags.len();
    assert(all.take(n as int) =~= all);
    while n > 0
        invariant
            n <= tags@.len(),
            all == pairs(tags@),
            verdict(all, mode) == verdict(all.take(n as int), mode),
        decreases n,
    {
        proof {
            let here = all.take(n as int);
            assert(here.last() == (tags@[n - 1].0@, tags@[n - 1].1@));
            assert(here.drop_last() =~= all.take(n - 1));
        }
        match rule(tags[n - 1].0, tags[n - 1].1, mode) {
            Some(open) => {
                return open;
            },
            None => {},
        }
        n = n - 1;
    }
    !is_closed_by_default(tags)
}

/// The access bits of a way, from its tags.
pub fn access_from_tags(tags: &[(&str, &str)]) -> (mask: u8)
    ensures
        mask == access_mask(
            is_open(pairs(tags@), Mode::Car),
            is_open(pairs(tags@), Mode::Bike),
            is_open(pairs(tags@), Mode::Foot),
        ),
        mask == mask_of(pairs(tags@)),
{
    let mut mask: u8 = 0;
    if mode_open(tags, Mode::Car) {
        mask = mask + ACCESS_CAR;
    }
    if mode_open(tags, Mode::Bike) {
        mask = mask + ACCESS_BIKE;
    }
    if mode_open(tags, Mode::Foot) {
        mask = mask + ACCESS_FOOT;
    }
    mask
}

/// The oneway class that a value of the `oneway` tag names.
pub open spec fn oneway_class(value: Option<Seq<char>>) -> u8 {
    match value {
        Some(v) => if v == "yes"@ || v == "1"@ || v == "true"@ {
            ONEWAY_FORWARD
        } else if v == "-1"@ {
            ONEWAY_BACKWARD
        } else {
            ONEWAY_NONE
        },
        None => ONEWAY_NONE,
    }
}

/// The oneway class of a way, from its first `oneway` tag.
pub fn oneway_from_tags(tags: &[(&str, &str)]) -> (class: u8)
    ensures
        class == oneway_class(value_of(pairs(tags@), "oneway"@)),
{
    match tag(tags, "oneway") {
        Some(v) => if same_text(v, "yes") || same_text(v, "1") || same_text(v, "true") {
            ONEWAY_FORWARD
        } else if same_text(v, "-1") {
            ONEWAY_BACKWARD
        } else {
            ONEWAY_NONE
        },
        None => ONEWAY_NONE,
    }
}

/// Whether the tags let bicycles against a general oneway.
pub open spec fn contraflow(tags: Seq<(Seq<char>, Seq<char>)>) -> bool {
    tags.contains(("oneway:bicycle"@, "no"@))
}

/// Whether a way lets bicycles against its oneway: the exact tag
/// `oneway:bicycle=no`, never a guess.
pub fn bicycle_contraflow_from_tags(tags: &[(&str, &str)]) -> (r: bool)
    ensures
        r == contraflow(pairs(tags@)),
{
    let ghost all = pairs(tags@);
    let mut i: usize = 0;
    while i < tags.len()
        invariant
            i <= tags@.len(),
            all == pairs(tags@),
            forall|k: int| 0 <= k < i ==> #[trigger] all[k] != ("oneway:bicycle"@, "no"@),
        decreases tags@.len() - i,
    {
        assert(all[i as int] == (tags@[i as int].0@, tags@[i as int].1@));
        if same_text(tags[i].0, "oneway:bicycle") && same_text(tags[i].1, "no") {
            assert(all[i as int] == ("oneway:bicycle"@, "no"@));
            return true;
        }
        i = i + 1;
    }
    false
}

// ── The access byte ─────────────────────────────────────────────────
/// The byte of one edge.
pub open spec fn access_byte(access: u8, oneway: u8, contraflow: bool) -> int {
    access % 8 + 8 * (oneway % 4) + (if contraflow {
        32int
    } else {
        0
    })
}

/// Packs one edge. Access is taken modulo eight, oneway modulo four.
pub fn pack_access(access: u8, oneway: u8, contraflow: bool) -> (b: u8)
    ensures
        b == access_byte(access, oneway, contraflow),
{
    let c: u8 = if contraflow {
        32
    } else {
        0
    };
    access % 8 + 8 * (oneway % 4) + c
}

/// Unpacks `(access, oneway, contraflow)`.
pub fn unpack_access(b: u8) -> (r: (u8, u8, bool))
    ensures
        r.0 == b % 8,
        r.1 == (b / 8) % 4,
        r.2 == ((b / 32) % 2 == 1),
{
    (b % 8, (b / 8) % 4, (b / 32) % 2 == 1)
}

/// Every combination of the three fields survives the byte.
pub proof fn law_access_round_trip(access: u8, oneway: u8, contraflow: bool)
    requires
        access < 8,
        oneway < 4,
    ensures
        0 <= access_byte(access, oneway, contraflow) < 64,
        access_byte(access, oneway, contraflow) % 8 == access,
        (access_byte(access, oneway, contraflow) / 8) % 4 == oneway,
        ((access_byte(access, oneway, contraflow) / 32) % 2 == 1) == contraflow,
{
}

/// The whole access byte of a way, from its tags.
pub fn way_access_byte(tags: &[(&str, &str)]) -> (b: u8)
    ensures
        b == access_byte(
            access_mask(
                is_open(pairs(tags@), Mode::Car),
                is_open(pairs(tags@), Mode::Bike),
                is_open(pairs(tags@), Mode::Foot),
            ) as u8,
            oneway_class(value_of(pairs(tags@), "oneway"@)),
            contraflow(pairs(tags@)),
        ),
        b == way_byte(pairs(tags@)),
{
    pack_access(access_from_tags(tags), oneway_from_tags(tags), bicycle_contraflow_from_tags(tags))
}

/// A way that says nothing about access is open to all three modes.
pub proof fn law_silence_is_open(tags: Seq<(Seq<char>, Seq<char>)>, mode: Mode)
    requires
        forall|i: int| 0 <= i < tags.len() ==> ruling(#[trigger] tags[i], mode) is None,
        !closed_by_default(tags),
    ensures
        is_open(tags, mode),
    decreases tags.len(),
{
    lemma_silent(tags, mode);
}

proof fn lemma_silent(tags: Seq<(Seq<char>, Seq<char>)>, mode: Mode)
    requires
        forall|i: int| 0 <= i < tags.len() ==> ruling(#[trigger] tags[i], mode) is None,
    ensures
        verdict(tags, mode) is None,
    decreases tags.len(),
{
    if tags.len() > 0 {
        assert(tags.last() == tags[tags.len() - 1]);
        let front = tags.drop_last();
        assert forall|i: int| 0 <= i < front.len() implies ruling(#[trigger] front[i], mode) is None by {
            assert(front[i] == tags[i]);
        }
        lemma_silent(front, mode);
    }
}

/// A specific tag reopens a mode that a blanket tag closed, wherever the
/// blanket tag stands: the last tag that speaks of the mode decides.
pub proof fn law_specific_tag_wins(tags: Seq<(Seq<char>, Seq<char>)>, mode: Mode, at: int)
    requires
        0 <= at < tags.len(),
        ruling(tags[at], mode) is Some,
        forall|i: int| at < i < tags.len() ==> ruling(#[trigger] tags[i], mode) is None,
    ensures
        is_open(tags, mode) == ruling(tags[at], mode)->0,
    decreases tags.len(),
{
    assert(tags.last() == tags[tags.len() - 1]);
    if at < tags.len() - 1 {
        let front = tags.drop_last();
        assert forall|i: int| at < i < front.len() implies ruling(#[trigger] front[i], mode) is None by {
            assert(front[i] == tags[i]);
        }
        law_specific_tag_wins(front, mode, at);
        assert(verdict(front, mode) is Some) by {
            lemma_some(front, mode, at);
        }
    }
}

proof fn lemma_some(tags: Seq<(Seq<char>, Seq<char>)>, mode: Mode, at: int)
    requires
        0 <= at < tags.len(),
        ruling(tags[at], mode) is Some,
    ensures
        verdict(tags, mode) is Some,
    decreases tags.len(),
{
    if at < tags.len() - 1 {
        lemma_some(tags.drop_last(), mode, at);
    }
}

// ── Turn restrictions ───────────────────────────────────────────────
/// The forbidden turns of one junction: bit `from * 8 + to` forbids entering on
/// edge slot `from` and leaving on edge slot `to`.
#[derive(Debug, Clone, Copy, PartialEq, Eq, Default, Structural)]
pub struct RestrictionMask(pub u64);

/// The bit of a turn.
pub open spec fn turn_bit(from: u8, to: u8) -> u64 {
    (from * 8 + to) as u64
}

/// Whether a word has bit `k` set.
pub open spec fn bit(word: u64, k: u64) -> bool {
    (word >> k) & 1 == 1
}

impl RestrictionMask {
    /// No turn forbidden.
    pub fn empty() -> (m: Self)
        ensures
            m.0 == 0,
            forall|f: u8, t: u8| !(#[trigger] m.forbids(f, t)),
    {
        proof {
            assert forall|f: u8, t: u8| !(#[trigger] RestrictionMask(0).forbids(f, t)) by {
                law_empty_mask_forbids_nothing(f, t);
            }
        }
        RestrictionMask(0)
    }

    /// Whether the mask forbids a turn. A slot beyond the eighth forbids
    /// nothing.
    pub open spec fn forbids(self, from: u8, to: u8) -> bool {
        from < 8 && to < 8 && bit(self.0, turn_bit(from, to))
    }

    /// Forbids a turn. A slot beyond the eighth leaves the mask as it is.
    pub fn with_forbidden(self, from: u8, to: u8) -> (m: Self)
        ensures
            from < 8 && to < 8 ==> m.0 == self.0 | (1u64 << turn_bit(from, to)),
            !(from < 8 && to < 8) ==> m == self,
            forall|f: u8, t: u8|
                #[trigger] m.forbids(f, t) == (self.forbids(f, t) || (f == from && t == to && f < 8
                    && t < 8)),
    {
        if from >= 8 || to >= 8 {
            return self;
        }
        let k: u64 = from as u64 * 8 + to as u64;
        let m: RestrictionMask = RestrictionMask(self.0 | (1u64 << k));
        proof {
            assert forall|f: u8, t: u8| #[trigger] m.forbids(f, t) == (self.forbids(f, t) || (f
                == from && t == to && f < 8 && t < 8)) by {
                if f < 8 && t < 8 {
                    lemma_set_bit(self.0, k, turn_bit(f, t));
                }
            }
        }
        m
    }

    /// Whether a turn is forbidden.
    pub fn is_forbidden(self, from: u8, to: u8) -> (r: bool)
        ensures
            r == self.forbids(from, to),
    {
        if from >= 8 || to >= 8 {
            return false;
        }
        let k: u64 = from as u64 * 8 + to as u64;
        (self.0 >> k) & 1 == 1
    }

    /// The eight bytes of the mask.
    pub fn to_bytes(self) -> (b: [u8; 8])
        ensures
            b@ == le_bytes(self.0 as nat, 8),
    {
        u64_bytes(self.0)
    }

    /// The mask of eight bytes.
    pub fn from_bytes(b: [u8; 8]) -> (m: Self)
        ensures
            m.0 == le_value(b@),
    {
        let v: u64 = read_le(b.as_slice(), 0, 8);
        assert(b@.subrange(0, 8) =~= b@);
        RestrictionMask(v)
    }
}

proof fn lemma_set_bit(word: u64, k: u64, j: u64)
    by (bit_vector)
    requires
        k < 64,
        j < 64,
    ensures
        ((word | (1u64 << k)) >> j) & 1 == 1 <==> (word >> j) & 1 == 1 || j == k,
{
}

/// A mask survives its bytes, and eight bytes survive their mask.
pub proof fn law_mask_bytes_inverse(m: RestrictionMask, b: Seq<u8>)
    requires
        b.len() == 8,
    ensures
        le_value(le_bytes(m.0 as nat, 8)) == m.0,
        le_value(b) <= u64::MAX,
        le_bytes(le_value(b), 8) == b,
{
    lemma_pow256_widths();
    lemma_le_round_trip(m.0 as nat, 8);
    lemma_le_value_bound(b);
    lemma_le_value_round_trip(b);
}

/// The empty mask forbids nothing.
pub proof fn law_empty_mask_forbids_nothing(from: u8, to: u8)
    ensures
        !RestrictionMask(0).forbids(from, to),
{
    if from < 8 && to < 8 {
        let k = turn_bit(from, to);
        assert((0u64 >> k) & 1 == 0) by (bit_vector);
    }
}

// ── Laws of access tags ─────────────────────────────────────────────
/// The access mask that tags give.
pub open spec fn mask_of(tags: Seq<(Seq<char>, Seq<char>)>) -> int {
    access_mask(is_open(tags, Mode::Car), is_open(tags, Mode::Bike), is_open(tags, Mode::Foot))
}

/// Whether a key has nothing to do with access.
pub open spec fn is_unrelated(key: Seq<char>) -> bool {
    &&& key != "access"@ && key != "motor_vehicle"@ && key != "motorcar"@
    &&& key != "bicycle"@ && key != "foot"@
}

proof fn lemma_access_words()
    ensures
        "access"@.len() == 6 && "motor_vehicle"@.len() == 13 && "motorcar"@.len() == 8,
        "bicycle"@.len() == 7 && "foot"@.len() == 4,
        "no"@.len() == 2 && "private"@.len() == 7 && "yes"@.len() == 3,
        "designated"@.len() == 10 && "permissive"@.len() == 10 && "destination"@.len() == 11,
{
    reveal_strlit("access");
    reveal_strlit("motor_vehicle");
    reveal_strlit("motorcar");
    reveal_strlit("bicycle");
    reveal_strlit("foot");
    reveal_strlit("no");
    reveal_strlit("private");
    reveal_strlit("yes");
    reveal_strlit("designated");
    reveal_strlit("permissive");
    reveal_strlit("destination");
}

/// What the last tag that speaks of a mode says is what the tags say of it.
proof fn lemma_last_word(tags: Seq<(Seq<char>, Seq<char>)>, mode: Mode, at: int)
    requires
        0 <= at < tags.len(),
        ruling(tags[at], mode) is Some,
        forall|i: int| at < i < tags.len() ==> ruling(#[trigger] tags[i], mode) is None,
    ensures
        verdict(tags, mode) == ruling(tags[at], mode),
    decreases tags.len(),
{
    assert(tags.last() == tags[tags.len() - 1]);
    if at < tags.len() - 1 {
        let front = tags.drop_last();
        assert forall|i: int| at < i < front.len() implies ruling(#[trigger] front[i], mode) is None by {
            assert(front[i] == tags[i]);
        }
        lemma_last_word(front, mode, at);
    }
}

/// Tags that do not speak of access leave a way open to all: a car's bit is one, a
/// bicycle's two, a walker's four.
pub proof fn law_other_tags_leave_a_way_open(tags: Seq<(Seq<char>, Seq<char>)>)
    requires
        forall|i: int| 0 <= i < tags.len() ==> is_unrelated((#[trigger] tags[i]).0),
    ensures
        mask_of(tags) == 7,
{
    lemma_silent(tags, Mode::Car);
    lemma_silent(tags, Mode::Bike);
    lemma_silent(tags, Mode::Foot);
}

/// A tag that closes a way to one kind of traffic closes it to that one and to no
/// other: `motor_vehicle` and `motorcar` speak of cars, `bicycle` of bicycles, `foot`
/// of people on foot.
pub proof fn law_a_closing_tag_closes_its_own_mode(tags: Seq<(Seq<char>, Seq<char>)>, at: int)
    requires
        0 <= at < tags.len(),
        tags[at].1 == "no"@,
        forall|i: int|
            0 <= i < tags.len() && i != at ==> is_unrelated((#[trigger] tags[i]).0),
    ensures
        tags[at].0 == "motor_vehicle"@ || tags[at].0 == "motorcar"@ ==> mask_of(tags) == 6,
        tags[at].0 == "bicycle"@ ==> mask_of(tags) == 5,
        tags[at].0 == "foot"@ ==> mask_of(tags) == 3,
        tags[at].0 == "access"@ ==> mask_of(tags) == 0,
{
    lemma_access_words();
    let key = tags[at].0;
    if key == "motor_vehicle"@ || key == "motorcar"@ {
        lemma_last_word(tags, Mode::Car, at);
        lemma_silent(tags, Mode::Bike);
        lemma_silent(tags, Mode::Foot);
    } else if key == "bicycle"@ {
        lemma_last_word(tags, Mode::Bike, at);
        lemma_silent(tags, Mode::Car);
        lemma_silent(tags, Mode::Foot);
    } else if key == "foot"@ {
        lemma_last_word(tags, Mode::Foot, at);
        lemma_silent(tags, Mode::Car);
        lemma_silent(tags, Mode::Bike);
    } else if key == "access"@ {
        lemma_silent(tags, Mode::Car);
        lemma_silent(tags, Mode::Bike);
        lemma_silent(tags, Mode::Foot);
    }
}

/// A way closed by a blanket tag is opened again to one kind of traffic by a tag that
/// allows it, and to no other, whichever of the two tags comes first.
pub proof fn law_an_allowing_tag_opens_its_own_mode(
    tags: Seq<(Seq<char>, Seq<char>)>,
    closed: int,
    at: int,
)
    requires
        0 <= closed < tags.len(),
        0 <= at < tags.len(),
        at != closed,
        tags[closed].0 == "access"@,
        tags[closed].1 == "no"@ || tags[closed].1 == "private"@,
        tags[at].1 == "yes"@ || tags[at].1 == "designated"@ || tags[at].1 == "permissive"@
            || tags[at].1 == "destination"@,
        forall|i: int|
            0 <= i < tags.len() && i != at && i != closed ==> is_unrelated((#[trigger] tags[i]).0),
    ensures
        tags[at].0 == "motor_vehicle"@ || tags[at].0 == "motorcar"@ ==> mask_of(tags) == 1,
        tags[at].0 == "bicycle"@ ==> mask_of(tags) == 2,
        tags[at].0 == "foot"@ ==> mask_of(tags) == 4,
{
    lemma_access_words();
    let key = tags[at].0;
    assert(closed_by_default(tags));
    if key == "motor_vehicle"@ || key == "motorcar"@ {
        lemma_last_word(tags, Mode::Car, at);
        lemma_silent(tags, Mode::Bike);
        lemma_silent(tags, Mode::Foot);
    } else if key == "bicycle"@ {
        lemma_last_word(tags, Mode::Bike, at);
        lemma_silent(tags, Mode::Car);
        lemma_silent(tags, Mode::Foot);
    } else if key == "foot"@ {
        lemma_last_word(tags, Mode::Foot, at);
        lemma_silent(tags, Mode::Car);
        lemma_silent(tags, Mode::Bike);
    }
}

/// Of several tags on one kind of traffic the last that allows or forbids it counts;
/// a value that does neither, as `customers`, changes nothing wherever it stands.
pub proof fn law_the_last_word_counts(
    tags: Seq<(Seq<char>, Seq<char>)>,
    more: (Seq<char>, Seq<char>),
)
    ensures
        more.1 == "no"@ && (more.0 == "motor_vehicle"@ || more.0 == "motorcar"@) ==> mask_of(
            tags.push(more),
        ) % 2 == 0,
        more.1 == "no"@ && more.0 == "bicycle"@ ==> mask_of(tags.push(more)) / 2 % 2 == 0,
        more.1 == "no"@ && more.0 == "foot"@ ==> mask_of(tags.push(more)) / 4 % 2 == 0,
        more.1 == "yes"@ && (more.0 == "motor_vehicle"@ || more.0 == "motorcar"@) ==> mask_of(
            tags.push(more),
        ) % 2 == 1,
        more.1 == "yes"@ && more.0 == "bicycle"@ ==> mask_of(tags.push(more)) / 2 % 2 == 1,
        more.1 == "yes"@ && more.0 == "foot"@ ==> mask_of(tags.push(more)) / 4 % 2 == 1,
        more.0 != "access"@ && more.1 != "no"@ && more.1 != "yes"@ && more.1 != "designated"@
            && more.1 != "permissive"@ && more.1 != "destination"@ ==> mask_of(tags.push(more))
            == mask_of(tags),
        more.0 == "access"@ && more.1 != "no"@ && more.1 != "private"@ ==> mask_of(tags.push(more))
            == mask_of(tags),
        is_unrelated(more.0) ==> mask_of(tags.push(more)) == mask_of(tags),
{
    lemma_access_words();
    let all = tags.push(more);
    assert(all.drop_last() =~= tags);
    assert(all.last() == more);
    assert(closed_by_default(all) <==> closed_by_default(tags) || more.0 == "access"@ && (more.1
        == "no"@ || more.1 == "private"@)) by {
        if closed_by_default(tags) {
            let i = choose|i: int|
                0 <= i < tags.len() && (#[trigger] tags[i]).0 == "access"@ && (tags[i].1 == "no"@
                    || tags[i].1 == "private"@);
            assert(all[i] == tags[i]);
        }
        if closed_by_default(all) {
            let i = choose|i: int|
                0 <= i < all.len() && (#[trigger] all[i]).0 == "access"@ && (all[i].1 == "no"@
                    || all[i].1 == "private"@);
            if i < tags.len() {
                assert(tags[i] == all[i]);
            }
        }
        if more.0 == "access"@ && (more.1 == "no"@ || more.1 == "private"@) {
            assert(all[tags.len() as int] == more);
        }
    }
}

/// The direction is that of the first `oneway` tag: forward for `yes`, `1` and `true`,
/// backward for `-1`, and open both ways for every other value and without the tag.
pub proof fn law_oneway_follows_the_first_tag(tags: Seq<(Seq<char>, Seq<char>)>, at: int)
    ensures
        (forall|i: int| 0 <= i < tags.len() ==> (#[trigger] tags[i]).0 != "oneway"@)
            ==> oneway_class(value_of(tags, "oneway"@)) == 0,
        0 <= at < tags.len() && tags[at].0 == "oneway"@ && (forall|i: int|
            0 <= i < at ==> (#[trigger] tags[i]).0 != "oneway"@) ==> {
            let (c, v) = (oneway_class(value_of(tags, "oneway"@)), tags[at].1);
            &&& c == 1 <==> v == "yes"@ || v == "1"@ || v == "true"@
            &&& c == 2 <==> v == "-1"@
            &&& c <= 2
        },
{
    crate::text::law_first_tag_counts(tags, "oneway"@, at);
    reveal_strlit("yes");
    reveal_strlit("1");
    reveal_strlit("true");
    reveal_strlit("-1");
    assert("yes"@.len() == 3 && "1"@.len() == 1 && "true"@.len() == 4 && "-1"@.len() == 2);
}

/// Bicycles may go against a oneway exactly where some tag is `oneway:bicycle=no`.
pub proof fn law_contraflow_is_said(tags: Seq<(Seq<char>, Seq<char>)>)
    ensures
        contraflow(tags) <==> exists|i: int|
            0 <= i < tags.len() && (#[trigger] tags[i]).0 == "oneway:bicycle"@ && tags[i].1
                == "no"@,
{
}

/// The bit of a turn is eight times the slot it comes from and the slot it goes to, so that
/// no two turns share one.
pub proof fn law_every_turn_has_its_bit(from: u8, to: u8, f: u8, t: u8)
    requires
        from < 8,
        to < 8,
        f < 8,
        t < 8,
    ensures
        turn_bit(from, to) == 8 * from + to,
        turn_bit(from, to) == turn_bit(f, t) <==> from == f && to == t,
{
}

/// The access byte that tags give.
pub open spec fn way_byte(tags: Seq<(Seq<char>, Seq<char>)>) -> int {
    access_byte(mask_of(tags) as u8, oneway_class(value_of(tags, "oneway"@)), contraflow(tags))
}

/// The access byte of a way holds what its tags say: who may use it in the low three bits,
/// the direction in the next two, and whether bicycles may go against it in the one behind.
pub proof fn law_a_byte_holds_what_tags_say(tags: Seq<(Seq<char>, Seq<char>)>)
    ensures
        0 <= way_byte(tags) < 64,
        way_byte(tags) % 8 == mask_of(tags),
        way_byte(tags) / 8 % 4 == oneway_class(value_of(tags, "oneway"@)),
        way_byte(tags) / 32 == 1 <==> tags.contains(("oneway:bicycle"@, "no"@)),
{
}

} // verus!
