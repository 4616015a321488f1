//! House numbers: what they are, where they stand, and whether a street follows
//! a pattern.
//!
//! A house number is text. `12a` stands between `12` and `13`; `12-14` stands
//! nowhere, for it is several houses.

use crate::order::{in_order, sort, Ranked};
use crate::text::{chars_of, decimal, digit, listed, one_of, pairs, same_text, tag, value_of};
use vstd::prelude::*;

verus! {

// ── Characters ──────────────────────────────────────────────────────
/// Whether a character is white space, as Unicode has it.
pub open spec fn white(c: char) -> bool {
    let n = c as u32;
    ||| 0x9 <= n <= 0xd
    ||| n == 0x20
    ||| n == 0x85
    ||| n == 0xa0
    ||| n == 0x1680
    ||| 0x2000 <= n <= 0x200a
    ||| n == 0x2028
    ||| n == 0x2029
    ||| n == 0x202f
    ||| n == 0x205f
    ||| n == 0x3000
}

/// Whether a character is white space.
fn is_white(c: char) -> (r: bool)
    ensures
        r == white(c),
{
    let n: u32 = c as u32;
    (0x9 <= n && n <= 0xd) || n == 0x20 || n == 0x85 || n == 0xa0 || n == 0x1680 || (0x2000 <= n
        && n <= 0x200a) || n == 0x2028 || n == 0x2029 || n == 0x202f || n == 0x205f || n == 0x3000
}

/// Whether a character beyond the first 128 is a letter, as Unicode has it.
pub uninterp spec fn alphabetic(c: char) -> bool;

/// Whether a character is a letter. Of the first 128 characters, the 52 Latin
/// letters are.
pub open spec fn letter(c: char) -> bool {
    if (c as u32) < 128 {
        'a' <= c <= 'z' || 'A' <= c <= 'Z'
    } else {
        alphabetic(c)
    }
}

/// Whether a character is a letter.
///
/// This is [`char::is_alphabetic`]: it depends on the character alone. Of the
/// first 128 characters, the 52 Latin letters are; what it says of the others is
/// given the name [`alphabetic`].
#[verifier::external_body]
fn is_letter(c: char) -> (r: bool)
    ensures
        r == if (c as u32) < 128 {
            'a' <= c <= 'z' || 'A' <= c <= 'Z'
        } else {
            alphabetic(c)
        },
{
    c.is_alphabetic()
}

/// Whether a character is one of the ten digits.
pub open spec fn is_digit(c: char) -> bool {
    '0' <= c <= '9'
}

/// Whether a character separates several numbers.
pub open spec fn is_separator(c: char) -> bool {
    c == '-' || c == '/' || c == ',' || c == ';'
}

/// A text without the white space in front.
pub open spec fn trimmed_start(s: Seq<char>) -> Seq<char>
    decreases s.len(),
{
    if s.len() > 0 && white(s[0]) {
        trimmed_start(s.subrange(1, s.len() as int))
    } else {
        s
    }
}

/// A text without the white space behind.
pub open spec fn trimmed_end(s: Seq<char>) -> Seq<char>
    decreases s.len(),
{
    if s.len() > 0 && white(s.last()) {
        trimmed_end(s.drop_last())
    } else {
        s
    }
}

/// A text without the white space around it.
pub open spec fn trimmed(s: Seq<char>) -> Seq<char> {
    trimmed_end(trimmed_start(s))
}

/// How many digits a text begins with.
pub open spec fn leading_digits(s: Seq<char>) -> nat
    decreases s.len(),
{
    if s.len() > 0 && is_digit(s[0]) {
        leading_digits(s.subrange(1, s.len() as int)) + 1
    } else {
        0
    }
}

/// Whether every character of a text has a property.
pub open spec fn all_chars(s: Seq<char>, p: spec_fn(char) -> bool) -> bool {
    forall|i: int| 0 <= i < s.len() ==> p(#[trigger] s[i])
}

/// Whether a text holds a separator.
pub open spec fn has_separator(s: Seq<char>) -> bool {
    exists|i: int| 0 <= i < s.len() && is_separator(#[trigger] s[i])
}

/// Whether a text is one or two letters.
pub open spec fn is_suffix(s: Seq<char>) -> bool {
    0 < s.len() <= 2 && all_chars(s, |c: char| letter(c))
}

/// The text behind the digits that a text begins with, trimmed.
pub open spec fn behind_digits(s: Seq<char>) -> Seq<char> {
    trimmed(s.subrange(leading_digits(s) as int, s.len() as int))
}

/// The part of `s` from `lo` to `hi` without the white space around it.
fn trim_range(s: &Vec<char>, from: usize, to: usize) -> (r: (usize, usize))
    requires
        from <= to <= s@.len(),
    ensures
        from <= r.0 <= r.1 <= to,
        s@.subrange(r.0 as int, r.1 as int) == trimmed(s@.subrange(from as int, to as int)),
{
    let ghost whole = s@.subrange(from as int, to as int);
    let mut lo: usize = from;
    while lo < to && is_white(s[lo])
        invariant
            from <= lo <= to <= s@.len(),
            trimmed_start(s@.subrange(lo as int, to as int)) == trimmed_start(whole),
        decreases to - lo,
    {
        proof {
            let here = s@.subrange(lo as int, to as int);
            assert(here.subrange(1, here.len() as int) =~= s@.subrange(lo + 1, to as int));
            assert(here[0] == s@[lo as int]);
        }
        lo = lo + 1;
    }
    let ghost start = s@.subrange(lo as int, to as int);
    proof {
        if start.len() > 0 {
            assert(start[0] == s@[lo as int]);
        }
        assert(start == trimmed_start(whole));
    }
    let mut hi: usize = to;
    while hi > lo && is_white(s[hi - 1])
        invariant
            from <= lo <= hi <= to <= s@.len(),
            trimmed_end(s@.subrange(lo as int, hi as int)) == trimmed_end(start),
        decreases hi - lo,
    {
        proof {
            let here = s@.subrange(lo as int, hi as int);
            assert(here.drop_last() =~= s@.subrange(lo as int, hi - 1));
            assert(here.last() == s@[hi - 1]);
        }
        hi = hi - 1;
    }
    proof {
        let here = s@.subrange(lo as int, hi as int);
        if here.len() > 0 {
            assert(here.last() == s@[hi - 1]);
        }
    }
    (lo, hi)
}

/// How many digits a stretch of characters begins with.
fn digit_count(s: &Vec<char>, from: usize, to: usize) -> (n: usize)
    requires
        from <= to <= s@.len(),
    ensures
        n == leading_digits(s@.subrange(from as int, to as int)),
        from + n <= to,
        forall|i: int| from <= i < from + n ==> is_digit(#[trigger] s@[i]),
{
    let ghost whole = s@.subrange(from as int, to as int);
    let mut n: usize = 0;
    while from + n < to && '0' <= s[from + n] && s[from + n] <= '9'
        invariant
            from + n <= to <= s@.len(),
            leading_digits(whole) == n + leading_digits(s@.subrange(from + n, to as int)),
            forall|i: int| from <= i < from + n ==> is_digit(#[trigger] s@[i]),
        decreases to - from - n,
    {
        proof {
            let here = s@.subrange(from + n, to as int);
            assert(here.subrange(1, here.len() as int) =~= s@.subrange(from + n + 1, to as int));
            assert(here[0] == s@[from + n]);
        }
        n = n + 1;
    }
    proof {
        let here = s@.subrange(from + n, to as int);
        if here.len() > 0 {
            assert(here[0] == s@[from + n]);
        }
    }
    n
}

/// Whether a stretch of characters holds a separator.
fn separated(s: &Vec<char>, from: usize, to: usize) -> (r: bool)
    requires
        from <= to <= s@.len(),
    ensures
        r == has_separator(s@.subrange(from as int, to as int)),
{
    let ghost whole = s@.subrange(from as int, to as int);
    let mut i: usize = from;
    while i < to
        invariant
            from <= i <= to <= s@.len(),
            whole == s@.subrange(from as int, to as int),
            forall|k: int| 0 <= k < i - from ==> !is_separator(#[trigger] whole[k]),
        decreases to - i,
    {
        let c: char = s[i];
        assert(whole[i - from] == c);
        if c == '-' || c == '/' || c == ',' || c == ';' {
            return true;
        }
        i = i + 1;
    }
    false
}

/// Whether a stretch of characters is one or two letters.
fn suffix(s: &Vec<char>, from: usize, to: usize) -> (r: bool)
    requires
        from <= to <= s@.len(),
    ensures
        r == is_suffix(s@.subrange(from as int, to as int)),
{
    let ghost whole = s@.subrange(from as int, to as int);
    if from == to || to - from > 2 {
        return false;
    }
    let mut i: usize = from;
    while i < to
        invariant
            from <= i <= to <= s@.len(),
            whole == s@.subrange(from as int, to as int),
            forall|k: int| 0 <= k < i - from ==> letter(#[trigger] whole[k]),
        decreases to - i,
    {
        assert(whole[i - from] == s@[i as int]);
        if !is_letter(s[i]) {
            return false;
        }
        i = i + 1;
    }
    true
}

// ── What a house number is ──────────────────────────────────────────
/// How a house number is shaped.
#[derive(Debug, Clone, Copy, PartialEq, Eq, Structural, Hash)]
pub enum NumKind {
    /// `12`: it orders by number.
    Plain,
    /// `12a`: it orders with the letter as the minor key.
    Suffixed,
    /// `12-14`, `12/14`, `12,14`: several numbers, not one position.
    Range,
    /// Anything else.
    Other,
}

/// How a trimmed house number is shaped. A separator wins over a suffix.
pub open spec fn number_kind(t: Seq<char>) -> NumKind {
    if t.len() == 0 {
        NumKind::Other
    } else if all_chars(t, |c: char| is_digit(c)) {
        NumKind::Plain
    } else if has_separator(t) {
        NumKind::Range
    } else if leading_digits(t) > 0 && is_suffix(behind_digits(t)) {
        NumKind::Suffixed
    } else {
        NumKind::Other
    }
}

proof fn lemma_all_digits(s: Seq<char>)
    ensures
        leading_digits(s) <= s.len(),
        leading_digits(s) == s.len() <==> all_chars(s, |c: char| is_digit(c)),
    decreases s.len(),
{
    if s.len() > 0 {
        let rest = s.subrange(1, s.len() as int);
        lemma_all_digits(rest);
        if is_digit(s[0]) {
            if all_chars(rest, |c: char| is_digit(c)) {
                assert forall|i: int| 0 <= i < s.len() implies is_digit(#[trigger] s[i]) by {
                    if i > 0 {
                        assert(s[i] == rest[i - 1]);
                    }
                }
            }
            if all_chars(s, |c: char| is_digit(c)) {
                assert forall|i: int| 0 <= i < rest.len() implies is_digit(#[trigger] rest[i]) by {
                    assert(rest[i] == s[i + 1]);
                }
            }
        }
    }
}

/// Says how a house number is shaped.
pub fn classify_number(s: &str) -> (k: NumKind)
    ensures
        k == number_kind(trimmed(s@)),
{
    let all: Vec<char> = chars_of(s);
    let (lo, hi): (usize, usize) = trim_range(&all, 0, all.len());
    let ghost t = trimmed(s@);
    proof {
        assert(all@.subrange(0, all@.len() as int) =~= all@);
        assert(all@.subrange(lo as int, hi as int) == t);
        lemma_all_digits(t);
    }
    if lo == hi {
        return NumKind::Other;
    }
    let n: usize = digit_count(&all, lo, hi);
    if n == hi - lo {
        return NumKind::Plain;
    }
    if separated(&all, lo, hi) {
        return NumKind::Range;
    }
    let (from, to): (usize, usize) = trim_range(&all, lo + n, hi);
    assert(all@.subrange(lo + n, hi as int) =~= t.subrange(n as int, t.len() as int));
    if n > 0 && suffix(&all, from, to) {
        NumKind::Suffixed
    } else {
        NumKind::Other
    }
}

// ── Where a house number stands ─────────────────────────────────────
/// The number that digits spell.
pub open spec fn spelled(s: Seq<char>) -> nat
    decreases s.len(),
{
    if s.len() == 0 {
        0
    } else {
        spelled(s.drop_last()) * 10 + (s.last() as nat - '0' as nat) as nat
    }
}

/// The place of a letter in the alphabet, 1 to 26, upper and lower case alike. A
/// letter of another script counts by its low byte.
pub open spec fn letter_place(c: char) -> nat {
    let low = (c as nat) % 256;
    let lower = if 'A' <= c <= 'Z' {
        low + 32
    } else {
        low
    };
    if lower < 97 {
        1
    } else if lower - 96 > 26 {
        26
    } else {
        (lower - 96) as nat
    }
}

/// The place of a suffix among all suffixes: the single letters in alphabet order,
/// then the pairs, `a` to `z` and then `aa` to `zz`.
pub open spec fn suffix_number(s: Seq<char>) -> nat {
    if s.len() == 0 {
        0
    } else if s.len() == 1 {
        letter_place(s[0])
    } else {
        26 * letter_place(s[0]) + letter_place(s[1])
    }
}

/// The sub-position that a suffix stands for, in hundred-thousandths: as many
/// hundredths as its number, as long as these are less than one. The suffixes behind
/// share the last hundredth.
pub open spec fn suffix_place(s: Seq<char>) -> nat {
    let n = suffix_number(s);
    if n < 100 {
        1000 * n
    } else {
        (99000 + (n - 99)) as nat
    }
}

/// The position of a trimmed house number, in hundred-thousandths: the number, and a
/// fraction for the suffix, in alphabet order. A range has none.
pub open spec fn position(t: Seq<char>) -> Option<nat> {
    let n = leading_digits(t);
    let rest = behind_digits(t);
    if t.len() == 0 || has_separator(t) || n == 0 {
        None
    } else if rest.len() == 0 {
        Some(spelled(t.take(n as int)) * 100000)
    } else if is_suffix(rest) {
        Some(spelled(t.take(n as int)) * 100000 + suffix_place(rest))
    } else {
        None
    }
}

/// The largest position that is told apart.
pub open spec fn capped(p: nat) -> u64 {
    if p <= u64::MAX {
        p as u64
    } else {
        u64::MAX
    }
}

/// The number that digits spell, in hundred-thousandths, at most `u64::MAX`.
fn spelled_out(s: &Vec<char>, from: usize, n: usize) -> (v: u64)
    requires
        from + n <= s@.len(),
        forall|i: int| from <= i < from + n ==> is_digit(#[trigger] s@[i]),
    ensures
        v == capped(spelled(s@.subrange(from as int, from + n)) * 100000),
{
    let total: usize = s.len();
    let mut v: u64 = 0;
    let mut i: usize = 0;
    assert(s@.subrange(from as int, from as int) =~= Seq::<char>::empty());
    while i < n
        invariant
            i <= n,
            from + n <= s@.len(),
            total == s@.len(),
            forall|k: int| from <= k < from + n ==> is_digit(#[trigger] s@[k]),
            v == capped(spelled(s@.subrange(from as int, from + i)) * 100000),
        decreases n - i,
    {
        let c: char = s[from + i];
        assert(is_digit(s@[from + i]));
        let d: u64 = (c as u32 - '0' as u32) as u64;
        proof {
            let next = s@.subrange(from as int, from + i + 1);
            assert(next.drop_last() =~= s@.subrange(from as int, from + i));
            assert(next.last() == c);
        }
        v = if v <= (u64::MAX - d * 100000) / 10 {
            v * 10 + d * 100000
        } else {
            u64::MAX
        };
        i = i + 1;
    }
    v
}

/// The place of a letter in the alphabet.
fn place_of(c: char) -> (p: u64)
    ensures
        p == letter_place(c),
        1 <= p <= 26,
{
    let code: u32 = c as u32;
    let low: u32 = code % 256;
    let lower: u32 = if 65 <= code && code <= 90 {
        low + 32
    } else {
        low
    };
    if lower < 97 {
        1
    } else if lower - 96 > 26 {
        26
    } else {
        (lower - 96) as u64
    }
}

/// The position of a house number along its street, in hundred-thousandths: `12` is
/// 12.0, `12a` is 12.01, `12ab` is 12.28. None for a range and for what is no number; what is too
/// large to be told apart is `u64::MAX`.
pub fn to_decimal(s: &str) -> (p: Option<u64>)
    ensures
        match p {
            Some(v) => position(trimmed(s@)) matches Some(exact) && v == capped(exact),
            None => position(trimmed(s@)) is None,
        },
{
    let all: Vec<char> = chars_of(s);
    let (lo, hi): (usize, usize) = trim_range(&all, 0, all.len());
    let ghost t = trimmed(s@);
    proof {
        assert(all@.subrange(0, all@.len() as int) =~= all@);
        assert(all@.subrange(lo as int, hi as int) == t);
    }
    if lo == hi || separated(&all, lo, hi) {
        return None;
    }
    let n: usize = digit_count(&all, lo, hi);
    if n == 0 {
        return None;
    }
    let whole: u64 = spelled_out(&all, lo, n);
    let (from, to): (usize, usize) = trim_range(&all, lo + n, hi);
    let ghost rest = behind_digits(t);
    proof {
        assert(all@.subrange(lo as int, lo + n) =~= t.take(n as int));
        assert(all@.subrange(lo + n, hi as int) =~= t.subrange(n as int, t.len() as int));
        assert(all@.subrange(from as int, to as int) == rest);
    }
    if from == to {
        return Some(whole);
    }
    if !suffix(&all, from, to) {
        return None;
    }
    let first: u64 = place_of(all[from]);
    assert(rest[0] == all@[from as int]);
    let n: u64 = if to - from == 1 {
        first
    } else {
        assert(rest[1] == all@[from + 1]);
        26 * first + place_of(all[from + 1])
    };
    let v: u64 = if n < 100 {
        1000 * n
    } else {
        99000 + (n - 99)
    };
    assert(v == suffix_place(rest));
    Some(
        if whole <= u64::MAX - v {
            whole + v
        } else {
            u64::MAX
        },
    )
}

/// The position keeps the order that is read off the doors: a number with a suffix,
/// of one letter or of two, stands behind the bare number and before the next one.
pub proof fn law_suffix_stands_between(whole: nat, suffix: Seq<char>)
    requires
        is_suffix(suffix),
    ensures
        whole * 100000 < whole * 100000 + suffix_place(suffix) < (whole + 1) * 100000,
{
}

/// Suffixes stand in the order of their numbers: a single letter before a pair, and
/// among pairs by the first letter, then by the second.
pub proof fn law_suffixes_stand_in_order(a: Seq<char>, b: Seq<char>)
    requires
        is_suffix(a),
        is_suffix(b),
    ensures
        suffix_place(a) < suffix_place(b) <==> suffix_number(a) < suffix_number(b),
        suffix_number(a) < suffix_number(b) <==> {
            ||| a.len() < b.len()
            ||| a.len() == b.len() && letter_place(a[0]) < letter_place(b[0])
            ||| a.len() == 2 && b.len() == 2 && letter_place(a[0]) == letter_place(b[0])
                && letter_place(a[1]) < letter_place(b[1])
        },
{
}

/// Letters stand in alphabet order, and case plays no part.
pub proof fn law_letters_keep_their_order(a: char, b: char)
    requires
        'a' <= a <= 'z',
        'a' <= b <= 'z',
    ensures
        a < b <==> letter_place(a) < letter_place(b),
        letter_place(a) == letter_place(((a as u32) - 32) as char),
{
}

// ── What lies beside a street ───────────────────────────────────────
/// Values of `landuse` that are industry.
pub const INDUSTRY: [&'static str; 5] = ["industrial", "commercial", "retail", "port", "quarry"];

/// Values of `landuse` that are woodland.
pub const WOODLAND: [&'static str; 2] = ["forest", "forestry"];

/// Values of `landuse` that are green.
pub const GREEN: [&'static str; 8] = [
    "meadow",
    "grass",
    "village_green",
    "farmland",
    "orchard",
    "allotments",
    "cemetery",
    "recreation_ground",
];

/// Values of `landuse` that hold water.
pub const STILL_WATER: [&'static str; 2] = ["reservoir", "basin"];

/// Values of `natural` that are woodland.
pub const NATURAL_WOOD: [&'static str; 2] = ["wood", "scrub"];

/// Values of `natural` that are water.
pub const NATURAL_WATER: [&'static str; 2] = ["water", "wetland"];

/// Values of `natural` that are open.
pub const NATURAL_OPEN: [&'static str; 4] = ["heath", "grassland", "sand", "beach"];

/// Values of `leisure` that are green.
pub const LEISURE_GREEN: [&'static str; 6] = [
    "park",
    "garden",
    "nature_reserve",
    "pitch",
    "sports_centre",
    "golf_course",
];

/// What an area is to a street, by its `landuse`.
pub open spec fn landuse_kind(v: Seq<char>) -> Option<Seq<char>> {
    if listed(v, INDUSTRY@) {
        Some("industry"@)
    } else if listed(v, WOODLAND@) {
        Some("wood"@)
    } else if listed(v, GREEN@) {
        Some("green"@)
    } else if v == "railway"@ {
        Some("railway"@)
    } else if listed(v, STILL_WATER@) {
        Some("water"@)
    } else {
        None
    }
}

/// What an area is to a street, by its `natural`.
pub open spec fn natural_kind(v: Seq<char>) -> Option<Seq<char>> {
    if listed(v, NATURAL_WOOD@) {
        Some("wood"@)
    } else if listed(v, NATURAL_WATER@) {
        Some("water"@)
    } else if listed(v, NATURAL_OPEN@) {
        Some("green"@)
    } else {
        None
    }
}

/// What an area is to a street: by its land use, else its nature, else its
/// leisure; else whether it is a railway, an airfield, a works or a school.
pub open spec fn kind_of_area(tags: Seq<(Seq<char>, Seq<char>)>) -> Option<Seq<char>> {
    match value_of(tags, "landuse"@) {
        Some(v) => landuse_kind(v),
        None => match value_of(tags, "natural"@) {
            Some(v) => natural_kind(v),
            None => match value_of(tags, "leisure"@) {
                Some(v) => if listed(v, LEISURE_GREEN@) {
                    Some("green"@)
                } else {
                    None
                },
                None => if value_of(tags, "railway"@) is Some || value_of(
                    tags,
                    "aeroway"@,
                ) is Some {
                    Some("railway"@)
                } else if value_of(tags, "man_made"@) == Some("works"@) || value_of(
                    tags,
                    "amenity"@,
                ) == Some("school"@) {
                    Some("industry"@)
                } else {
                    None
                },
            },
        },
    }
}

/// Whether a tag has a value.
fn tag_is(tags: &[(&str, &str)], key: &str, value: &str) -> (r: bool)
    ensures
        r == (value_of(pairs(tags@), key@) == Some(value@)),
{
    match tag(tags, key) {
        Some(v) => same_text(v, value),
        None => false,
    }
}

/// Says what an area is to the street it lies on.
pub fn areal_kind(tags: &[(&str, &str)]) -> (k: Option<&'static str>)
    ensures
        match k {
            Some(name) => kind_of_area(pairs(tags@)) == Some(name@),
            None => kind_of_area(pairs(tags@)) is None,
        },
{
    if let Some(v) = tag(tags, "landuse") {
        if one_of(v, INDUSTRY.as_slice()) {
            return Some("industry");
        } else if one_of(v, WOODLAND.as_slice()) {
            return Some("wood");
        } else if one_of(v, GREEN.as_slice()) {
            return Some("green");
        } else if same_text(v, "railway") {
            return Some("railway");
        } else if one_of(v, STILL_WATER.as_slice()) {
            return Some("water");
        }
        return None;
    }
    if let Some(v) = tag(tags, "natural") {
        if one_of(v, NATURAL_WOOD.as_slice()) {
            return Some("wood");
        } else if one_of(v, NATURAL_WATER.as_slice()) {
            return Some("water");
        } else if one_of(v, NATURAL_OPEN.as_slice()) {
            return Some("green");
        }
        return None;
    }
    if let Some(v) = tag(tags, "leisure") {
        if one_of(v, LEISURE_GREEN.as_slice()) {
            return Some("green");
        }
        return None;
    }
    if tag(tags, "railway").is_some() || tag(tags, "aeroway").is_some() {
        return Some("railway");
    }
    if tag_is(tags, "man_made", "works") || tag_is(tags, "amenity", "school") {
        return Some("industry");
    }
    None
}

// ── Whether a street follows a pattern ──────────────────────────────
/// Fewest addresses on one side before their order means anything: two are in
/// order both ways.
pub const MIN_SIDE: usize = 3;

/// Tenths of the steps that must go one way before a side counts as ordered.
pub const MONOTONE_TENTHS: u64 = 9;

/// The verdict on one side of a street.
#[derive(Debug, Clone, Copy, PartialEq, Eq, Structural)]
pub enum Side {
    Up,
    Down,
    Irregular,
    TooFew,
}

/// An address on a side: where it stands along the street, in what order it was
/// read, and its number.
#[derive(Debug, Clone, Copy, PartialEq, Eq, Structural)]
pub struct Door {
    pub along: i64,
    pub read: usize,
    pub number: u64,
}

impl Ranked for Door {
    open spec fn ranks_before(&self, other: &Self) -> bool {
        self.along < other.along || (self.along == other.along && self.read <= other.read)
    }

    proof fn lemma_total(a: &Self, b: &Self) {
    }

    proof fn lemma_transitive(a: &Self, b: &Self, c: &Self) {
    }

    fn before(&self, other: &Self) -> (r: bool) {
        self.along < other.along || (self.along == other.along && self.read <= other.read)
    }
}

/// How many steps along a side do not go down.
pub open spec fn rises(s: Seq<Door>) -> nat
    decreases s.len(),
{
    if s.len() < 2 {
        0
    } else {
        rises(s.drop_last()) + if s.last().number >= s[s.len() - 2].number {
            1nat
        } else {
            0
        }
    }
}

/// How many steps along a side do not go up.
pub open spec fn falls(s: Seq<Door>) -> nat
    decreases s.len(),
{
    if s.len() < 2 {
        0
    } else {
        falls(s.drop_last()) + if s.last().number <= s[s.len() - 2].number {
            1nat
        } else {
            0
        }
    }
}

/// The verdict on a side, its doors in order along the street.
pub open spec fn verdict(s: Seq<Door>) -> Side {
    if s.len() < MIN_SIDE {
        Side::TooFew
    } else if 10 * rises(s) >= MONOTONE_TENTHS * (s.len() - 1) && rises(s) >= falls(s) {
        Side::Up
    } else if 10 * falls(s) >= MONOTONE_TENTHS * (s.len() - 1) {
        Side::Down
    } else {
        Side::Irregular
    }
}

/// Judges a side: sorts its doors along the street and says whether their numbers
/// go one way, with one step in ten to spare.
pub fn side_verdict(doors: Vec<Door>) -> (v: Side)
    requires
        doors@.len() <= 0xffff_ffff_ffff_fff,
    ensures
        exists|sorted: Seq<Door>|
            #![trigger in_order(sorted)]
            in_order(sorted) && sorted.to_multiset() == doors@.to_multiset() && v == verdict(
                sorted,
            ),
{
    let s: Vec<Door> = sort(doors);
    assert(in_order(s@));
    judge(&s)
}

/// Judges a side whose doors are in order.
fn judge(s: &Vec<Door>) -> (v: Side)
    requires
        s@.len() <= 0xffff_ffff_ffff_fff,
    ensures
        v == verdict(s@),
{
    let n: usize = s.len();
    let mut up: u64 = 0;
    let mut down: u64 = 0;
    let mut i: usize = 0;
    while i < n
        invariant
            i <= n <= 0xffff_ffff_ffff_fff,
            n == s@.len(),
            up == rises(s@.take(i as int)),
            down == falls(s@.take(i as int)),
            up <= i,
            down <= i,
        decreases n - i,
    {
        let ghost next = s@.take(i + 1);
        assert(next.drop_last() =~= s@.take(i as int));
        assert(next.last() == s@[i as int]);
        if i > 0 {
            assert(next[next.len() - 2] == s@[i - 1]);
            if s[i].number >= s[i - 1].number {
                up = up + 1;
            }
            if s[i].number <= s[i - 1].number {
                down = down + 1;
            }
        }
        i = i + 1;
    }
    assert(s@.take(n as int) =~= s@);
    if n < MIN_SIDE {
        return Side::TooFew;
    }
    let steps: u64 = (n - 1) as u64;
    if 10 * up >= MONOTONE_TENTHS * steps && up >= down {
        Side::Up
    } else if 10 * down >= MONOTONE_TENTHS * steps {
        Side::Down
    } else {
        Side::Irregular
    }
}

/// The verdict on a street.
#[derive(Debug, Clone, Copy, PartialEq, Eq, Structural, Hash)]
pub enum Pattern {
    /// Both sides go the same way.
    Parallel,
    /// Up one side and back the other.
    Horseshoe,
    /// One side is ordered, the other has too few addresses to judge. That is a
    /// pattern with one side, not a failure.
    OneSided,
    /// One side is ordered, the other is not.
    HalfIrregular,
    Irregular,
    TooFew,
}

/// Whether a side is ordered.
pub open spec fn is_ordered(s: Side) -> bool {
    s == Side::Up || s == Side::Down
}

/// The verdict on a street, from those on its sides.
pub open spec fn pattern_of(left: Side, right: Side) -> Pattern {
    if is_ordered(left) && is_ordered(right) {
        if left == right {
            Pattern::Parallel
        } else {
            Pattern::Horseshoe
        }
    } else if is_ordered(left) || is_ordered(right) {
        if left == Side::TooFew || right == Side::TooFew {
            Pattern::OneSided
        } else {
            Pattern::HalfIrregular
        }
    } else if left == Side::TooFew && right == Side::TooFew {
        Pattern::TooFew
    } else {
        Pattern::Irregular
    }
}

/// Judges a street.
pub fn street_pattern(left: Side, right: Side) -> (p: Pattern)
    ensures
        p == pattern_of(left, right),
{
    match (left, right) {
        (Side::Up, Side::Up) => Pattern::Parallel,
        (Side::Down, Side::Down) => Pattern::Parallel,
        (Side::Up, Side::Down) => Pattern::Horseshoe,
        (Side::Down, Side::Up) => Pattern::Horseshoe,
        (Side::Up, Side::TooFew) => Pattern::OneSided,
        (Side::Down, Side::TooFew) => Pattern::OneSided,
        (Side::TooFew, Side::Up) => Pattern::OneSided,
        (Side::TooFew, Side::Down) => Pattern::OneSided,
        (Side::Up, Side::Irregular) => Pattern::HalfIrregular,
        (Side::Down, Side::Irregular) => Pattern::HalfIrregular,
        (Side::Irregular, Side::Up) => Pattern::HalfIrregular,
        (Side::Irregular, Side::Down) => Pattern::HalfIrregular,
        (Side::TooFew, Side::TooFew) => Pattern::TooFew,
        _ => Pattern::Irregular,
    }
}

/// Left and right play no part in the verdict.
pub proof fn law_sides_are_symmetric(left: Side, right: Side)
    ensures
        pattern_of(left, right) == pattern_of(right, left),
{
}

/// A side of one or two addresses is never evidence.
pub proof fn law_two_doors_are_no_evidence(s: Seq<Door>)
    requires
        s.len() < MIN_SIDE,
    ensures
        verdict(s) == Side::TooFew,
{
}

/// How many addresses have an even number.
pub open spec fn evens(s: Seq<u64>) -> nat
    decreases s.len(),
{
    if s.len() == 0 {
        0
    } else {
        evens(s.drop_last()) + if (s.last() / 100000) % 2 == 0 {
            1nat
        } else {
            0
        }
    }
}

/// Whether nine in ten addresses are even.
pub open spec fn mostly_even(s: Seq<u64>) -> bool {
    10 * evens(s) >= 9 * s.len()
}

/// Whether nine in ten addresses are odd.
pub open spec fn mostly_odd(s: Seq<u64>) -> bool {
    10 * evens(s) <= s.len()
}

/// Whether one side of a street is even and the other odd.
pub open spec fn splits_parity(left: Seq<u64>, right: Seq<u64>) -> bool {
    &&& mostly_even(left) || mostly_odd(left)
    &&& mostly_even(right) || mostly_odd(right)
    &&& mostly_even(left) != mostly_even(right)
}

fn count_even(s: &[u64]) -> (n: u64)
    ensures
        n == evens(s@),
        n <= s@.len(),
{
    let mut n: u64 = 0;
    let mut i: usize = 0;
    assert(s@.take(0) =~= Seq::<u64>::empty());
    while i < s.len()
        invariant
            i <= s@.len(),
            n == evens(s@.take(i as int)),
            n <= i,
        decreases s@.len() - i,
    {
        proof {
            assert(s@.take(i + 1).drop_last() =~= s@.take(i as int));
            assert(s@.take(i + 1).last() == s@[i as int]);
        }
        if (s[i] / 100000) % 2 == 0 {
            n = n + 1;
        }
        i = i + 1;
    }
    assert(s@.take(s@.len() as int) =~= s@);
    n
}

/// Whether one side of a street is even and the other odd, from the positions of
/// the addresses in hundred-thousandths.
pub fn parity_split(left: &[u64], right: &[u64]) -> (r: bool)
    requires
        left@.len() <= 0xffff_ffff_ffff_fff,
        right@.len() <= 0xffff_ffff_ffff_fff,
    ensures
        r == splits_parity(left@, right@),
{
    let (el, er): (u64, u64) = (count_even(left), count_even(right));
    let (nl, nr): (u64, u64) = (left.len() as u64, right.len() as u64);
    let (even_l, even_r): (bool, bool) = (10 * el >= 9 * nl, 10 * er >= 9 * nr);
    let (odd_l, odd_r): (bool, bool) = (10 * el <= nl, 10 * er <= nr);
    (even_l || odd_l) && (even_r || odd_r) && even_l != even_r
}

// ── Laws of streets ─────────────────────────────────────────────────
/// A side seen from the other end of the street.
pub open spec fn turned(s: Side) -> Side {
    match s {
        Side::Up => Side::Down,
        Side::Down => Side::Up,
        other => other,
    }
}

/// A street keeps its pattern when it is turned round: nothing depends on the end that
/// its way is drawn from.
pub proof fn law_direction_does_not_matter(left: Side, right: Side)
    ensures
        pattern_of(turned(left), turned(right)) == pattern_of(left, right),
{
}

/// Two ordered sides are parallel exactly where they go the same way, up or down, and
/// a horseshoe exactly where they go opposite ways; a street with a side that is not
/// ordered is neither.
pub proof fn law_parallel_goes_one_way(left: Side, right: Side)
    ensures
        pattern_of(left, right) == Pattern::Parallel <==> left == right && left
            != Side::Irregular && left != Side::TooFew,
        pattern_of(left, right) == Pattern::Horseshoe <==> left == turned(right) && left != right,
{
}

/// A street is judged one-sided or half irregular exactly where one of its sides is
/// ordered and the other has too few doors, or has enough and no order; where neither
/// is ordered it is irregular, or has too few doors on both sides.
pub proof fn law_unordered_sides(side: Side, other: Side)
    requires
        other == Side::TooFew || other == Side::Irregular,
    ensures
        side == Side::Up || side == Side::Down ==> pattern_of(side, other) == if other
            == Side::TooFew {
            Pattern::OneSided
        } else {
            Pattern::HalfIrregular
        },
        side == Side::TooFew && other == Side::TooFew ==> pattern_of(side, other)
            == Pattern::TooFew,
        side == Side::Irregular ==> pattern_of(side, other) == Pattern::Irregular,
        side == Side::TooFew && other == Side::Irregular ==> pattern_of(side, other)
            == Pattern::Irregular,
{
}

/// The steps of a side that do not go down, and those that do not go up, are those
/// between neighbours.
pub proof fn law_steps_are_between_neighbours(s: Seq<Door>)
    requires
        s.len() > 0,
    ensures
        rises(s) == Seq::new(
            (s.len() - 1) as nat,
            |i: int| s[i].number <= s[i + 1].number,
        ).filter(|up: bool| up).len(),
        falls(s) == Seq::new(
            (s.len() - 1) as nat,
            |i: int| s[i].number >= s[i + 1].number,
        ).filter(|down: bool| down).len(),
    decreases s.len(),
{
    reveal(Seq::filter);
    let p = |b: bool| b;
    let up = Seq::new((s.len() - 1) as nat, |i: int| s[i].number <= s[i + 1].number);
    let down = Seq::new((s.len() - 1) as nat, |i: int| s[i].number >= s[i + 1].number);
    if s.len() > 1 {
        let t = s.drop_last();
        law_steps_are_between_neighbours(t);
        let up2 = Seq::new((t.len() - 1) as nat, |i: int| t[i].number <= t[i + 1].number);
        let down2 = Seq::new((t.len() - 1) as nat, |i: int| t[i].number >= t[i + 1].number);
        assert(up.drop_last() =~= up2);
        assert(down.drop_last() =~= down2);
    }
}

/// Doors whose numbers never go down make a side that goes up, and those whose numbers
/// always go down make one that goes down; three doors are enough.
pub proof fn law_ordered_doors_are_an_ordered_side(s: Seq<Door>)
    requires
        s.len() >= 3,
    ensures
        (forall|i: int| 0 <= i < s.len() - 1 ==> (#[trigger] s[i]).number <= s[i + 1].number)
            ==> verdict(s) == Side::Up,
        (forall|i: int| 0 <= i < s.len() - 1 ==> (#[trigger] s[i]).number > s[i + 1].number)
            ==> verdict(s) == Side::Down,
{
    if forall|i: int| 0 <= i < s.len() - 1 ==> (#[trigger] s[i]).number <= s[i + 1].number {
        lemma_all_rise(s);
        lemma_steps_bound(s);
    }
    if forall|i: int| 0 <= i < s.len() - 1 ==> (#[trigger] s[i]).number > s[i + 1].number {
        lemma_all_fall(s);
    }
}

proof fn lemma_steps_bound(s: Seq<Door>)
    ensures
        s.len() > 0 ==> rises(s) <= s.len() - 1 && falls(s) <= s.len() - 1,
        s.len() > 0 ==> rises(s) + falls(s) >= s.len() - 1,
    decreases s.len(),
{
    if s.len() > 1 {
        lemma_steps_bound(s.drop_last());
    }
}

proof fn lemma_all_rise(s: Seq<Door>)
    requires
        s.len() > 0,
        forall|i: int| 0 <= i < s.len() - 1 ==> (#[trigger] s[i]).number <= s[i + 1].number,
    ensures
        rises(s) == s.len() - 1,
    decreases s.len(),
{
    if s.len() > 1 {
        let t = s.drop_last();
        assert forall|i: int| 0 <= i < t.len() - 1 implies (#[trigger] t[i]).number <= t[i
            + 1].number by {
            assert(s[i].number <= s[i + 1].number);
        }
        lemma_all_rise(t);
        assert(s[s.len() - 2].number <= s[s.len() - 2 + 1].number);
    }
}

proof fn lemma_all_fall(s: Seq<Door>)
    requires
        s.len() > 0,
        forall|i: int| 0 <= i < s.len() - 1 ==> (#[trigger] s[i]).number > s[i + 1].number,
    ensures
        falls(s) == s.len() - 1,
        rises(s) == 0,
    decreases s.len(),
{
    if s.len() > 1 {
        let t = s.drop_last();
        assert forall|i: int| 0 <= i < t.len() - 1 implies (#[trigger] t[i]).number > t[i
            + 1].number by {
            assert(s[i].number > s[i + 1].number);
        }
        lemma_all_fall(t);
        assert(s[s.len() - 2].number > s[s.len() - 2 + 1].number);
    }
}

/// An ordered side has at most one step in ten that goes the other way, and one with
/// more in both directions is irregular.
pub proof fn law_one_step_in_ten_may_stray(s: Seq<Door>)
    requires
        s.len() >= 3,
    ensures
        verdict(s) == Side::Up ==> 10 * (s.len() - 1 - rises(s)) <= s.len() - 1,
        verdict(s) == Side::Down ==> 10 * (s.len() - 1 - falls(s)) <= s.len() - 1,
        verdict(s) == Side::Irregular <==> 10 * (s.len() - 1 - rises(s)) > s.len() - 1 && 10 * (
        s.len() - 1 - falls(s)) > s.len() - 1,
        verdict(s) != Side::TooFew,
{
    lemma_steps_bound(s);
}

/// Both sides of a street split by parity exactly where nine in ten doors of one are
/// even and nine in ten of the other are odd; it does not matter which is which.
pub proof fn law_parity_is_symmetric(left: Seq<u64>, right: Seq<u64>)
    ensures
        splits_parity(left, right) == splits_parity(right, left),
        evens(left) == left.filter(|p: u64| (p / 100_000) % 2 == 0).len(),
{
    lemma_evens(left);
}

proof fn lemma_evens(s: Seq<u64>)
    ensures
        evens(s) == s.filter(|p: u64| (p / 100_000) % 2 == 0).len(),
    decreases s.len(),
{
    reveal(Seq::filter);
    if s.len() > 0 {
        lemma_evens(s.drop_last());
    }
}

/// Sides without an odd door and without an even door split by parity, and two sides of
/// one parity do not.
pub proof fn law_pure_sides_split(left: Seq<u64>, right: Seq<u64>)
    requires
        left.len() > 0,
        right.len() > 0,
        forall|i: int| 0 <= i < left.len() ==> (#[trigger] left[i] / 100_000) % 2 == 0,
    ensures
        (forall|i: int| 0 <= i < right.len() ==> (#[trigger] right[i] / 100_000) % 2 == 1)
            ==> splits_parity(left, right),
        (forall|i: int| 0 <= i < right.len() ==> (#[trigger] right[i] / 100_000) % 2 == 0)
            ==> !splits_parity(left, right),
{
    lemma_all_even(left);
    if forall|i: int| 0 <= i < right.len() ==> (#[trigger] right[i] / 100_000) % 2 == 1 {
        lemma_none_even(right);
    }
    if forall|i: int| 0 <= i < right.len() ==> (#[trigger] right[i] / 100_000) % 2 == 0 {
        lemma_all_even(right);
    }
}

proof fn lemma_all_even(s: Seq<u64>)
    requires
        forall|i: int| 0 <= i < s.len() ==> (#[trigger] s[i] / 100_000) % 2 == 0,
    ensures
        evens(s) == s.len(),
    decreases s.len(),
{
    if s.len() > 0 {
        assert((s[s.len() - 1] / 100_000) % 2 == 0);
        lemma_all_even(s.drop_last());
    }
}

proof fn lemma_none_even(s: Seq<u64>)
    requires
        forall|i: int| 0 <= i < s.len() ==> (#[trigger] s[i] / 100_000) % 2 == 1,
    ensures
        evens(s) == 0,
    decreases s.len(),
{
    if s.len() > 0 {
        assert((s[s.len() - 1] / 100_000) % 2 == 1);
        lemma_none_even(s.drop_last());
    }
}

// ── Laws of house numbers ───────────────────────────────────────────
proof fn lemma_trim_front(front: Seq<char>, rest: Seq<char>)
    requires
        forall|i: int| 0 <= i < front.len() ==> white(#[trigger] front[i]),
        rest.len() > 0 ==> !white(rest[0]),
    ensures
        trimmed_start(front + rest) == rest,
    decreases front.len(),
{
    let all = front + rest;
    if front.len() == 0 {
        assert(all =~= rest);
    } else {
        assert(white(front[0]));
        let f = front.subrange(1, front.len() as int);
        assert forall|i: int| 0 <= i < f.len() implies white(#[trigger] f[i]) by {
            assert(white(front[i + 1]));
        }
        assert(all.subrange(1, all.len() as int) =~= f + rest);
        lemma_trim_front(f, rest);
    }
}

proof fn lemma_trim_back(rest: Seq<char>, back: Seq<char>)
    requires
        forall|i: int| 0 <= i < back.len() ==> white(#[trigger] back[i]),
        rest.len() > 0 ==> !white(rest.last()),
    ensures
        trimmed_end(rest + back) == rest,
    decreases back.len(),
{
    let all = rest + back;
    if back.len() == 0 {
        assert(all =~= rest);
    } else {
        assert(white(back[back.len() - 1]));
        let b = back.drop_last();
        assert forall|i: int| 0 <= i < b.len() implies white(#[trigger] b[i]) by {
            assert(white(back[i]));
        }
        assert(all.drop_last() =~= rest + b);
        lemma_trim_back(rest, b);
    }
}

/// White space around a house number plays no part, and what it encloses is left as
/// it is.
pub proof fn law_white_space_around_is_cut(front: Seq<char>, t: Seq<char>, back: Seq<char>)
    requires
        forall|i: int| 0 <= i < front.len() ==> white(#[trigger] front[i]),
        forall|i: int| 0 <= i < back.len() ==> white(#[trigger] back[i]),
        t.len() > 0,
        !white(t[0]),
        !white(t.last()),
    ensures
        trimmed(front + t + back) == t,
{
    assert(front + t + back =~= front + (t + back));
    lemma_trim_front(front, t + back);
    lemma_trim_back(t, back);
}

proof fn lemma_digits_lead(digits: Seq<char>, rest: Seq<char>)
    requires
        forall|i: int| 0 <= i < digits.len() ==> '0' <= #[trigger] digits[i] <= '9',
        rest.len() > 0 ==> !('0' <= rest[0] <= '9'),
    ensures
        leading_digits(digits + rest) == digits.len(),
    decreases digits.len(),
{
    let all = digits + rest;
    if digits.len() > 0 {
        assert('0' <= digits[0] <= '9');
        let d = digits.subrange(1, digits.len() as int);
        assert forall|i: int| 0 <= i < d.len() implies '0' <= #[trigger] d[i] <= '9' by {
            assert('0' <= digits[i + 1] <= '9');
        }
        assert(all.subrange(1, all.len() as int) =~= d + rest);
        lemma_digits_lead(d, rest);
    } else {
        assert(all =~= rest);
    }
}

proof fn lemma_spelled_decimal(n: nat)
    ensures
        spelled(decimal(n)) == n,
        decimal(n).len() > 0,
        forall|i: int| 0 <= i < decimal(n).len() ==> '0' <= #[trigger] decimal(n)[i] <= '9',
    decreases n,
{
    if n < 10 {
        let s = seq![digit(n as int)];
        assert(decimal(n) =~= s);
        assert(s.drop_last() =~= Seq::<char>::empty());
        reveal_with_fuel(spelled, 2);
    } else {
        lemma_spelled_decimal(n / 10);
        assert(decimal(n).drop_last() =~= decimal(n / 10));
        assert forall|i: int| 0 <= i < decimal(n).len() implies '0' <= #[trigger] decimal(n)[i]
            <= '9' by {
            if i < decimal(n).len() - 1 {
                assert(decimal(n)[i] == decimal(n / 10)[i]);
            }
        }
    }
}

/// A numeral is a plain house number, and stands at its number.
pub proof fn law_plain_numbers_stand_at_their_number(n: nat)
    ensures
        number_kind(decimal(n)) == NumKind::Plain,
        position(decimal(n)) == Some(n * 100_000),
{
    let t = decimal(n);
    lemma_spelled_decimal(n);
    lemma_digits_lead(t, Seq::empty());
    assert(t + Seq::<char>::empty() =~= t);
    assert(t.take(t.len() as int) =~= t);
    assert(t.subrange(t.len() as int, t.len() as int) =~= Seq::<char>::empty());
    assert(trimmed(Seq::<char>::empty()) =~= Seq::<char>::empty());
}

/// A numeral with one or two Latin letters behind it, with or without a space between,
/// is a suffixed house number. It stands behind its number and before the next one, by
/// as many hundredths as the letter's place in the alphabet where it is one.
pub proof fn law_suffixed_numbers_stand_behind_their_number(
    n: nat,
    space: Seq<char>,
    suffix: Seq<char>,
)
    requires
        0 < suffix.len() <= 2,
        forall|i: int|
            0 <= i < suffix.len() ==> 'a' <= #[trigger] suffix[i] <= 'z' || 'A' <= suffix[i] <= 'Z',
        forall|i: int| 0 <= i < space.len() ==> #[trigger] space[i] == ' ',
    ensures
        number_kind(decimal(n) + space + suffix) == NumKind::Suffixed,
        position(decimal(n) + space + suffix) matches Some(p) && n * 100_000 < p < (n + 1)
            * 100_000,
        suffix.len() == 1 && 'a' <= suffix[0] <= 'z' ==> position(decimal(n) + space + suffix)
            == Some((n * 100_000 + 1000 * (suffix[0] as nat - 96)) as nat),
        suffix.len() == 1 && 'A' <= suffix[0] <= 'Z' ==> position(decimal(n) + space + suffix)
            == Some((n * 100_000 + 1000 * (suffix[0] as nat - 64)) as nat),
{
    let d = decimal(n);
    let rest = space + suffix;
    let t = d + space + suffix;
    lemma_spelled_decimal(n);
    assert(t =~= d + rest);
    assert(rest.len() > 0);
    assert(rest[0] == ' ' || rest[0] == suffix[0]) by {
        if space.len() > 0 {
            assert(space[0] == ' ');
        }
    }
    assert('a' <= suffix[0] <= 'z' || 'A' <= suffix[0] <= 'Z');
    lemma_digits_lead(d, rest);
    assert(t.take(d.len() as int) =~= d);
    assert(t.subrange(d.len() as int, t.len() as int) =~= rest);
    assert forall|i: int| 0 <= i < space.len() implies white(#[trigger] space[i]) by {
        assert(space[i] == ' ');
    }
    let last = suffix[suffix.len() - 1];
    assert('a' <= last <= 'z' || 'A' <= last <= 'Z');
    law_white_space_around_is_cut(space, suffix, Seq::empty());
    assert(space + suffix + Seq::<char>::empty() =~= rest);
    assert(behind_digits(t) == suffix);
    assert(is_suffix(suffix)) by {
        assert forall|i: int| 0 <= i < suffix.len() implies letter(#[trigger] suffix[i]) by {
            assert('a' <= suffix[i] <= 'z' || 'A' <= suffix[i] <= 'Z');
        }
    }
    assert(!has_separator(t)) by {
        assert forall|i: int| 0 <= i < t.len() implies !is_separator(#[trigger] t[i]) by {
            if i < d.len() {
                assert('0' <= d[i] <= '9');
            } else if i < d.len() + space.len() {
                assert(space[i - d.len()] == ' ');
            } else {
                let c = suffix[i - d.len() - space.len()];
                assert('a' <= c <= 'z' || 'A' <= c <= 'Z');
            }
        }
    }
    let k = t.len() - 1;
    assert(t[k] == last);
    assert(!all_chars(t, |c: char| is_digit(c))) by {
        let p = |c: char| is_digit(c);
        assert(!p(t[k]));
    }
    law_suffix_stands_between(n, suffix);
}

/// Several numbers have no one position: a text with a hyphen, a slash, a comma or a
/// semicolon in it is a range and stands nowhere.
pub proof fn law_ranges_have_no_position(t: Seq<char>, at: int)
    requires
        0 <= at < t.len(),
        t[at] == '-' || t[at] == '/' || t[at] == ',' || t[at] == ';',
    ensures
        number_kind(t) == NumKind::Range,
        position(t) is None,
{
    assert(is_separator(t[at]));
    assert(!all_chars(t, |c: char| is_digit(c))) by {
        let p = |c: char| is_digit(c);
        assert(!p(t[at]));
    }
}

/// What does not begin with a digit is no house number, and neither is nothing.
pub proof fn law_numbers_begin_with_a_digit(t: Seq<char>)
    requires
        t.len() == 0 || !('0' <= t[0] <= '9'),
    ensures
        position(t) is None,
        number_kind(t) == NumKind::Range || number_kind(t) == NumKind::Other,
{
    if t.len() > 0 {
        assert(!all_chars(t, |c: char| is_digit(c))) by {
            let p = |c: char| is_digit(c);
            assert(!p(t[0]));
        }
    }
}

/// What has a position is a plain or a suffixed number, and each of these has one.
pub proof fn law_positions_are_of_numbers(t: Seq<char>)
    requires
        t.len() > 0,
        !white(t.last()),
    ensures
        position(t) is Some <==> number_kind(t) == NumKind::Plain || number_kind(t)
            == NumKind::Suffixed,
{
    let n = leading_digits(t) as int;
    lemma_leading(t);
    let rest = t.subrange(n, t.len() as int);
    if n == t.len() {
        assert(rest =~= Seq::<char>::empty());
        assert(trimmed(rest) =~= Seq::<char>::empty());
        let p = |c: char| is_digit(c);
        assert(all_chars(t, p));
        assert(!has_separator(t)) by {
            assert forall|i: int| 0 <= i < t.len() implies !is_separator(#[trigger] t[i]) by {
                assert(p(t[i]));
            }
        }
    } else {
        assert(!is_digit(t[n]));
        assert(!all_chars(t, |c: char| is_digit(c))) by {
            let p = |c: char| is_digit(c);
            assert(!p(t[n]));
        }
        assert(rest.last() == t.last());
        lemma_trim_keeps_end(rest);
    }
}

proof fn lemma_leading(t: Seq<char>)
    ensures
        leading_digits(t) <= t.len(),
        forall|i: int| 0 <= i < leading_digits(t) ==> is_digit(#[trigger] t[i]),
        leading_digits(t) < t.len() ==> !is_digit(t[leading_digits(t) as int]),
    decreases t.len(),
{
    if t.len() > 0 && is_digit(t[0]) {
        let r = t.subrange(1, t.len() as int);
        lemma_leading(r);
        assert forall|i: int| 0 <= i < leading_digits(t) implies is_digit(#[trigger] t[i]) by {
            if i > 0 {
                assert(r[i - 1] == t[i]);
            }
        }
    }
}

proof fn lemma_trim_keeps_end(t: Seq<char>)
    requires
        t.len() > 0,
        !white(t.last()),
    ensures
        trimmed(t).len() > 0,
    decreases t.len(),
{
    if white(t[0]) {
        let r = t.subrange(1, t.len() as int);
        assert(r.len() > 0) by {
            if t.len() == 1 {
                assert(t[0] == t.last());
            }
        }
        assert(r.last() == t.last());
        lemma_trim_keeps_end(r);
    }
}

// ── Laws of what lies beside a street ───────────────────────────────
/// Land use comes first, and what it says is final: industry, woodland, green, a
/// railway or still water by its value, and for every other value nothing.
pub proof fn law_land_use_decides(tags: Seq<(Seq<char>, Seq<char>)>, at: int)
    requires
        0 <= at < tags.len(),
        tags[at].0 == "landuse"@,
        forall|i: int| 0 <= i < at ==> (#[trigger] tags[i]).0 != "landuse"@,
    ensures
        ({
            let (v, k) = (tags[at].1, kind_of_area(tags));
            &&& k == Some("industry"@) <==> v == "industrial"@ || v == "commercial"@ || v
                == "retail"@ || v == "port"@ || v == "quarry"@
            &&& k == Some("wood"@) <==> v == "forest"@ || v == "forestry"@
            &&& k == Some("green"@) <==> v == "meadow"@ || v == "grass"@ || v == "village_green"@
                || v == "farmland"@ || v == "orchard"@ || v == "allotments"@ || v == "cemetery"@
                || v == "recreation_ground"@
            &&& k == Some("railway"@) <==> v == "railway"@
            &&& k == Some("water"@) <==> v == "reservoir"@ || v == "basin"@
        }),
{
    crate::text::law_first_tag_counts(tags, "landuse"@, at);
    let v = tags[at].1;
    lemma_area_names();
    lemma_landuse_lists(v);
}

proof fn lemma_area_names()
    ensures
        "industry"@.len() == 8 && "wood"@.len() == 4 && "green"@.len() == 5 && "railway"@.len() == 7
            && "water"@.len() == 5,
        "green"@[0] == 'g' && "water"@[0] == 'w',
{
    reveal_strlit("industry");
    reveal_strlit("wood");
    reveal_strlit("green");
    reveal_strlit("railway");
    reveal_strlit("water");
}

/// No value stands in two lists of land uses.
proof fn lemma_landuse_lists(v: Seq<char>)
    ensures
        listed(v, INDUSTRY@) <==> v == "industrial"@ || v == "commercial"@ || v == "retail"@ || v
            == "port"@ || v == "quarry"@,
        listed(v, WOODLAND@) <==> v == "forest"@ || v == "forestry"@,
        listed(v, GREEN@) <==> v == "meadow"@ || v == "grass"@ || v == "village_green"@ || v
            == "farmland"@ || v == "orchard"@ || v == "allotments"@ || v == "cemetery"@ || v
            == "recreation_ground"@,
        listed(v, STILL_WATER@) <==> v == "reservoir"@ || v == "basin"@,
        listed(v, WOODLAND@) ==> !listed(v, INDUSTRY@),
        listed(v, GREEN@) ==> !listed(v, INDUSTRY@) && !listed(v, WOODLAND@),
        v == "railway"@ ==> !listed(v, INDUSTRY@) && !listed(v, WOODLAND@) && !listed(v, GREEN@),
        listed(v, STILL_WATER@) ==> !listed(v, INDUSTRY@) && !listed(v, WOODLAND@) && !listed(
            v,
            GREEN@,
        ) && v != "railway"@,
{
    let (a, b, c, d) = (INDUSTRY@, WOODLAND@, GREEN@, STILL_WATER@);
    assert(a[0]@ == "industrial"@ && a[1]@ == "commercial"@ && a[2]@ == "retail"@ && a[3]@
        == "port"@ && a[4]@ == "quarry"@);
    assert(b[0]@ == "forest"@ && b[1]@ == "forestry"@);
    assert(c[0]@ == "meadow"@ && c[1]@ == "grass"@ && c[2]@ == "village_green"@ && c[3]@
        == "farmland"@);
    assert(c[4]@ == "orchard"@ && c[5]@ == "allotments"@ && c[6]@ == "cemetery"@ && c[7]@
        == "recreation_ground"@);
    assert(d[0]@ == "reservoir"@ && d[1]@ == "basin"@);
    reveal_strlit("industrial");
    reveal_strlit("commercial");
    reveal_strlit("retail");
    reveal_strlit("port");
    reveal_strlit("quarry");
    reveal_strlit("forest");
    reveal_strlit("forestry");
    reveal_strlit("meadow");
    reveal_strlit("grass");
    reveal_strlit("village_green");
    reveal_strlit("farmland");
    reveal_strlit("orchard");
    reveal_strlit("allotments");
    reveal_strlit("cemetery");
    reveal_strlit("recreation_ground");
    reveal_strlit("railway");
    reveal_strlit("reservoir");
    reveal_strlit("basin");
    assert("industrial"@[0] == 'i' && "commercial"@[0] == 'c' && "retail"@[0] == 'r'
        && "port"@[0] == 'p' && "quarry"@[0] == 'q');
    assert("commercial"@[1] == 'o' && "retail"@[2] == 't');
    assert("forest"@[0] == 'f' && "forestry"@[0] == 'f' && "forest"@[1] == 'o' && "forestry"@[1]
        == 'o');
    assert("meadow"@[0] == 'm' && "grass"@[0] == 'g' && "village_green"@[0] == 'v'
        && "farmland"@[0] == 'f' && "farmland"@[1] == 'a');
    assert("orchard"@[0] == 'o' && "allotments"@[0] == 'a' && "cemetery"@[0] == 'c'
        && "cemetery"@[1] == 'e' && "recreation_ground"@[0] == 'r' && "recreation_ground"@[2]
        == 'c');
    assert("railway"@[0] == 'r' && "railway"@[2] == 'i' && "reservoir"@[0] == 'r'
        && "reservoir"@[2] == 's' && "basin"@[0] == 'b');
    if listed(v, a) {
        let i = choose|i: int| 0 <= i < a.len() && (#[trigger] a[i])@ == v;
        assert(i == 0 || i == 1 || i == 2 || i == 3 || i == 4);
    }
    if listed(v, b) {
        let i = choose|i: int| 0 <= i < b.len() && (#[trigger] b[i])@ == v;
        assert(i == 0 || i == 1);
    }
    if listed(v, c) {
        let i = choose|i: int| 0 <= i < c.len() && (#[trigger] c[i])@ == v;
        assert(i == 0 || i == 1 || i == 2 || i == 3 || i == 4 || i == 5 || i == 6 || i == 7);
    }
    if listed(v, d) {
        let i = choose|i: int| 0 <= i < d.len() && (#[trigger] d[i])@ == v;
        assert(i == 0 || i == 1);
    }
}

/// Where no land use is given, nature decides, and what it says is final.
pub proof fn law_nature_comes_second(tags: Seq<(Seq<char>, Seq<char>)>, at: int)
    requires
        0 <= at < tags.len(),
        tags[at].0 == "natural"@,
        forall|i: int| 0 <= i < at ==> (#[trigger] tags[i]).0 != "natural"@,
        forall|i: int| 0 <= i < tags.len() ==> (#[trigger] tags[i]).0 != "landuse"@,
    ensures
        ({
            let (v, k) = (tags[at].1, kind_of_area(tags));
            &&& k == Some("wood"@) <==> v == "wood"@ || v == "scrub"@
            &&& k == Some("water"@) <==> v == "water"@ || v == "wetland"@
            &&& k == Some("green"@) <==> v == "heath"@ || v == "grassland"@ || v == "sand"@ || v
                == "beach"@
            &&& k is Some ==> k == Some("wood"@) || k == Some("water"@) || k == Some("green"@)
        }),
{
    crate::text::law_first_tag_counts(tags, "landuse"@, 0);
    crate::text::law_first_tag_counts(tags, "natural"@, at);
    lemma_area_names();
    let v = tags[at].1;
    let (a, b, c) = (NATURAL_WOOD@, NATURAL_WATER@, NATURAL_OPEN@);
    assert(a[0]@ == "wood"@ && a[1]@ == "scrub"@ && b[0]@ == "water"@ && b[1]@ == "wetland"@);
    assert(c[0]@ == "heath"@ && c[1]@ == "grassland"@ && c[2]@ == "sand"@ && c[3]@ == "beach"@);
    reveal_strlit("wood");
    reveal_strlit("scrub");
    reveal_strlit("water");
    reveal_strlit("wetland");
    reveal_strlit("heath");
    reveal_strlit("grassland");
    reveal_strlit("sand");
    reveal_strlit("beach");
    assert("wood"@[1] == 'o' && "scrub"@[0] == 's' && "scrub"@[1] == 'c' && "water"@[1] == 'a'
        && "wetland"@[1] == 'e' && "wood"@[0] == 'w' && "wetland"@[0] == 'w');
    assert("heath"@[0] == 'h' && "grassland"@[0] == 'g' && "sand"@[0] == 's' && "sand"@[1] == 'a'
        && "beach"@[0] == 'b');
    if listed(v, a) {
        let i = choose|i: int| 0 <= i < a.len() && (#[trigger] a[i])@ == v;
        assert(i == 0 || i == 1);
    }
    if listed(v, b) {
        let i = choose|i: int| 0 <= i < b.len() && (#[trigger] b[i])@ == v;
        assert(i == 0 || i == 1);
    }
    if listed(v, c) {
        let i = choose|i: int| 0 <= i < c.len() && (#[trigger] c[i])@ == v;
        assert(i == 0 || i == 1 || i == 2 || i == 3);
    }
}

/// Where neither land use nor nature is given, leisure decides, and what it says is
/// final: parks and the like are green, and every other value is nothing.
pub proof fn law_leisure_comes_third(tags: Seq<(Seq<char>, Seq<char>)>, at: int)
    requires
        0 <= at < tags.len(),
        tags[at].0 == "leisure"@,
        forall|i: int| 0 <= i < at ==> (#[trigger] tags[i]).0 != "leisure"@,
        forall|i: int|
            0 <= i < tags.len() ==> (#[trigger] tags[i]).0 != "landuse"@ && tags[i].0 != "natural"@,
    ensures
        ({
            let v = tags[at].1;
            kind_of_area(tags) == if v == "park"@ || v == "garden"@ || v == "nature_reserve"@ || v
                == "pitch"@ || v == "sports_centre"@ || v == "golf_course"@ {
                Some("green"@)
            } else {
                None
            }
        }),
{
    crate::text::law_first_tag_counts(tags, "landuse"@, 0);
    crate::text::law_first_tag_counts(tags, "natural"@, 0);
    crate::text::law_first_tag_counts(tags, "leisure"@, at);
    let (v, a) = (tags[at].1, LEISURE_GREEN@);
    assert(a[0]@ == "park"@ && a[1]@ == "garden"@ && a[2]@ == "nature_reserve"@ && a[3]@
        == "pitch"@ && a[4]@ == "sports_centre"@ && a[5]@ == "golf_course"@);
    if listed(v, a) {
        let i = choose|i: int| 0 <= i < a.len() && (#[trigger] a[i])@ == v;
        assert(i == 0 || i == 1 || i == 2 || i == 3 || i == 4 || i == 5);
    }
}

/// Where none of the three is given, a railway or an airfield is a railway, works and
/// schools are industry, and everything else is nothing.
pub proof fn law_the_rest_comes_last(tags: Seq<(Seq<char>, Seq<char>)>, at: int)
    requires
        forall|i: int|
            0 <= i < tags.len() ==> (#[trigger] tags[i]).0 != "landuse"@ && tags[i].0 != "natural"@
                && tags[i].0 != "leisure"@,
    ensures
        0 <= at < tags.len() && (tags[at].0 == "railway"@ || tags[at].0 == "aeroway"@)
            ==> kind_of_area(tags) == Some("railway"@),
        (forall|i: int|
            0 <= i < tags.len() ==> (#[trigger] tags[i]).0 != "railway"@ && tags[i].0 != "aeroway"@)
            ==> {
            &&& 0 <= at < tags.len() && tags[at] == ("man_made"@, "works"@) && (forall|i: int|
                0 <= i < at ==> (#[trigger] tags[i]).0 != "man_made"@) ==> kind_of_area(tags)
                == Some("industry"@)
            &&& 0 <= at < tags.len() && tags[at] == ("amenity"@, "school"@) && (forall|i: int|
                0 <= i < at ==> (#[trigger] tags[i]).0 != "amenity"@) ==> kind_of_area(tags)
                == Some("industry"@)
            &&& !tags.contains(("man_made"@, "works"@)) && !tags.contains(("amenity"@, "school"@))
                ==> kind_of_area(tags) is None
        },
{
    crate::text::law_first_tag_counts(tags, "landuse"@, 0);
    crate::text::law_first_tag_counts(tags, "natural"@, 0);
    crate::text::law_first_tag_counts(tags, "leisure"@, 0);
    crate::text::law_first_tag_counts(tags, "railway"@, 0);
    crate::text::law_first_tag_counts(tags, "aeroway"@, 0);
    crate::text::law_first_tag_counts(tags, "man_made"@, at);
    crate::text::law_first_tag_counts(tags, "amenity"@, at);
    crate::text::law_values_are_of_tags(tags, "man_made"@);
    crate::text::law_values_are_of_tags(tags, "amenity"@);
}

/// Three letters or more are no suffix, and a number with such a text behind it is no house
/// number.
pub proof fn law_long_suffixes_are_none(n: nat, text: Seq<char>)
    requires
        text.len() >= 3,
        forall|i: int|
            0 <= i < text.len() ==> 'a' <= #[trigger] text[i] <= 'z' || 'A' <= text[i] <= 'Z',
    ensures
        number_kind(decimal(n) + text) == NumKind::Other,
        position(decimal(n) + text) is None,
{
    let d = decimal(n);
    let t = d + text;
    lemma_spelled_decimal(n);
    assert('a' <= text[0] <= 'z' || 'A' <= text[0] <= 'Z');
    lemma_digits_lead(d, text);
    assert(t.subrange(d.len() as int, t.len() as int) =~= text);
    let last = text[text.len() - 1];
    assert('a' <= last <= 'z' || 'A' <= last <= 'Z');
    law_white_space_around_is_cut(Seq::empty(), text, Seq::empty());
    assert(Seq::<char>::empty() + text + Seq::<char>::empty() =~= text);
    assert(behind_digits(t) == text);
    assert(!has_separator(t)) by {
        assert forall|i: int| 0 <= i < t.len() implies !is_separator(#[trigger] t[i]) by {
            if i < d.len() {
                assert('0' <= d[i] <= '9');
            } else {
                let c = text[i - d.len()];
                assert('a' <= c <= 'z' || 'A' <= c <= 'Z');
            }
        }
    }
    let k = t.len() - 1;
    assert(t[k] == last);
    assert(!all_chars(t, |c: char| is_digit(c))) by {
        let p = |c: char| is_digit(c);
        assert(!p(t[k]));
    }
}

/// Blanks, tabs and line ends are white space, among others; what is printed in ASCII is
/// not, and of that the letters are letters.
pub proof fn law_printed_characters(c: char)
    ensures
        c == ' ' || c == '\t' || c == '\n' || c == '\r' ==> white(c) && !letter(c),
        '!' <= c <= '~' ==> !white(c) && (letter(c) <==> 'a' <= c <= 'z' || 'A' <= c <= 'Z'),
{
}

/// Positions are told apart as far as they fit, and what does not fit stands behind.
pub proof fn law_large_positions_stand_behind(p: nat, q: nat)
    requires
        p <= q,
    ensures
        capped(p) <= capped(q),
        p <= u64::MAX ==> capped(p) == p,
{
}

/// Doors stand in order along the street; those at one place in the order in which they
/// were read.
pub proof fn law_doors_stand_along_the_street(a: Door, b: Door)
    ensures
        a.along < b.along ==> a.ranks_before(&b) && !b.ranks_before(&a),
        a.along == b.along ==> (a.ranks_before(&b) <==> a.read <= b.read),
{
}

/// A side is even where at most one door in ten is odd, and odd where at most one in ten is
/// even.
pub proof fn law_one_door_in_ten_may_stray(s: Seq<u64>)
    ensures
        mostly_even(s) <==> 10 * s.filter(|p: u64| (p / 100_000) % 2 != 0).len() <= s.len(),
        mostly_odd(s) <==> 10 * s.filter(|p: u64| (p / 100_000) % 2 == 0).len() <= s.len(),
{
    lemma_evens(s);
    lemma_odds(s);
}

proof fn lemma_odds(s: Seq<u64>)
    ensures
        s.len() - evens(s) == s.filter(|p: u64| (p / 100_000) % 2 != 0).len(),
    decreases s.len(),
{
    reveal(Seq::filter);
    if s.len() > 0 {
        lemma_odds(s.drop_last());
    }
}

/// Where equal numbers let a side count as ordered both ways, the greater part of its steps
/// decides, and up where they are even: a side goes up where no more than one step in ten
/// goes down and at least as many go up, and down where it is the other way round.
pub proof fn law_the_greater_part_decides(s: Seq<Door>)
    requires
        s.len() >= 3,
    ensures
        verdict(s) == Side::Up <==> 10 * (s.len() - 1 - rises(s)) <= s.len() - 1 && rises(s)
            >= falls(s),
        verdict(s) == Side::Down <==> 10 * (s.len() - 1 - falls(s)) <= s.len() - 1 && falls(s)
            > rises(s),
{
    lemma_steps_bound(s);
}

} // verus!
