//! One thing mapped two ways: a sidewalk or a cycleway as a way of its own, or
//! as an attribute of the road.

use crate::text::{has_key, listed, one_of, pairs, same_text, tag, value_of};
use vstd::prelude::*;

verus! {

/// Values of `highway` that carry people on foot.
pub const FOOT: [&'static str; 8] = [
    "footway",
    "path",
    "steps",
    "pedestrian",
    "living_street",
    "corridor",
    "track",
    "bridleway",
];

/// Values of `highway` that are bicycle infrastructure.
pub const CYCLE: [&'static str; 1] = ["cycleway"];

/// Values of `highway` that must behave differently from those on foot.
pub const CONTROL: [&'static str; 4] = ["residential", "secondary", "primary", "tertiary"];

/// Values that say that there is none. `separate` is not one: it says that the
/// thing is mapped as a way of its own.
pub const ABSENT: [&'static str; 2] = ["no", "none"];

/// Keys that say something about a sidewalk.
pub const SIDEWALK_KEYS: [&'static str; 4] = [
    "sidewalk",
    "sidewalk:both",
    "sidewalk:left",
    "sidewalk:right",
];

/// Keys that say something about a cycleway.
pub const CYCLEWAY_KEYS: [&'static str; 4] = [
    "cycleway",
    "cycleway:both",
    "cycleway:left",
    "cycleway:right",
];

/// Keys by which a way that is neither road nor building is called, in order.
pub const PRIMARY_KEYS: [&'static str; 10] = [
    "railway",
    "waterway",
    "landuse",
    "natural",
    "barrier",
    "leisure",
    "amenity",
    "power",
    "man_made",
    "boundary",
];

/// Whether a value says that the thing is there, on this way.
pub open spec fn says_present(v: Seq<char>) -> bool {
    !listed(v, ABSENT@) && v != "separate"@ && v.len() > 0
}

/// Whether one of the keys says that the thing is there.
pub open spec fn any_present(tags: Seq<(Seq<char>, Seq<char>)>, keys: Seq<&str>) -> bool {
    exists|i: int|
        0 <= i < keys.len() && (value_of(tags, (#[trigger] keys[i])@) matches Some(v)
            && says_present(v))
}

/// Whether one of the keys refers to a way of its own.
pub open spec fn any_separate(tags: Seq<(Seq<char>, Seq<char>)>, keys: Seq<&str>) -> bool {
    exists|i: int|
        0 <= i < keys.len() && value_of(tags, (#[trigger] keys[i])@) == Some("separate"@)
}

/// Whether any key is present with a value that is no absence and no reference.
pub fn present_any(tags: &[(&str, &str)], keys: &[&str]) -> (r: bool)
    ensures
        r == any_present(pairs(tags@), keys@),
{
    let mut i: usize = 0;
    while i < keys.len()
        invariant
            i <= keys@.len(),
            forall|k: int|
                0 <= k < i ==> !(value_of(pairs(tags@), (#[trigger] keys@[k])@) matches Some(v)
                    && says_present(v)),
        decreases keys@.len() - i,
    {
        if let Some(v) = tag(tags, keys[i]) {
            proof {
                reveal_strlit("");
                if v@.len() == 0 {
                    assert(v@ =~= ""@);
                }
            }
            if !one_of(v, ABSENT.as_slice()) && !same_text(v, "separate") && !same_text(v, "") {
                assert(value_of(pairs(tags@), keys@[i as int]@) == Some(v@));
                return true;
            }
        }
        i = i + 1;
    }
    false
}

/// Whether any key refers to a way of its own.
pub fn says_separate(tags: &[(&str, &str)], keys: &[&str]) -> (r: bool)
    ensures
        r == any_separate(pairs(tags@), keys@),
{
    let mut i: usize = 0;
    while i < keys.len()
        invariant
            i <= keys@.len(),
            forall|k: int|
                0 <= k < i ==> value_of(pairs(tags@), (#[trigger] keys@[k])@) != Some(
                    "separate"@,
                ),
        decreases keys@.len() - i,
    {
        if let Some(v) = tag(tags, keys[i]) {
            if same_text(v, "separate") {
                assert(value_of(pairs(tags@), keys@[i as int]@) == Some("separate"@));
                return true;
            }
        }
        i = i + 1;
    }
    false
}

/// One key never says both that a thing is there and that it is mapped apart.
pub proof fn law_separate_is_not_present(tags: Seq<(Seq<char>, Seq<char>)>, keys: Seq<&str>)
    requires
        keys.len() == 1,
    ensures
        !(any_present(tags, keys) && any_separate(tags, keys)),
{
}

/// What a road or a path says about sidewalks and cycleways.
#[derive(Debug, Clone, Copy, PartialEq, Eq, Structural)]
pub struct Forms {
    /// It is a sidewalk, mapped as a way of its own.
    pub own_sidewalk: bool,
    /// It is a cycleway, mapped as a way of its own.
    pub own_cycleway: bool,
    /// It is a carriageway.
    pub road: bool,
    /// It is a carriageway with a sidewalk.
    pub with_sidewalk: bool,
    /// It is a carriageway whose sidewalk is mapped apart.
    pub sidewalk_apart: bool,
    /// It is a carriageway with a cycleway.
    pub with_cycleway: bool,
    /// It is a carriageway whose cycleway is mapped apart.
    pub cycleway_apart: bool,
}

/// Whether a `highway` value is a carriageway.
pub open spec fn is_carriageway(hw: Seq<char>) -> bool {
    !listed(hw, FOOT@) && !listed(hw, CYCLE@) && hw != "construction"@
}

/// What tags with this `highway` say.
pub open spec fn forms_of(tags: Seq<(Seq<char>, Seq<char>)>, hw: Seq<char>) -> Forms {
    let road = is_carriageway(hw);
    Forms {
        own_sidewalk: (hw == "footway"@ && value_of(tags, "footway"@) == Some("sidewalk"@)) || (hw
            == "path"@ && value_of(tags, "path"@) == Some("sidewalk"@)),
        own_cycleway: hw == "cycleway"@ || (hw == "path"@ && value_of(tags, "bicycle"@) == Some(
            "designated"@,
        )),
        road,
        with_sidewalk: road && any_present(tags, SIDEWALK_KEYS@),
        sidewalk_apart: road && any_separate(tags, SIDEWALK_KEYS@),
        with_cycleway: road && any_present(tags, CYCLEWAY_KEYS@),
        cycleway_apart: road && any_separate(tags, CYCLEWAY_KEYS@),
    }
}

fn tag_is(tags: &[(&str, &str)], key: &str, value: &str) -> (r: bool)
    ensures
        r == (value_of(pairs(tags@), key@) == Some(value@)),
{
    match tag(tags, key) {
        Some(v) => same_text(v, value),
        None => false,
    }
}

/// Says which of the two forms a way with a `highway` tag shows.
pub fn way_forms(tags: &[(&str, &str)], hw: &str) -> (f: Forms)
    ensures
        f == forms_of(pairs(tags@), hw@),
{
    let road: bool = !one_of(hw, FOOT.as_slice()) && !one_of(hw, CYCLE.as_slice()) && !same_text(
        hw,
        "construction",
    );
    Forms {
        own_sidewalk: (same_text(hw, "footway") && tag_is(tags, "footway", "sidewalk")) || (
        same_text(hw, "path") && tag_is(tags, "path", "sidewalk")),
        own_cycleway: same_text(hw, "cycleway") || (same_text(hw, "path") && tag_is(
            tags,
            "bicycle",
            "designated",
        )),
        road,
        with_sidewalk: road && present_any(tags, SIDEWALK_KEYS.as_slice()),
        sidewalk_apart: road && says_separate(tags, SIDEWALK_KEYS.as_slice()),
        with_cycleway: road && present_any(tags, CYCLEWAY_KEYS.as_slice()),
        cycleway_apart: road && says_separate(tags, CYCLEWAY_KEYS.as_slice()),
    }
}

/// The first of the keys that tags have.
pub open spec fn first_key(tags: Seq<(Seq<char>, Seq<char>)>, keys: Seq<&str>) -> Option<Seq<char>>
    decreases keys.len(),
{
    if keys.len() == 0 {
        None
    } else {
        match first_key(tags, keys.drop_last()) {
            Some(k) => Some(k),
            None => if has_key(tags, keys.last()@) {
                Some(keys.last()@)
            } else {
                None
            },
        }
    }
}

/// What a way that is neither road nor building is called by: the first primary
/// key that it has.
pub fn primary_key(tags: &[(&str, &str)]) -> (k: Option<&'static str>)
    ensures
        match k {
            Some(name) => first_key(pairs(tags@), PRIMARY_KEYS@) == Some(name@),
            None => first_key(pairs(tags@), PRIMARY_KEYS@) is None,
        },
{
    let keys: [&'static str; 10] = PRIMARY_KEYS;
    let mut i: usize = 0;
    assert(keys@.take(0) =~= Seq::<&'static str>::empty());
    while i < 10
        invariant
            i <= 10,
            keys@ == PRIMARY_KEYS@,
            first_key(pairs(tags@), keys@.take(i as int)) is None,
        decreases 10 - i,
    {
        proof {
            assert(keys@.take(i + 1).drop_last() =~= keys@.take(i as int));
            assert(keys@.take(i + 1).last() == keys@[i as int]);
        }
        if tag(tags, keys[i]).is_some() {
            proof {
                lemma_first_key(pairs(tags@), keys@, i + 1);
            }
            return Some(keys[i]);
        }
        i = i + 1;
    }
    assert(keys@.take(10) =~= keys@);
    None
}

proof fn lemma_first_key(tags: Seq<(Seq<char>, Seq<char>)>, keys: Seq<&str>, n: int)
    requires
        0 <= n <= keys.len(),
        first_key(tags, keys.take(n)) is Some,
    ensures
        first_key(tags, keys) == first_key(tags, keys.take(n)),
    decreases keys.len() - n,
{
    if n < keys.len() {
        assert(keys.take(n + 1).drop_last() =~= keys.take(n));
        lemma_first_key(tags, keys, n + 1);
    } else {
        assert(keys.take(n) =~= keys);
    }
}

// ── Laws of forms ───────────────────────────────────────────────────
proof fn lemma_foot_list(v: Seq<char>)
    ensures
        listed(v, FOOT@) <==> v == "footway"@ || v == "path"@ || v == "steps"@ || v == "pedestrian"@ || v == "living_street"@ || v == "corridor"@ || v == "track"@ || v == "bridleway"@,
{
    let a = FOOT@;
    assert(a[0]@ == "footway"@);
    assert(a[1]@ == "path"@);
    assert(a[2]@ == "steps"@);
    assert(a[3]@ == "pedestrian"@);
    assert(a[4]@ == "living_street"@);
    assert(a[5]@ == "corridor"@);
    assert(a[6]@ == "track"@);
    assert(a[7]@ == "bridleway"@);
    if listed(v, a) {
        let i = choose|i: int| 0 <= i < a.len() && (#[trigger] a[i])@ == v;
        assert(i == 0 || i == 1 || i == 2 || i == 3 || i == 4 || i == 5 || i == 6 || i == 7);
    }
}

proof fn lemma_cycle_list(v: Seq<char>)
    ensures
        listed(v, CYCLE@) <==> v == "cycleway"@,
{
    let a = CYCLE@;
    assert(a[0]@ == "cycleway"@);
    if listed(v, a) {
        let i = choose|i: int| 0 <= i < a.len() && (#[trigger] a[i])@ == v;
        assert(i == 0);
    }
}

proof fn lemma_absent_list(v: Seq<char>)
    ensures
        listed(v, ABSENT@) <==> v == "no"@ || v == "none"@,
{
    let a = ABSENT@;
    assert(a[0]@ == "no"@);
    assert(a[1]@ == "none"@);
    if listed(v, a) {
        let i = choose|i: int| 0 <= i < a.len() && (#[trigger] a[i])@ == v;
        assert(i == 0 || i == 1);
    }
}

/// Every way with a `highway` is a carriageway but those on foot, cycleways and those
/// that are still being built.
pub proof fn law_carriageways(tags: Seq<(Seq<char>, Seq<char>)>, hw: Seq<char>)
    ensures
        forms_of(tags, hw).road <==> {
            &&& hw != "footway"@ && hw != "path"@ && hw != "steps"@ && hw != "pedestrian"@
            &&& hw != "living_street"@ && hw != "corridor"@ && hw != "track"@ && hw != "bridleway"@
            &&& hw != "cycleway"@ && hw != "construction"@
        },
{
    lemma_foot_list(hw);
    lemma_cycle_list(hw);
}

/// Whether tag `at` is the first with its key and says that the thing is there.
pub open spec fn says_there(tags: Seq<(Seq<char>, Seq<char>)>, at: int) -> bool {
    let v = tags[at].1;
    &&& v != "no"@ && v != "none"@ && v != "separate"@ && v.len() > 0
    &&& forall|i: int| 0 <= i < at ==> (#[trigger] tags[i]).0 != tags[at].0
}

/// Whether tag `at` is the first with its key and says that the thing is a way of its
/// own.
pub open spec fn says_apart(tags: Seq<(Seq<char>, Seq<char>)>, at: int) -> bool {
    &&& tags[at].1 == "separate"@
    &&& forall|i: int| 0 <= i < at ==> (#[trigger] tags[i]).0 != tags[at].0
}

proof fn lemma_any_is_there(tags: Seq<(Seq<char>, Seq<char>)>, keys: Seq<&str>)
    ensures
        any_present(tags, keys) <==> exists|at: int|
            0 <= at < tags.len() && listed(tags[at].0, keys) && #[trigger] says_there(tags, at),
        any_separate(tags, keys) <==> exists|at: int|
            0 <= at < tags.len() && listed(tags[at].0, keys) && #[trigger] says_apart(tags, at),
{
    if any_present(tags, keys) {
        let i = choose|i: int|
            0 <= i < keys.len() && (value_of(tags, (#[trigger] keys[i])@) matches Some(v)
                && says_present(v));
        crate::text::law_value_has_a_first_tag(tags, keys[i]@);
        let v = value_of(tags, keys[i]@)->0;
        lemma_absent_list(v);
        let at = choose|at: int|
            0 <= at < tags.len() && #[trigger] tags[at] == (keys[i]@, v) && forall|j: int|
                0 <= j < at ==> (#[trigger] tags[j]).0 != keys[i]@;
        assert(listed(tags[at].0, keys) && says_there(tags, at));
    }
    if exists|at: int|
        0 <= at < tags.len() && listed(tags[at].0, keys) && #[trigger] says_there(tags, at) {
        let at = choose|at: int|
            0 <= at < tags.len() && listed(tags[at].0, keys) && #[trigger] says_there(tags, at);
        crate::text::law_first_tag_counts(tags, tags[at].0, at);
        lemma_absent_list(tags[at].1);
        let i = choose|i: int| 0 <= i < keys.len() && (#[trigger] keys[i])@ == tags[at].0;
        assert(value_of(tags, keys[i]@) == Some(tags[at].1));
    }
    if any_separate(tags, keys) {
        let i = choose|i: int|
            0 <= i < keys.len() && value_of(tags, (#[trigger] keys[i])@) == Some("separate"@);
        crate::text::law_value_has_a_first_tag(tags, keys[i]@);
        let at = choose|at: int|
            0 <= at < tags.len() && #[trigger] tags[at] == (keys[i]@, "separate"@) && forall|j: int|
                0 <= j < at ==> (#[trigger] tags[j]).0 != keys[i]@;
        assert(listed(tags[at].0, keys) && says_apart(tags, at));
    }
    if exists|at: int|
        0 <= at < tags.len() && listed(tags[at].0, keys) && #[trigger] says_apart(tags, at) {
        let at = choose|at: int|
            0 <= at < tags.len() && listed(tags[at].0, keys) && #[trigger] says_apart(tags, at);
        crate::text::law_first_tag_counts(tags, tags[at].0, at);
        let i = choose|i: int| 0 <= i < keys.len() && (#[trigger] keys[i])@ == tags[at].0;
        assert(value_of(tags, keys[i]@) == Some("separate"@));
    }
}

proof fn lemma_sidewalk_list(v: Seq<char>)
    ensures
        listed(v, SIDEWALK_KEYS@) <==> v == "sidewalk"@ || v == "sidewalk:both"@ || v == "sidewalk:left"@ || v == "sidewalk:right"@,
{
    let a = SIDEWALK_KEYS@;
    assert(a[0]@ == "sidewalk"@);
    assert(a[1]@ == "sidewalk:both"@);
    assert(a[2]@ == "sidewalk:left"@);
    assert(a[3]@ == "sidewalk:right"@);
    if listed(v, a) {
        let i = choose|i: int| 0 <= i < a.len() && (#[trigger] a[i])@ == v;
        assert(i == 0 || i == 1 || i == 2 || i == 3);
    }
}

proof fn lemma_cycleway_list(v: Seq<char>)
    ensures
        listed(v, CYCLEWAY_KEYS@) <==> v == "cycleway"@ || v == "cycleway:both"@ || v == "cycleway:left"@ || v == "cycleway:right"@,
{
    let a = CYCLEWAY_KEYS@;
    assert(a[0]@ == "cycleway"@);
    assert(a[1]@ == "cycleway:both"@);
    assert(a[2]@ == "cycleway:left"@);
    assert(a[3]@ == "cycleway:right"@);
    if listed(v, a) {
        let i = choose|i: int| 0 <= i < a.len() && (#[trigger] a[i])@ == v;
        assert(i == 0 || i == 1 || i == 2 || i == 3);
    }
}

/// A carriageway has a sidewalk exactly where one of its tags says so: on both sides,
/// on one, or at all, with a value that is neither an absence nor a reference to a way
/// of its own. It is mapped apart exactly where one of these tags refers to such a way.
pub proof fn law_sidewalks_are_said(tags: Seq<(Seq<char>, Seq<char>)>, hw: Seq<char>)
    ensures
        forms_of(tags, hw).with_sidewalk <==> forms_of(tags, hw).road && exists|at: int|
            0 <= at < tags.len() && (tags[at].0 == "sidewalk"@ || tags[at].0 == "sidewalk:both"@
                || tags[at].0 == "sidewalk:left"@ || tags[at].0 == "sidewalk:right"@)
                && #[trigger] says_there(tags, at),
        forms_of(tags, hw).sidewalk_apart <==> forms_of(tags, hw).road && exists|at: int|
            0 <= at < tags.len() && (tags[at].0 == "sidewalk"@ || tags[at].0 == "sidewalk:both"@
                || tags[at].0 == "sidewalk:left"@ || tags[at].0 == "sidewalk:right"@)
                && #[trigger] says_apart(tags, at),
{
    lemma_any_is_there(tags, SIDEWALK_KEYS@);
    assert forall|at: int| 0 <= at < tags.len() implies (listed(
        (#[trigger] tags[at]).0,
        SIDEWALK_KEYS@,
    ) <==> tags[at].0 == "sidewalk"@ || tags[at].0 == "sidewalk:both"@ || tags[at].0
        == "sidewalk:left"@ || tags[at].0 == "sidewalk:right"@) by {
        lemma_sidewalk_list(tags[at].0);
    }
}

/// The same of cycleways.
pub proof fn law_cycleways_are_said(tags: Seq<(Seq<char>, Seq<char>)>, hw: Seq<char>)
    ensures
        forms_of(tags, hw).with_cycleway <==> forms_of(tags, hw).road && exists|at: int|
            0 <= at < tags.len() && (tags[at].0 == "cycleway"@ || tags[at].0 == "cycleway:both"@
                || tags[at].0 == "cycleway:left"@ || tags[at].0 == "cycleway:right"@)
                && #[trigger] says_there(tags, at),
        forms_of(tags, hw).cycleway_apart <==> forms_of(tags, hw).road && exists|at: int|
            0 <= at < tags.len() && (tags[at].0 == "cycleway"@ || tags[at].0 == "cycleway:both"@
                || tags[at].0 == "cycleway:left"@ || tags[at].0 == "cycleway:right"@)
                && #[trigger] says_apart(tags, at),
{
    lemma_any_is_there(tags, CYCLEWAY_KEYS@);
    assert forall|at: int| 0 <= at < tags.len() implies (listed(
        (#[trigger] tags[at]).0,
        CYCLEWAY_KEYS@,
    ) <==> tags[at].0 == "cycleway"@ || tags[at].0 == "cycleway:both"@ || tags[at].0
        == "cycleway:left"@ || tags[at].0 == "cycleway:right"@) by {
        lemma_cycleway_list(tags[at].0);
    }
}

/// A sidewalk of its own is a footway or a path that says so under its own name; a
/// cycleway of its own is a cycleway, or a path meant for bicycles.
pub proof fn law_ways_of_their_own(tags: Seq<(Seq<char>, Seq<char>)>, hw: Seq<char>, at: int)
    ensures
        forms_of(tags, hw).own_sidewalk ==> hw == "footway"@ || hw == "path"@,
        forms_of(tags, hw).own_sidewalk ==> tags.contains((hw, "sidewalk"@)),
        0 <= at < tags.len() && tags[at] == (hw, "sidewalk"@) && (forall|i: int|
            0 <= i < at ==> (#[trigger] tags[i]).0 != hw) && (hw == "footway"@ || hw == "path"@)
            ==> forms_of(tags, hw).own_sidewalk,
        hw == "cycleway"@ ==> forms_of(tags, hw).own_cycleway,
        hw != "cycleway"@ && hw != "path"@ ==> !forms_of(tags, hw).own_cycleway,
        0 <= at < tags.len() && tags[at].0 == "bicycle"@ && (forall|i: int|
            0 <= i < at ==> (#[trigger] tags[i]).0 != "bicycle"@) && hw == "path"@ ==> (forms_of(
            tags,
            hw,
        ).own_cycleway <==> tags[at].1 == "designated"@),
{
    crate::text::law_first_tag_counts(tags, hw, at);
    crate::text::law_values_are_of_tags(tags, "footway"@);
    crate::text::law_values_are_of_tags(tags, "path"@);
    crate::text::law_first_tag_counts(tags, "bicycle"@, at);
    reveal_strlit("path");
    reveal_strlit("cycleway");
    assert("path"@.len() == 4 && "cycleway"@.len() == 8);
}

/// The key that a way is called by is the first of the list that it has: all that stand
/// before it in the list are missing.
pub proof fn law_first_key_wins(tags: Seq<(Seq<char>, Seq<char>)>, keys: Seq<&str>, k: int)
    ensures
        first_key(tags, keys) is None <==> forall|i: int|
            0 <= i < keys.len() ==> !has_key(tags, (#[trigger] keys[i])@),
        0 <= k < keys.len() && has_key(tags, keys[k]@) && (forall|i: int|
            0 <= i < k ==> !has_key(tags, (#[trigger] keys[i])@)) ==> first_key(tags, keys)
            == Some(keys[k]@),
    decreases keys.len(),
{
    if keys.len() > 0 {
        let front = keys.drop_last();
        assert forall|i: int| 0 <= i < front.len() implies #[trigger] front[i] == keys[i] by {}
        assert(keys[keys.len() - 1] == keys.last());
        law_first_key_wins(tags, front, k);
        if first_key(tags, front) is Some {
            let i = choose|i: int| 0 <= i < front.len() && has_key(tags, (#[trigger] front[i])@);
            assert(has_key(tags, keys[i]@));
        } else {
            assert forall|i: int| 0 <= i < front.len() implies !has_key(
                tags,
                (#[trigger] keys[i])@,
            ) by {
                assert(!has_key(tags, front[i]@));
            }
        }
        if 0 <= k < front.len() && has_key(tags, keys[k]@) && (forall|i: int|
            0 <= i < k ==> !has_key(tags, (#[trigger] keys[i])@)) {
            assert forall|i: int| 0 <= i < k implies !has_key(tags, (#[trigger] front[i])@) by {
                assert(!has_key(tags, keys[i]@));
            }
        }
    }
}

/// Railways come before waterways, these before land use, nature, barriers, leisure,
/// amenities, power, what is made by man, and boundaries.
pub proof fn law_order_of_primary_keys(tags: Seq<(Seq<char>, Seq<char>)>)
    ensures
        ({
            let has = |k: Seq<char>|
                exists|i: int| 0 <= i < tags.len() && (#[trigger] tags[i]).0 == k;
            first_key(tags, PRIMARY_KEYS@) == if has("railway"@) {
                Some("railway"@)
            } else if has("waterway"@) {
                Some("waterway"@)
            } else if has("landuse"@) {
                Some("landuse"@)
            } else if has("natural"@) {
                Some("natural"@)
            } else if has("barrier"@) {
                Some("barrier"@)
            } else if has("leisure"@) {
                Some("leisure"@)
            } else if has("amenity"@) {
                Some("amenity"@)
            } else if has("power"@) {
                Some("power"@)
            } else if has("man_made"@) {
                Some("man_made"@)
            } else if has("boundary"@) {
                Some("boundary"@)
            } else {
                None
            }
        }),
{
    let a = PRIMARY_KEYS@;
    assert(a[0]@ == "railway"@ && a[1]@ == "waterway"@ && a[2]@ == "landuse"@ && a[3]@
        == "natural"@ && a[4]@ == "barrier"@);
    assert(a[5]@ == "leisure"@ && a[6]@ == "amenity"@ && a[7]@ == "power"@ && a[8]@ == "man_made"@
        && a[9]@ == "boundary"@);
    assert forall|k: int| 0 <= k < 10 implies (has_key(tags, (#[trigger] a[k])@) <==> exists|i: int|
        0 <= i < tags.len() && (#[trigger] tags[i]).0 == a[k]@) by {
        crate::text::law_first_tag_counts(tags, a[k]@, 0);
    }
    law_first_key_wins(tags, a, 0);
    law_first_key_wins(tags, a, 1);
    law_first_key_wins(tags, a, 2);
    law_first_key_wins(tags, a, 3);
    law_first_key_wins(tags, a, 4);
    law_first_key_wins(tags, a, 5);
    law_first_key_wins(tags, a, 6);
    law_first_key_wins(tags, a, 7);
    law_first_key_wins(tags, a, 8);
    law_first_key_wins(tags, a, 9);
}

} // verus!
