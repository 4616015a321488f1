//! Text: equality, prefixes and the numerals that keys and paths are made of.

use vstd::prelude::*;
use vstd::string::*;
use vstd::utf8::*;

verus! {

/// Texts are equal when their UTF-8 bytes are.
pub proof fn lemma_same_bytes(a: Seq<char>, b: Seq<char>)
    requires
        encode_utf8(a) == encode_utf8(b),
    ensures
        a == b,
{
    encode_utf8_decode_utf8(a);
    encode_utf8_decode_utf8(b);
}

/// Whether two texts are the same.
pub fn same_text(a: &str, b: &str) -> (r: bool)
    ensures
        r == (a@ == b@),
{
    let (x, y): (&[u8], &[u8]) = (a.as_bytes(), b.as_bytes());
    if x.len() != y.len() {
        return false;
    }
    let mut i: usize = 0;
    while i < x.len()
        invariant
            i <= x@.len(),
            x@.len() == y@.len(),
            x@ == encode_utf8(a@),
            y@ == encode_utf8(b@),
            forall|k: int| 0 <= k < i ==> x@[k] == y@[k],
        decreases x@.len() - i,
    {
        if x[i] != y[i] {
            return false;
        }
        i = i + 1;
    }
    proof {
        assert(x@ =~= y@);
        lemma_same_bytes(a@, b@);
    }
    true
}

/// The text of UTF-8 bytes; none where the bytes are not UTF-8.
///
/// This is [`String::from_utf8`], which is taken at its word: it accepts exactly
/// the byte sequences that are UTF-8, and the text it returns is what they
/// encode.
#[verifier::external_body]
pub(crate) fn utf8_string(bytes: Vec<u8>) -> (s: Option<String>)
    ensures
        match s {
            Some(text) => valid_utf8(bytes@) && text@ == decode_utf8(bytes@),
            None => !valid_utf8(bytes@),
        },
{
    String::from_utf8(bytes).ok()
}

/// Whether a text is one of a list.
pub open spec fn listed(v: Seq<char>, list: Seq<&str>) -> bool {
    exists|i: int| 0 <= i < list.len() && (#[trigger] list[i])@ == v
}

/// Whether `v` is one of `list`.
pub fn one_of(v: &str, list: &[&str]) -> (r: bool)
    ensures
        r == listed(v@, list@),
{
    let mut i: usize = 0;
    while i < list.len()
        invariant
            i <= list@.len(),
            forall|k: int| 0 <= k < i ==> (#[trigger] list@[k])@ != v@,
        decreases list@.len() - i,
    {
        if same_text(v, list[i]) {
            assert(list@[i as int]@ == v@);
            return true;
        }
        i = i + 1;
    }
    false
}

/// Whether `s` begins with `prefix`.
pub open spec fn begins_with(s: Seq<char>, prefix: Seq<char>) -> bool {
    prefix.len() <= s.len() && s.take(prefix.len() as int) == prefix
}

/// The characters of a text.
pub fn chars_of(s: &str) -> (out: Vec<char>)
    ensures
        out@ == s@,
{
    let mut out: Vec<char> = Vec::new();
    for c in it: s.chars()
        invariant
            out@ == it.seq().take(it.index()),
            it.seq() == s@,
    {
        out.push(c);
        proof {
            assert(it.seq().take(it.index() + 1) =~= it.seq().take(it.index()).push(c));
        }
    }
    assert(s@.take(s@.len() as int) =~= s@);
    out
}

/// Whether `s` begins with `prefix`.
pub fn has_prefix(s: &str, prefix: &str) -> (r: bool)
    ensures
        r == begins_with(s@, prefix@),
{
    let a: Vec<char> = chars_of(s);
    let b: Vec<char> = chars_of(prefix);
    if b.len() > a.len() {
        return false;
    }
    let mut i: usize = 0;
    while i < b.len()
        invariant
            i <= b@.len() <= a@.len(),
            a@ == s@,
            b@ == prefix@,
            forall|k: int| 0 <= k < i ==> a@[k] == b@[k],
        decreases b@.len() - i,
    {
        if a[i] != b[i] {
            assert(s@.take(prefix@.len() as int)[i as int] != prefix@[i as int]);
            return false;
        }
        i = i + 1;
    }
    assert(s@.take(prefix@.len() as int) =~= prefix@);
    true
}

// ── Numerals ────────────────────────────────────────────────────────
/// The digit of a value below sixteen.
pub open spec fn digit(d: int) -> char {
    if d < 10 {
        (48 + d) as char
    } else {
        (87 + d) as char
    }
}

/// The decimal numeral of a number.
pub open spec fn decimal(n: nat) -> Seq<char>
    decreases n,
{
    if n < 10 {
        seq![digit(n as int)]
    } else {
        decimal(n / 10).push(digit((n % 10) as int))
    }
}

/// The decimal numeral of a signed number.
pub open spec fn signed_decimal(v: int) -> Seq<char> {
    if v < 0 {
        seq!['-'] + decimal((-v) as nat)
    } else {
        decimal(v as nat)
    }
}

/// The last `width` hexadecimal digits of a number, in lower case.
pub open spec fn hex(n: nat, width: nat) -> Seq<char>
    decreases width,
{
    if width == 0 {
        Seq::empty()
    } else {
        hex(n / 16, (width - 1) as nat).push(digit((n % 16) as int))
    }
}

/// One digit as a text.
fn digit_text(d: u8) -> (s: &'static str)
    requires
        d < 16,
    ensures
        s@ == seq![digit(d as int)],
{
    proof {
        reveal_strlit("0");
        reveal_strlit("1");
        reveal_strlit("2");
        reveal_strlit("3");
        reveal_strlit("4");
        reveal_strlit("5");
        reveal_strlit("6");
        reveal_strlit("7");
        reveal_strlit("8");
        reveal_strlit("9");
        reveal_strlit("a");
        reveal_strlit("b");
        reveal_strlit("c");
        reveal_strlit("d");
        reveal_strlit("e");
        reveal_strlit("f");
    }
    let s: &'static str = match d {
        0 => "0",
        1 => "1",
        2 => "2",
        3 => "3",
        4 => "4",
        5 => "5",
        6 => "6",
        7 => "7",
        8 => "8",
        9 => "9",
        10 => "a",
        11 => "b",
        12 => "c",
        13 => "d",
        14 => "e",
        _ => "f",
    };
    assert(s@ =~= seq![digit(d as int)]);
    s
}

/// Appends the decimal numeral of `n`.
pub fn push_decimal(out: &mut String, n: u64)
    ensures
        final(out)@ == old(out)@ + decimal(n as nat),
    decreases n,
{
    if n >= 10 {
        push_decimal(out, n / 10);
    }
    let ghost before = out@;
    out.append(digit_text((n % 10) as u8));
    assert(out@ =~= old(out)@ + decimal(n as nat));
}

/// Appends the decimal numeral of `v`.
pub fn push_signed(out: &mut String, v: i64)
    ensures
        final(out)@ == old(out)@ + signed_decimal(v as int),
{
    if v < 0 {
        proof {
            reveal_strlit("-");
            assert("-"@ =~= seq!['-']);
        }
        out.append("-");
        let magnitude: u64 = ((-(v + 1)) as u64) + 1;
        push_decimal(out, magnitude);
        assert(out@ =~= old(out)@ + signed_decimal(v as int));
    } else {
        push_decimal(out, v as u64);
    }
}

/// Appends `width` hexadecimal digits of `n`.
pub fn push_hex(out: &mut String, n: u64, width: usize)
    ensures
        final(out)@ == old(out)@ + hex(n as nat, width as nat),
    decreases width,
{
    if width > 0 {
        push_hex(out, n / 16, width - 1);
        out.append(digit_text((n % 16) as u8));
    }
    assert(out@ =~= old(out)@ + hex(n as nat, width as nat));
}

/// A numeral has at least one digit and no digit is a sign.
pub proof fn lemma_decimal_digits(n: nat)
    ensures
        decimal(n).len() >= 1,
        forall|i: int| 0 <= i < decimal(n).len() ==> '0' <= #[trigger] decimal(n)[i] <= '9',
    decreases n,
{
    if n >= 10 {
        lemma_decimal_digits(n / 10);
    }
}

/// Different numbers have different decimal numerals.
pub proof fn lemma_decimal_injective(a: nat, b: nat)
    requires
        decimal(a) == decimal(b),
    ensures
        a == b,
    decreases a,
{
    lemma_decimal_digits(a / 10);
    lemma_decimal_digits(b / 10);
    assert(decimal(a).last() == digit((a % 10) as int));
    assert(decimal(b).last() == digit((b % 10) as int));
    assert(decimal(a).drop_last() =~= if a < 10 {
        Seq::empty()
    } else {
        decimal(a / 10)
    });
    assert(decimal(b).drop_last() =~= if b < 10 {
        Seq::empty()
    } else {
        decimal(b / 10)
    });
    if a >= 10 && b >= 10 {
        lemma_decimal_injective(a / 10, b / 10);
    }
}

/// Different signed numbers have different decimal numerals.
pub proof fn lemma_signed_decimal_injective(a: int, b: int)
    requires
        signed_decimal(a) == signed_decimal(b),
    ensures
        a == b,
{
    if a >= 0 {
        lemma_decimal_digits(a as nat);
        assert('0' <= decimal(a as nat)[0]);
    }
    if b >= 0 {
        lemma_decimal_digits(b as nat);
        assert('0' <= decimal(b as nat)[0]);
    }
    if a < 0 {
        assert(signed_decimal(a)[0] == '-');
        assert(signed_decimal(a).subrange(1, signed_decimal(a).len() as int) =~= decimal(
            (-a) as nat,
        ));
    }
    if b < 0 {
        assert(signed_decimal(b)[0] == '-');
        assert(signed_decimal(b).subrange(1, signed_decimal(b).len() as int) =~= decimal(
            (-b) as nat,
        ));
    }
    if a < 0 && b < 0 {
        lemma_decimal_injective((-a) as nat, (-b) as nat);
    } else if a >= 0 && b >= 0 {
        lemma_decimal_injective(a as nat, b as nat);
    }
}

/// `16` to the power `n`.
pub open spec fn pow16(n: nat) -> nat
    decreases n,
{
    if n == 0 {
        1
    } else {
        16 * pow16((n - 1) as nat)
    }
}

/// Numbers of `width` hexadecimal digits differ where their digits do.
pub proof fn lemma_hex_injective(a: nat, b: nat, width: nat)
    requires
        a < pow16(width),
        b < pow16(width),
        hex(a, width) == hex(b, width),
    ensures
        a == b,
    decreases width,
{
    if width > 0 {
        let w: nat = (width - 1) as nat;
        assert(hex(a, width).last() == digit((a % 16) as int));
        assert(hex(b, width).last() == digit((b % 16) as int));
        assert(hex(a, width).drop_last() =~= hex(a / 16, w));
        assert(hex(b, width).drop_last() =~= hex(b / 16, w));
        lemma_hex_injective(a / 16, b / 16, w);
    }
}

/// As many digits as asked for.
pub proof fn lemma_hex_len(n: nat, width: nat)
    ensures
        hex(n, width).len() == width,
    decreases width,
{
    if width > 0 {
        lemma_hex_len(n / 16, (width - 1) as nat);
    }
}

/// The value of a digit.
pub open spec fn digit_value(c: char) -> Option<nat> {
    if '0' <= c <= '9' {
        Some((c as u32 - 48) as nat)
    } else if 'a' <= c <= 'f' {
        Some((c as u32 - 87) as nat)
    } else {
        None
    }
}

/// The number that digits spell in a base; none where one is no digit of it.
pub open spec fn numeral_value(s: Seq<char>, base: nat) -> Option<nat>
    decreases s.len(),
{
    if s.len() == 0 {
        Some(0)
    } else {
        match (numeral_value(s.drop_last(), base), digit_value(s.last())) {
            (Some(v), Some(d)) => if d < base {
                Some(v * base + d)
            } else {
                None
            },
            _ => None,
        }
    }
}

/// A digit has its value.
proof fn lemma_digit_value(d: int)
    requires
        0 <= d < 16,
    ensures
        digit_value(digit(d)) == Some(d as nat),
{
}

/// A decimal numeral spells its number.
pub proof fn lemma_decimal_value(n: nat)
    ensures
        numeral_value(decimal(n), 10) == Some(n),
    decreases n,
{
    lemma_digit_value((n % 10) as int);
    if n < 10 {
        let s = seq![digit(n as int)];
        assert(s.drop_last() =~= Seq::<char>::empty());
        assert(numeral_value(s.drop_last(), 10) == Some(0nat));
        assert(s.last() == digit(n as int));
        assert(n % 10 == n);
    } else {
        lemma_decimal_value(n / 10);
        assert(decimal(n).drop_last() =~= decimal(n / 10));
    }
}

/// A hexadecimal numeral spells its number.
pub proof fn lemma_hex_value(n: nat, width: nat)
    requires
        n < pow16(width),
    ensures
        numeral_value(hex(n, width), 16) == Some(n),
    decreases width,
{
    if width > 0 {
        lemma_digit_value((n % 16) as int);
        lemma_hex_value(n / 16, (width - 1) as nat);
        assert(hex(n, width).drop_last() =~= hex(n / 16, (width - 1) as nat));
    }
}

/// More digits never spell less.
proof fn lemma_numeral_grows(s: Seq<char>, base: nat, k: int)
    requires
        0 <= k <= s.len(),
        base >= 1,
        numeral_value(s, base) is Some,
    ensures
        numeral_value(s.take(k), base) is Some,
        numeral_value(s.take(k), base)->0 <= numeral_value(s, base)->0,
    decreases s.len() - k,
{
    if k == s.len() {
        assert(s.take(k) =~= s);
    } else {
        lemma_numeral_grows(s, base, k + 1);
        assert(s.take(k + 1).drop_last() =~= s.take(k));
        let v = numeral_value(s.take(k), base)->0;
        assert(v <= v * base) by (nonlinear_arith)
            requires
                base >= 1,
        ;
    }
}

/// The number that characters `from..to` spell in a base; none where one is no
/// digit of it, or the number has more than 64 bits.
pub fn read_numeral(s: &[char], from: usize, to: usize, base: u64) -> (v: Option<u64>)
    requires
        from <= to <= s@.len(),
        1 <= base <= 16,
    ensures
        match numeral_value(s@.subrange(from as int, to as int), base as nat) {
            Some(n) => v == if n <= u64::MAX {
                Some(n as u64)
            } else {
                None
            },
            None => v is None,
        },
{
    let ghost whole = s@.subrange(from as int, to as int);
    let mut v: u64 = 0;
    let mut i: usize = from;
    assert(whole.take(0) =~= Seq::<char>::empty());
    while i < to
        invariant
            from <= i <= to <= s@.len(),
            1 <= base <= 16,
            whole == s@.subrange(from as int, to as int),
            numeral_value(whole.take(i - from), base as nat) == Some(v as nat),
        decreases to - i,
    {
        let c: char = s[i];
        let ghost k = i - from;
        proof {
            assert(whole.take(k + 1).drop_last() =~= whole.take(k));
            assert(whole.take(k + 1).last() == c);
            if numeral_value(whole, base as nat) is Some {
                lemma_numeral_grows(whole, base as nat, k + 1);
            }
        }
        let d: u64 = if '0' <= c && c <= '9' {
            c as u64 - 48
        } else if 'a' <= c && c <= 'f' {
            c as u64 - 87
        } else {
            return None;
        };
        if d >= base {
            return None;
        }
        proof {
            assert(v * base <= 0xffff_ffff_ffff_ffff * 16) by (nonlinear_arith)
                requires
                    v <= 0xffff_ffff_ffff_ffff,
                    base <= 16,
            ;
        }
        let wide: u128 = v as u128 * base as u128 + d as u128;
        if wide > u64::MAX as u128 {
            return None;
        }
        v = wide as u64;
        i = i + 1;
    }
    assert(whole.take(to - from) =~= whole);
    Some(v)
}

// ── Tags ────────────────────────────────────────────────────────────
/// The `key = value` pairs that a list of tags stands for.
pub open spec fn pairs(tags: Seq<(&str, &str)>) -> Seq<(Seq<char>, Seq<char>)> {
    tags.map_values(|t: (&str, &str)| (t.0@, t.1@))
}

/// The value of the first tag with this key.
pub open spec fn value_of(tags: Seq<(Seq<char>, Seq<char>)>, key: Seq<char>) -> Option<Seq<char>>
    decreases tags.len(),
{
    if tags.len() == 0 {
        None
    } else if tags[0].0 == key {
        Some(tags[0].1)
    } else {
        value_of(tags.subrange(1, tags.len() as int), key)
    }
}

/// Whether any tag has this key.
pub open spec fn has_key(tags: Seq<(Seq<char>, Seq<char>)>, key: Seq<char>) -> bool {
    value_of(tags, key) is Some
}

/// The value of `key`, if the tags carry it: that of the first tag where it
/// occurs twice.
pub fn tag<'a>(tags: &[(&'a str, &'a str)], key: &str) -> (v: Option<&'a str>)
    ensures
        match v {
            Some(text) => value_of(pairs(tags@), key@) == Some(text@),
            None => value_of(pairs(tags@), key@) is None,
        },
{
    let ghost all = pairs(tags@);
    let n: usize = tags.len();
    let mut i: usize = 0;
    assert(all.subrange(0, n as int) =~= all);
    while i < n
        invariant
            i <= n,
            n == tags@.len(),
            all == pairs(tags@),
            value_of(all, key@) == value_of(all.subrange(i as int, n as int), key@),
        decreases n - i,
    {
        proof {
            let rest = all.subrange(i as int, n as int);
            assert(rest[0] == (tags@[i as int].0@, tags@[i as int].1@));
            assert(rest.subrange(1, rest.len() as int) =~= all.subrange(i + 1, n as int));
        }
        if same_text(tags[i].0, key) {
            return Some(tags[i].1);
        }
        i = i + 1;
    }
    None
}

/// A key has the value of the first tag that carries it, and none where no tag does.
pub proof fn law_first_tag_counts(tags: Seq<(Seq<char>, Seq<char>)>, key: Seq<char>, at: int)
    ensures
        value_of(tags, key) is None <==> forall|i: int|
            0 <= i < tags.len() ==> (#[trigger] tags[i]).0 != key,
        0 <= at < tags.len() && tags[at].0 == key && (forall|i: int|
            0 <= i < at ==> (#[trigger] tags[i]).0 != key) ==> value_of(tags, key) == Some(
            tags[at].1,
        ),
    decreases tags.len(),
{
    if tags.len() > 0 && tags[0].0 != key {
        let rest = tags.subrange(1, tags.len() as int);
        assert forall|i: int| 0 <= i < rest.len() implies #[trigger] rest[i] == tags[i + 1] by {}
        assert forall|i: int| 1 <= i < tags.len() implies #[trigger] tags[i] == rest[i - 1] by {}
        law_first_tag_counts(rest, key, at - 1);
    }
}

/// What stands before or behind other tags of a key does not change what another key
/// says: only the tags of the key itself count.
pub proof fn law_other_keys_do_not_matter(
    front: Seq<(Seq<char>, Seq<char>)>,
    back: Seq<(Seq<char>, Seq<char>)>,
    key: Seq<char>,
)
    ensures
        value_of(front + back, key) == match value_of(front, key) {
            Some(v) => Some(v),
            None => value_of(back, key),
        },
    decreases front.len(),
{
    let all = front + back;
    if front.len() == 0 {
        assert(all =~= back);
    } else if front[0].0 != key {
        let rest = front.subrange(1, front.len() as int);
        assert(all.subrange(1, all.len() as int) =~= rest + back);
        law_other_keys_do_not_matter(rest, back, key);
    }
}

/// A value that a key has is that of one of its tags.
pub proof fn law_values_are_of_tags(tags: Seq<(Seq<char>, Seq<char>)>, key: Seq<char>)
    ensures
        value_of(tags, key) matches Some(v) ==> tags.contains((key, v)),
    decreases tags.len(),
{
    if tags.len() > 0 {
        if tags[0].0 == key {
            assert(tags[0] == (key, tags[0].1));
        } else {
            let rest = tags.subrange(1, tags.len() as int);
            law_values_are_of_tags(rest, key);
            if let Some(v) = value_of(rest, key) {
                let i = choose|i: int| 0 <= i < rest.len() && rest[i] == (key, v);
                assert(tags[i + 1] == (key, v));
            }
        }
    }
}

/// A value that a key has is that of the first tag with the key.
pub proof fn law_value_has_a_first_tag(tags: Seq<(Seq<char>, Seq<char>)>, key: Seq<char>)
    ensures
        value_of(tags, key) matches Some(v) ==> exists|at: int|
            0 <= at < tags.len() && #[trigger] tags[at] == (key, v) && forall|i: int|
                0 <= i < at ==> (#[trigger] tags[i]).0 != key,
    decreases tags.len(),
{
    if tags.len() > 0 {
        if tags[0].0 == key {
            assert(tags[0] == (key, tags[0].1));
        } else {
            let rest = tags.subrange(1, tags.len() as int);
            law_value_has_a_first_tag(rest, key);
            if let Some(v) = value_of(rest, key) {
                let at = choose|at: int|
                    0 <= at < rest.len() && #[trigger] rest[at] == (key, v) && forall|i: int|
                        0 <= i < at ==> (#[trigger] rest[i]).0 != key;
                assert(tags[at + 1] == (key, v));
                assert forall|i: int| 0 <= i < at + 1 implies (#[trigger] tags[i]).0 != key by {
                    if i > 0 {
                        assert(rest[i - 1] == tags[i]);
                    }
                }
            }
        }
    }
}

/// A key is there exactly where a tag carries it.
pub proof fn law_a_key_is_there(tags: Seq<(Seq<char>, Seq<char>)>, key: Seq<char>)
    ensures
        has_key(tags, key) <==> exists|i: int| 0 <= i < tags.len() && (#[trigger] tags[i]).0 == key,
{
    law_first_tag_counts(tags, key, 0);
}

/// Tags are read as the texts they are given as, key and value, one for one.
pub proof fn law_tags_are_read_as_given(tags: Seq<(&str, &str)>, i: int)
    requires
        0 <= i < tags.len(),
    ensures
        pairs(tags).len() == tags.len(),
        pairs(tags)[i].0 == tags[i].0@,
        pairs(tags)[i].1 == tags[i].1@,
{
}

/// A numeral is written with the digits `0` to `9` and `a` to `f`, the most significant
/// first and without zeros in front, and a minus where the number is negative.
pub proof fn law_numerals(n: nat, d: int, width: nat)
    ensures
        0 <= d < 10 ==> digit(d) as nat == '0' as nat + d,
        10 <= d < 16 ==> digit(d) as nat == 'a' as nat + (d - 10),
        n > 0 ==> decimal(n)[0] != '0',
        decimal(0) == seq!['0'],
        decimal(10 * n + 7).last() == '7',
        n > 0 ==> decimal(10 * n + 7).drop_last() == decimal(n),
        n > 0 ==> signed_decimal(-n) == seq!['-'] + decimal(n),
        signed_decimal(n as int) == decimal(n),
        hex(16 * n + 10, width + 1) == hex(n, width).push('a'),
    decreases n,
{
    if n >= 10 {
        law_numerals(n / 10, d, width);
        lemma_decimal_digits(n / 10);
    }
    assert((10 * n + 7) / 10 == n && (10 * n + 7) % 10 == 7);
    assert((16 * n + 10) / 16 == n && (16 * n + 10) % 16 == 10);
    assert(digit(7) == '7' && digit(10) == 'a');
    if n > 0 {
        assert(decimal(10 * n + 7).drop_last() =~= decimal(n));
    } else {
        assert(decimal(7) =~= seq!['7']);
    }
    assert(decimal(0) =~= seq!['0']);
}

} // verus!
