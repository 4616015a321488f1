//! LEB128 varints and the zigzag map.

use vstd::prelude::*;

verus! {

/// The base-128 digits of `v`, least significant first, the continuation bit
/// set on all but the last.
pub open spec fn leb(v: nat) -> Seq<u8>
    decreases v,
{
    if v < 128 {
        seq![v as u8]
    } else {
        seq![(v % 128 + 128) as u8] + leb(v / 128)
    }
}

/// The number spelled at `pos`, of any length, and the offset behind it; none
/// where the bytes end before a byte without the continuation bit.
pub open spec fn digits_at(s: Seq<u8>, pos: int) -> Option<(nat, int)>
    decreases s.len() - pos,
{
    if pos < 0 || pos >= s.len() {
        None
    } else if s[pos] < 128 {
        Some((s[pos] as nat, pos + 1))
    } else {
        match digits_at(s, pos + 1) {
            Some((rest, end)) => Some(((s[pos] - 128 + 128 * rest) as nat, end)),
            None => None,
        }
    }
}

/// The varint at `pos`: at most ten bytes, and a value that fits a `u64`.
pub open spec fn varint_at(s: Seq<u8>, pos: int) -> Option<(u64, int)> {
    match digits_at(s, pos) {
        Some((v, end)) if end - pos <= 10 && v <= u64::MAX => Some((v as u64, end)),
        _ => None,
    }
}

/// `128` to the power `n`.
spec fn pow128(n: nat) -> nat
    decreases n,
{
    if n == 0 {
        1
    } else {
        128 * pow128((n - 1) as nat)
    }
}

proof fn lemma_pow128_values()
    ensures
        pow128(0) == 1,
        pow128(9) == 0x8000_0000_0000_0000,
        pow128(10) == 0x40_0000_0000_0000_0000,
{
    reveal_with_fuel(pow128, 11);
}

proof fn lemma_pow128_monotone(a: nat, b: nat)
    requires
        a <= b,
    ensures
        pow128(a) <= pow128(b),
    decreases b,
{
    if a < b {
        lemma_pow128_monotone(a, (b - 1) as nat);
    }
}

/// What is spelled at `pos` ends behind `pos` and inside the bytes.
pub proof fn lemma_digits_end(s: Seq<u8>, pos: int)
    ensures
        digits_at(s, pos) matches Some((v, end)) ==> pos < end <= s.len(),
    decreases s.len() - pos,
{
    if 0 <= pos < s.len() && s[pos] >= 128 {
        lemma_digits_end(s, pos + 1);
    }
}

/// A number of `n` base-128 digits whose spelling takes `n` bytes.
proof fn lemma_leb_len(v: nat, n: nat)
    requires
        n >= 1,
        v < pow128(n),
    ensures
        1 <= leb(v).len() <= n,
    decreases n,
{
    if v >= 128 {
        if n == 1 {
            reveal_with_fuel(pow128, 2);
        } else {
            lemma_leb_len(v / 128, (n - 1) as nat);
        }
    }
}

/// A 64-bit number takes at most ten bytes.
pub proof fn lemma_word_len(v: nat)
    requires
        v <= u64::MAX,
    ensures
        1 <= leb(v).len() <= 10,
{
    lemma_pow128_values();
    lemma_leb_len(v, 10);
}

/// Where `s` holds the spelling of `v`, the reader finds `v` and stops behind
/// it.
pub proof fn lemma_digits_of_leb(s: Seq<u8>, pos: int, v: nat)
    requires
        0 <= pos,
        pos + leb(v).len() <= s.len(),
        s.subrange(pos, pos + leb(v).len()) == leb(v),
    ensures
        digits_at(s, pos) == Some((v, pos + leb(v).len())),
    decreases v,
{
    let w = leb(v);
    let sub = s.subrange(pos, pos + w.len());
    if v < 128 {
        assert(sub[0] == s[pos]);
    } else {
        let rest = leb(v / 128);
        assert(w.len() == rest.len() + 1);
        assert(sub[0] == s[pos]);
        assert(w[0] == (v % 128 + 128) as u8);
        assert(s.subrange(pos + 1, pos + 1 + rest.len()) =~= rest) by {
            assert forall|i: int| 0 <= i < rest.len() implies s[pos + 1 + i] == rest[i] by {
                assert(sub[i + 1] == s[pos + 1 + i]);
                assert(w[i + 1] == rest[i]);
            }
        }
        lemma_digits_of_leb(s, pos + 1, v / 128);
    }
}

/// No spelling of a number is shorter than its own, and no other is as short.
pub proof fn lemma_leb_is_shortest(s: Seq<u8>, pos: int)
    requires
        digits_at(s, pos) is Some,
    ensures
        ({
            let (v, end) = digits_at(s, pos)->0;
            &&& pos + leb(v).len() <= end <= s.len()
            &&& pos + leb(v).len() == end ==> s.subrange(pos, end) == leb(v)
        }),
    decreases s.len() - pos,
{
    let (v, end) = digits_at(s, pos)->0;
    lemma_digits_end(s, pos);
    if s[pos] < 128 {
        assert(s.subrange(pos, end) =~= seq![s[pos]]);
    } else {
        lemma_leb_is_shortest(s, pos + 1);
        let (rest, e) = digits_at(s, pos + 1)->0;
        if v < 128 {
            assert(rest == 0);
        } else {
            assert(v / 128 == rest);
            assert(v % 128 + 128 == s[pos]);
            if pos + leb(v).len() == end {
                assert(s.subrange(pos, end) =~= seq![s[pos]] + s.subrange(pos + 1, end));
            }
        }
    }
}

/// A `u64` is read back from its varint.
pub proof fn law_varint_round_trip(s: Seq<u8>, pos: int, v: u64)
    requires
        0 <= pos,
        pos + leb(v as nat).len() <= s.len(),
        s.subrange(pos, pos + leb(v as nat).len()) == leb(v as nat),
    ensures
        varint_at(s, pos) == Some((v, pos + leb(v as nat).len())),
{
    lemma_pow128_values();
    lemma_leb_len(v as nat, 10);
    lemma_digits_of_leb(s, pos, v as nat);
}

/// Appends the varint of `v`.
pub fn put_varint(out: &mut Vec<u8>, v: u64)
    ensures
        final(out)@ == old(out)@ + leb(v as nat),
{
    let mut rest: u64 = v;
    while rest >= 128
        invariant
            out@ + leb(rest as nat) == old(out)@ + leb(v as nat),
        decreases rest,
    {
        let ghost before = out@;
        out.push((rest % 128 + 128) as u8);
        proof {
            assert(out@ + leb((rest / 128) as nat) =~= before + leb(rest as nat));
        }
        rest = rest / 128;
    }
    let ghost before = out@;
    out.push(rest as u8);
    assert(out@ =~= before + leb(rest as nat));
}

/// How the rest of a varint continues what was read of it.
spec fn continues(s: Seq<u8>, start: int, pos: int, acc: nat, scale: nat) -> bool {
    digits_at(s, start) == match digits_at(s, pos) {
        Some((w, end)) => Some((acc + scale * w, end)),
        None => None,
    }
}

/// Reads the varint at `pos`: its value and the offset behind it. None where
/// the bytes end inside it or it exceeds a `u64`.
pub fn get_varint(bytes: &[u8], pos: usize) -> (r: Option<(u64, usize)>)
    ensures
        match varint_at(bytes@, pos as int) {
            Some((v, end)) => r matches Some((value, next)) && value == v && next == end && pos < end
                <= bytes@.len(),
            None => r is None,
        },
{
    let total: usize = bytes.len();
    let mut acc: u64 = 0;
    let mut scale: u64 = 1;
    let mut i: usize = 0;
    proof {
        lemma_pow128_values();
        lemma_digits_end(bytes@, pos as int);
    }
    while i < 10
        invariant
            i <= 10,
            i > 0 ==> pos + i <= total,
            total == bytes@.len(),
            i < 10 ==> scale == pow128(i as nat),
            acc < pow128(i as nat),
            continues(bytes@, pos as int, pos + i, acc as nat, pow128(i as nat)),
            digits_at(bytes@, pos + i) matches Some((w, end)) ==> pos + i < end <= total,
        decreases 10 - i,
    {
        proof {
            lemma_pow128_values();
            lemma_digits_end(bytes@, pos + i);
        }
        if pos >= total || i >= total - pos {
            return None;
        }
        let b: u8 = bytes[pos + i];
        let digit: u64 = (b % 128) as u64;
        proof {
            lemma_pow128_monotone(i as nat, 9);
            if i < 9 {
                lemma_pow128_monotone(i as nat, 8);
                assert(pow128(9) == 128 * pow128(8));
            }
        }
        if i == 9 && digit > 1 {
            proof {
                assert(scale * digit >= scale * 2) by (nonlinear_arith)
                    requires
                        digit >= 2,
                ;
                if let Some((w, end)) = digits_at(bytes@, pos + i) {
                    assert(w >= digit);
                    assert(scale * w >= scale * digit) by (nonlinear_arith)
                        requires
                            w >= digit,
                    ;
                }
            }
            return None;
        }
        assert(acc + scale * digit <= u64::MAX && acc + scale * digit < pow128((i + 1) as nat)
            && scale * digit <= u64::MAX) by {
            if i == 9 {
                assert(scale * digit <= scale) by (nonlinear_arith)
                    requires
                        digit <= 1,
                ;
            } else {
                assert(scale * digit <= scale * 127) by (nonlinear_arith)
                    requires
                        digit <= 127,
                ;
            }
        }
        let next: u64 = acc + scale * digit;
        if b < 128 {
            return Some((next, pos + i + 1));
        }
        proof {
            match digits_at(bytes@, pos + i + 1) {
                Some((w, end)) => {
                    let s: nat = scale as nat;
                    let d: nat = digit as nat;
                    assert(s * (d + 128 * w) == s * d + (128 * s) * w) by (nonlinear_arith);
                },
                None => {},
            }
            lemma_digits_end(bytes@, pos + i + 1);
        }
        acc = next;
        if i < 9 {
            scale = scale * 128;
        }
        i = i + 1;
    }
    None
}

/// How many bytes the varint of `v` takes.
pub fn varint_len(v: u64) -> (n: usize)
    ensures
        n == leb(v as nat).len(),
        1 <= n <= 10,
{
    proof {
        lemma_pow128_values();
        lemma_leb_len(v as nat, 10);
    }
    let mut n: usize = 1;
    let mut rest: u64 = v;
    while rest >= 128
        invariant
            1 <= n,
            n - 1 + leb(rest as nat).len() == leb(v as nat).len(),
            leb(v as nat).len() <= 10,
        decreases rest,
    {
        rest = rest / 128;
        n = n + 1;
    }
    n
}

// ── Zigzag ──────────────────────────────────────────────────────────
/// `0, -1, 1, -2, 2, ..` to `0, 1, 2, 3, 4, ..`: a delta costs by its magnitude,
/// not by its sign.
pub open spec fn zigzagged(v: int) -> nat {
    if v >= 0 {
        (2 * v) as nat
    } else {
        (-2 * v - 1) as nat
    }
}

/// The inverse of [`zigzagged`].
pub open spec fn unzigzagged(v: nat) -> int {
    if v % 2 == 0 {
        v as int / 2
    } else {
        -(v as int / 2) - 1
    }
}

/// The zigzag code of a signed number.
pub fn zigzag(v: i64) -> (r: u64)
    ensures
        r == zigzagged(v as int),
{
    if v >= 0 {
        2 * (v as u64)
    } else {
        2 * ((-(v + 1)) as u64) + 1
    }
}

/// The signed number of a zigzag code.
pub fn unzigzag(v: u64) -> (r: i64)
    ensures
        r == unzigzagged(v as nat),
{
    if v % 2 == 0 {
        (v / 2) as i64
    } else {
        -((v / 2) as i64) - 1
    }
}

/// Zigzag is a bijection between the `i64` and the `u64`.
pub proof fn law_zigzag_inverse(v: i64, u: u64)
    ensures
        zigzagged(v as int) <= u64::MAX,
        unzigzagged(zigzagged(v as int)) == v,
        i64::MIN <= unzigzagged(u as nat) <= i64::MAX,
        zigzagged(unzigzagged(u as nat)) == u,
{
}

/// `128` to the power `n`.
pub open spec fn weight(n: nat) -> nat
    decreases n,
{
    if n == 0 {
        1
    } else {
        128 * weight((n - 1) as nat)
    }
}

/// What the low seven bits of bytes spell, the first least significant.
pub open spec fn spells(s: Seq<u8>) -> nat
    decreases s.len(),
{
    if s.len() == 0 {
        0
    } else {
        spells(s.drop_last()) + (s.last() % 128) as nat * weight((s.len() - 1) as nat)
    }
}

proof fn lemma_spells_front(x: u8, s: Seq<u8>)
    ensures
        spells(seq![x] + s) == (x % 128) as nat + 128 * spells(s),
    decreases s.len(),
{
    let all = seq![x] + s;
    if s.len() == 0 {
        assert(all =~= seq![x]);
        assert(all.drop_last() =~= Seq::<u8>::empty());
        reveal_with_fuel(spells, 2);
        assert(weight(0) == 1);
        assert((x % 128) as nat * 1 == (x % 128) as nat);
    } else {
        let t = s.drop_last();
        assert(all.drop_last() =~= seq![x] + t);
        lemma_spells_front(x, t);
        let (d, w) = ((s.last() % 128) as nat, weight((s.len() - 1) as nat));
        assert(weight(s.len()) == 128 * w);
        assert(d * (128 * w) == 128 * (d * w)) by (nonlinear_arith);
        assert(128 * (spells(t) + d * w) == 128 * spells(t) + 128 * (d * w)) by (nonlinear_arith);
    }
}

/// A varint spells its number in sevens of bits, least significant first. All its bytes but
/// the last have the high bit, the last has not, and it is as short as can be.
pub proof fn law_varints_spell_their_number(v: nat)
    ensures
        leb(v).len() > 0,
        spells(leb(v)) == v,
        leb(v).last() < 128,
        forall|i: int| 0 <= i < leb(v).len() - 1 ==> #[trigger] leb(v)[i] >= 128,
        v < weight(leb(v).len()),
        leb(v).len() > 1 ==> v >= weight((leb(v).len() - 1) as nat),
    decreases v,
{
    if v < 128 {
        assert(leb(v) =~= seq![v as u8] + Seq::<u8>::empty());
        lemma_spells_front(v as u8, Seq::empty());
        reveal_with_fuel(weight, 2);
    } else {
        let rest = leb(v / 128);
        law_varints_spell_their_number(v / 128);
        lemma_spells_front((v % 128 + 128) as u8, rest);
        assert(leb(v).last() == rest.last());
        assert forall|i: int| 0 <= i < leb(v).len() - 1 implies #[trigger] leb(v)[i] >= 128 by {
            if i > 0 {
                assert(leb(v)[i] == rest[i - 1]);
            }
        }
        let w = weight((rest.len() - 1) as nat);
        assert(weight(rest.len()) == 128 * w);
        if rest.len() == 1 {
            assert(weight(0) == 1);
        }
    }
}

/// Zigzag goes by magnitude: what is nearer to 0 has the smaller code, a number and its
/// negative have neighbouring ones, and 0 has 0.
pub proof fn law_zigzag_goes_by_magnitude(v: int, w: int)
    ensures
        zigzagged(0) == 0,
        v > 0 ==> zigzagged(v) == 2 * v && zigzagged(-v) == 2 * v - 1,
        0 <= v < w ==> zigzagged(v) < zigzagged(-w) < zigzagged(w),
{
}

} // verus!
