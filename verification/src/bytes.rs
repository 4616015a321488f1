//! Little-endian integers in byte sequences.
//!
//! Every artifact of a bake is little-endian, so one pair of specification
//! functions says what an integer field is: [`le_bytes`] for the writer and
//! [`le_value`] for the reader, each the inverse of the other.

use vstd::prelude::*;

verus! {

/// `256` to the power `n`: how many values `n` bytes can tell apart.
pub open spec fn pow256(n: nat) -> nat
    decreases n,
{
    if n == 0 {
        1
    } else {
        256 * pow256((n - 1) as nat)
    }
}

/// The `n` low bytes of `v`, least significant first.
pub open spec fn le_bytes(v: nat, n: nat) -> Seq<u8>
    decreases n,
{
    if n == 0 {
        Seq::empty()
    } else {
        seq![(v % 256) as u8] + le_bytes(v / 256, (n - 1) as nat)
    }
}

/// The number whose base-256 digits are `s`, least significant first.
pub open spec fn le_value(s: Seq<u8>) -> nat
    decreases s.len(),
{
    if s.len() == 0 {
        0
    } else {
        s[0] as nat + 256 * le_value(s.subrange(1, s.len() as int))
    }
}

/// The `n`-byte integer that `s` holds at offset `at`.
pub open spec fn le_at(s: Seq<u8>, at: int, n: int) -> nat {
    le_value(s.subrange(at, at + n))
}

/// `le_bytes` yields exactly the bytes it was asked for.
pub proof fn lemma_le_bytes_len(v: nat, n: nat)
    ensures
        le_bytes(v, n).len() == n,
    decreases n,
{
    if n > 0 {
        lemma_le_bytes_len(v / 256, (n - 1) as nat);
    }
}

/// A value that fits `n` bytes is read back from the bytes written for it.
pub proof fn lemma_le_round_trip(v: nat, n: nat)
    requires
        v < pow256(n),
    ensures
        le_value(le_bytes(v, n)) == v,
        le_bytes(v, n).len() == n,
    decreases n,
{
    lemma_le_bytes_len(v, n);
    if n > 0 {
        let m: nat = (n - 1) as nat;
        lemma_le_round_trip(v / 256, m);
        let s = le_bytes(v, n);
        lemma_le_bytes_len(v / 256, m);
        assert(s.subrange(1, s.len() as int) =~= le_bytes(v / 256, m));
        assert(s[0] as nat == v % 256);
    }
}

/// `n` bytes hold a value below [`pow256`]`(n)`.
pub proof fn lemma_le_value_bound(s: Seq<u8>)
    ensures
        le_value(s) < pow256(s.len()),
    decreases s.len(),
{
    if s.len() > 0 {
        lemma_le_value_bound(s.subrange(1, s.len() as int));
    }
}

/// The bytes of the value that `s` holds are `s` itself.
pub proof fn lemma_le_value_round_trip(s: Seq<u8>)
    ensures
        le_bytes(le_value(s), s.len()) == s,
    decreases s.len(),
{
    if s.len() > 0 {
        let rest = s.subrange(1, s.len() as int);
        lemma_le_value_round_trip(rest);
        assert(le_value(s) % 256 == s[0] as nat);
        assert(le_value(s) / 256 == le_value(rest));
        assert(le_bytes(le_value(s), s.len()) =~= s);
    } else {
        assert(le_bytes(le_value(s), s.len()) =~= s);
    }
}

/// The powers that the field widths of this crate need.
pub proof fn lemma_pow256_widths()
    ensures
        pow256(0) == 1,
        pow256(1) == 0x100,
        pow256(2) == 0x1_0000,
        pow256(3) == 0x100_0000,
        pow256(4) == 0x1_0000_0000,
        pow256(8) == 0x1_0000_0000_0000_0000,
{
    reveal_with_fuel(pow256, 9);
}

/// [`pow256`] grows with its argument.
pub proof fn lemma_pow256_monotone(a: nat, b: nat)
    requires
        a <= b,
    ensures
        pow256(a) <= pow256(b),
    decreases b,
{
    if a < b {
        lemma_pow256_monotone(a, (b - 1) as nat);
    }
}

/// Appends the `n` low bytes of `v`, least significant first.
pub fn push_le(out: &mut Vec<u8>, v: u64, n: usize)
    requires
        n <= 8,
    ensures
        final(out)@ == old(out)@ + le_bytes(v as nat, n as nat),
{
    let mut rest: u64 = v;
    let mut i: usize = 0;
    assert(out@ + le_bytes(rest as nat, n as nat) =~= old(out)@ + le_bytes(v as nat, n as nat));
    while i < n
        invariant
            i <= n,
            out@ + le_bytes(rest as nat, (n - i) as nat) == old(out)@ + le_bytes(
                v as nat,
                n as nat,
            ),
        decreases n - i,
    {
        let ghost before = out@;
        out.push((rest % 256) as u8);
        proof {
            assert(out@ + le_bytes((rest / 256) as nat, (n - i - 1) as nat) =~= before + le_bytes(
                rest as nat,
                (n - i) as nat,
            ));
        }
        rest = rest / 256;
        i = i + 1;
    }
    assert(out@ =~= out@ + le_bytes(rest as nat, 0));
}

/// Reads the `n`-byte integer at offset `at`.
pub fn read_le(bytes: &[u8], at: usize, n: usize) -> (v: u64)
    requires
        n <= 8,
        at + n <= bytes@.len(),
    ensures
        v == le_at(bytes@, at as int, n as int),
        v < pow256(n as nat),
{
    let total: usize = bytes.len();
    let mut acc: u64 = 0;
    let mut i: usize = n;
    proof {
        assert(bytes@.subrange(at + n, at + n) =~= Seq::<u8>::empty());
        lemma_pow256_widths();
    }
    while i > 0
        invariant
            i <= n <= 8,
            at + n <= bytes@.len(),
            total == bytes@.len(),
            acc == le_value(bytes@.subrange(at + i, at + n)),
            acc < pow256((n - i) as nat),
        decreases i,
    {
        proof {
            let s = bytes@.subrange(at + i - 1, at + n);
            assert(s.subrange(1, s.len() as int) =~= bytes@.subrange(at + i, at + n));
            lemma_pow256_widths();
            lemma_pow256_monotone((n - i + 1) as nat, 8);
            assert(pow256((n - i + 1) as nat) == 256 * pow256((n - i) as nat));
        }
        i = i - 1;
        acc = acc * 256 + bytes[at + i] as u64;
    }
    acc
}

/// Appends a `u16`.
pub fn push_u16(out: &mut Vec<u8>, v: u16)
    ensures
        final(out)@ == old(out)@ + le_bytes(v as nat, 2),
{
    push_le(out, v as u64, 2);
}

/// Appends a `u32`.
pub fn push_u32(out: &mut Vec<u8>, v: u32)
    ensures
        final(out)@ == old(out)@ + le_bytes(v as nat, 4),
{
    push_le(out, v as u64, 4);
}

/// Appends a `u64`.
pub fn push_u64(out: &mut Vec<u8>, v: u64)
    ensures
        final(out)@ == old(out)@ + le_bytes(v as nat, 8),
{
    push_le(out, v, 8);
}

/// The eight bytes of a `u64`.
pub fn u64_bytes(v: u64) -> (b: [u8; 8])
    ensures
        b@ == le_bytes(v as nat, 8),
{
    let mut b: [u8; 8] = [0; 8];
    let mut rest: u64 = v;
    let mut i: usize = 0;
    while i < 8
        invariant
            i <= 8,
            b@.len() == 8,
            b@.take(i as int) + le_bytes(rest as nat, (8 - i) as nat) == le_bytes(v as nat, 8),
        decreases 8 - i,
    {
        let ghost before = b@;
        b[i] = (rest % 256) as u8;
        proof {
            assert(b@.take(i + 1) =~= before.take(i as int).push((rest % 256) as u8));
            assert(b@.take(i + 1) + le_bytes((rest / 256) as nat, (8 - i - 1) as nat)
                =~= before.take(i as int) + le_bytes(rest as nat, (8 - i) as nat));
        }
        rest = rest / 256;
        i = i + 1;
    }
    assert(b@.take(8) =~= b@);
    assert(b@ =~= b@.take(8) + le_bytes(rest as nat, 0));
    b
}

/// Reads the `u16` at `at`.
pub fn read_u16(bytes: &[u8], at: usize) -> (v: u16)
    requires
        at + 2 <= bytes@.len(),
    ensures
        v == le_at(bytes@, at as int, 2),
{
    let v: u64 = read_le(bytes, at, 2);
    proof {
        lemma_pow256_widths();
    }
    v as u16
}

/// Reads the `u32` at `at`.
pub fn read_u32(bytes: &[u8], at: usize) -> (v: u32)
    requires
        at + 4 <= bytes@.len(),
    ensures
        v == le_at(bytes@, at as int, 4),
{
    let v: u64 = read_le(bytes, at, 4);
    proof {
        lemma_pow256_widths();
    }
    v as u32
}

/// Reads the `u64` at `at`.
pub fn read_u64(bytes: &[u8], at: usize) -> (v: u64)
    requires
        at + 8 <= bytes@.len(),
    ensures
        v == le_at(bytes@, at as int, 8),
{
    read_le(bytes, at, 8)
}

/// Appends a slice.
pub fn push_slice(out: &mut Vec<u8>, s: &[u8])
    ensures
        final(out)@ == old(out)@ + s@,
{
    let mut i: usize = 0;
    assert(out@ =~= old(out)@ + s@.take(0));
    while i < s.len()
        invariant
            i <= s@.len(),
            out@ == old(out)@ + s@.take(i as int),
        decreases s@.len() - i,
    {
        out.push(s[i]);
        proof {
            assert(s@.take(i + 1) =~= s@.take(i as int).push(s@[i as int]));
            assert(out@ =~= old(out)@ + s@.take(i + 1));
        }
        i = i + 1;
    }
    assert(s@.take(s@.len() as int) =~= s@);
}

/// The bytes `from..to` as a vector of their own.
pub fn copy_range(bytes: &[u8], from: usize, to: usize) -> (out: Vec<u8>)
    requires
        from <= to <= bytes@.len(),
    ensures
        out@ == bytes@.subrange(from as int, to as int),
{
    let mut out: Vec<u8> = Vec::new();
    let mut i: usize = from;
    assert(out@ =~= bytes@.subrange(from as int, from as int));
    while i < to
        invariant
            from <= i <= to <= bytes@.len(),
            out@ == bytes@.subrange(from as int, i as int),
        decreases to - i,
    {
        out.push(bytes[i]);
        proof {
            assert(bytes@.subrange(from as int, i + 1) =~= bytes@.subrange(
                from as int,
                i as int,
            ).push(bytes@[i as int]));
        }
        i = i + 1;
    }
    out
}

/// Byte `i` of a number is its digit of weight `256^i`: the least significant first.
pub proof fn law_bytes_are_digits(v: nat, n: nat, i: int)
    requires
        0 <= i < n,
    ensures
        le_bytes(v, n).len() == n,
        le_bytes(v, n)[i] == (v / pow256(i as nat)) % 256,
    decreases n,
{
    lemma_le_bytes_len(v, n);
    let rest = le_bytes(v / 256, (n - 1) as nat);
    if i > 0 {
        law_bytes_are_digits(v / 256, (n - 1) as nat, i - 1);
        lemma_pow256_is_positive((i - 1) as nat);
        vstd::arithmetic::div_mod::lemma_div_denominator(
            v as int,
            256,
            pow256((i - 1) as nat) as int,
        );
        assert(le_bytes(v, n)[i] == rest[i - 1]);
    } else {
        assert(pow256(0) == 1);
        assert(v / 1 == v);
    }
}

proof fn lemma_pow256_is_positive(n: nat)
    ensures
        pow256(n) > 0,
    decreases n,
{
    if n > 0 {
        lemma_pow256_is_positive((n - 1) as nat);
    }
}

/// A number is what its first bytes spell and what the others do, these as many places
/// up as there are bytes before them.
pub proof fn law_bytes_add_up(a: Seq<u8>, b: Seq<u8>, x: u8)
    ensures
        le_value(a + b) == le_value(a) + pow256(a.len()) * le_value(b),
        le_value(seq![x]) == x,
    decreases a.len(),
{
    reveal_with_fuel(le_value, 2);
    assert(seq![x].subrange(1, 1) =~= Seq::<u8>::empty());
    if a.len() == 0 {
        assert(a + b =~= b);
    } else {
        let r = a.subrange(1, a.len() as int);
        law_bytes_add_up(r, b, x);
        assert((a + b).subrange(1, (a + b).len() as int) =~= r + b);
        let (p, q) = (pow256(r.len()), le_value(b));
        assert(256 * (p * q) == (256 * p) * q) by (nonlinear_arith);
        assert(256 * (le_value(r) + p * q) == 256 * le_value(r) + 256 * (p * q))
            by (nonlinear_arith);
    }
}

} // verus!
