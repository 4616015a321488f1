//! The baked row: `key(16) | edges(16) | value(480)`, 512 bytes.
//!
//! The value region is thirty slots of sixteen bytes. Slots are numbered over
//! the whole row, so that the key is slot 0, the edges are slot 1 and the value
//! region starts at slot 2.

use crate::bytes::{
    le_at, le_bytes, lemma_le_bytes_len, lemma_le_round_trip, lemma_pow256_widths, push_slice,
    push_u16, push_u32, read_u16, read_u32,
};
use crate::tms::{code_of_tiers, law_tiers_inverse, tiers, Tiers};
use vstd::prelude::*;

verus! {

/// Bytes per row.
pub const NODE_ROW_STRIDE: usize = 512;

/// Bytes per slot.
pub const SLOT_BYTES: usize = 16;

/// Slots per row.
pub const ROW_SLOTS: usize = 32;

/// Slots that are not value slots: the key and the edges.
pub const RESERVED_SLOTS: usize = 2;

/// The slot of the identity facet: the first value slot.
pub const GEO_IDENTITY_SLOT: usize = 2;

/// The slot reserved for a slope. No tag is ever written there.
pub const GEO_SLOPE_SLOT: usize = 3;

// ── Writing into fixed arrays ───────────────────────────────────────
/// `s` with `b` written over it from offset `at` on.
pub open spec fn overwritten(s: Seq<u8>, at: int, b: Seq<u8>) -> Seq<u8> {
    Seq::new(
        s.len(),
        |i: int|
            if at <= i < at + b.len() {
                b[i - at]
            } else {
                s[i]
            },
    )
}

/// Writes `b` into `a` from offset `at` on.
pub fn put<const N: usize>(a: &mut [u8; N], at: usize, b: &[u8])
    requires
        at + b@.len() <= N,
    ensures
        final(a)@ == overwritten(old(a)@, at as int, b@),
{
    let mut i: usize = 0;
    assert(a@ =~= overwritten(old(a)@, at as int, b@.take(0)));
    while i < b.len()
        invariant
            i <= b@.len(),
            at + b@.len() <= N,
            a@.len() == N,
            old(a)@.len() == N,
            a@ == overwritten(old(a)@, at as int, b@.take(i as int)),
        decreases b@.len() - i,
    {
        a[at + i] = b[i];
        assert(a@ =~= overwritten(old(a)@, at as int, b@.take(i + 1)));
        i = i + 1;
    }
    assert(b@.take(b@.len() as int) =~= b@);
}

/// What was written is there, and nothing else changed.
pub proof fn lemma_overwritten(s: Seq<u8>, at: int, b: Seq<u8>)
    requires
        0 <= at,
        at + b.len() <= s.len(),
    ensures
        overwritten(s, at, b).len() == s.len(),
        overwritten(s, at, b).subrange(at, at + b.len()) == b,
{
    assert(overwritten(s, at, b).subrange(at, at + b.len()) =~= b);
}

/// A range outside the written one is as it was.
pub proof fn lemma_not_overwritten(s: Seq<u8>, at: int, b: Seq<u8>, from: int, to: int)
    requires
        0 <= at,
        at + b.len() <= s.len(),
        0 <= from <= to <= s.len(),
        to <= at || at + b.len() <= from,
    ensures
        overwritten(s, at, b).subrange(from, to) == s.subrange(from, to),
{
    assert(overwritten(s, at, b).subrange(from, to) =~= s.subrange(from, to));
}

// ── The key ─────────────────────────────────────────────────────────
/// A row key: `classid(4) | heel(2) | hip(2) | twig(2) | leaf(2) | family(2) |
/// identity(2)`.
#[derive(Debug, Clone, Copy, PartialEq, Eq)]
pub struct NodeGuid {
    pub bytes: [u8; 16],
}

/// The bytes of a key.
pub open spec fn key_wire(classid: u32, t: Tiers, family: u16, identity: u16) -> Seq<u8> {
    le_bytes(classid as nat, 4) + (le_bytes(t.heel as nat, 2) + (le_bytes(t.hip as nat, 2) + (
    le_bytes(t.twig as nat, 2) + (le_bytes(t.leaf as nat, 2) + (le_bytes(family as nat, 2)
        + le_bytes(identity as nat, 2))))))
}

/// The class that key bytes carry.
pub open spec fn key_classid(b: Seq<u8>) -> nat {
    le_at(b, 0, 4)
}

/// The Morton code that the four tiers in key bytes spell.
pub open spec fn key_code(b: Seq<u8>) -> nat {
    le_at(b, 4, 2) * 0x1_0000_0000_0000 + le_at(b, 6, 2) * 0x1_0000_0000 + le_at(b, 8, 2) * 0x1_0000
        + le_at(b, 10, 2)
}

/// The collision counter that key bytes carry.
pub open spec fn key_identity(b: Seq<u8>) -> nat {
    le_at(b, 14, 2)
}

impl NodeGuid {
    /// Mints a key.
    pub fn mint(classid: u32, t: Tiers, family: u16, identity: u16) -> (k: Self)
        ensures
            k.bytes@ == key_wire(classid, t, family, identity),
    {
        let mut v: Vec<u8> = Vec::new();
        push_u32(&mut v, classid);
        push_u16(&mut v, t.heel);
        push_u16(&mut v, t.hip);
        push_u16(&mut v, t.twig);
        push_u16(&mut v, t.leaf);
        push_u16(&mut v, family);
        push_u16(&mut v, identity);
        let mut bytes: [u8; 16] = [0; 16];
        proof {
            lemma_key_wire_len(classid, t, family, identity);
            assert(v@ =~= key_wire(classid, t, family, identity));
        }
        put(&mut bytes, 0, v.as_slice());
        assert(bytes@ =~= v@);
        NodeGuid { bytes }
    }

    /// The sixteen bytes.
    pub fn as_bytes(&self) -> (b: &[u8; 16])
        ensures
            b@ == self.bytes@,
    {
        &self.bytes
    }

    /// The class of the key.
    pub fn classid(&self) -> (c: u32)
        ensures
            c == key_classid(self.bytes@),
    {
        read_u32(self.bytes.as_slice(), 0)
    }

    /// The Morton code that the tiers of the key spell.
    pub fn code(&self) -> (code: u64)
        ensures
            code == key_code(self.bytes@),
    {
        let bytes: &[u8] = self.bytes.as_slice();
        let heel: u16 = read_u16(bytes, 4);
        let hip: u16 = read_u16(bytes, 6);
        let twig: u16 = read_u16(bytes, 8);
        let leaf: u16 = read_u16(bytes, 10);
        heel as u64 * 0x1_0000_0000_0000 + hip as u64 * 0x1_0000_0000 + twig as u64 * 0x1_0000
            + leaf as u64
    }
}

proof fn lemma_key_wire_len(classid: u32, t: Tiers, family: u16, identity: u16)
    ensures
        key_wire(classid, t, family, identity).len() == 16,
{
    lemma_le_bytes_len(classid as nat, 4);
    lemma_le_bytes_len(t.heel as nat, 2);
    lemma_le_bytes_len(t.hip as nat, 2);
    lemma_le_bytes_len(t.twig as nat, 2);
    lemma_le_bytes_len(t.leaf as nat, 2);
    lemma_le_bytes_len(family as nat, 2);
    lemma_le_bytes_len(identity as nat, 2);
}

/// A key gives back everything it was minted from: the class, all four tiers,
/// so the whole Morton code, and the collision counter.
pub proof fn law_key_round_trip(classid: u32, code: u64, family: u16, identity: u16)
    ensures
        ({
            let k = key_wire(classid, tiers(code), family, identity);
            &&& k.len() == 16
            &&& key_classid(k) == classid
            &&& key_code(k) == code
            &&& key_identity(k) == identity
        }),
{
    let t = tiers(code);
    let k = key_wire(classid, t, family, identity);
    lemma_pow256_widths();
    lemma_key_wire_len(classid, t, family, identity);
    lemma_le_round_trip(classid as nat, 4);
    lemma_le_round_trip(t.heel as nat, 2);
    lemma_le_round_trip(t.hip as nat, 2);
    lemma_le_round_trip(t.twig as nat, 2);
    lemma_le_round_trip(t.leaf as nat, 2);
    lemma_le_round_trip(family as nat, 2);
    lemma_le_round_trip(identity as nat, 2);
    assert(k.subrange(0, 4) =~= le_bytes(classid as nat, 4));
    assert(k.subrange(4, 6) =~= le_bytes(t.heel as nat, 2));
    assert(k.subrange(6, 8) =~= le_bytes(t.hip as nat, 2));
    assert(k.subrange(8, 10) =~= le_bytes(t.twig as nat, 2));
    assert(k.subrange(10, 12) =~= le_bytes(t.leaf as nat, 2));
    assert(k.subrange(14, 16) =~= le_bytes(identity as nat, 2));
    law_tiers_inverse(code, t);
    assert(key_code(k) == code_of_tiers(t));
}

// ── The row ─────────────────────────────────────────────────────────
/// One baked row.
#[derive(Debug, Clone, Copy, PartialEq, Eq)]
pub struct NodeRow {
    pub key: NodeGuid,
    pub edges: [u8; 16],
    pub value: [u8; 480],
}

/// The bytes of a row.
pub open spec fn row_wire(row: NodeRow) -> Seq<u8> {
    row.key.bytes@ + (row.edges@ + row.value@)
}

impl NodeRow {
    /// A row with this key and nothing else.
    pub fn with_key(key: NodeGuid) -> (row: Self)
        ensures
            row.key == key,
            row.edges@ == Seq::new(16, |i: int| 0u8),
            row.value@ == Seq::new(480, |i: int| 0u8),
    {
        let edges: [u8; 16] = [0; 16];
        let value: [u8; 480] = [0; 480];
        assert(edges@ =~= Seq::new(16, |i: int| 0u8));
        assert(value@ =~= Seq::new(480, |i: int| 0u8));
        NodeRow { key, edges, value }
    }

    /// Appends the 512 bytes of the row.
    pub fn push_to(&self, out: &mut Vec<u8>)
        ensures
            final(out)@ == old(out)@ + row_wire(*self),
            row_wire(*self).len() == 512,
    {
        push_slice(out, self.key.bytes.as_slice());
        push_slice(out, self.edges.as_slice());
        push_slice(out, self.value.as_slice());
        assert(out@ =~= old(out)@ + row_wire(*self));
    }
}

// ── Slots ───────────────────────────────────────────────────────────
/// Whether a slot is a value slot.
pub open spec fn is_value_slot(slot: int) -> bool {
    RESERVED_SLOTS <= slot < ROW_SLOTS
}

/// Where a value slot starts in the value region.
pub open spec fn slot_start(slot: int) -> int {
    (slot - 2) * 16
}

/// The sixteen bytes of a value slot.
pub open spec fn slot_of(value: Seq<u8>, slot: int) -> Seq<u8> {
    value.subrange(slot_start(slot), slot_start(slot) + 16)
}

/// Where slot `slot` starts in the value region; none for the key, the edges
/// and anything past the row.
pub fn slab_offset_of_slot(slot: usize) -> (at: Option<usize>)
    ensures
        match at {
            Some(off) => is_value_slot(slot as int) && off == slot_start(slot as int) && off + 16
                <= 480,
            None => !is_value_slot(slot as int),
        },
{
    if RESERVED_SLOTS <= slot && slot < ROW_SLOTS {
        Some((slot - RESERVED_SLOTS) * SLOT_BYTES)
    } else {
        None
    }
}

/// A row that differs from `old` in one value slot only, which holds `b`.
pub open spec fn slot_written(old: NodeRow, new: NodeRow, slot: int, b: Seq<u8>) -> bool {
    &&& new.key == old.key
    &&& new.edges == old.edges
    &&& new.value@ == overwritten(old.value@, slot_start(slot), b)
}

/// Writing a slot leaves every other slot as it was.
pub proof fn law_slots_are_disjoint(value: Seq<u8>, slot: int, b: Seq<u8>, other: int)
    requires
        value.len() == 480,
        b.len() == 16,
        is_value_slot(slot),
        is_value_slot(other),
    ensures
        slot_of(overwritten(value, slot_start(slot), b), slot) == b,
        slot != other ==> slot_of(overwritten(value, slot_start(slot), b), other) == slot_of(
            value,
            other,
        ),
{
    lemma_overwritten(value, slot_start(slot), b);
    if slot != other {
        lemma_not_overwritten(
            value,
            slot_start(slot),
            b,
            slot_start(other),
            slot_start(other) + 16,
        );
    }
}

/// The sixteen bytes of the slot that starts at `off`.
pub fn slot_bytes(row: &NodeRow, off: usize) -> (b: [u8; 16])
    requires
        off + 16 <= 480,
    ensures
        b@ == row.value@.subrange(off as int, off + 16),
{
    let mut b: [u8; 16] = [0; 16];
    let mut i: usize = 0;
    while i < 16
        invariant
            i <= 16,
            off + 16 <= 480,
            b@.len() == 16,
            forall|k: int| 0 <= k < i ==> #[trigger] b@[k] == row.value@[off + k],
        decreases 16 - i,
    {
        b[i] = row.value[off + i];
        i = i + 1;
    }
    assert(b@ =~= row.value@.subrange(off as int, off + 16));
    b
}

/// The layout of a key, byte by byte: class, four tiers coarse first, family, counter,
/// each least significant byte first.
pub proof fn law_key_layout(classid: u32, t: Tiers, family: u16, identity: u16)
    ensures
        ({
            let k = key_wire(classid, t, family, identity);
            &&& k.len() == 16
            &&& k[0] == classid % 256 && k[1] == (classid / 256) % 256
            &&& k[2] == (classid / 0x1_0000) % 256 && k[3] == classid / 0x100_0000
            &&& k[4] == t.heel % 256 && k[5] == t.heel / 256
            &&& k[6] == t.hip % 256 && k[7] == t.hip / 256
            &&& k[8] == t.twig % 256 && k[9] == t.twig / 256
            &&& k[10] == t.leaf % 256 && k[11] == t.leaf / 256
            &&& k[12] == family % 256 && k[13] == family / 256
            &&& k[14] == identity % 256 && k[15] == identity / 256
        }),
{
    reveal_with_fuel(le_bytes, 5);
}

/// A slot stands at sixteen times its number in the bytes of a row, the key and the edges
/// being the first two.
pub proof fn law_slots_stand_in_the_row(row: NodeRow, slot: int)
    requires
        2 <= slot < 32,
    ensures
        row_wire(row).len() == 512,
        row_wire(row).subrange(16 * slot, 16 * slot + 16) == slot_of(row.value@, slot),
        row_wire(row).subrange(0, 16) == row.key.bytes@,
        row_wire(row).subrange(16, 32) == row.edges@,
{
    let w = row_wire(row);
    assert(w.subrange(16 * slot, 16 * slot + 16) =~= slot_of(row.value@, slot));
    assert(w.subrange(0, 16) =~= row.key.bytes@);
    assert(w.subrange(16, 32) =~= row.edges@);
}

/// Writing over bytes changes those that are written, and leaves all others.
pub proof fn law_only_what_is_written_changes(s: Seq<u8>, at: int, b: Seq<u8>)
    requires
        0 <= at,
        at + b.len() <= s.len(),
    ensures
        overwritten(s, at, b) == s.take(at) + b + s.skip(at + b.len()),
{
    assert(overwritten(s, at, b) =~= s.take(at) + b + s.skip(at + b.len()));
}

/// The code of a key is spelled by its bytes 4 to 11: four tiers, the coarse one first,
/// each of them least significant byte first.
pub proof fn law_a_code_is_spelled_by_its_tiers(b: Seq<u8>)
    requires
        b.len() == 16,
    ensures
        key_code(b) == 0x1_0000_0000_0000 * (b[4] + 256 * b[5]) + 0x1_0000_0000 * (b[6] + 256
            * b[7]) + 0x1_0000 * (b[8] + 256 * b[9]) + (b[10] + 256 * b[11]),
        key_identity(b) == b[14] + 256 * b[15],
{
    reveal_with_fuel(crate::bytes::le_value, 3);
    assert(b.subrange(4, 6).subrange(1, 2).subrange(1, 1) =~= Seq::<u8>::empty());
    assert(b.subrange(6, 8).subrange(1, 2).subrange(1, 1) =~= Seq::<u8>::empty());
    assert(b.subrange(8, 10).subrange(1, 2).subrange(1, 1) =~= Seq::<u8>::empty());
    assert(b.subrange(10, 12).subrange(1, 2).subrange(1, 1) =~= Seq::<u8>::empty());
    assert(b.subrange(14, 16).subrange(1, 2).subrange(1, 1) =~= Seq::<u8>::empty());
}

} // verus!
