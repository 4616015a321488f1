//! The facet: `classid(4) | payload(12)`, and the identity quad that a payload
//! can hold.
//!
//! A quad is four 24-bit fields. A field stores an ordinal plus one, so that
//! zero means *absent* and ordinal 0 can still be stored.

use crate::bytes::{
    le_at, le_bytes, lemma_le_bytes_len, lemma_le_round_trip,
    lemma_pow256_widths, push_le, push_u32, read_le, read_u32,
};
use crate::node::put;
use vstd::prelude::*;

verus! {

/// The largest ordinal that a field can store.
pub const MAX_ORDINAL: u32 = 0xFF_FFFE;

/// How many ordinals there are.
pub const MAX_ENTRIES: usize = 0xFF_FFFF;

/// The number stored for an optional ordinal.
pub open spec fn raw_field(f: Option<u32>) -> nat {
    match f {
        Some(ordinal) => (ordinal + 1) as nat,
        None => 0,
    }
}

/// The optional ordinal that a stored number stands for.
pub open spec fn field_of_raw(raw: nat) -> Option<u32> {
    if raw == 0 {
        None
    } else {
        Some((raw - 1) as u32)
    }
}

/// Whether an optional ordinal can be stored.
pub open spec fn storable(f: Option<u32>) -> bool {
    f matches Some(ordinal) ==> ordinal <= MAX_ORDINAL
}

/// The sixteen bytes of a facet that holds a quad.
pub open spec fn facet_wire(classid: nat, quad: Seq<Option<u32>>) -> Seq<u8> {
    le_bytes(classid, 4) + (le_bytes(raw_field(quad[0]), 3) + (le_bytes(raw_field(quad[1]), 3) + (
    le_bytes(raw_field(quad[2]), 3) + le_bytes(raw_field(quad[3]), 3))))
}

/// The class of a facet.
pub open spec fn facet_class(b: Seq<u8>) -> nat {
    le_at(b, 0, 4)
}

/// Field `i` of the quad in a facet.
pub open spec fn facet_field(b: Seq<u8>, i: int) -> Option<u32> {
    field_of_raw(le_at(b, 4 + 3 * i, 3))
}

/// Four optional ordinals.
#[derive(Debug, Clone, Copy, PartialEq, Eq)]
pub struct IdentityQuad {
    fields: [Option<u32>; 4],
}

impl View for IdentityQuad {
    type V = Seq<Option<u32>>;

    closed spec fn view(&self) -> Seq<Option<u32>> {
        self.fields@
    }
}

impl IdentityQuad {
    /// Four fields, each storable.
    pub open spec fn wf(&self) -> bool {
        self@.len() == 4 && forall|i: int| 0 <= i < 4 ==> storable(#[trigger] self@[i])
    }

    /// A quad with no ordinal.
    pub fn empty() -> (q: Self)
        ensures
            q.wf(),
            forall|i: int| 0 <= i < 4 ==> (#[trigger] q@[i]) is None,
    {
        let fields: [Option<u32>; 4] = [None, None, None, None];
        IdentityQuad { fields }
    }

    /// The quad with one field replaced; none where there is no such field or
    /// the ordinal cannot be stored. An ordinal is refused, never narrowed.
    pub fn with_slot(self, slot: usize, ordinal: Option<u32>) -> (q: Option<Self>)
        requires
            self.wf(),
        ensures
            match q {
                Some(quad) => slot < 4 && storable(ordinal) && quad.wf() && quad@ == self@.update(
                    slot as int,
                    ordinal,
                ),
                None => slot >= 4 || !storable(ordinal),
            },
    {
        if slot >= 4 {
            return None;
        }
        match ordinal {
            Some(o) => {
                if o > MAX_ORDINAL {
                    return None;
                }
            },
            None => {},
        }
        let mut fields: [Option<u32>; 4] = self.fields;
        fields[slot] = ordinal;
        Some(IdentityQuad { fields })
    }

    /// One field; none where there is no such field.
    pub fn slot(&self, slot: usize) -> (f: Option<u32>)
        ensures
            self.wf() && slot < 4 ==> f == self@[slot as int],
            slot >= 4 ==> f is None,
    {
        if slot < 4 {
            self.fields[slot]
        } else {
            None
        }
    }

    /// How many fields hold an ordinal.
    pub fn filled(&self) -> (n: usize)
        requires
            self.wf(),
        ensures
            n == self@.filter(|f: Option<u32>| f is Some).len(),
    {
        let ghost keep = |f: Option<u32>| f is Some;
        let mut n: usize = 0;
        let mut i: usize = 0;
        assert(self@.take(0) =~= Seq::<Option<u32>>::empty());
        proof {
            reveal(Seq::filter);
        }
        while i < 4
            invariant
                i <= 4,
                self@.len() == 4,
                n <= i,
                keep == (|f: Option<u32>| f is Some),
                n == self@.take(i as int).filter(keep).len(),
            decreases 4 - i,
        {
            proof {
                reveal(Seq::filter);
                let next = self@.take(i + 1);
                assert(next.drop_last() =~= self@.take(i as int));
                assert(next.last() == self@[i as int]);
            }
            if self.fields[i].is_some() {
                n = n + 1;
            }
            i = i + 1;
        }
        assert(self@.take(4) =~= self@);
        n
    }

    /// The facet that holds this quad.
    pub fn into_facet(self, classid: u32) -> (f: FacetCascade)
        requires
            self.wf(),
        ensures
            f.bytes@ == facet_wire(classid as nat, self@),
    {
        let mut v: Vec<u8> = Vec::new();
        push_u32(&mut v, classid);
        let (a, b, c, d): (u64, u64, u64, u64) = (
            raw_of(self.fields[0]),
            raw_of(self.fields[1]),
            raw_of(self.fields[2]),
            raw_of(self.fields[3]),
        );
        push_le(&mut v, a, 3);
        push_le(&mut v, b, 3);
        push_le(&mut v, c, 3);
        push_le(&mut v, d, 3);
        let mut bytes: [u8; 16] = [0; 16];
        proof {
            lemma_facet_len(classid as nat, self@);
            assert(v@ =~= facet_wire(classid as nat, self@));
        }
        put(&mut bytes, 0, v.as_slice());
        assert(bytes@ =~= v@);
        FacetCascade { bytes }
    }

    /// The quad in a facet.
    pub fn from_facet(f: &FacetCascade) -> (q: Self)
        ensures
            q.wf(),
            forall|i: int| 0 <= i < 4 ==> #[trigger] q@[i] == facet_field(f.bytes@, i),
    {
        let b: &[u8] = f.bytes.as_slice();
        proof {
            lemma_pow256_widths();
        }
        let fields: [Option<u32>; 4] = [
            field_from(read_le(b, 4, 3)),
            field_from(read_le(b, 7, 3)),
            field_from(read_le(b, 10, 3)),
            field_from(read_le(b, 13, 3)),
        ];
        let q: IdentityQuad = IdentityQuad { fields };
        assert(q@[0] == facet_field(f.bytes@, 0));
        assert(q@[1] == facet_field(f.bytes@, 1));
        assert(q@[2] == facet_field(f.bytes@, 2));
        assert(q@[3] == facet_field(f.bytes@, 3));
        q
    }
}

fn raw_of(f: Option<u32>) -> (raw: u64)
    requires
        storable(f),
    ensures
        raw == raw_field(f),
{
    match f {
        Some(ordinal) => ordinal as u64 + 1,
        None => 0,
    }
}

fn field_from(raw: u64) -> (f: Option<u32>)
    requires
        raw < 0x100_0000,
    ensures
        f == field_of_raw(raw as nat),
        storable(f),
{
    if raw == 0 {
        None
    } else {
        Some((raw - 1) as u32)
    }
}

/// Sixteen bytes: a class and what it says.
#[derive(Debug, Clone, Copy, PartialEq, Eq)]
pub struct FacetCascade {
    pub bytes: [u8; 16],
}

impl FacetCascade {
    /// The facet of sixteen bytes.
    pub fn from_bytes(bytes: &[u8; 16]) -> (f: Self)
        ensures
            f.bytes@ == bytes@,
    {
        FacetCascade { bytes: *bytes }
    }

    /// The sixteen bytes.
    pub fn to_bytes(&self) -> (b: [u8; 16])
        ensures
            b@ == self.bytes@,
    {
        self.bytes
    }

    /// The class of the facet.
    pub fn facet_classid(&self) -> (c: u32)
        ensures
            c == facet_class(self.bytes@),
    {
        read_u32(self.bytes.as_slice(), 0)
    }
}

/// A facet takes sixteen bytes.
pub proof fn lemma_facet_len(classid: nat, quad: Seq<Option<u32>>)
    ensures
        facet_wire(classid, quad).len() == 16,
{
    lemma_le_bytes_len(classid, 4);
    lemma_le_bytes_len(raw_field(quad[0]), 3);
    lemma_le_bytes_len(raw_field(quad[1]), 3);
    lemma_le_bytes_len(raw_field(quad[2]), 3);
    lemma_le_bytes_len(raw_field(quad[3]), 3);
}

/// A facet gives back its class and all four fields, absent ones as absent.
pub proof fn law_facet_round_trip(classid: u32, quad: Seq<Option<u32>>)
    requires
        quad.len() == 4,
        forall|i: int| 0 <= i < 4 ==> storable(#[trigger] quad[i]),
    ensures
        facet_class(facet_wire(classid as nat, quad)) == classid,
        forall|i: int|
            0 <= i < 4 ==> facet_field(facet_wire(classid as nat, quad), i) == #[trigger] quad[i],
{
    let b = facet_wire(classid as nat, quad);
    lemma_pow256_widths();
    lemma_facet_len(classid as nat, quad);
    assert(storable(quad[0]) && storable(quad[1]) && storable(quad[2]) && storable(quad[3]));
    lemma_le_round_trip(classid as nat, 4);
    lemma_le_round_trip(raw_field(quad[0]), 3);
    lemma_le_round_trip(raw_field(quad[1]), 3);
    lemma_le_round_trip(raw_field(quad[2]), 3);
    lemma_le_round_trip(raw_field(quad[3]), 3);
    assert(b.subrange(0, 4) =~= le_bytes(classid as nat, 4));
    assert(b.subrange(4, 7) =~= le_bytes(raw_field(quad[0]), 3));
    assert(b.subrange(7, 10) =~= le_bytes(raw_field(quad[1]), 3));
    assert(b.subrange(10, 13) =~= le_bytes(raw_field(quad[2]), 3));
    assert(b.subrange(13, 16) =~= le_bytes(raw_field(quad[3]), 3));
    assert forall|i: int| 0 <= i < 4 implies facet_field(b, i) == #[trigger] quad[i] by {
        assert(i == 0 || i == 1 || i == 2 || i == 3);
    }
}

/// The layout of a facet: four bytes of class, then three for each field, least
/// significant first, which hold 0 where the field is absent and one more than the ordinal
/// where it is not.
pub proof fn law_facet_layout(classid: u32, quad: Seq<Option<u32>>, i: int)
    requires
        quad.len() == 4,
        0 <= i < 4,
        forall|k: int| 0 <= k < 4 ==> storable(#[trigger] quad[k]),
    ensures
        ({
            let b = facet_wire(classid as nat, quad);
            &&& b.len() == 16
            &&& b.subrange(0, 4) == le_bytes(classid as nat, 4)
            &&& quad[i] is None ==> b[4 + 3 * i] == 0 && b[5 + 3 * i] == 0 && b[6 + 3 * i] == 0
            &&& quad[i] matches Some(o) ==> b[4 + 3 * i] == (o + 1) % 256 && b[5 + 3 * i] == ((o
                + 1) / 256) % 256 && b[6 + 3 * i] == (o + 1) / 0x1_0000
        }),
{
    let b = facet_wire(classid as nat, quad);
    lemma_facet_len(classid as nat, quad);
    lemma_le_bytes_len(classid as nat, 4);
    assert(b.subrange(0, 4) =~= le_bytes(classid as nat, 4));
    assert(storable(quad[i]));
    reveal_with_fuel(le_bytes, 5);
    assert(i == 0 || i == 1 || i == 2 || i == 3);
}

} // verus!
