//! Per-edge heading: one of sixteen compass points and a bending class, packed
//! into one byte per edge.

use vstd::prelude::*;

verus! {

/// Compass points, 22.5 degrees apart.
pub const DIRECTIONS: u8 = 16;

/// Packs one edge: the direction in the low four bits, the bending class in the
/// high four. Each is taken modulo sixteen.
pub fn pack_edge(direction: u8, bending: u8) -> (b: u8)
    ensures
        b == 16 * (bending % 16) + direction % 16,
{
    16 * (bending % 16) + direction % 16
}

/// Unpacks `(direction, bending)`.
pub fn unpack_edge(b: u8) -> (r: (u8, u8))
    ensures
        r.0 == b % 16,
        r.1 == b / 16,
{
    (b % 16, b / 16)
}

/// Every pair of four-bit values survives the byte, and every byte its pair.
pub proof fn law_edge_round_trip(direction: u8, bending: u8, b: u8)
    requires
        direction < 16,
        bending < 16,
    ensures
        16 * (bending % 16) + direction % 16 <= u8::MAX,
        (16 * (bending % 16) + direction % 16) % 16 == direction,
        (16 * (bending % 16) + direction % 16) / 16 == bending,
        16 * ((b / 16) % 16) + (b % 16) % 16 == b,
{
}

} // verus!
