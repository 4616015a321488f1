//! What this library executes, by name.
//!
//! Every capability is a variant with a function behind it, so the list of what
//! is covered cannot name something that does not exist.

use crate::fragment::{needed, overlaps, BoundaryIndex};
use crate::mask::WideFieldMask;
use crate::node::NodeRow;
use crate::project::{project, projection, Projected, FACET_PAYLOAD_BYTES};
use crate::slab::{code_at, halved, in_key_order, row_count, splits_at, tile_bounds, RowSlab};
use crate::street::{carries, edge_mask};
use core::ops::Range;
use vstd::prelude::*;

verus! {

/// The name under which the capabilities are registered.
pub const CONSUMER: &'static str = "osm-soa-bake";

/// A capability.
#[derive(Debug, Clone, Copy, PartialEq, Eq, Structural, Hash)]
pub enum Capability {
    /// A coordinate to its Morton code and the four tiers.
    LocatePoint,
    /// A tile to the range of its rows.
    LocateTile,
    /// A Morton interval to the fragments that span it.
    LocateFragment,
    /// A row and two masks to the admitted positions and their bytes.
    ProjectFields,
    /// A junction row and a street name to the edges that carry it.
    StreetEdges,
    /// A polyline to its geodesic length.
    PolylineLength,
}

/// The name of a capability.
pub open spec fn capability_name(c: Capability) -> Seq<char> {
    match c {
        Capability::LocatePoint => "locate_point"@,
        Capability::LocateTile => "locate_tile"@,
        Capability::LocateFragment => "locate_fragment"@,
        Capability::ProjectFields => "project_fields"@,
        Capability::StreetEdges => "street_edges"@,
        Capability::PolylineLength => "polyline_length"@,
    }
}

/// What is registered with a table of capabilities.
#[derive(Debug, Clone, Copy)]
pub struct CapabilityRegistration {
    pub consumer: &'static str,
    pub covered: &'static [&'static str],
    /// The classes that the capabilities are about.
    pub subject_classids: &'static [u32],
}

/// The registration of these capabilities, for the classes that the table names.
pub fn registration(
    covered: &'static [&'static str],
    subject_classids: &'static [u32],
) -> (r: CapabilityRegistration)
    ensures
        r.consumer@ == CONSUMER@,
        r.covered@ == covered@,
        r.subject_classids@ == subject_classids@,
{
    CapabilityRegistration { consumer: CONSUMER, covered, subject_classids }
}

impl Capability {
    /// Every capability.
    pub const ALL: [Capability; 6] = [
        Capability::LocatePoint,
        Capability::LocateTile,
        Capability::LocateFragment,
        Capability::ProjectFields,
        Capability::StreetEdges,
        Capability::PolylineLength,
    ];

    /// The name of this capability.
    pub fn name(self) -> (n: &'static str)
        ensures
            n@ == capability_name(self),
    {
        match self {
            Capability::LocatePoint => "locate_point",
            Capability::LocateTile => "locate_tile",
            Capability::LocateFragment => "locate_fragment",
            Capability::ProjectFields => "project_fields",
            Capability::StreetEdges => "street_edges",
            Capability::PolylineLength => "polyline_length",
        }
    }
}

/// The names of every capability.
pub fn covered() -> (names: Vec<&'static str>)
    ensures
        names@.len() == Capability::ALL@.len(),
        forall|i: int|
            0 <= i < names@.len() ==> (#[trigger] names@[i])@ == capability_name(
                Capability::ALL@[i],
            ),
{
    let all: [Capability; 6] = Capability::ALL;
    let mut names: Vec<&'static str> = Vec::new();
    let mut i: usize = 0;
    while i < 6
        invariant
            i <= 6,
            all@ == Capability::ALL@,
            names@.len() == i,
            forall|k: int|
                0 <= k < i ==> (#[trigger] names@[k])@ == capability_name(Capability::ALL@[k]),
        decreases 6 - i,
    {
        names.push(all[i].name());
        i = i + 1;
    }
    names
}

/// Every capability is listed.
pub proof fn law_all_is_complete(c: Capability)
    ensures
        Capability::ALL@.contains(c),
{
    let all = Capability::ALL@;
    assert(all[0] == Capability::LocatePoint);
    assert(all[1] == Capability::LocateTile);
    assert(all[2] == Capability::LocateFragment);
    assert(all[3] == Capability::ProjectFields);
    assert(all[4] == Capability::StreetEdges);
    assert(all[5] == Capability::PolylineLength);
}

/// No two capabilities share a name.
pub proof fn law_names_are_distinct(a: Capability, b: Capability)
    ensures
        capability_name(a) == capability_name(b) <==> a == b,
{
    reveal_strlit("locate_point");
    reveal_strlit("locate_tile");
    reveal_strlit("locate_fragment");
    reveal_strlit("project_fields");
    reveal_strlit("street_edges");
    reveal_strlit("polyline_length");
    if capability_name(a) == capability_name(b) {
        assert(capability_name(a).len() == capability_name(b).len());
        assert(capability_name(a)[0] == capability_name(b)[0]);
        assert(capability_name(a)[1] == capability_name(b)[1]);
    }
}

// ── The functions ───────────────────────────────────────────────────
/// The rows of a tile.
pub fn locate_tile(slab: &RowSlab<'_>, z: u32, x: u32, y: u32) -> (r: Range<usize>)
    ensures
        r.start == halved(slab@, tile_bounds(z, x, y).0 as int, 0, row_count(slab@) as int),
        r.end == halved(slab@, tile_bounds(z, x, y).1 as int, 0, row_count(slab@) as int),
        splits_at(slab@, tile_bounds(z, x, y).0 as int, r.start as int),
        splits_at(slab@, tile_bounds(z, x, y).1 as int, r.end as int),
        in_key_order(slab@) ==> r.start <= r.end && forall|i: int|
            0 <= i < row_count(slab@) ==> (r.start <= i < r.end <==> tile_bounds(z, x, y).0
                <= #[trigger] code_at(slab@, i) < tile_bounds(z, x, y).1),
{
    slab.tile_range(z, x, y)
}

/// The fragments that overlap a Morton interval.
pub fn locate_fragment(index: &BoundaryIndex, lo: u64, hi: u64) -> (r: Range<usize>)
    ensures
        r.start == needed(index@, lo as int, hi as int).0,
        r.end == needed(index@, lo as int, hi as int).1,
        r.start <= r.end <= index@.len(),
        forall|i: int|
            0 <= i < index@.len() ==> (r.start <= i < r.end <==> #[trigger] overlaps(
                index@,
                lo as int,
                hi as int,
                i,
            )),
{
    index.locate_range(lo, hi)
}

/// The positions that both masks admit, with their bytes.
pub fn project_fields(row: &NodeRow, surface: &WideFieldMask, role: &WideFieldMask) -> (out: Vec<
    Projected,
>)
    ensures
        out@ == projection(*row, *surface, *role, FACET_PAYLOAD_BYTES as int),
{
    project(row, surface, role)
}

/// The edges of a junction that carry a street.
pub fn street_edges(row: &NodeRow, name: u16) -> (m: WideFieldMask)
    ensures
        forall|e: u8| #[trigger] m.contains(e) == carries(*row, e, name),
{
    edge_mask(row, name)
}

} // verus!
