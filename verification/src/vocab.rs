//! The geo vocabulary: the concepts that a row or a facet can be about.

use vstd::prelude::*;

verus! {

/// An OSM node.
pub const OSM_NODE: u16 = 0x0F01;

/// An OSM way.
pub const OSM_WAY: u16 = 0x0F02;

/// An OSM relation.
pub const OSM_RELATION: u16 = 0x0F03;

/// A `key = value` tag on an element.
pub const OSM_ELEMENT_TAG: u16 = 0x0F05;

/// A junction of the routable graph. OSM has no such element: this is the one
/// derived concept, and what tells a junction row from the row of the node it
/// sits on.
pub const OSM_STREET_NODE: u16 = 0x0F0B;

/// The last geo concept.
pub const LAST_GEO_CONCEPT: u16 = 0x0F0B;

/// The low half of every geo class: the third row layout.
pub const CLASSVIEW_V3_SUBSTRATE: u16 = 0x1000;

/// Whether a concept is a geo concept.
pub open spec fn is_geo(concept: nat) -> bool {
    OSM_NODE <= concept <= LAST_GEO_CONCEPT
}

/// The class of a concept: the concept in the high half, the layout in the low.
pub open spec fn class_of(concept: nat) -> nat {
    concept * 0x1_0000 + CLASSVIEW_V3_SUBSTRATE as nat
}

/// The class of a geo concept; none for any other concept.
pub fn geo_identity_classid(concept: u16) -> (c: Option<u32>)
    ensures
        match c {
            Some(id) => is_geo(concept as nat) && id == class_of(concept as nat),
            None => !is_geo(concept as nat),
        },
{
    if OSM_NODE <= concept && concept <= LAST_GEO_CONCEPT {
        Some(concept as u32 * 0x1_0000 + CLASSVIEW_V3_SUBSTRATE as u32)
    } else {
        None
    }
}

/// The concept comes back out of its class, so no two concepts share one.
pub proof fn law_concept_of_class(concept: u16)
    ensures
        class_of(concept as nat) <= u32::MAX,
        class_of(concept as nat) / 0x1_0000 == concept,
        class_of(concept as nat) % 0x1_0000 == CLASSVIEW_V3_SUBSTRATE,
{
}

/// There are eleven geo concepts, numbered without a gap, and the class of each is its
/// number with the layout behind it.
pub proof fn law_geo_concepts(concept: u16)
    ensures
        is_geo(concept as nat) <==> 0x0F01 <= concept <= 0x0F0B,
        class_of(concept as nat) == 0x1_0000 * concept + 0x1000,
        is_geo(OSM_NODE as nat) && is_geo(OSM_WAY as nat) && is_geo(OSM_RELATION as nat),
        is_geo(OSM_ELEMENT_TAG as nat) && is_geo(OSM_STREET_NODE as nat),
        OSM_NODE != OSM_WAY && OSM_WAY != OSM_RELATION && OSM_NODE != OSM_RELATION,
{
}

} // verus!
