use osm_soa_bake::heading::{pack_edge, unpack_edge};
use osm_soa_bake::street::EDGE_SLOTS;

#[test]
fn pack_unpack_round_trips_every_nibble_combination() {
    for direction in 0..16u8 {
        for bending in 0..16u8 {
            let packed = pack_edge(direction, bending);
            assert_eq!(unpack_edge(packed), (direction, bending));
        }
    }
}

#[test]
fn eight_edges_fit_in_eight_bytes_half_a_value_slot() {
    // The claim this module exists to make cheap: EDGE_SLOTS edges of
    // (direction, bending) cost half of one 16-byte value slot, against
    // Signed360's 12 bytes for just TWO headings.
    assert_eq!(
        std::mem::size_of::<u8>() * usize::from(EDGE_SLOTS),
        8
    );
}
