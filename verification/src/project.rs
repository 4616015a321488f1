//! The masked projection: reading a row through a field mask.
//!
//! A projection intersects the surface with the role, so a role can only take
//! fields away. Positions outside the twelve bytes of the key's facet are
//! skipped, never folded onto another byte.

use crate::mask::WideFieldMask;
use crate::node::NodeRow;
use vstd::prelude::*;

verus! {

/// Bytes of the key that a projection can read: those behind the class.
pub const FACET_PAYLOAD_BYTES: u8 = 12;

/// One projected field: its layout address and the byte at it.
#[derive(Debug, Clone, Copy, PartialEq, Eq, Structural)]
pub struct Projected {
    pub position: u8,
    pub byte: u8,
}

/// Whether surface and role both admit a position of the register.
pub open spec fn admits(surface: WideFieldMask, role: WideFieldMask, position: u8) -> bool {
    position < FACET_PAYLOAD_BYTES && surface.contains(position) && role.contains(position)
}

/// The admitted fields among the first `n` positions, in ascending order.
pub open spec fn projection(
    row: NodeRow,
    surface: WideFieldMask,
    role: WideFieldMask,
    n: int,
) -> Seq<Projected>
    decreases n,
{
    if n <= 0 {
        Seq::empty()
    } else {
        let p = (n - 1) as u8;
        let rest = projection(row, surface, role, n - 1);
        if admits(surface, role, p) {
            rest.push(Projected { position: p, byte: row.key.bytes@[4 + p] })
        } else {
            rest
        }
    }
}

/// Projects the key's facet payload through `surface` and `role`.
pub fn project(row: &NodeRow, surface: &WideFieldMask, role: &WideFieldMask) -> (out: Vec<
    Projected,
>)
    ensures
        out@ == projection(*row, *surface, *role, FACET_PAYLOAD_BYTES as int),
{
    let admitted: WideFieldMask = surface.intersect(role);
    let mut out: Vec<Projected> = Vec::new();
    let mut p: u8 = 0;
    while p < FACET_PAYLOAD_BYTES
        invariant
            p <= FACET_PAYLOAD_BYTES,
            forall|q: u8|
                #[trigger] admitted.contains(q) == (surface.contains(q) && role.contains(q)),
            out@ == projection(*row, *surface, *role, p as int),
        decreases FACET_PAYLOAD_BYTES - p,
    {
        if admitted.has(p) {
            out.push(Projected { position: p, byte: row.key.bytes[4 + p as usize] });
        }
        p = p + 1;
    }
    out
}

/// The mask of the positions that [`project`] yields.
pub fn projected_mask(surface: &WideFieldMask, role: &WideFieldMask) -> (m: WideFieldMask)
    ensures
        forall|p: u8| #[trigger] m.contains(p) == admits(*surface, *role, p),
{
    let admitted: WideFieldMask = surface.intersect(role);
    let mut m: WideFieldMask = WideFieldMask::empty();
    let mut p: u8 = 0;
    while p < FACET_PAYLOAD_BYTES
        invariant
            p <= FACET_PAYLOAD_BYTES,
            forall|q: u8|
                #[trigger] admitted.contains(q) == (surface.contains(q) && role.contains(q)),
            forall|q: u8| #[trigger] m.contains(q) == (q < p && admits(*surface, *role, q)),
        decreases FACET_PAYLOAD_BYTES - p,
    {
        if admitted.has(p) {
            m = m.with(p);
        }
        p = p + 1;
    }
    m
}

/// A projection reads exactly the admitted positions, in ascending order, each
/// with the byte at its address.
pub proof fn law_projection_is_exact(
    row: NodeRow,
    surface: WideFieldMask,
    role: WideFieldMask,
    n: int,
)
    requires
        0 <= n <= FACET_PAYLOAD_BYTES,
    ensures
        ({
            let out = projection(row, surface, role, n);
            &&& forall|i: int|
                0 <= i < out.len() ==> {
                    let f = #[trigger] out[i];
                    f.position < n && admits(surface, role, f.position) && f.byte
                        == row.key.bytes@[4 + f.position]
                }
            &&& forall|i: int, j: int|
                #![trigger out[i], out[j]]
                0 <= i < j < out.len() ==> out[i].position < out[j].position
            &&& forall|p: u8|
                p < n && #[trigger] admits(surface, role, p) ==> out.contains(
                    Projected { position: p, byte: row.key.bytes@[4 + p] },
                )
        }),
    decreases n,
{
    if n > 0 {
        law_projection_is_exact(row, surface, role, n - 1);
        let front = projection(row, surface, role, n - 1);
        let out = projection(row, surface, role, n);
        assert forall|p: u8| p < n && #[trigger] admits(surface, role, p) implies out.contains(
            Projected { position: p, byte: row.key.bytes@[4 + p] },
        ) by {
            let item = Projected { position: p, byte: row.key.bytes@[4 + p] };
            if p == n - 1 {
                assert(out[out.len() - 1] == item);
            } else {
                assert(front.contains(item));
                let k = choose|k: int| 0 <= k < front.len() && front[k] == item;
                assert(out[k] == item);
            }
        }
    }
}

/// The mask and the values describe the same positions: as many values as bits.
pub proof fn law_mask_agrees_with_projection(
    row: NodeRow,
    surface: WideFieldMask,
    role: WideFieldMask,
    m: WideFieldMask,
    n: int,
)
    requires
        0 <= n <= 256,
        forall|p: u8| #[trigger] m.contains(p) == admits(surface, role, p),
    ensures
        m.count_below(n) == projection(row, surface, role, n).len(),
        n >= FACET_PAYLOAD_BYTES ==> projection(row, surface, role, n) == projection(
            row,
            surface,
            role,
            FACET_PAYLOAD_BYTES as int,
        ),
    decreases n,
{
    if n > 0 {
        law_mask_agrees_with_projection(row, surface, role, m, n - 1);
        assert(m.contains((n - 1) as u8) == admits(surface, role, (n - 1) as u8));
    }
}

/// A narrower role yields no field that a wider one does not.
pub proof fn law_role_only_narrows(
    surface: WideFieldMask,
    role: WideFieldMask,
    wider: WideFieldMask,
    position: u8,
)
    requires
        forall|p: u8| #[trigger] role.contains(p) ==> wider.contains(p),
        admits(surface, role, position),
    ensures
        admits(surface, wider, position),
        surface.contains(position),
{
}

} // verus!
