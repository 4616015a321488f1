//! The row slab: a borrowed, Morton-sorted run of rows.
//!
//! Rows are sorted by key, and a tile is an interval of keys
//! ([`law_tile_is_an_interval`]). So the rows of a tile are one contiguous
//! range, both ends of which are computed. Every lookup reads bytes at computed
//! offsets; nothing is copied and nothing is decoded.

use crate::bytes::read_u16;
use crate::node::{key_code, row_wire, NodeGuid, NodeRow, NODE_ROW_STRIDE};
use crate::text::{decimal, push_decimal};
use crate::tms::{
    cell_code, flip_y, grid_side, interleave, lemma_ancestor_of_interleave, lemma_interleave_bound,
    lemma_lanes_of_interleave, lemma_parent_of_interleave, morton64, side, xyz_to_tms_y, TileXy,
    HHTL_DEPTH4,
};
use core::ops::Range;
use vstd::arithmetic::div_mod::*;
use vstd::arithmetic::power2::*;
use vstd::prelude::*;

verus! {

/// Why a byte range could not be viewed as rows.
#[derive(Debug, Clone, Copy, PartialEq, Eq, Structural)]
pub enum SlabError {
    /// The length is not a whole number of rows.
    NotRowAligned { len: usize },
    /// The base address does not meet the alignment of a row. No constructor gives
    /// this: it is for a consumer to say why [`RowSlab::rows`] declined.
    Misaligned { align: usize },
}

/// How many whole rows bytes hold.
pub open spec fn row_count(b: Seq<u8>) -> nat {
    b.len() / 512
}

/// The key of row `i`, as a Morton code.
pub open spec fn code_at(b: Seq<u8>, i: int) -> nat {
    key_code(b.subrange(512 * i, 512 * i + 16))
}

/// Whether the keys never descend.
pub open spec fn in_key_order(b: Seq<u8>) -> bool {
    forall|i: int, j: int|
        #![trigger code_at(b, i), code_at(b, j)]
        0 <= i <= j < row_count(b) ==> code_at(b, i) <= code_at(b, j)
}

/// Whether `p` splits the rows at `code`: what stands just before it is below,
/// what stands there is not.
pub open spec fn splits_at(b: Seq<u8>, code: int, p: int) -> bool {
    &&& 0 <= p <= row_count(b)
    &&& p > 0 ==> code_at(b, p - 1) < code
    &&& p < row_count(b) ==> code_at(b, p) >= code
}

/// The split point that halving the rows `lo..hi` finds. In key order there is one
/// only; otherwise this is the one that is taken.
pub open spec fn halved(b: Seq<u8>, code: int, lo: int, hi: int) -> int
    decreases hi - lo,
{
    if lo >= hi {
        lo
    } else {
        let mid = lo + (hi - lo) / 2;
        if code_at(b, mid) < code {
            halved(b, code, mid + 1, hi)
        } else {
            halved(b, code, lo, mid)
        }
    }
}

/// In key order, a split point splits all rows.
pub proof fn lemma_split_is_total(b: Seq<u8>, code: int, p: int)
    requires
        in_key_order(b),
        splits_at(b, code, p),
    ensures
        forall|i: int| 0 <= i < p ==> #[trigger] code_at(b, i) < code,
        forall|i: int| p <= i < row_count(b) ==> #[trigger] code_at(b, i) >= code,
{
    assert forall|i: int| 0 <= i < p implies #[trigger] code_at(b, i) < code by {
        assert(code_at(b, i) <= code_at(b, p - 1));
    }
    assert forall|i: int| p <= i < row_count(b) implies #[trigger] code_at(b, i) >= code by {
        assert(code_at(b, p) <= code_at(b, i));
    }
}

/// The alignment of a row, in bytes.
pub const ROW_ALIGN: usize = 64;

/// Whether `rows` are the rows that bytes hold, in order.
pub open spec fn are_rows_in(rows: Seq<NodeRow>, b: Seq<u8>) -> bool {
    &&& rows.len() == row_count(b)
    &&& forall|i: int|
        0 <= i < rows.len() ==> row_wire(#[trigger] rows[i]) == b.subrange(512 * i, 512 * i + 512)
}

/// The shape of a slab of `n` rows, as text.
pub open spec fn slab_shape(n: nat) -> Seq<char> {
    "RowSlab { n_rows: "@ + decimal(n) + ", row_stride: 512 }"@
}

/// Where bytes start in memory.
///
/// This is `<[u8]>::as_ptr`, its pointer taken as a number. An address is up to the
/// machine, so nothing is claimed of it.
#[verifier::external_body]
fn address_of(bytes: &[u8]) -> usize {
    bytes.as_ptr() as usize
}

/// A borrowed run of rows. It never owns or copies the bytes. It has no `Debug`, which
/// would print them; [`RowSlab::shape`] says what there is to say.
pub struct RowSlab<'a> {
    bytes: &'a [u8],
}

impl<'a> RowSlab<'a> {
    #[verifier::type_invariant]
    spec fn inv(&self) -> bool {
        self.bytes@.len() % 512 == 0
    }

    /// The bytes of the slab.
    pub closed spec fn view(&self) -> Seq<u8> {
        self.bytes@
    }

    /// Wraps a byte range; only its length is checked.
    pub fn new(bytes: &'a [u8]) -> (r: Result<Self, SlabError>)
        ensures
            match r {
                Ok(slab) => bytes@.len() % 512 == 0 && slab@ == bytes@,
                Err(e) => bytes@.len() % 512 != 0 && e == (SlabError::NotRowAligned {
                    len: bytes@.len() as usize,
                }),
            },
    {
        if bytes.len() % NODE_ROW_STRIDE != 0 {
            return Err(SlabError::NotRowAligned { len: bytes.len() });
        }
        Ok(RowSlab { bytes })
    }

    /// Number of rows.
    pub fn len(&self) -> (n: usize)
        ensures
            n == row_count(self@),
            self@.len() == 512 * n,
    {
        proof {
            use_type_invariant(self);
        }
        self.bytes.len() / NODE_ROW_STRIDE
    }

    /// Whether there are none.
    pub fn is_empty(&self) -> (r: bool)
        ensures
            r == (row_count(self@) == 0),
            r == (self@.len() == 0),
    {
        proof {
            use_type_invariant(self);
        }
        self.bytes.len() == 0
    }

    /// The borrowed bytes themselves.
    pub fn as_bytes(&self) -> (b: &'a [u8])
        ensures
            b@ == self@,
    {
        self.bytes
    }

    /// The shape of the slab, never its bytes.
    pub fn shape(&self) -> (s: String)
        ensures
            s@ == slab_shape(row_count(self@)),
    {
        let mut s: String = String::new();
        s.append("RowSlab { n_rows: ");
        push_decimal(&mut s, self.len() as u64);
        s.append(", row_stride: 512 }");
        assert(s@ =~= slab_shape(row_count(self@)));
        s
    }

    /// The rows, as rows, where the bytes start at a multiple of [`ROW_ALIGN`]; an
    /// empty slab has no rows wherever it starts. Where they start is up to the
    /// machine: [`RowSlab::rows_at`] says what an address decides. Every lookup works
    /// on bytes that this declines. The rows are copied, since nothing here is cast.
    pub fn rows(&self) -> (r: Option<Vec<NodeRow>>)
        ensures
            row_count(self@) == 0 ==> r is Some,
            r matches Some(rows) ==> are_rows_in(rows@, self@),
    {
        self.rows_at(address_of(self.bytes))
    }

    /// The rows of a slab that starts at an address.
    pub fn rows_at(&self, address: usize) -> (r: Option<Vec<NodeRow>>)
        ensures
            match r {
                Some(rows) => {
                    &&& row_count(self@) == 0 || address % ROW_ALIGN == 0
                    &&& are_rows_in(rows@, self@)
                },
                None => row_count(self@) > 0 && address % ROW_ALIGN != 0,
            },
    {
        if self.len() > 0 && address % ROW_ALIGN != 0 {
            None
        } else {
            Some(self.copied())
        }
    }

    /// The rows, copied out of the bytes one by one, wherever these start.
    pub fn copied(&self) -> (out: Vec<NodeRow>)
        ensures
            are_rows_in(out@, self@),
    {
        proof {
            use_type_invariant(self);
        }
        let n: usize = self.bytes.len() / NODE_ROW_STRIDE;
        let total: usize = self.bytes.len();
        let mut out: Vec<NodeRow> = Vec::new();
        let mut i: usize = 0;
        while i < n
            invariant
                i <= n,
                total == self.bytes@.len(),
                total == 512 * n,
                out@.len() == i,
                forall|k: int|
                    0 <= k < i ==> row_wire(#[trigger] out@[k]) == self@.subrange(
                        512 * k,
                        512 * k + 512,
                    ),
            decreases n - i,
        {
            let at: usize = 512 * i;
            let mut row: NodeRow = NodeRow::with_key(NodeGuid { bytes: [0; 16] });
            crate::node::put(
                &mut row.key.bytes,
                0,
                vstd::slice::slice_subrange(self.bytes, at, at + 16),
            );
            crate::node::put(
                &mut row.edges,
                0,
                vstd::slice::slice_subrange(self.bytes, at + 16, at + 32),
            );
            crate::node::put(
                &mut row.value,
                0,
                vstd::slice::slice_subrange(self.bytes, at + 32, at + 512),
            );
            assert(row_wire(row) =~= self@.subrange(512 * i, 512 * i + 512));
            out.push(row);
            i = i + 1;
        }
        out
    }

    /// The Morton code of row `i`, read from the tiers of its key.
    pub fn morton_at(&self, i: usize) -> (code: u64)
        requires
            i < row_count(self@),
        ensures
            code == code_at(self@, i as int),
    {
        proof {
            use_type_invariant(self);
        }
        let total: usize = self.bytes.len();
        let at: usize = 512 * i;
        let heel: u16 = read_u16(self.bytes, at + 4);
        let hip: u16 = read_u16(self.bytes, at + 6);
        let twig: u16 = read_u16(self.bytes, at + 8);
        let leaf: u16 = read_u16(self.bytes, at + 10);
        proof {
            let k = self@.subrange(at as int, at + 16);
            assert(k.subrange(4, 6) =~= self@.subrange(at + 4, at + 6));
            assert(k.subrange(6, 8) =~= self@.subrange(at + 6, at + 8));
            assert(k.subrange(8, 10) =~= self@.subrange(at + 8, at + 10));
            assert(k.subrange(10, 12) =~= self@.subrange(at + 10, at + 12));
        }
        heel as u64 * 0x1_0000_0000_0000 + hip as u64 * 0x1_0000_0000 + twig as u64 * 0x1_0000
            + leaf as u64
    }

    /// The first row whose code is not below `code`.
    pub fn lower_bound(&self, code: u128) -> (p: usize)
        ensures
            p == halved(self@, code as int, 0, row_count(self@) as int),
            splits_at(self@, code as int, p as int),
            in_key_order(self@) ==> (forall|i: int|
                0 <= i < p ==> #[trigger] code_at(self@, i) < code),
            in_key_order(self@) ==> (forall|i: int|
                p <= i < row_count(self@) ==> #[trigger] code_at(self@, i) >= code),
    {
        let mut lo: usize = 0;
        let mut hi: usize = self.len();
        while lo < hi
            invariant
                lo <= hi <= row_count(self@),
                lo > 0 ==> code_at(self@, lo - 1) < code,
                hi < row_count(self@) ==> code_at(self@, hi as int) >= code,
                halved(self@, code as int, lo as int, hi as int) == halved(
                    self@,
                    code as int,
                    0,
                    row_count(self@) as int,
                ),
            decreases hi - lo,
        {
            let mid: usize = lo + (hi - lo) / 2;
            if (self.morton_at(mid) as u128) < code {
                lo = mid + 1;
            } else {
                hi = mid;
            }
        }
        proof {
            if in_key_order(self@) {
                lemma_split_is_total(self@, code as int, lo as int);
            }
        }
        lo
    }

    /// The contiguous range of rows that a slippy tile covers. The row of the
    /// tile is flipped here; the slab knows one convention only.
    pub fn tile_range(&self, z: u32, x: u32, y: u32) -> (r: Range<usize>)
        ensures
            r.start == halved(self@, tile_bounds(z, x, y).0 as int, 0, row_count(self@) as int),
            r.end == halved(self@, tile_bounds(z, x, y).1 as int, 0, row_count(self@) as int),
            splits_at(self@, tile_bounds(z, x, y).0 as int, r.start as int),
            splits_at(self@, tile_bounds(z, x, y).1 as int, r.end as int),
            in_key_order(self@) ==> r.start <= r.end && forall|i: int|
                0 <= i < row_count(self@) ==> (r.start <= i < r.end <==> tile_bounds(z, x, y).0
                    <= #[trigger] code_at(self@, i) < tile_bounds(z, x, y).1),
    {
        let (lo, hi): (u128, u128) = morton_bounds(z, x, y);
        let start: usize = self.lower_bound(lo);
        let end: usize = self.lower_bound(hi);
        proof {
            if in_key_order(self@) {
                lemma_bounds_ascend(z, x, y);
                if end < start {
                    assert(code_at(self@, end as int) < lo);
                }
            }
        }
        Range { start, end }
    }
}

// ── Tiles as intervals of keys ──────────────────────────────────────
/// The zoom that a request means: the grid ends at zoom 32.
pub open spec fn clamp_zoom(z: u32) -> nat {
    if z < 32 {
        z as nat
    } else {
        32
    }
}

/// A column or row, moved into the grid of a zoom.
pub open spec fn clamp_index(z: nat, v: u32) -> nat {
    if v < side(z) {
        v as nat
    } else {
        (side(z) - 1) as nat
    }
}

/// The code of a tile at its own zoom.
pub open spec fn tile_prefix(z: u32, x: u32, y: u32) -> nat {
    let k = clamp_zoom(z);
    interleave(clamp_index(k, x), flip_y(k, clamp_index(k, y)))
}

/// How many keys a tile of a zoom holds.
pub open spec fn tile_size(z: u32) -> nat {
    pow2((2 * (32 - clamp_zoom(z))) as nat)
}

/// The half-open interval of keys that a tile covers.
pub open spec fn tile_bounds(z: u32, x: u32, y: u32) -> (nat, nat) {
    (tile_prefix(z, x, y) * tile_size(z), (tile_prefix(z, x, y) + 1) * tile_size(z))
}

proof fn lemma_bounds_ascend(z: u32, x: u32, y: u32)
    ensures
        tile_bounds(z, x, y).0 < tile_bounds(z, x, y).1,
{
    lemma_pow2_pos((2 * (32 - clamp_zoom(z))) as nat);
    let (p, s) = (tile_prefix(z, x, y) as int, tile_size(z) as int);
    assert((p + 1) * s == p * s + s) by (nonlinear_arith);
}

/// Every tile ends inside the key space.
proof fn lemma_bounds_fit(z: u32, x: u32, y: u32)
    ensures
        tile_bounds(z, x, y).1 <= 0x1_0000_0000_0000_0000,
        tile_prefix(z, x, y) < 0x1_0000_0000_0000_0000,
        1 <= tile_size(z) <= 0x1_0000_0000_0000_0000,
{
    let k = clamp_zoom(z);
    lemma2_to64();
    lemma2_to64_rest();
    lemma_pow2_pos(k);
    lemma_interleave_bound(clamp_index(k, x), flip_y(k, clamp_index(k, y)), k);
    let j: nat = (2 * (32 - k)) as nat;
    lemma_pow2_adds(2 * k, j);
    lemma_pow2_pos(j);
    lemma_pow2_pos(2 * k);
    let (p, s, t) = (tile_prefix(z, x, y) as int, tile_size(z) as int, pow2(2 * k) as int);
    assert(t * s == 0x1_0000_0000_0000_0000);
    assert((p + 1) * s <= t * s) by (nonlinear_arith)
        requires
            p + 1 <= t,
            s >= 0,
    ;
    assert(t <= t * s) by (nonlinear_arith)
        requires
            s >= 1,
            t >= 0,
    ;
    assert(s <= t * s) by (nonlinear_arith)
        requires
            t >= 1,
            s >= 0,
    ;
}

/// The power of two that shifts a tile code to full depth.
fn size_at(z: u32) -> (s: u128)
    requires
        z <= 32,
    ensures
        s == tile_size(z),
        1 <= s <= 0x1_0000_0000_0000_0000,
{
    let mut s: u128 = 1;
    let mut k: u32 = 32;
    proof {
        lemma2_to64();
    }
    while k > z
        invariant
            z <= k <= 32,
            s == pow2((2 * (32 - k)) as nat),
            1 <= s <= 0x1_0000_0000_0000_0000,
        decreases k,
    {
        proof {
            let e = (2 * (32 - k)) as nat;
            lemma_pow2_unfold(e + 1);
            lemma_pow2_unfold(e + 2);
            assert((2 * (32 - (k - 1))) as nat == e + 2);
            lemma2_to64();
            lemma2_to64_rest();
            if e + 2 < 64 {
                lemma_pow2_strictly_increases(e + 2, 64);
            }
        }
        s = s * 4;
        k = k - 1;
    }
    s
}

/// The half-open interval of keys that a slippy tile covers. A zoom past the
/// grid and an index past the side are moved into the grid.
pub fn morton_bounds(z: u32, x: u32, y: u32) -> (r: (u128, u128))
    ensures
        r.0 == tile_bounds(z, x, y).0,
        r.1 == tile_bounds(z, x, y).1,
        r.0 < r.1 <= 0x1_0000_0000_0000_0000,
{
    let zoom: u32 = if z < HHTL_DEPTH4 {
        z
    } else {
        HHTL_DEPTH4
    };
    let n: u64 = grid_side(zoom);
    let cx: u32 = if (x as u64) < n {
        x
    } else {
        (n - 1) as u32
    };
    let cy: u32 = if (y as u64) < n {
        y
    } else {
        (n - 1) as u32
    };
    let prefix: u128 = morton64(cx, xyz_to_tms_y(zoom, cy)) as u128;
    let size: u128 = size_at(zoom);
    proof {
        lemma_bounds_fit(z, x, y);
        lemma_bounds_ascend(z, x, y);
        assert(prefix == tile_prefix(z, x, y));
        assert(size == tile_size(z));
    }
    (prefix * size, (prefix + 1) * size)
}

/// The tile of zoom `z` that a cell lies in has the column and row of the cell
/// without their low bits.
pub open spec fn lies_in(c: TileXy, z: u32, x: u32, y: u32) -> bool {
    let k: nat = (32 - z) as nat;
    c.x as nat / pow2(k) == x && c.y_xyz as nat / pow2(k) == y
}

/// A quotient picks an interval.
proof fn lemma_quotient_interval(a: nat, d: nat, q: nat)
    requires
        d > 0,
    ensures
        a / d == q <==> q * d <= a < (q + 1) * d,
{
    lemma_fundamental_div_mod(a as int, d as int);
    let r = a % d;
    let k = a / d;
    assert(a == d * k + r);
    if k == q {
        assert(q * d <= a < (q + 1) * d) by (nonlinear_arith)
            requires
                a == d * k + r,
                0 <= r < d,
                k == q,
        ;
    }
    if q * d <= a < (q + 1) * d {
        assert(k == q) by (nonlinear_arith)
            requires
                a == d * k + r,
                0 <= r < d,
                q * d <= a,
                a < (q + 1) * d,
        ;
    }
}

/// Flipping commutes with stepping up: the flipped row of the tile is the tile
/// of the flipped row.
proof fn lemma_flip_of_quotient(y: nat, z: nat)
    requires
        z <= 32,
        y < pow2(32),
    ensures
        y / pow2((32 - z) as nat) < pow2(z),
        flip_y(32, y) / pow2((32 - z) as nat) == flip_y(z, y / pow2((32 - z) as nat)),
{
    let k: nat = (32 - z) as nat;
    let d = pow2(k);
    lemma_pow2_pos(k);
    lemma_pow2_pos(z);
    lemma_pow2_adds(z, k);
    let n = pow2(z);
    assert(n * d == pow2(32));
    lemma_fundamental_div_mod(y as int, d as int);
    let (q, r) = (y / d, y % d);
    assert(y == d * q + r);
    assert(q < n) by (nonlinear_arith)
        requires
            y == d * q + r,
            0 <= r,
            y < n * d,
            d > 0,
    ;
    let f = flip_y(32, y);
    assert(f == n * d - 1 - y);
    let g = n - 1 - q;
    assert(g * d <= f < (g + 1) * d) by (nonlinear_arith)
        requires
            f == n * d - 1 - y,
            y == d * q + r,
            0 <= r < d,
            g == n - 1 - q,
    ;
    lemma_quotient_interval(f, d, g as nat);
}

/// A tile is an interval of keys: a cell lies in a tile exactly where its key
/// lies in the bounds of the tile.
pub proof fn law_tile_is_an_interval(c: TileXy, z: u32, x: u32, y: u32)
    requires
        z <= 32,
        x < side(z as nat),
        y < side(z as nat),
    ensures
        lies_in(c, z, x, y) <==> tile_bounds(z, x, y).0 <= cell_code(c) < tile_bounds(z, x, y).1,
{
    let k: nat = (32 - z) as nat;
    let d = pow2(k);
    lemma2_to64();
    lemma_pow2_pos(k);
    lemma_pow2_pos(2 * k);
    let cy = flip_y(32, c.y_xyz as nat);
    lemma_ancestor_of_interleave(c.x as nat, cy, k);
    lemma_flip_of_quotient(c.y_xyz as nat, z as nat);
    let prefix = tile_prefix(z, x, y);
    let (qx, qy) = (c.x as nat / d, c.y_xyz as nat / d);
    assert(cell_code(c) / pow2(2 * k) == interleave(qx, flip_y(z as nat, qy)));
    assert(tile_size(z) == pow2(2 * k));
    lemma_quotient_interval(cell_code(c), pow2(2 * k), prefix);
    lemma_lanes_of_interleave(qx, flip_y(z as nat, qy));
    lemma_lanes_of_interleave(x as nat, flip_y(z as nat, y as nat));
    assert(qy < side(z as nat));
}

/// The bounds of a child tile lie inside those of its parent.
pub proof fn law_children_nest(z: u32, x: u32, y: u32, right: u32, down: u32)
    requires
        z < 32,
        x < side(z as nat),
        y < side(z as nat),
        right <= 1,
        down <= 1,
    ensures
        ({
            let child = tile_bounds((z + 1) as u32, (2 * x + right) as u32, (2 * y + down) as u32);
            let parent = tile_bounds(z, x, y);
            parent.0 <= child.0 && child.1 <= parent.1
        }),
{
    let n = side(z as nat);
    lemma2_to64();
    lemma_pow2_unfold((z + 1) as nat);
    assert(side((z + 1) as nat) == 2 * n);
    assert(n <= 0x8000_0000) by {
        if z < 31 {
            lemma_pow2_strictly_increases(z as nat, 31);
        }
    }
    let (cx, cy) = ((2 * x + right) as nat, (2 * y + down) as nat);
    let fy = flip_y((z + 1) as nat, cy);
    assert(fy == 2 * n - 1 - cy);
    lemma_parent_of_interleave(cx, fy);
    assert(cx / 2 == x);
    assert(fy / 2 == n - 1 - y);
    let child = interleave(cx, fy);
    let parent = interleave(x as nat, (n - 1 - y) as nat);
    assert(child / 4 == parent);
    let s = tile_size((z + 1) as u32);
    let e: nat = (2 * (32 - (z + 1))) as nat;
    lemma_pow2_unfold(e + 1);
    lemma_pow2_unfold(e + 2);
    assert(tile_size(z) == 4 * s);
    assert(parent * (4 * s) <= child * s) by (nonlinear_arith)
        requires
            4 * parent <= child,
            s >= 0,
    ;
    assert((child + 1) * s <= (parent + 1) * (4 * s)) by (nonlinear_arith)
        requires
            child + 1 <= 4 * parent + 4,
            s >= 0,
    ;
}

/// The one tile of zoom 0 covers every key.
pub proof fn law_world_is_everything(x: u32, y: u32)
    ensures
        tile_bounds(0, x, y).0 == 0,
        tile_bounds(0, x, y).1 == 0x1_0000_0000_0000_0000,
{
    lemma2_to64();
    lemma2_to64_rest();
    assert(side(0) == 1);
    assert(tile_prefix(0, x, y) == 0);
    let s = tile_size(0);
    assert(s == pow2(64));
    assert(s == 0x1_0000_0000_0000_0000);
    assert((0 + 1) * s == s);
}

/// What lies outside the grid is moved to its edge: a zoom past the last is the last, a
/// column or row past the side is the one at the side.
pub proof fn law_requests_are_moved_into_the_grid(z: u32, x: u32, y: u32)
    ensures
        z >= 32 ==> tile_bounds(z, x, y) == tile_bounds(32, x, y),
        z <= 32 && x >= pow2(z as nat) ==> tile_bounds(z, x, y) == tile_bounds(
            z,
            (pow2(z as nat) - 1) as u32,
            y,
        ),
        z <= 32 && y >= pow2(z as nat) ==> tile_bounds(z, x, y) == tile_bounds(
            z,
            x,
            (pow2(z as nat) - 1) as u32,
        ),
{
    vstd::arithmetic::power2::lemma_pow2_pos(z as nat);
}

/// The tiles of a zoom part the keys: each holds as many as the others, and no two share
/// one.
pub proof fn law_tiles_of_a_zoom_are_apart(z: u32, x: u32, y: u32, c: TileXy, u: u32, v: u32)
    requires
        z <= 32,
        x < side(z as nat),
        y < side(z as nat),
        u < side(z as nat),
        v < side(z as nat),
        tile_bounds(z, x, y).0 <= cell_code(c) < tile_bounds(z, x, y).1,
        tile_bounds(z, u, v).0 <= cell_code(c) < tile_bounds(z, u, v).1,
    ensures
        x == u && y == v,
        tile_bounds(z, x, y).1 - tile_bounds(z, x, y).0 == pow2((64 - 2 * z) as nat),
{
    law_tile_is_an_interval(c, z, x, y);
    law_tile_is_an_interval(c, z, u, v);
    let (p, s) = (tile_prefix(z, x, y) as int, tile_size(z) as int);
    assert((p + 1) * s - p * s == s) by (nonlinear_arith);
}

/// The rows of a slab are its bytes, 512 at a time: whole rows in order make the slab
/// again.
pub proof fn law_rows_make_the_slab(rows: Seq<NodeRow>, b: Seq<u8>, i: int, k: int)
    requires
        are_rows_in(rows, b),
        b.len() % 512 == 0,
        0 <= i < rows.len(),
        0 <= k < 512,
    ensures
        b.len() == 512 * rows.len(),
        row_wire(rows[i])[k] == b[512 * i + k],
{
    assert(row_wire(rows[i])[k] == b.subrange(512 * i, 512 * i + 512)[k]);
}

/// In key order, the split at a code is where the rows below it end: what stands before is
/// below, and what stands there or behind is not; and there is one such place.
pub proof fn law_a_split_parts_the_rows(b: Seq<u8>, code: int, p: int)
    requires
        in_key_order(b),
    ensures
        splits_at(b, code, p) <==> 0 <= p <= row_count(b) && forall|i: int|
            0 <= i < row_count(b) ==> (#[trigger] code_at(b, i) < code <==> i < p),
{
    if splits_at(b, code, p) {
        lemma_split_is_total(b, code, p);
    }
    if 0 <= p <= row_count(b) && forall|i: int|
        0 <= i < row_count(b) ==> (#[trigger] code_at(b, i) < code <==> i < p) {
        if p > 0 {
            assert(code_at(b, p - 1) < code);
        }
        if p < row_count(b) {
            assert(!(code_at(b, p) < code));
        }
    }
}

proof fn lemma_halving(b: Seq<u8>, code: int, lo: int, hi: int)
    requires
        in_key_order(b),
        0 <= lo <= hi <= row_count(b),
        forall|i: int| 0 <= i < lo ==> #[trigger] code_at(b, i) < code,
        forall|i: int| hi <= i < row_count(b) ==> #[trigger] code_at(b, i) >= code,
    ensures
        splits_at(b, code, halved(b, code, lo, hi)),
    decreases hi - lo,
{
    if lo < hi {
        let mid = lo + (hi - lo) / 2;
        if code_at(b, mid) < code {
            assert forall|i: int| 0 <= i < mid + 1 implies #[trigger] code_at(b, i) < code by {
                assert(code_at(b, i) <= code_at(b, mid));
            }
            lemma_halving(b, code, mid + 1, hi);
        } else {
            assert forall|i: int| mid <= i < row_count(b) implies #[trigger] code_at(b, i)
                >= code by {
                assert(code_at(b, mid) <= code_at(b, i));
            }
            lemma_halving(b, code, lo, mid);
        }
    } else {
        if lo > 0 {
            assert(code_at(b, lo - 1) < code);
        }
        if lo < row_count(b) {
            assert(code_at(b, lo) >= code);
        }
    }
}

/// In key order, halving finds how many rows lie below a code.
pub proof fn law_halving_finds_the_split(b: Seq<u8>, code: int, i: int)
    requires
        in_key_order(b),
        0 <= i < row_count(b),
    ensures
        code_at(b, i) < code <==> i < halved(b, code, 0, row_count(b) as int),
{
    let p = halved(b, code, 0, row_count(b) as int);
    lemma_halving(b, code, 0, row_count(b) as int);
    lemma_split_is_total(b, code, p);
}

} // verus!
