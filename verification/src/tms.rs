//! Grid cells, the TMS quadkey and the four cascade tiers.
//!
//! A cell is a tile of the zoom-32 web-mercator grid. Its key is the Morton
//! code of its column and its *TMS* row: slippy rows count from the north, TMS
//! rows from the south, and the flip happens exactly once, where a cell becomes
//! a key ([`cell_to_morton`]).
//!
//! The Morton code is a quadtree path. [`interleave`] says so directly: its two
//! low bits are the quadrant at the finest level, the rest is the path of the
//! parent. Dividing a code by four is therefore stepping to the parent tile
//! ([`lemma_parent_of_interleave`]), which is what makes a tile a range of codes.

use vstd::arithmetic::div_mod::lemma_div_denominator;
use vstd::arithmetic::power2::*;
use vstd::prelude::*;

verus! {

/// Native depth: four tiers of eight quadtree levels.
pub const HHTL_DEPTH4: u32 = 32;

/// The four spatial tiers of a key, coarse first.
#[derive(Debug, Clone, Copy, PartialEq, Eq, PartialOrd, Ord, Default, Structural)]
pub struct Tiers {
    pub heel: u16,
    pub hip: u16,
    pub twig: u16,
    pub leaf: u16,
}

/// A zoom-32 tile, in the slippy convention: `y_xyz` grows south.
#[derive(Debug, Clone, Copy, PartialEq, Eq, PartialOrd, Ord, Default, Hash, Structural)]
pub struct TileXy {
    pub x: u32,
    pub y_xyz: u32,
}

// ── The Morton code ─────────────────────────────────────────────────
/// The quadtree path of column `x` and row `y`: `x` in the even bits, `y` in
/// the odd bits.
pub open spec fn interleave(x: nat, y: nat) -> nat
    decreases x + y,
{
    if x == 0 && y == 0 {
        0
    } else {
        x % 2 + 2 * (y % 2) + 4 * interleave(x / 2, y / 2)
    }
}

/// The even bits of a code, closed up.
pub open spec fn lane(code: nat) -> nat
    decreases code,
{
    if code == 0 {
        0
    } else {
        code % 2 + 2 * lane(code / 4)
    }
}

/// The column a code names.
pub open spec fn lane_x(code: nat) -> nat {
    lane(code)
}

/// The row a code names.
pub open spec fn lane_y(code: nat) -> nat {
    lane(code / 2)
}

/// The parent tile's code is the code without its two low bits.
pub proof fn lemma_parent_of_interleave(x: nat, y: nat)
    ensures
        interleave(x, y) / 4 == interleave(x / 2, y / 2),
        interleave(x, y) % 4 == x % 2 + 2 * (y % 2),
{
    if x == 0 && y == 0 {
        assert(interleave(0, 0) == 0);
    }
}

/// The digits of a code, put together from one of each lane and the rest.
proof fn lemma_code_digits(a: nat, b: nat, p: nat)
    requires
        a < 2,
        b < 2,
    ensures
        ({
            let c = a + 2 * b + 4 * p;
            &&& c % 2 == a
            &&& c / 4 == p
            &&& (c / 2) % 2 == b
            &&& (c / 2) / 4 == p / 2
        }),
{
}

/// A lane is its lowest bit and the rest.
proof fn lemma_lane_step(n: nat)
    ensures
        lane(n) == n % 2 + 2 * lane(n / 4),
{
    assert(lane(0) == 0);
}

/// Both coordinates come back out of a code.
#[verifier::spinoff_prover]
pub proof fn lemma_lanes_of_interleave(x: nat, y: nat)
    ensures
        lane_x(interleave(x, y)) == x,
        lane_y(interleave(x, y)) == y,
    decreases x + y,
{
    if x == 0 && y == 0 {
        assert(lane(0) == 0);
    } else {
        lemma_lanes_of_interleave(x / 2, y / 2);
        let c = interleave(x, y);
        let p = interleave(x / 2, y / 2);
        lemma_code_digits(x % 2, y % 2, p);
        lemma_lane_step(c);
        lemma_lane_step(c / 2);
        assert(x == x % 2 + 2 * (x / 2));
        assert(y == y % 2 + 2 * (y / 2));
    }
}

/// Every number is the code of the two lanes it carries.
pub proof fn lemma_interleave_of_lanes(code: nat)
    ensures
        interleave(lane_x(code), lane_y(code)) == code,
    decreases code,
{
    if code == 0 {
        assert(lane(0) == 0);
    } else {
        let p = code / 4;
        lemma_interleave_of_lanes(p);
        assert((code / 2) / 4 == p / 2);
        assert(lane_x(code) == code % 2 + 2 * lane_x(p));
        if code / 2 == 0 {
            assert(p == 0);
            assert(lane(0) == 0);
            assert(lane_y(code) == 0);
        } else {
            assert(lane_y(code) == (code / 2) % 2 + 2 * lane_y(p));
        }
        assert(lane_x(code) % 2 == code % 2);
        assert(lane_y(code) % 2 == (code / 2) % 2);
        assert(lane_x(code) / 2 == lane_x(p));
        assert(lane_y(code) / 2 == lane_y(p));
        assert(code == code % 2 + 2 * ((code / 2) % 2) + 4 * p);
    }
}

/// The code of a cell of a grid of side `2^k` is below `4^k`.
pub proof fn lemma_interleave_bound(x: nat, y: nat, k: nat)
    requires
        x < pow2(k),
        y < pow2(k),
    ensures
        interleave(x, y) < pow2(2 * k),
    decreases k,
{
    if k == 0 {
        lemma2_to64();
    } else {
        let j: nat = (k - 1) as nat;
        lemma_pow2_unfold(k);
        lemma_interleave_bound(x / 2, y / 2, j);
        lemma_parent_of_interleave(x, y);
        lemma_pow2_unfold(2 * k);
        lemma_pow2_unfold((2 * k - 1) as nat);
        assert(2 * k - 2 == 2 * j);
        assert(interleave(x, y) == 4 * interleave(x / 2, y / 2) + interleave(x, y) % 4);
    }
}

/// The lanes of a code below `4^k` are below `2^k`.
pub proof fn lemma_lane_bound(code: nat, k: nat)
    requires
        code < pow2(2 * k),
    ensures
        lane_x(code) < pow2(k),
        lane_y(code) < pow2(k),
    decreases k,
{
    if k == 0 {
        lemma2_to64();
        assert(lane(0) == 0);
    } else {
        let j: nat = (k - 1) as nat;
        lemma_pow2_unfold(k);
        lemma_pow2_unfold(2 * k);
        lemma_pow2_unfold((2 * k - 1) as nat);
        assert(2 * k - 2 == 2 * j);
        lemma_lane_bound(code / 4, j);
        assert((code / 2) / 4 == (code / 4) / 2);
        if code == 0 {
            assert(lane(0) == 0);
        }
        if code / 2 == 0 {
            assert(lane(0) == 0);
        }
    }
}

/// The ancestor `k` levels up: drop `2k` bits of the code, `k` bits of each
/// coordinate.
pub proof fn lemma_ancestor_of_interleave(x: nat, y: nat, k: nat)
    ensures
        interleave(x, y) / pow2(2 * k) == interleave(x / pow2(k), y / pow2(k)),
    decreases k,
{
    if k == 0 {
        lemma2_to64();
        assert(pow2(2 * k) == 1);
        assert(x / pow2(k) == x);
        assert(y / pow2(k) == y);
        assert(interleave(x, y) / pow2(2 * k) == interleave(x, y));
    } else {
        let j: nat = (k - 1) as nat;
        lemma_pow2_unfold(k);
        lemma_pow2_unfold(2 * k);
        lemma_pow2_unfold((2 * k - 1) as nat);
        lemma_pow2_pos(j);
        lemma_pow2_pos(2 * j);
        assert(2 * k - 2 == 2 * j);
        lemma_parent_of_interleave(x, y);
        lemma_ancestor_of_interleave(x / 2, y / 2, j);
        let (pj, qj) = (pow2(j) as int, pow2(2 * j) as int);
        vstd::arithmetic::div_mod::lemma_div_denominator(x as int, 2, pj);
        vstd::arithmetic::div_mod::lemma_div_denominator(y as int, 2, pj);
        vstd::arithmetic::div_mod::lemma_div_denominator(interleave(x, y) as int, 4, qj);
        let (pk, qk) = (pow2(k) as int, pow2(2 * k) as int);
        assert(pk == 2 * pj);
        assert(qk == 4 * qj);
        assert(x as int / pk == (x as int / 2) / pj);
        assert(y as int / pk == (y as int / 2) / pj);
        assert(interleave(x, y) as int / qk == (interleave(x, y) as int / 4) / qj);
        assert(x / pow2(k) == (x / 2) / pow2(j));
        assert(y / pow2(k) == (y / 2) / pow2(j));
    }
}

spec fn spread(v: u64) -> u64 {
    let a = v & 0x0000_0000_ffff_ffff;
    let b = (a | (a << 16)) & 0x0000_ffff_0000_ffff;
    let c = (b | (b << 8)) & 0x00ff_00ff_00ff_00ff;
    let d = (c | (c << 4)) & 0x0f0f_0f0f_0f0f_0f0f;
    let e = (d | (d << 2)) & 0x3333_3333_3333_3333;
    (e | (e << 1)) & 0x5555_5555_5555_5555
}

spec fn compact(v: u64) -> u64 {
    let a = v & 0x5555_5555_5555_5555;
    let b = (a | (a >> 1)) & 0x3333_3333_3333_3333;
    let c = (b | (b >> 2)) & 0x0f0f_0f0f_0f0f_0f0f;
    let d = (c | (c >> 4)) & 0x00ff_00ff_00ff_00ff;
    let e = (d | (d >> 8)) & 0x0000_ffff_0000_ffff;
    (e | (e >> 16)) & 0x0000_0000_ffff_ffff
}

proof fn lemma_spread_step(v: u64)
    by (bit_vector)
    requires
        v <= 0xffff_ffffu64,
    ensures
        spread(v) == (v % 2) + 4 * spread(v / 2),
        v == 0 ==> spread(v) == 0,
{
}

proof fn lemma_compact_step(v: u64)
    by (bit_vector)
    ensures
        compact(v) == (v % 2) + 2 * compact(v / 4),
        compact(v) <= 0xffff_ffffu64,
        v == 0 ==> compact(v) == 0,
{
}

proof fn lemma_join(a: u64, b: u64)
    by (bit_vector)
    ensures
        spread(a) | (spread(b) << 1) == spread(a) + 2 * spread(b),
{
}

proof fn lemma_low_half(v: u64)
    by (bit_vector)
    ensures
        spread(v) == spread(v % 0x1_0000_0000),
{
}

proof fn lemma_spread(v: u64)
    requires
        v <= 0xffff_ffffu64,
    ensures
        spread(v) == interleave(v as nat, 0),
    decreases v,
{
    lemma_spread_step(v);
    if v > 0 {
        lemma_spread(v / 2);
    }
}

proof fn lemma_compact(v: u64)
    ensures
        compact(v) == lane(v as nat),
    decreases v,
{
    lemma_compact_step(v);
    if v > 0 {
        lemma_compact(v / 4);
    }
}

/// The two lanes add up: rows sit one bit above columns.
pub proof fn lemma_interleave_splits(x: nat, y: nat)
    ensures
        interleave(x, y) == interleave(x, 0) + 2 * interleave(y, 0),
    decreases x + y,
{
    if x > 0 || y > 0 {
        lemma_interleave_splits(x / 2, y / 2);
        if x == 0 {
            assert(interleave(0, 0) == 0);
        }
        if y == 0 {
            assert(interleave(0, 0) == 0);
        }
    }
}

/// Puts a zero bit between every two bits of the low half of `x`.
pub fn spread_bits(x: u64) -> (r: u64)
    ensures
        r == interleave((x % 0x1_0000_0000) as nat, 0),
{
    proof {
        lemma_low_half(x);
        lemma_spread(x % 0x1_0000_0000);
    }
    let a: u64 = x & 0x0000_0000_ffff_ffff;
    let b: u64 = (a | (a << 16)) & 0x0000_ffff_0000_ffff;
    let c: u64 = (b | (b << 8)) & 0x00ff_00ff_00ff_00ff;
    let d: u64 = (c | (c << 4)) & 0x0f0f_0f0f_0f0f_0f0f;
    let e: u64 = (d | (d << 2)) & 0x3333_3333_3333_3333;
    (e | (e << 1)) & 0x5555_5555_5555_5555
}

/// Closes up the even bits of `x`; the inverse of [`spread_bits`].
pub fn compact_bits(x: u64) -> (r: u64)
    ensures
        r == lane(x as nat),
        r <= 0xffff_ffffu64,
{
    proof {
        lemma_compact(x);
        lemma_compact_step(x);
    }
    let a: u64 = x & 0x5555_5555_5555_5555;
    let b: u64 = (a | (a >> 1)) & 0x3333_3333_3333_3333;
    let c: u64 = (b | (b >> 2)) & 0x0f0f_0f0f_0f0f_0f0f;
    let d: u64 = (c | (c >> 4)) & 0x00ff_00ff_00ff_00ff;
    let e: u64 = (d | (d >> 8)) & 0x0000_ffff_0000_ffff;
    (e | (e >> 16)) & 0x0000_0000_ffff_ffff
}

/// Interleaves a column and a row into a Morton code, in a fixed number of
/// steps.
pub fn morton64(x: u32, y: u32) -> (code: u64)
    ensures
        code == interleave(x as nat, y as nat),
{
    proof {
        lemma_join(x as u64, y as u64);
        lemma_spread(x as u64);
        lemma_spread(y as u64);
        lemma_low_half(x as u64);
        lemma_low_half(y as u64);
        lemma_interleave_splits(x as nat, y as nat);
    }
    let a: u64 = spread_bits(x as u64);
    let b: u64 = spread_bits(y as u64);
    a | (b << 1)
}

/// Splits a Morton code into its column and its row; the inverse of
/// [`morton64`].
pub fn demorton64(code: u64) -> (r: (u32, u32))
    ensures
        r.0 == lane_x(code as nat),
        r.1 == lane_y(code as nat),
{
    (compact_bits(code) as u32, compact_bits(code / 2) as u32)
}

/// Column and row survive the trip through their code, and a code survives the
/// trip through its column and row.
pub proof fn law_morton_inverse(x: u32, y: u32, code: u64)
    ensures
        lane_x(interleave(x as nat, y as nat)) == x,
        lane_y(interleave(x as nat, y as nat)) == y,
        interleave(lane_x(code as nat), lane_y(code as nat)) == code,
{
    lemma_lanes_of_interleave(x as nat, y as nat);
    lemma_interleave_of_lanes(code as nat);
}

// ── The row flip ────────────────────────────────────────────────────
/// Tiles along one side of the grid at zoom `z`; the grid ends at zoom 32.
pub open spec fn side(z: nat) -> nat {
    pow2(if z < 32 {
        z
    } else {
        32
    })
}

/// The row counted from the other edge. A row outside the grid goes to row 0.
pub open spec fn flip_y(z: nat, y: nat) -> nat {
    if y < side(z) {
        (side(z) - 1 - y) as nat
    } else {
        0
    }
}

/// The side of the grid, as a number.
pub fn grid_side(z: u32) -> (n: u64)
    ensures
        n == side(z as nat),
        1 <= n <= 0x1_0000_0000,
{
    let k: u32 = if z < HHTL_DEPTH4 {
        z
    } else {
        HHTL_DEPTH4
    };
    proof {
        lemma2_to64();
        lemma_pow2_pos(k as nat);
        if k < 32 {
            lemma_pow2_strictly_increases(k as nat, 32);
        }
        vstd::bits::lemma_u64_shl_is_mul(1, k as u64);
    }
    1u64 << k
}

/// Slippy row to TMS row and back, at zoom `z`.
pub fn xyz_to_tms_y(z: u32, y: u32) -> (r: u32)
    ensures
        r == flip_y(z as nat, y as nat),
{
    let n: u64 = grid_side(z);
    if (y as u64) < n {
        (n - 1 - y as u64) as u32
    } else {
        0
    }
}

/// Flipping twice is flipping not at all, for every row of the grid.
pub proof fn law_flip_is_its_own_inverse(z: nat, y: nat)
    requires
        y < side(z),
    ensures
        flip_y(z, y) < side(z),
        flip_y(z, flip_y(z, y)) == y,
{
}

// ── Cells and keys ──────────────────────────────────────────────────
/// The key of a cell.
pub open spec fn cell_code(c: TileXy) -> nat {
    interleave(c.x as nat, flip_y(32, c.y_xyz as nat))
}

/// A cell to its TMS Morton key.
pub fn cell_to_morton(c: TileXy) -> (code: u64)
    ensures
        code == cell_code(c),
{
    morton64(c.x, xyz_to_tms_y(HHTL_DEPTH4, c.y_xyz))
}

/// A TMS Morton key to its cell.
pub fn morton_to_cell(code: u64) -> (c: TileXy)
    ensures
        c.x == lane_x(code as nat),
        c.y_xyz == flip_y(32, lane_y(code as nat)),
{
    let (x, y_tms): (u32, u32) = demorton64(code);
    TileXy { x, y_xyz: xyz_to_tms_y(HHTL_DEPTH4, y_tms) }
}

/// The cell that a key names.
pub open spec fn cell_of_code(code: nat) -> TileXy {
    TileXy { x: lane_x(code) as u32, y_xyz: flip_y(32, lane_y(code)) as u32 }
}

/// A key determines its cell and a cell its key: no position is lost in either
/// direction.
pub proof fn law_cell_key_inverse(c: TileXy, code: u64)
    ensures
        cell_code(c) < pow2(64),
        cell_of_code(cell_code(c)) == c,
        cell_code(cell_of_code(code as nat)) == code,
{
    lemma2_to64();
    lemma2_to64_rest();
    let y = flip_y(32, c.y_xyz as nat);
    lemma_interleave_bound(c.x as nat, y, 32);
    lemma_lanes_of_interleave(c.x as nat, y);
    law_flip_is_its_own_inverse(32, c.y_xyz as nat);
    lemma_lane_bound(code as nat, 32);
    lemma_interleave_of_lanes(code as nat);
    law_flip_is_its_own_inverse(32, lane_y(code as nat));
}

/// Splits a key into its four tiers, coarse first.
pub fn tiers_of(code: u64) -> (t: Tiers)
    ensures
        t == tiers(code),
{
    Tiers {
        heel: (code / 0x1_0000_0000_0000) as u16,
        hip: (code / 0x1_0000_0000 % 0x1_0000) as u16,
        twig: (code / 0x1_0000 % 0x1_0000) as u16,
        leaf: (code % 0x1_0000) as u16,
    }
}

/// The base-65536 digits of a key, most significant first.
pub open spec fn tiers(code: u64) -> Tiers {
    Tiers {
        heel: (code / 0x1_0000_0000_0000) as u16,
        hip: (code / 0x1_0000_0000 % 0x1_0000) as u16,
        twig: (code / 0x1_0000 % 0x1_0000) as u16,
        leaf: (code % 0x1_0000) as u16,
    }
}

/// The number that four tiers spell.
pub open spec fn code_of_tiers(t: Tiers) -> nat {
    (t.heel * 0x1_0000_0000_0000 + t.hip * 0x1_0000_0000 + t.twig * 0x1_0000 + t.leaf) as nat
}

/// The tiers of a key spell the key, and tiers are read back from what they
/// spell.
pub proof fn law_tiers_inverse(code: u64, t: Tiers)
    ensures
        code_of_tiers(tiers(code)) == code,
        code_of_tiers(t) <= u64::MAX,
        tiers(code_of_tiers(t) as u64) == t,
{
    let a = code / 0x1_0000;
    let b = a / 0x1_0000;
    let c = b / 0x1_0000;
    assert(code == a * 0x1_0000 + code % 0x1_0000);
    assert(a == b * 0x1_0000 + a % 0x1_0000);
    assert(b == c * 0x1_0000 + b % 0x1_0000);
    assert(code / 0x1_0000_0000 == b);
    assert(code / 0x1_0000_0000_0000 == c);
    let s = code_of_tiers(t);
    let s1 = s / 0x1_0000;
    let s2 = s1 / 0x1_0000;
    assert(s % 0x1_0000 == t.leaf);
    assert(s1 == t.heel * 0x1_0000_0000 + t.hip * 0x1_0000 + t.twig);
    assert(s1 % 0x1_0000 == t.twig);
    assert(s2 == t.heel * 0x1_0000 + t.hip);
    assert(s2 % 0x1_0000 == t.hip);
    assert(s2 / 0x1_0000 == t.heel);
    assert(s / 0x1_0000_0000 == s2);
    assert(s / 0x1_0000_0000_0000 == s2 / 0x1_0000);
}

// ── Derived anchors ─────────────────────────────────────────────────
/// How [`mean_cell`] rounds. The rule travels with a bake, so that a derived
/// anchor can be reproduced from the artifact alone.
#[derive(Debug, Clone, Copy, PartialEq, Eq, Structural)]
pub enum AnchorRounding {
    /// `(sum + n / 2) / n`.
    HalfUp,
}

/// The stable wire value of a rule. Zero is not one: an unspecified rule is
/// refused, never defaulted.
pub open spec fn rounding_wire(r: AnchorRounding) -> u32 {
    match r {
        AnchorRounding::HalfUp => 1,
    }
}

impl AnchorRounding {
    /// The rule in force.
    pub const CURRENT: AnchorRounding = AnchorRounding::HalfUp;

    /// The stable wire value.
    pub fn wire(self) -> (v: u32)
        ensures
            v == rounding_wire(self),
            v != 0,
    {
        match self {
            AnchorRounding::HalfUp => 1,
        }
    }

    /// A wire value back to a rule, where there is one.
    pub fn from_wire(v: u32) -> (r: Option<Self>)
        ensures
            r matches Some(rule) ==> rounding_wire(rule) == v,
            r is None ==> forall|rule: AnchorRounding| #[trigger] rounding_wire(rule) != v,
    {
        if v == 1 {
            Some(AnchorRounding::HalfUp)
        } else {
            None
        }
    }
}

/// Round half up: the integer nearest `sum / n`, the larger one at the half.
pub open spec fn half_up(sum: nat, n: nat) -> nat {
    (sum + n / 2) / n
}

/// The sum of the columns.
pub open spec fn sum_x(cells: Seq<TileXy>) -> nat
    decreases cells.len(),
{
    if cells.len() == 0 {
        0
    } else {
        sum_x(cells.drop_last()) + cells.last().x as nat
    }
}

/// The sum of the rows.
pub open spec fn sum_y(cells: Seq<TileXy>) -> nat
    decreases cells.len(),
{
    if cells.len() == 0 {
        0
    } else {
        sum_y(cells.drop_last()) + cells.last().y_xyz as nat
    }
}

/// The centroid of a non-empty set of cells, in the grid of the cells.
pub open spec fn centroid(cells: Seq<TileXy>) -> Option<TileXy> {
    if cells.len() == 0 {
        None
    } else {
        Some(
            TileXy {
                x: half_up(sum_x(cells), cells.len()) as u32,
                y_xyz: half_up(sum_y(cells), cells.len()) as u32,
            },
        )
    }
}

/// A sum of `n` terms lies between `n` times the least and `n` times the
/// greatest of them.
pub proof fn lemma_sum_bounds(cells: Seq<TileXy>, xlo: nat, xhi: nat, ylo: nat, yhi: nat)
    requires
        forall|i: int|
            0 <= i < cells.len() ==> xlo <= (#[trigger] cells[i]).x <= xhi && ylo <= cells[i].y_xyz
                <= yhi,
    ensures
        xlo * cells.len() <= sum_x(cells) <= xhi * cells.len(),
        ylo * cells.len() <= sum_y(cells) <= yhi * cells.len(),
    decreases cells.len(),
{
    if cells.len() > 0 {
        let rest = cells.drop_last();
        lemma_sum_bounds(rest, xlo, xhi, ylo, yhi);
        assert(cells.last() == cells[cells.len() - 1]);
        let n: nat = rest.len();
        assert(xlo * (n + 1) == xlo * n + xlo) by (nonlinear_arith);
        assert(xhi * (n + 1) == xhi * n + xhi) by (nonlinear_arith);
        assert(ylo * (n + 1) == ylo * n + ylo) by (nonlinear_arith);
        assert(yhi * (n + 1) == yhi * n + yhi) by (nonlinear_arith);
    } else {
        assert(xlo * 0 == 0 && xhi * 0 == 0 && ylo * 0 == 0 && yhi * 0 == 0);
    }
}

/// The rounded mean of numbers between two bounds lies between the bounds.
proof fn lemma_half_up_between(sum: nat, n: nat, lo: nat, hi: nat)
    requires
        n > 0,
        lo * n <= sum <= hi * n,
    ensures
        lo <= half_up(sum, n) <= hi,
{
    let m = half_up(sum, n);
    let t = sum + n / 2;
    vstd::arithmetic::div_mod::lemma_fundamental_div_mod(t as int, n as int);
    let r = t % n;
    assert(t == n * m + r && 0 <= r < n);
    assert(lo <= m) by (nonlinear_arith)
        requires
            lo * n <= sum,
            sum <= t,
            t == n * m + r,
            0 <= r < n,
            n > 0,
    ;
    assert(m <= hi) by (nonlinear_arith)
        requires
            sum <= hi * n,
            t < sum + n,
            t == n * m + r,
            0 <= r,
            n > 0,
    ;
}

/// One axis of a centroid.
pub fn mean_axis(sum: u128, n: u128) -> (m: u32)
    requires
        0 < n <= 0x1_0000_0000_0000_0000,
        sum <= 0xffff_ffff * n,
    ensures
        m == half_up(sum as nat, n as nat),
{
    proof {
        lemma_half_up_between(sum as nat, n as nat, 0, 0xffff_ffff);
        assert(0xffff_ffff * n <= 0xffff_ffff * 0x1_0000_0000_0000_0000);
    }
    ((sum + n / 2) / n) as u32
}

/// The integer centroid of a member set: a grid point by construction. An empty
/// set has none.
pub fn mean_cell(cells: &[TileXy]) -> (c: Option<TileXy>)
    ensures
        c == centroid(cells@),
{
    let n: usize = cells.len();
    if n == 0 {
        return None;
    }
    let mut sx: u128 = 0;
    let mut sy: u128 = 0;
    let mut i: usize = 0;
    assert(cells@.take(0) =~= Seq::<TileXy>::empty());
    while i < n
        invariant
            i <= n,
            n == cells@.len(),
            sx == sum_x(cells@.take(i as int)),
            sy == sum_y(cells@.take(i as int)),
            sx <= 0xffff_ffff * i,
            sy <= 0xffff_ffff * i,
        decreases n - i,
    {
        proof {
            let next = cells@.take(i + 1);
            assert(next.drop_last() =~= cells@.take(i as int));
        }
        sx = sx + cells[i].x as u128;
        sy = sy + cells[i].y_xyz as u128;
        i = i + 1;
    }
    assert(cells@.take(n as int) =~= cells@);
    Some(TileXy { x: mean_axis(sx, n as u128), y_xyz: mean_axis(sy, n as u128) })
}

/// A centroid lies inside every box that holds all the members.
pub proof fn law_centroid_is_inside(
    cells: Seq<TileXy>,
    xlo: nat,
    xhi: nat,
    ylo: nat,
    yhi: nat,
)
    requires
        cells.len() > 0,
        forall|i: int|
            0 <= i < cells.len() ==> xlo <= (#[trigger] cells[i]).x <= xhi && ylo <= cells[i].y_xyz
                <= yhi,
        xhi <= 0xffff_ffff,
        yhi <= 0xffff_ffff,
    ensures
        centroid(cells) matches Some(c) && xlo <= c.x <= xhi && ylo <= c.y_xyz <= yhi,
{
    lemma_sum_bounds(cells, xlo, xhi, ylo, yhi);
    lemma_half_up_between(sum_x(cells), cells.len(), xlo, xhi);
    lemma_half_up_between(sum_y(cells), cells.len(), ylo, yhi);
}

/// The rounding rule picks a nearest integer: twice the distance between the
/// scaled mean and the sum is at most `n`.
pub proof fn law_half_up_is_nearest(sum: nat, n: nat)
    requires
        n > 0,
    ensures
        2 * (n * half_up(sum, n) - sum) <= n,
        2 * (sum - n * half_up(sum, n)) <= n,
        // at the half, the larger integer
        2 * (sum - n * half_up(sum, n)) < n,
{
    let m = half_up(sum, n);
    let t = sum + n / 2;
    vstd::arithmetic::div_mod::lemma_fundamental_div_mod(t as int, n as int);
}

/// A single member is its own centroid.
pub proof fn law_centroid_of_one(c: TileXy)
    ensures
        centroid(seq![c]) == Some(c),
{
    let s = seq![c];
    assert(s.drop_last() =~= Seq::<TileXy>::empty());
    assert(sum_x(s.drop_last()) == 0);
    assert(sum_y(s.drop_last()) == 0);
}

/// Whether a latitude, in units of `1e-7` degrees, is inside the band that the
/// mercator grid covers (up to 85.05112878 degrees either side).
pub fn osm_grid_is_representable(lat_e7: i32) -> (b: bool)
    ensures
        b == (-850_511_288 < lat_e7 < 850_511_288),
{
    -850_511_288 < lat_e7 && lat_e7 < 850_511_288
}

/// What a number of cells adds up to on one axis.
proof fn lemma_sums_by_fold(cells: Seq<TileXy>)
    ensures
        sum_x(cells) == cells.fold_left(0int, |sum: int, c: TileXy| sum + c.x),
        sum_y(cells) == cells.fold_left(0int, |sum: int, c: TileXy| sum + c.y_xyz),
    decreases cells.len(),
{
    if cells.len() > 0 {
        lemma_sums_by_fold(cells.drop_last());
        reveal_with_fuel(Seq::fold_left, 2);
    }
}

/// The centroid is the rounded mean of all members, each as often as it occurs: on
/// either axis, as many times the centroid as there are members lies within half of
/// that number of the sum of their coordinates, and at the half the larger one is
/// taken.
pub proof fn law_centroid_is_the_rounded_mean(cells: Seq<TileXy>)
    requires
        cells.len() > 0,
    ensures
        ({
            let n = cells.len() as int;
            let x = cells.fold_left(0int, |sum: int, c: TileXy| sum + c.x);
            let y = cells.fold_left(0int, |sum: int, c: TileXy| sum + c.y_xyz);
            &&& centroid(cells) matches Some(c)
            &&& 2 * x - n < 2 * (n * c.x) <= 2 * x + n
            &&& 2 * y - n < 2 * (n * c.y_xyz) <= 2 * y + n
        }),
{
    lemma_sums_by_fold(cells);
    law_half_up_is_nearest(sum_x(cells), cells.len());
    law_half_up_is_nearest(sum_y(cells), cells.len());
    assert forall|i: int| 0 <= i < cells.len() implies 0 <= (#[trigger] cells[i]).x <= 0xffff_ffff
        && 0 <= cells[i].y_xyz <= 0xffff_ffff by {}
    lemma_sums_fit(cells);
}

proof fn lemma_sums_fit(cells: Seq<TileXy>)
    requires
        cells.len() > 0,
    ensures
        half_up(sum_x(cells), cells.len()) <= 0xffff_ffff,
        half_up(sum_y(cells), cells.len()) <= 0xffff_ffff,
{
    lemma_sums_bound(cells);
    let n = cells.len() as int;
    lemma_half_up_bound(sum_x(cells) as int, n);
    lemma_half_up_bound(sum_y(cells) as int, n);
}

proof fn lemma_half_up_bound(sum: int, n: int)
    requires
        n > 0,
        0 <= sum <= 0xffff_ffff * n,
    ensures
        (sum + n / 2) / n <= 0xffff_ffff,
{
    assert((sum + n / 2) / n <= 0xffff_ffff) by (nonlinear_arith)
        requires
            n > 0,
            0 <= sum <= 0xffff_ffff * n,
    ;
}

proof fn lemma_sums_bound(cells: Seq<TileXy>)
    ensures
        sum_x(cells) <= 0xffff_ffff * cells.len(),
        sum_y(cells) <= 0xffff_ffff * cells.len(),
    decreases cells.len(),
{
    if cells.len() > 0 {
        lemma_sums_bound(cells.drop_last());
    }
}

/// Bit `k` of the column is bit `2k` of a code, and bit `k` of the row is bit `2k + 1`.
pub proof fn law_columns_are_in_the_even_bits(x: nat, y: nat, k: nat)
    ensures
        (interleave(x, y) / pow2(2 * k)) % 2 == (x / pow2(k)) % 2,
        (interleave(x, y) / pow2(2 * k + 1)) % 2 == (y / pow2(k)) % 2,
    decreases k,
{
    let c = interleave(x, y);
    lemma2_to64();
    assert(c % 2 == x % 2 && (c / 2) % 2 == y % 2 && c / 4 == interleave(x / 2, y / 2)) by {
        if x == 0 && y == 0 {
            assert(interleave(0, 0) == 0);
        } else {
            let r = interleave(x / 2, y / 2);
            assert(c == x % 2 + 2 * (y % 2) + 4 * r);
        }
    }
    if k == 0 {
        assert(pow2(0) == 1 && pow2(1) == 2);
        assert(c / 1 == c && x / 1 == x && y / 1 == y);
    } else {
        let j = (k - 1) as nat;
        law_columns_are_in_the_even_bits(x / 2, y / 2, j);
        lemma_pow2_adds(2, 2 * j);
        lemma_pow2_adds(2, 2 * j + 1);
        lemma_pow2_adds(1, j);
        lemma_pow2_pos(2 * j);
        lemma_pow2_pos(2 * j + 1);
        lemma_pow2_pos(j);
        assert(pow2(2) == 4 && pow2(1) == 2);
        assert(2 + 2 * j == 2 * k && 2 + (2 * j + 1) == 2 * k + 1 && 1 + j == k);
        lemma_div_denominator(c as int, 4, pow2(2 * j) as int);
        lemma_div_denominator(c as int, 4, pow2(2 * j + 1) as int);
        lemma_div_denominator(x as int, 2, pow2(j) as int);
        lemma_div_denominator(y as int, 2, pow2(j) as int);
    }
}

/// Rows are counted from the other edge: a row and its flip add up to the last row, of as
/// many rows as a power of two.
pub proof fn law_flip_counts_from_the_other_edge(z: nat, y: nat)
    requires
        z <= 32,
        y < pow2(z),
    ensures
        y + flip_y(z, y) == pow2(z) - 1,
{
}

/// Keys are ordered by their tiers, the coarse ones first.
pub proof fn law_coarse_tiers_come_first(a: u64, b: u64)
    ensures
        ({
            let (s, t) = (tiers(a), tiers(b));
            a < b <==> {
                ||| s.heel < t.heel
                ||| s.heel == t.heel && s.hip < t.hip
                ||| s.heel == t.heel && s.hip == t.hip && s.twig < t.twig
                ||| s.heel == t.heel && s.hip == t.hip && s.twig == t.twig && s.leaf < t.leaf
            }
        }),
{
    law_tiers_inverse(a, tiers(a));
    law_tiers_inverse(b, tiers(b));
}

/// The column of a key is that of its cell, and its row is counted from the south.
pub proof fn law_a_key_names_column_and_row(c: TileXy)
    ensures
        lane_x(cell_code(c)) == c.x,
        lane_y(cell_code(c)) == 0xffff_ffff - c.y_xyz,
{
    lemma2_to64();
    assert(pow2(32) == 0x1_0000_0000);
    assert(side(32) == 0x1_0000_0000);
    law_morton_inverse(c.x, flip_y(32, c.y_xyz as nat) as u32, 0);
}

} // verus!
