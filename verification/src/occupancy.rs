//! What is in a slab, byte for byte: which slots are filled, and how the zeros
//! lie.

use crate::node::{NODE_ROW_STRIDE, SLOT_BYTES};
use crate::slab::{row_count, RowSlab};
use vstd::prelude::*;
use vstd::slice::slice_subrange;

verus! {

/// Where the value region of a row starts.
pub const VALUE_AT: usize = 32;

/// How many of the first `k` bytes are not zero.
pub open spec fn nonzero(v: Seq<u8>, k: int) -> nat
    decreases k,
{
    if k <= 0 {
        0
    } else {
        nonzero(v, k - 1) + if v[k - 1] != 0 {
            1nat
        } else {
            0
        }
    }
}

/// How many runs of zeros begin in the first `k` bytes.
pub open spec fn zero_runs(v: Seq<u8>, k: int) -> nat
    decreases k,
{
    if k <= 0 {
        0
    } else {
        zero_runs(v, k - 1) + if v[k - 1] == 0 && (k == 1 || v[k - 2] != 0) {
            1nat
        } else {
            0
        }
    }
}

/// How many zeros the first `k` bytes end with.
pub open spec fn trailing(v: Seq<u8>, k: int) -> nat
    decreases k,
{
    if k <= 0 || v[k - 1] != 0 {
        0
    } else {
        trailing(v, k - 1) + 1
    }
}

/// How many of the first `k` slots hold a byte that is not zero.
pub open spec fn filled(v: Seq<u8>, k: int) -> nat
    decreases k,
{
    if k <= 0 {
        0
    } else {
        filled(v, k - 1) + if nonzero(v, 16 * k) > nonzero(v, 16 * (k - 1)) {
            1nat
        } else {
            0
        }
    }
}

/// What is in value regions.
#[derive(Debug, Clone, Copy, PartialEq, Eq, Structural)]
pub struct Occupancy {
    /// Slots that hold a byte that is not zero.
    pub filled_slots: u64,
    /// Bytes that are not zero.
    pub nonzero_bytes: u64,
    /// Runs of zeros.
    pub zero_runs: u64,
    /// Zeros in those runs.
    pub zero_bytes: u64,
    /// Zeros in the runs that end a row.
    pub trailing_zeros: u64,
}

/// Whether an occupancy is that of a value region.
pub open spec fn is_occupancy(o: Occupancy, v: Seq<u8>) -> bool {
    let n = v.len() as int;
    &&& o.filled_slots == filled(v, n / 16)
    &&& o.nonzero_bytes == nonzero(v, n)
    &&& o.zero_runs == zero_runs(v, n)
    &&& o.zero_bytes == n - nonzero(v, n)
    &&& o.trailing_zeros == trailing(v, n)
}

/// What is in the value region of a row.
pub fn row_occupancy(v: &[u8]) -> (o: Occupancy)
    ensures
        is_occupancy(o, v@),
{
    let n: usize = v.len();
    let mut nonzero_bytes: u64 = 0;
    let mut runs: u64 = 0;
    let mut run: u64 = 0;
    let mut filled_slots: u64 = 0;
    let mut at_slot: u64 = 0;
    let mut i: usize = 0;
    while i < n
        invariant
            i <= n,
            n == v@.len(),
            nonzero_bytes == nonzero(v@, i as int),
            nonzero_bytes <= i,
            runs == zero_runs(v@, i as int),
            runs <= i,
            run == trailing(v@, i as int),
            run <= i,
            run == 0 <==> i == 0 || v@[i - 1] != 0,
            filled_slots == filled(v@, i as int / 16),
            filled_slots <= i / 16,
            at_slot == nonzero(v@, 16 * (i as int / 16)),
        decreases n - i,
    {
        if v[i] == 0 {
            if run == 0 {
                runs = runs + 1;
            }
            run = run + 1;
        } else {
            nonzero_bytes = nonzero_bytes + 1;
            run = 0;
        }
        i = i + 1;
        if i % SLOT_BYTES == 0 {
            assert(16 * (i as int / 16) == i);
            if nonzero_bytes > at_slot {
                filled_slots = filled_slots + 1;
            }
            at_slot = nonzero_bytes;
        }
    }
    Occupancy {
        filled_slots,
        nonzero_bytes,
        zero_runs: runs,
        zero_bytes: n as u64 - nonzero_bytes,
        trailing_zeros: run,
    }
}

/// The value region of row `i`.
pub open spec fn value_region(b: Seq<u8>, i: int) -> Seq<u8> {
    b.subrange(512 * i + 32, 512 * i + 512)
}

/// A measure of value regions, added up over the first `k` rows.
pub open spec fn over_rows(b: Seq<u8>, f: spec_fn(Seq<u8>) -> nat, k: int) -> nat
    decreases k,
{
    if k <= 0 {
        0
    } else {
        over_rows(b, f, k - 1) + f(value_region(b, k - 1))
    }
}

/// Whether an occupancy is that of the first `k` rows of a slab.
pub open spec fn is_slab_occupancy(o: Occupancy, b: Seq<u8>, k: int) -> bool {
    &&& o.filled_slots == over_rows(b, |v: Seq<u8>| filled(v, 30), k)
    &&& o.nonzero_bytes == over_rows(b, |v: Seq<u8>| nonzero(v, 480), k)
    &&& o.zero_runs == over_rows(b, |v: Seq<u8>| zero_runs(v, 480), k)
    &&& o.zero_bytes == over_rows(b, |v: Seq<u8>| (480 - nonzero(v, 480)) as nat, k)
    &&& o.trailing_zeros == over_rows(b, |v: Seq<u8>| trailing(v, 480), k)
}

/// What is in the value regions of a slab.
pub fn slab_occupancy(slab: &RowSlab<'_>) -> (o: Occupancy)
    ensures
        is_slab_occupancy(o, slab@, row_count(slab@) as int),
{
    let bytes: &[u8] = slab.as_bytes();
    let total: usize = bytes.len();
    let rows: usize = slab.len();
    let mut o: Occupancy = Occupancy {
        filled_slots: 0,
        nonzero_bytes: 0,
        zero_runs: 0,
        zero_bytes: 0,
        trailing_zeros: 0,
    };
    let mut i: usize = 0;
    while i < rows
        invariant
            i <= rows,
            bytes@ == slab@,
            bytes@.len() == total,
            total == 512 * rows,
            is_slab_occupancy(o, slab@, i as int),
            o.filled_slots <= 480 * i,
            o.nonzero_bytes <= 480 * i,
            o.zero_runs <= 480 * i,
            o.zero_bytes <= 480 * i,
            o.trailing_zeros <= 480 * i,
        decreases rows - i,
    {
        let at: usize = i * NODE_ROW_STRIDE;
        let v: &[u8] = slice_subrange(bytes, at + VALUE_AT, at + NODE_ROW_STRIDE);
        let r: Occupancy = row_occupancy(v);
        proof {
            assert(v@ =~= value_region(slab@, i as int));
            lemma_row_bounds(v@, 480);
            lemma_filled_at_most(v@, 30);
        }
        o = Occupancy {
            filled_slots: o.filled_slots + r.filled_slots,
            nonzero_bytes: o.nonzero_bytes + r.nonzero_bytes,
            zero_runs: o.zero_runs + r.zero_runs,
            zero_bytes: o.zero_bytes + r.zero_bytes,
            trailing_zeros: o.trailing_zeros + r.trailing_zeros,
        };
        i = i + 1;
    }
    o
}

proof fn lemma_row_bounds(v: Seq<u8>, k: int)
    requires
        0 <= k <= v.len(),
    ensures
        nonzero(v, k) <= k,
        zero_runs(v, k) <= k,
        trailing(v, k) <= k - nonzero(v, k),
    decreases k,
{
    if k > 0 {
        lemma_row_bounds(v, k - 1);
    }
}

proof fn lemma_filled_at_most(v: Seq<u8>, k: int)
    requires
        0 <= k,
    ensures
        filled(v, k) <= k,
    decreases k,
{
    if k > 0 {
        lemma_filled_at_most(v, k - 1);
    }
}

/// Every byte of a value region is a zero of some run or is not zero, and the
/// zeros at the end are among them. A region without a filled slot is one run.
pub proof fn law_occupancy_adds_up(o: Occupancy, v: Seq<u8>)
    requires
        v.len() == 480,
        is_occupancy(o, v),
    ensures
        o.zero_bytes + o.nonzero_bytes == 480,
        o.trailing_zeros <= o.zero_bytes,
        o.filled_slots <= 30,
        o.filled_slots == 0 <==> o.nonzero_bytes == 0,
        o.nonzero_bytes == 0 ==> o.zero_runs == 1 && o.trailing_zeros == 480,
{
    lemma_row_bounds(v, 480);
    lemma_filled_at_most(v, 30);
    lemma_filled_shows(v, 30);
    if nonzero(v, 480) == 0 {
        lemma_all_zero(v, 480);
    }
}

proof fn lemma_nonzero_grows(v: Seq<u8>, a: int, b: int)
    requires
        0 <= a <= b <= v.len(),
    ensures
        nonzero(v, a) <= nonzero(v, b),
    decreases b,
{
    if a < b {
        lemma_nonzero_grows(v, a, b - 1);
    }
}

proof fn lemma_filled_shows(v: Seq<u8>, k: int)
    requires
        0 <= k,
        16 * k <= v.len(),
    ensures
        filled(v, k) == 0 <==> nonzero(v, 16 * k) == 0,
    decreases k,
{
    if k > 0 {
        lemma_filled_shows(v, k - 1);
        lemma_nonzero_grows(v, 16 * (k - 1), 16 * k);
    }
}

proof fn lemma_all_zero(v: Seq<u8>, k: int)
    requires
        0 < k <= v.len(),
        nonzero(v, k) == 0,
    ensures
        zero_runs(v, k) == 1,
        trailing(v, k) == k,
    decreases k,
{
    if k > 1 {
        lemma_nonzero_grows(v, k - 1, k);
        lemma_all_zero(v, k - 1);
        lemma_nonzero_grows(v, k - 2, k - 1);
    }
    if k == 1 {
        assert(zero_runs(v, 0) == 0);
        assert(trailing(v, 0) == 0);
        assert(nonzero(v, 0) == 0);
    }
}

// ── Laws of occupancy ───────────────────────────────────────────────
/// The bytes that are counted are those that are not zero.
pub proof fn law_nonzero_bytes_are_counted(v: Seq<u8>, k: int)
    requires
        0 <= k <= v.len(),
    ensures
        nonzero(v, k) == v.take(k).filter(|b: u8| b != 0).len(),
    decreases k,
{
    reveal(Seq::filter);
    if k > 0 {
        law_nonzero_bytes_are_counted(v, k - 1);
        assert(v.take(k).drop_last() =~= v.take(k - 1));
    }
}

proof fn lemma_nonzero_between(v: Seq<u8>, a: int, b: int)
    requires
        0 <= a <= b <= v.len(),
    ensures
        nonzero(v, b) >= nonzero(v, a),
        nonzero(v, b) > nonzero(v, a) <==> exists|i: int| a <= i < b && #[trigger] v[i] != 0,
    decreases b - a,
{
    if a < b {
        lemma_nonzero_between(v, a, b - 1);
        if v[b - 1] != 0 {
            assert(a <= b - 1 < b && v[b - 1] != 0);
        }
    }
}

/// Whether slot `j` of a region holds a byte that is not zero.
pub open spec fn holds_a_byte(v: Seq<u8>, j: int) -> bool {
    exists|i: int| 16 * j <= i < 16 * j + 16 && #[trigger] v[i] != 0
}

/// The slots that are counted are those in which some byte is not zero.
pub proof fn law_filled_slots_are_counted(v: Seq<u8>, k: int)
    requires
        0 <= k,
        16 * k <= v.len(),
    ensures
        filled(v, k) == Seq::new(k as nat, |j: int| holds_a_byte(v, j)).filter(|b: bool| b).len(),
    decreases k,
{
    reveal(Seq::filter);
    if k > 0 {
        law_filled_slots_are_counted(v, k - 1);
        lemma_nonzero_between(v, 16 * (k - 1), 16 * k);
        let all = Seq::new(k as nat, |j: int| holds_a_byte(v, j));
        assert(all.drop_last() =~= Seq::new((k - 1) as nat, |j: int| holds_a_byte(v, j)));
        assert(all.last() == holds_a_byte(v, k - 1));
    }
}

/// The zeros at the end are as many as there are, and no more: what stands before them is
/// not zero.
pub proof fn law_trailing_zeros_end_the_row(v: Seq<u8>, k: int)
    requires
        0 <= k <= v.len(),
    ensures
        trailing(v, k) <= k,
        forall|i: int| k - trailing(v, k) <= i < k ==> #[trigger] v[i] == 0,
        trailing(v, k) < k ==> v[k - trailing(v, k) - 1] != 0,
    decreases k,
{
    if k > 0 && v[k - 1] == 0 {
        law_trailing_zeros_end_the_row(v, k - 1);
    }
}

/// A run of zeros begins where a zero stands behind none: as many runs as such places.
pub proof fn law_runs_begin_behind_a_byte(v: Seq<u8>, k: int)
    requires
        0 <= k <= v.len(),
    ensures
        zero_runs(v, k) == Seq::new(
            k as nat,
            |i: int| v[i] == 0 && (i == 0 || v[i - 1] != 0),
        ).filter(|b: bool| b).len(),
    decreases k,
{
    reveal(Seq::filter);
    if k > 0 {
        law_runs_begin_behind_a_byte(v, k - 1);
        let all = Seq::new(k as nat, |i: int| v[i] == 0 && (i == 0 || v[i - 1] != 0));
        assert(all.drop_last() =~= Seq::new(
            (k - 1) as nat,
            |i: int| v[i] == 0 && (i == 0 || v[i - 1] != 0),
        ));
    }
}

/// What a slab holds is what the value regions of its rows do, 480 bytes each behind the 32
/// of the key and the edges.
pub proof fn law_a_slab_adds_up_its_rows(b: Seq<u8>, f: spec_fn(Seq<u8>) -> nat, k: int)
    requires
        0 <= k,
    ensures
        over_rows(b, f, k) == Seq::new(
            k as nat,
            |i: int| f(b.subrange(512 * i + 32, 512 * i + 512)),
        ).fold_left(0nat, |sum: nat, n: nat| sum + n),
    decreases k,
{
    reveal_with_fuel(Seq::fold_left, 2);
    if k > 0 {
        law_a_slab_adds_up_its_rows(b, f, k - 1);
        let all = Seq::new(k as nat, |i: int| f(b.subrange(512 * i + 32, 512 * i + 512)));
        assert(all.drop_last() =~= Seq::new(
            (k - 1) as nat,
            |i: int| f(b.subrange(512 * i + 32, 512 * i + 512)),
        ));
    }
}

proof fn lemma_over_rows(b: Seq<u8>, k: int)
    requires
        0 <= k,
        512 * k <= b.len(),
    ensures
        over_rows(b, |v: Seq<u8>| nonzero(v, 480), k) + over_rows(
            b,
            |v: Seq<u8>| (480 - nonzero(v, 480)) as nat,
            k,
        ) == 480 * k,
        over_rows(b, |v: Seq<u8>| filled(v, 30), k) <= 30 * k,
        over_rows(b, |v: Seq<u8>| trailing(v, 480), k) <= over_rows(
            b,
            |v: Seq<u8>| (480 - nonzero(v, 480)) as nat,
            k,
        ),
    decreases k,
{
    if k > 0 {
        lemma_over_rows(b, k - 1);
        let v = value_region(b, k - 1);
        lemma_row_bounds(v, 480);
        lemma_filled_at_most(v, 30);
    }
}

/// The bytes of all value regions of a slab are zeros or not, and no row fills more than
/// thirty slots.
pub proof fn law_slab_occupancy_adds_up(o: Occupancy, b: Seq<u8>, k: int)
    requires
        is_slab_occupancy(o, b, k),
        0 <= k,
        512 * k <= b.len(),
    ensures
        o.nonzero_bytes + o.zero_bytes == 480 * k,
        o.filled_slots <= 30 * k,
        o.trailing_zeros <= o.zero_bytes,
{
    lemma_over_rows(b, k);
}

} // verus!
