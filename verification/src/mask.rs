//! A field mask over 256 positions. Bit `i` is a layout address.

use crate::access::bit;
use vstd::prelude::*;

verus! {

/// A set of positions.
#[derive(Debug, Clone, Copy, PartialEq, Eq)]
pub struct WideFieldMask {
    words: [u64; 4],
}

proof fn lemma_with_bit(word: u64, k: u64, j: u64)
    by (bit_vector)
    requires
        k < 64,
        j < 64,
    ensures
        ((word | (1u64 << k)) >> j) & 1 == 1 <==> (word >> j) & 1 == 1 || j == k,
{
}

proof fn lemma_both_bits(a: u64, b: u64, j: u64)
    by (bit_vector)
    requires
        j < 64,
    ensures
        ((a & b) >> j) & 1 == 1 <==> (a >> j) & 1 == 1 && (b >> j) & 1 == 1,
{
}

proof fn lemma_no_bit(j: u64)
    by (bit_vector)
    requires
        j < 64,
    ensures
        (0u64 >> j) & 1 != 1,
{
}

impl WideFieldMask {
    /// Whether a position is in the mask.
    pub closed spec fn contains(&self, position: u8) -> bool {
        bit(self.words@[position as int / 64], (position % 64) as u64)
    }

    /// How many of the first `n` positions are in the mask.
    pub open spec fn count_below(&self, n: int) -> nat
        decreases n,
    {
        if n <= 0 {
            0
        } else {
            self.count_below(n - 1) + if self.contains((n - 1) as u8) {
                1nat
            } else {
                0
            }
        }
    }

    /// The mask of no position.
    pub fn empty() -> (m: Self)
        ensures
            forall|p: u8| !(#[trigger] m.contains(p)),
    {
        let m: WideFieldMask = WideFieldMask { words: [0; 4] };
        proof {
            assert forall|p: u8| !(#[trigger] m.contains(p)) by {
                lemma_no_bit((p % 64) as u64);
            }
        }
        m
    }

    /// Whether a position is in the mask.
    pub fn has(&self, position: u8) -> (r: bool)
        ensures
            r == self.contains(position),
    {
        let k: u64 = (position % 64) as u64;
        (self.words[(position / 64) as usize] >> k) & 1 == 1
    }

    /// The mask with one position more.
    pub fn with(self, position: u8) -> (m: Self)
        ensures
            forall|p: u8| #[trigger] m.contains(p) == (self.contains(p) || p == position),
    {
        let mut words: [u64; 4] = self.words;
        let k: u64 = (position % 64) as u64;
        let w: usize = (position / 64) as usize;
        words[w] = words[w] | (1u64 << k);
        let m: WideFieldMask = WideFieldMask { words };
        proof {
            assert forall|p: u8| #[trigger] m.contains(p) == (self.contains(p) || p
                == position) by {
                lemma_with_bit(self.words@[w as int], k, (p % 64) as u64);
            }
        }
        m
    }

    /// The positions that both masks have.
    pub fn intersect(&self, other: &Self) -> (m: Self)
        ensures
            forall|p: u8| #[trigger] m.contains(p) == (self.contains(p) && other.contains(p)),
    {
        let words: [u64; 4] = [
            self.words[0] & other.words[0],
            self.words[1] & other.words[1],
            self.words[2] & other.words[2],
            self.words[3] & other.words[3],
        ];
        let m: WideFieldMask = WideFieldMask { words };
        proof {
            assert forall|p: u8| #[trigger] m.contains(p) == (self.contains(p) && other.contains(
                p,
            )) by {
                let w = p as int / 64;
                assert(w == 0 || w == 1 || w == 2 || w == 3);
                lemma_both_bits(self.words@[w], other.words@[w], (p % 64) as u64);
            }
        }
        m
    }

    /// How many positions the mask has.
    pub fn count(&self) -> (n: u32)
        ensures
            n == self.count_below(256),
    {
        let mut n: u32 = 0;
        let mut p: u16 = 0;
        while p < 256
            invariant
                p <= 256,
                n <= p,
                n == self.count_below(p as int),
            decreases 256 - p,
        {
            if self.has(p as u8) {
                n = n + 1;
            }
            p = p + 1;
        }
        n
    }

    /// The mask of the first `n` positions.
    pub fn full_for(n: usize) -> (m: Self)
        ensures
            forall|p: u8| #[trigger] m.contains(p) == (p < n),
    {
        let mut m: WideFieldMask = WideFieldMask::empty();
        let mut i: usize = 0;
        while i < n && i < 256
            invariant
                i <= n,
                i <= 256,
                forall|p: u8| #[trigger] m.contains(p) == (p < i),
            decreases 256 - i,
        {
            m = m.with(i as u8);
            i = i + 1;
        }
        m
    }

    /// The mask of the listed positions.
    pub fn from_positions(positions: &[u8]) -> (m: Self)
        ensures
            forall|p: u8| #[trigger] m.contains(p) == positions@.contains(p),
    {
        let mut m: WideFieldMask = WideFieldMask::empty();
        let mut i: usize = 0;
        assert(positions@.take(0) =~= Seq::<u8>::empty());
        while i < positions.len()
            invariant
                i <= positions@.len(),
                forall|p: u8| #[trigger] m.contains(p) == positions@.take(i as int).contains(p),
            decreases positions@.len() - i,
        {
            let ghost before = positions@.take(i as int);
            let ghost after = positions@.take(i + 1);
            proof {
                assert(after =~= before.push(positions@[i as int]));
                assert forall|p: u8| #[trigger] after.contains(p) == (before.contains(p) || p
                    == positions@[i as int]) by {
                    if before.contains(p) {
                        let k = choose|k: int| 0 <= k < before.len() && before[k] == p;
                        assert(after[k] == p);
                    }
                    if p == positions@[i as int] {
                        assert(after[i as int] == p);
                    }
                }
            }
            m = m.with(positions[i]);
            i = i + 1;
        }
        assert(positions@.take(positions@.len() as int) =~= positions@);
        m
    }
}

/// Masks with the same positions count the same.
pub proof fn law_count_is_of_positions(a: WideFieldMask, b: WideFieldMask, n: int)
    requires
        forall|p: u8| #[trigger] a.contains(p) == b.contains(p),
    ensures
        a.count_below(n) == b.count_below(n),
    decreases n,
{
    if n > 0 {
        law_count_is_of_positions(a, b, n - 1);
        assert(a.contains((n - 1) as u8) == b.contains((n - 1) as u8));
    }
}

/// One position more counts one more, where it is among those that are counted.
pub proof fn law_positions_are_counted(
    a: WideFieldMask,
    b: WideFieldMask,
    position: u8,
    n: int,
)
    requires
        forall|p: u8| #[trigger] b.contains(p) == (a.contains(p) || p == position),
        !a.contains(position),
        n <= 256,
    ensures
        b.count_below(n) == a.count_below(n) + if position < n {
            1nat
        } else {
            0
        },
    decreases n,
{
    if n > 0 {
        law_positions_are_counted(a, b, position, n - 1);
        assert(b.contains((n - 1) as u8) == (a.contains((n - 1) as u8) || (n - 1) as u8
            == position));
    }
}

/// A mask of the first positions counts as many, and one of none counts none.
pub proof fn law_full_masks_count(m: WideFieldMask, k: int, n: int)
    requires
        0 <= k,
        n <= 256,
        forall|p: u8| #[trigger] m.contains(p) == (p < k),
    ensures
        n >= 0 ==> m.count_below(n) == if n <= k {
            n
        } else {
            k
        },
    decreases n,
{
    if n > 0 {
        law_full_masks_count(m, k, n - 1);
        assert(m.contains((n - 1) as u8) == (k > (n - 1) as u8));
    }
}

} // verus!
