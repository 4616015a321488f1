//! The `.chains` sidecar: the vertex chain of every tagged way, and its exact
//! rehydration.
//!
//! Writer and reader are one codec in one place. A chain is stored as its first
//! vertex and the zigzag varints of the steps between vertices; cells are
//! integers, so a chain comes back exactly ([`law_chains_round_trip`]).
//!
//! ```text
//! magic        8   OSMCHNS1
//! slab_digest  8   digest of the slab that the chains belong to
//! count        4   number of chains
//! blob_len     4   bytes in the blob
//! index   count x 12  (ordinal, offset, length), ascending by ordinal
//! blob         ..  per chain: n, x0, y0, then n - 1 steps (dx, dy)
//! ```

use crate::bytes::{
    le_at, le_bytes, lemma_le_bytes_len, lemma_le_round_trip, lemma_pow256_widths, push_slice,
    push_u32, push_u64, read_u32, read_u64,
};
use crate::order::{in_order, sort, Ranked};
use crate::text::{decimal, hex, push_decimal, push_hex};
use crate::tms::TileXy;
use crate::varint::{
    get_varint, law_varint_round_trip, law_zigzag_inverse, leb, lemma_leb_is_shortest, put_varint,
    unzigzag, unzigzagged, varint_at, zigzag, zigzagged,
};
use vstd::prelude::*;
use vstd::slice::slice_subrange;

verus! {

/// The sidecar magic, `OSMCHNS1`. A layout change is a new magic.
pub const MAGIC: [u8; 8] = [0x4f, 0x53, 0x4d, 0x43, 0x48, 0x4e, 0x53, 0x31];

/// Everything that can go wrong writing, opening or reading a chains file.
#[derive(Debug, Clone, Copy, PartialEq, Eq, Structural)]
pub enum ChainError {
    /// Not a chains file, or a layout this reader does not speak.
    BadMagic,
    /// The header promises more bytes than the file has.
    Truncated,
    /// Index entries out of order or duplicated.
    IndexNotAscending,
    /// An index entry points outside the blob.
    IndexOutOfBounds,
    /// A varint ran past its record or exceeded a `u64`.
    BadVarint,
    /// A vertex outside the cell space.
    DeltaOverflow,
    /// The writer was handed two chains for one ordinal.
    DuplicateOrdinal,
    /// The chains outgrow the 32-bit fields of the header.
    TooLarge,
}

// ── One chain ───────────────────────────────────────────────────────
/// The bytes of the step from `a` to `b`.
pub open spec fn step_bytes(a: TileXy, b: TileXy) -> Seq<u8> {
    leb(zigzagged(b.x - a.x)) + leb(zigzagged(b.y_xyz - a.y_xyz))
}

/// The bytes of all steps of a chain.
pub open spec fn steps_bytes(chain: Seq<TileXy>) -> Seq<u8>
    decreases chain.len(),
{
    if chain.len() <= 1 {
        Seq::empty()
    } else {
        step_bytes(chain[0], chain[1]) + steps_bytes(chain.subrange(1, chain.len() as int))
    }
}

/// The record of a chain.
pub open spec fn chain_record(chain: Seq<TileXy>) -> Seq<u8> {
    if chain.len() == 0 {
        leb(0)
    } else {
        leb(chain.len()) + (leb(chain[0].x as nat) + (leb(chain[0].y_xyz as nat) + steps_bytes(
            chain,
        )))
    }
}

/// Whether a number is a cell coordinate.
pub open spec fn in_grid(v: int) -> bool {
    0 <= v <= u32::MAX
}

/// The `k` vertices that follow `from` in the record `s`, from offset `pos` on.
pub open spec fn steps_at(s: Seq<u8>, pos: int, k: nat, from: TileXy) -> Result<
    Seq<TileXy>,
    ChainError,
>
    decreases k,
{
    if k == 0 {
        Ok(Seq::empty())
    } else {
        match varint_at(s, pos) {
            None => Err(ChainError::BadVarint),
            Some((dx, p)) => match varint_at(s, p) {
                None => Err(ChainError::BadVarint),
                Some((dy, q)) => {
                    let x = from.x + unzigzagged(dx as nat);
                    let y = from.y_xyz + unzigzagged(dy as nat);
                    if in_grid(x) && in_grid(y) {
                        let c = TileXy { x: x as u32, y_xyz: y as u32 };
                        match steps_at(s, q, (k - 1) as nat, c) {
                            Ok(rest) => Ok(seq![c] + rest),
                            Err(e) => Err(e),
                        }
                    } else {
                        Err(ChainError::DeltaOverflow)
                    }
                },
            },
        }
    }
}

/// The chain that a record holds. Bytes behind the last vertex are not looked
/// at.
pub open spec fn decoded(s: Seq<u8>) -> Result<Seq<TileXy>, ChainError> {
    match varint_at(s, 0) {
        None => Err(ChainError::BadVarint),
        Some((n, p)) => if n == 0 {
            Ok(Seq::empty())
        } else {
            match varint_at(s, p) {
                None => Err(ChainError::BadVarint),
                Some((x, q)) => if !in_grid(x as int) {
                    Err(ChainError::DeltaOverflow)
                } else {
                    match varint_at(s, q) {
                        None => Err(ChainError::BadVarint),
                        Some((y, r)) => if !in_grid(y as int) {
                            Err(ChainError::DeltaOverflow)
                        } else {
                            let c = TileXy { x: x as u32, y_xyz: y as u32 };
                            match steps_at(s, r, (n - 1) as nat, c) {
                                Ok(rest) => Ok(seq![c] + rest),
                                Err(e) => Err(e),
                            }
                        },
                    }
                },
            }
        },
    }
}

/// A record that starts with `a` and goes on with `b`.
proof fn lemma_parts(s: Seq<u8>, p: int, a: Seq<u8>, b: Seq<u8>)
    requires
        0 <= p,
        p + a.len() + b.len() <= s.len(),
        s.subrange(p, p + (a + b).len()) == a + b,
    ensures
        s.subrange(p, p + a.len()) == a,
        s.subrange(p + a.len(), p + a.len() + b.len()) == b,
{
    let w = s.subrange(p, p + (a + b).len());
    assert(s.subrange(p, p + a.len()) =~= w.subrange(0, a.len() as int));
    assert(w.subrange(0, a.len() as int) =~= a);
    assert(s.subrange(p + a.len(), p + a.len() + b.len()) =~= w.subrange(
        a.len() as int,
        (a + b).len() as int,
    ));
    assert(w.subrange(a.len() as int, (a + b).len() as int) =~= b);
}

/// One varint of a record.
proof fn lemma_varint_part(s: Seq<u8>, p: int, v: u64, b: Seq<u8>)
    requires
        0 <= p,
        p + leb(v as nat).len() + b.len() <= s.len(),
        s.subrange(p, p + (leb(v as nat) + b).len()) == leb(v as nat) + b,
    ensures
        varint_at(s, p) == Some((v, p + leb(v as nat).len())),
        s.subrange(p + leb(v as nat).len(), p + leb(v as nat).len() + b.len()) == b,
{
    lemma_parts(s, p, leb(v as nat), b);
    law_varint_round_trip(s, p, v);
}

proof fn lemma_steps_round_trip(s: Seq<u8>, p: int, chain: Seq<TileXy>)
    requires
        0 <= p,
        chain.len() > 0,
        p + steps_bytes(chain).len() <= s.len(),
        s.subrange(p, p + steps_bytes(chain).len()) == steps_bytes(chain),
    ensures
        steps_at(s, p, (chain.len() - 1) as nat, chain[0]) == Ok::<Seq<TileXy>, ChainError>(
            chain.subrange(1, chain.len() as int),
        ),
    decreases chain.len(),
{
    let tail = chain.subrange(1, chain.len() as int);
    if chain.len() == 1 {
        assert(tail =~= Seq::<TileXy>::empty());
    } else {
        let (a, b) = (chain[0], chain[1]);
        let dx = b.x - a.x;
        let dy = b.y_xyz - a.y_xyz;
        let rest = steps_bytes(tail);
        let (bx, by) = (leb(zigzagged(dx)), leb(zigzagged(dy)));
        assert(steps_bytes(chain) =~= bx + (by + rest));
        lemma_varint_part(s, p, zigzagged(dx) as u64, by + rest);
        lemma_varint_part(s, p + bx.len(), zigzagged(dy) as u64, rest);
        law_zigzag_inverse(dx as i64, 0);
        law_zigzag_inverse(dy as i64, 0);
        lemma_steps_round_trip(s, p + bx.len() + by.len(), tail);
        assert(tail.subrange(1, tail.len() as int) =~= chain.subrange(2, chain.len() as int));
        assert(tail =~= seq![b] + tail.subrange(1, tail.len() as int));
    }
}

/// A chain is decoded from its own record, exactly.
#[verifier::spinoff_prover]
pub proof fn law_chain_round_trip(chain: Seq<TileXy>)
    requires
        chain.len() <= u64::MAX,
    ensures
        decoded(chain_record(chain)) == Ok::<Seq<TileXy>, ChainError>(chain),
{
    let s = chain_record(chain);
    if chain.len() == 0 {
        assert(s.subrange(0, s.len() as int) =~= s);
        law_varint_round_trip(s, 0, 0);
        assert(chain =~= Seq::<TileXy>::empty());
    } else {
        let c = chain[0];
        let n = leb(chain.len());
        let x = leb(c.x as nat);
        let y = leb(c.y_xyz as nat);
        let rest = steps_bytes(chain);
        assert(s.subrange(0, s.len() as int) =~= s);
        lemma_varint_part(s, 0, chain.len() as u64, x + (y + rest));
        lemma_varint_part(s, n.len() as int, c.x as u64, y + rest);
        lemma_varint_part(s, (n.len() + x.len()) as int, c.y_xyz as u64, rest);
        let r = n.len() + x.len() + y.len();
        lemma_steps_round_trip(s, r as int, chain);
        assert(varint_at(s, 0) == Some((chain.len() as u64, n.len() as int)));
        assert(varint_at(s, n.len() as int) == Some((c.x as u64, (n.len() + x.len()) as int)));
        assert(varint_at(s, (n.len() + x.len()) as int) == Some((c.y_xyz as u64, r as int)));
        assert(chain =~= seq![c] + chain.subrange(1, chain.len() as int));
    }
}

/// Where the `k` steps from `pos` on end.
spec fn steps_end(s: Seq<u8>, pos: int, k: nat) -> int
    decreases k,
{
    if k == 0 {
        pos
    } else {
        let p = (varint_at(s, pos)->0).1;
        let q = (varint_at(s, p)->0).1;
        steps_end(s, q, (k - 1) as nat)
    }
}

/// No steps to the same vertices are shorter than their own, and no other are as
/// short.
proof fn lemma_steps_are_shortest(s: Seq<u8>, pos: int, chain: Seq<TileXy>)
    requires
        0 <= pos <= s.len(),
        chain.len() > 0,
        steps_at(s, pos, (chain.len() - 1) as nat, chain[0]) == Ok::<Seq<TileXy>, ChainError>(
            chain.subrange(1, chain.len() as int),
        ),
    ensures
        ({
            let end = steps_end(s, pos, (chain.len() - 1) as nat);
            &&& pos + steps_bytes(chain).len() <= end <= s.len()
            &&& pos + steps_bytes(chain).len() == end ==> s.subrange(pos, end) == steps_bytes(
                chain,
            )
        }),
    decreases chain.len(),
{
    let k = (chain.len() - 1) as nat;
    let end = steps_end(s, pos, k);
    if k == 0 {
        assert(s.subrange(pos, end) =~= Seq::<u8>::empty());
    } else {
        let tail = chain.subrange(1, chain.len() as int);
        let (dx, p) = varint_at(s, pos)->0;
        let (dy, q) = varint_at(s, p)->0;
        lemma_leb_is_shortest(s, pos);
        lemma_leb_is_shortest(s, p);
        let (a, b) = (chain[0], chain[1]);
        let rest = steps_at(s, q, (k - 1) as nat, tail[0]);
        assert(tail[0] == b);
        law_zigzag_inverse(0, dx);
        law_zigzag_inverse(0, dy);
        assert(zigzagged(b.x - a.x) == dx);
        assert(zigzagged(b.y_xyz - a.y_xyz) == dy);
        assert(rest is Ok);
        assert(seq![b] + rest->Ok_0 == tail);
        assert(rest->Ok_0 =~= tail.subrange(1, tail.len() as int));
        lemma_steps_are_shortest(s, q, tail);
        let (bx, by) = (leb(dx as nat), leb(dy as nat));
        let more = steps_bytes(tail);
        assert(steps_bytes(chain) =~= bx + by + more);
        if pos + steps_bytes(chain).len() == end {
            assert(s.subrange(pos, end) =~= s.subrange(pos, p) + s.subrange(p, q) + s.subrange(
                q,
                end,
            ));
        }
    }
}

/// A record that was changed, and is as long as before, is never read as the
/// chain that it held: it is refused, or it is another chain.
pub proof fn law_corruption_shows(chain: Seq<TileXy>, s: Seq<u8>)
    requires
        s.len() == chain_record(chain).len(),
        s != chain_record(chain),
    ensures
        decoded(s) != Ok::<Seq<TileXy>, ChainError>(chain),
{
    if decoded(s) == Ok::<Seq<TileXy>, ChainError>(chain) {
        let (n, p) = varint_at(s, 0)->0;
        lemma_leb_is_shortest(s, 0);
        if n == 0 {
            assert(chain.len() == 0);
            assert(s.subrange(0, p) =~= s);
        } else {
            let (x, q) = varint_at(s, p)->0;
            let (y, r) = varint_at(s, q)->0;
            lemma_leb_is_shortest(s, p);
            lemma_leb_is_shortest(s, q);
            let c = TileXy { x: x as u32, y_xyz: y as u32 };
            let rest = steps_at(s, r, (n - 1) as nat, c);
            assert(seq![c] + rest->Ok_0 == chain);
            assert(chain[0] == c);
            assert(rest->Ok_0 =~= chain.subrange(1, chain.len() as int));
            lemma_steps_len(s, r, (n - 1) as nat, c);
            assert(chain.len() == n);
            lemma_steps_are_shortest(s, r, chain);
            let end = steps_end(s, r, (n - 1) as nat);
            let (wn, wx, wy) = (leb(n as nat), leb(x as nat), leb(y as nat));
            let more = steps_bytes(chain);
            assert(chain_record(chain) == wn + (wx + (wy + more)));
            assert(s =~= s.subrange(0, p) + (s.subrange(p, q) + (s.subrange(q, r) + s.subrange(
                r,
                end,
            ))));
        }
    }
}

/// As many vertices are read as were asked for.
proof fn lemma_steps_len(s: Seq<u8>, pos: int, k: nat, from: TileXy)
    ensures
        steps_at(s, pos, k, from) matches Ok(rest) ==> rest.len() == k,
    decreases k,
{
    if k > 0 {
        if let Some((dx, p)) = varint_at(s, pos) {
            if let Some((dy, q)) = varint_at(s, p) {
                let x = from.x + unzigzagged(dx as nat);
                let y = from.y_xyz + unzigzagged(dy as nat);
                let c = TileXy { x: x as u32, y_xyz: y as u32 };
                lemma_steps_len(s, q, (k - 1) as nat, c);
            }
        }
    }
}

/// Appends the record of one chain.
pub fn encode_chain(out: &mut Vec<u8>, chain: &[TileXy])
    ensures
        final(out)@ == old(out)@ + chain_record(chain@),
{
    let n: usize = chain.len();
    put_varint(out, n as u64);
    if n == 0 {
        return;
    }
    put_varint(out, chain[0].x as u64);
    put_varint(out, chain[0].y_xyz as u64);
    let mut i: usize = 1;
    proof {
        assert(chain@.subrange(0, n as int) =~= chain@);
        assert(out@ + steps_bytes(chain@) =~= old(out)@ + chain_record(chain@));
    }
    while i < n
        invariant
            1 <= i <= n,
            n == chain@.len(),
            out@ + steps_bytes(chain@.subrange(i - 1, n as int)) == old(out)@ + chain_record(
                chain@,
            ),
        decreases n - i,
    {
        let ghost before = out@;
        let (a, b): (TileXy, TileXy) = (chain[i - 1], chain[i]);
        put_varint(out, zigzag(b.x as i64 - a.x as i64));
        put_varint(out, zigzag(b.y_xyz as i64 - a.y_xyz as i64));
        proof {
            let here = chain@.subrange(i - 1, n as int);
            assert(here[0] == a && here[1] == b);
            assert(here.subrange(1, here.len() as int) =~= chain@.subrange(i as int, n as int));
            assert(out@ =~= before + step_bytes(a, b));
            assert(out@ + steps_bytes(chain@.subrange(i as int, n as int)) =~= before
                + steps_bytes(here));
        }
        i = i + 1;
    }
    assert(out@ + steps_bytes(chain@.subrange(n - 1, n as int)) =~= out@);
}

/// The cell `(x + dx, y + dy)`, where it is one.
fn step_cell(from: TileXy, dx: i64, dy: i64) -> (c: Option<TileXy>)
    ensures
        in_grid(from.x + dx) && in_grid(from.y_xyz + dy) ==> c == Some(
            TileXy { x: (from.x + dx) as u32, y_xyz: (from.y_xyz + dy) as u32 },
        ),
        !(in_grid(from.x + dx) && in_grid(from.y_xyz + dy)) ==> c is None,
{
    let x: i128 = from.x as i128 + dx as i128;
    let y: i128 = from.y_xyz as i128 + dy as i128;
    if 0 <= x && x <= 0xffff_ffff && 0 <= y && y <= 0xffff_ffff {
        Some(TileXy { x: x as u32, y_xyz: y as u32 })
    } else {
        None
    }
}

/// Whether an error of a record is the one found, or the vertices are those
/// found.
pub open spec fn same_chain(r: Result<Vec<TileXy>, ChainError>, d: Result<Seq<TileXy>, ChainError>) -> bool {
    match r {
        Ok(v) => d == Ok::<Seq<TileXy>, ChainError>(v@),
        Err(e) => d == Err::<Seq<TileXy>, ChainError>(e),
    }
}

/// Decodes the raw record of one chain.
pub fn decode_chain(rec: &[u8]) -> (r: Result<Vec<TileXy>, ChainError>)
    ensures
        same_chain(r, decoded(rec@)),
{
    let mut out: Vec<TileXy> = Vec::new();
    let (n, p): (u64, usize) = match get_varint(rec, 0) {
        Some(v) => v,
        None => {
            return Err(ChainError::BadVarint);
        },
    };
    if n == 0 {
        assert(out@ =~= Seq::<TileXy>::empty());
        return Ok(out);
    }
    let (x, q): (u64, usize) = match get_varint(rec, p) {
        Some(v) => v,
        None => {
            return Err(ChainError::BadVarint);
        },
    };
    if x > 0xffff_ffff {
        return Err(ChainError::DeltaOverflow);
    }
    let (y, r): (u64, usize) = match get_varint(rec, q) {
        Some(v) => v,
        None => {
            return Err(ChainError::BadVarint);
        },
    };
    if y > 0xffff_ffff {
        return Err(ChainError::DeltaOverflow);
    }
    let mut last: TileXy = TileXy { x: x as u32, y_xyz: y as u32 };
    out.push(last);
    let mut pos: usize = r;
    let mut left: u64 = n - 1;
    assert(out@ =~= seq![last]);
    while left > 0
        invariant
            decoded(rec@) == match steps_at(rec@, pos as int, left as nat, last) {
                Ok(rest) => Ok::<Seq<TileXy>, ChainError>(out@ + rest),
                Err(e) => Err::<Seq<TileXy>, ChainError>(e),
            },
        decreases left,
    {
        let (dx, p1): (u64, usize) = match get_varint(rec, pos) {
            Some(v) => v,
            None => {
                return Err(ChainError::BadVarint);
            },
        };
        let (dy, p2): (u64, usize) = match get_varint(rec, p1) {
            Some(v) => v,
            None => {
                return Err(ChainError::BadVarint);
            },
        };
        let next: TileXy = match step_cell(last, unzigzag(dx), unzigzag(dy)) {
            Some(c) => c,
            None => {
                return Err(ChainError::DeltaOverflow);
            },
        };
        let ghost before = out@;
        out.push(next);
        proof {
            match steps_at(rec@, p2 as int, (left - 1) as nat, next) {
                Ok(rest) => {
                    assert(before + (seq![next] + rest) =~= out@ + rest);
                },
                Err(e) => {},
            }
        }
        last = next;
        pos = p2;
        left = left - 1;
    }
    assert(out@ + Seq::<TileXy>::empty() =~= out@);
    Ok(out)
}

// ── The file ────────────────────────────────────────────────────────
/// The chains that a vector of them stands for.
pub open spec fn entries_of(chains: Seq<(u32, Vec<TileXy>)>) -> Seq<(u32, Seq<TileXy>)> {
    chains.map_values(|c: (u32, Vec<TileXy>)| (c.0, c.1@))
}

/// The records one after the other.
pub open spec fn blob_of(entries: Seq<(u32, Seq<TileXy>)>) -> Seq<u8>
    decreases entries.len(),
{
    if entries.len() == 0 {
        Seq::empty()
    } else {
        blob_of(entries.drop_last()) + chain_record(entries.last().1)
    }
}

/// One index entry.
pub open spec fn index_entry(ordinal: nat, offset: nat, length: nat) -> Seq<u8> {
    le_bytes(ordinal, 4) + (le_bytes(offset, 4) + le_bytes(length, 4))
}

/// The index: where each record stands in the blob.
pub open spec fn index_of(entries: Seq<(u32, Seq<TileXy>)>) -> Seq<u8>
    decreases entries.len(),
{
    if entries.len() == 0 {
        Seq::empty()
    } else {
        index_of(entries.drop_last()) + index_entry(
            entries.last().0 as nat,
            blob_of(entries.drop_last()).len(),
            chain_record(entries.last().1).len(),
        )
    }
}

/// The header.
pub open spec fn header_of(slab_digest: u64, count: nat, blob_len: nat) -> Seq<u8> {
    MAGIC@ + (le_bytes(slab_digest as nat, 8) + (le_bytes(count, 4) + le_bytes(blob_len, 4)))
}

/// The whole file.
pub open spec fn chains_file(slab_digest: u64, entries: Seq<(u32, Seq<TileXy>)>) -> Seq<u8> {
    header_of(slab_digest, entries.len(), blob_of(entries).len()) + (index_of(entries) + blob_of(
        entries,
    ))
}

/// Whether the ordinals ascend, none twice.
pub open spec fn ascending(entries: Seq<(u32, Seq<TileXy>)>) -> bool {
    forall|i: int, j: int|
        #![trigger entries[i], entries[j]]
        0 <= i < j < entries.len() ==> entries[i].0 < entries[j].0
}

/// Whether count and blob fit the 32-bit fields of the header.
pub open spec fn fits(entries: Seq<(u32, Seq<TileXy>)>) -> bool {
    entries.len() <= u32::MAX && blob_of(entries).len() <= u32::MAX
}

impl Ranked for (u32, Vec<TileXy>) {
    open spec fn ranks_before(&self, other: &Self) -> bool {
        self.0 <= other.0
    }

    proof fn lemma_total(a: &Self, b: &Self) {
    }

    proof fn lemma_transitive(a: &Self, b: &Self, c: &Self) {
    }

    fn before(&self, other: &Self) -> (r: bool) {
        self.0 <= other.0
    }
}

/// Shortening a sequence of chains shortens its blob.
proof fn lemma_blob_grows(entries: Seq<(u32, Seq<TileXy>)>, k: int)
    requires
        0 <= k <= entries.len(),
    ensures
        blob_of(entries.take(k)).len() <= blob_of(entries).len(),
    decreases entries.len() - k,
{
    if k == entries.len() {
        assert(entries.take(k) =~= entries);
    } else {
        lemma_blob_grows(entries, k + 1);
        assert(entries.take(k + 1).drop_last() =~= entries.take(k));
    }
}

/// Appends the sidecar of `chains` to `w`, sorting the chains by ordinal. Two
/// chains for one ordinal are refused, and so are chains that outgrow the
/// header; nothing is appended then.
pub fn write_chains(w: &mut Vec<u8>, slab_digest: u64, chains: &mut Vec<(u32, Vec<TileXy>)>) -> (r:
    Result<(), ChainError>)
    ensures
        in_order(final(chains)@),
        final(chains)@.to_multiset() == old(chains)@.to_multiset(),
        r is Ok <==> ascending(entries_of(final(chains)@)) && fits(entries_of(final(chains)@)),
        r matches Err(e) ==> e == if ascending(entries_of(final(chains)@)) {
            ChainError::TooLarge
        } else {
            ChainError::DuplicateOrdinal
        },
        r is Ok ==> final(w)@ == old(w)@ + chains_file(slab_digest, entries_of(final(chains)@)),
        r is Err ==> final(w)@ == old(w)@,
{
    let mut taken: Vec<(u32, Vec<TileXy>)> = Vec::new();
    core::mem::swap(chains, &mut taken);
    let sorted: Vec<(u32, Vec<TileXy>)> = sort(taken);
    *chains = sorted;
    let ghost entries = entries_of(chains@);
    let n: usize = chains.len();
    let mut i: usize = 1;
    while i < n
        invariant
            1 <= i,
            n == chains@.len(),
            in_order(chains@),
            chains@.to_multiset() == old(chains)@.to_multiset(),
            w@ == old(w)@,
            entries == entries_of(chains@),
            forall|a: int, b: int|
                #![trigger entries[a], entries[b]]
                0 <= a < b < i && b < n ==> entries[a].0 < entries[b].0,
        decreases n - i,
    {
        if chains[i - 1].0 == chains[i].0 {
            assert(entries[i - 1].0 == entries[i as int].0);
            return Err(ChainError::DuplicateOrdinal);
        }
        proof {
            assert(chains@[i - 1].ranks_before(&chains@[i as int]));
            assert forall|a: int, b: int|
                #![trigger entries[a], entries[b]]
                0 <= a < b < i + 1 && b < n implies entries[a].0 < entries[b].0 by {
                if b == i && a < i - 1 {
                    assert(entries[a].0 < entries[i - 1].0);
                }
            }
        }
        i = i + 1;
    }
    let mut blob: Vec<u8> = Vec::new();
    let mut index: Vec<u8> = Vec::new();
    let mut k: usize = 0;
    proof {
        assert(entries.take(0) =~= Seq::<(u32, Seq<TileXy>)>::empty());
    }
    while k < n
        invariant
            k <= n,
            n == chains@.len(),
            entries == entries_of(chains@),
            blob@ == blob_of(entries.take(k as int)),
            blob@.len() <= u32::MAX,
            index@ == index_of(entries.take(k as int)),
            in_order(chains@),
            chains@.to_multiset() == old(chains)@.to_multiset(),
            w@ == old(w)@,
            ascending(entries),
        decreases n - k,
    {
        let start: usize = blob.len();
        let ghost before = blob@;
        encode_chain(&mut blob, chains[k].1.as_slice());
        let end: usize = blob.len();
        proof {
            let next = entries.take(k + 1);
            assert(next.drop_last() =~= entries.take(k as int));
            assert(next.last() == (chains@[k as int].0, chains@[k as int].1@));
            lemma_blob_grows(entries, k + 1);
        }
        if end > 0xffff_ffff {
            return Err(ChainError::TooLarge);
        }
        push_u32(&mut index, chains[k].0);
        push_u32(&mut index, start as u32);
        push_u32(&mut index, (end - start) as u32);
        proof {
            assert(index@ =~= index_of(entries.take(k as int)) + index_entry(
                chains@[k as int].0 as nat,
                start as nat,
                (end - start) as nat,
            ));
        }
        k = k + 1;
    }
    assert(entries.take(n as int) =~= entries);
    if n > 0xffff_ffff {
        return Err(ChainError::TooLarge);
    }
    push_slice(w, MAGIC.as_slice());
    push_u64(w, slab_digest);
    push_u32(w, n as u32);
    push_u32(w, blob.len() as u32);
    push_slice(w, index.as_slice());
    push_slice(w, blob.as_slice());
    assert(w@ =~= old(w)@ + chains_file(slab_digest, entries));
    Ok(())
}

// ── Reading the file ────────────────────────────────────────────────
/// The digest that the header records.
pub open spec fn header_digest(b: Seq<u8>) -> nat {
    le_at(b, 8, 8)
}

/// The number of chains that the header records.
pub open spec fn header_count(b: Seq<u8>) -> nat {
    le_at(b, 16, 4)
}

/// The blob length that the header records.
pub open spec fn header_blob_len(b: Seq<u8>) -> nat {
    le_at(b, 20, 4)
}

/// Where the blob starts.
pub open spec fn blob_start(b: Seq<u8>) -> int {
    24 + 12 * header_count(b) as int
}

/// The ordinal of index entry `i`.
pub open spec fn entry_ordinal(b: Seq<u8>, i: int) -> nat {
    le_at(b, 24 + 12 * i, 4)
}

/// The offset of index entry `i`.
pub open spec fn entry_offset(b: Seq<u8>, i: int) -> nat {
    le_at(b, 28 + 12 * i, 4)
}

/// The length of index entry `i`.
pub open spec fn entry_length(b: Seq<u8>, i: int) -> nat {
    le_at(b, 32 + 12 * i, 4)
}

/// The record of index entry `i`.
pub open spec fn record(b: Seq<u8>, i: int) -> Seq<u8> {
    b.subrange(
        blob_start(b) + entry_offset(b, i),
        blob_start(b) + entry_offset(b, i) + entry_length(b, i),
    )
}

/// What is wrong with index entry `i`, if anything.
pub open spec fn entry_error(b: Seq<u8>, i: int) -> Option<ChainError> {
    if i > 0 && entry_ordinal(b, i - 1) >= entry_ordinal(b, i) {
        Some(ChainError::IndexNotAscending)
    } else if entry_offset(b, i) + entry_length(b, i) > header_blob_len(b) {
        Some(ChainError::IndexOutOfBounds)
    } else {
        None
    }
}

/// The first thing wrong with the index from entry `i` on.
pub open spec fn index_error(b: Seq<u8>, i: int) -> Option<ChainError>
    decreases header_count(b) - i,
{
    if i >= header_count(b) {
        None
    } else {
        match entry_error(b, i) {
            Some(e) => Some(e),
            None => index_error(b, i + 1),
        }
    }
}

/// Whether the bytes start as a chains file does.
pub open spec fn has_magic(b: Seq<u8>) -> bool {
    b.len() >= 24 && b.subrange(0, 8) == MAGIC@
}

/// What is wrong with a file, if anything.
pub open spec fn file_error(b: Seq<u8>) -> Option<ChainError> {
    if !has_magic(b) {
        Some(ChainError::BadMagic)
    } else if b.len() < blob_start(b) + header_blob_len(b) {
        Some(ChainError::Truncated)
    } else {
        index_error(b, 0)
    }
}

/// A sound index has no unsound entry.
pub proof fn lemma_sound_entries(b: Seq<u8>, from: int)
    requires
        index_error(b, from) is None,
    ensures
        forall|i: int| from <= i < header_count(b) ==> (#[trigger] entry_error(b, i)) is None,
    decreases header_count(b) - from,
{
    if from < header_count(b) {
        lemma_sound_entries(b, from + 1);
    }
}

/// The ordinals of a sound index ascend.
pub proof fn lemma_ordinals_ascend(b: Seq<u8>, i: int, j: int)
    requires
        index_error(b, 0) is None,
        0 <= i < j < header_count(b),
    ensures
        entry_ordinal(b, i) < entry_ordinal(b, j),
    decreases j,
{
    lemma_sound_entries(b, 0);
    assert(entry_error(b, j) is None);
    if i < j - 1 {
        lemma_ordinals_ascend(b, i, j - 1);
    }
}

/// Whether entry `i` is the one for `ordinal`.
pub open spec fn is_entry_for(b: Seq<u8>, ordinal: u32, i: int) -> bool {
    0 <= i < header_count(b) && entry_ordinal(b, i) == ordinal
}

/// What a sound file stores for `ordinal`: nothing, or what its record decodes
/// to.
pub open spec fn stored(b: Seq<u8>, ordinal: u32) -> Option<Result<Seq<TileXy>, ChainError>> {
    if exists|i: int| is_entry_for(b, ordinal, i) {
        Some(decoded(record(b, choose|i: int| is_entry_for(b, ordinal, i))))
    } else {
        None
    }
}

/// A sound file stores at most one record per ordinal.
pub proof fn lemma_stored(b: Seq<u8>, ordinal: u32, i: int)
    requires
        index_error(b, 0) is None,
        is_entry_for(b, ordinal, i),
    ensures
        stored(b, ordinal) == Some(decoded(record(b, i))),
{
    let k = choose|k: int| is_entry_for(b, ordinal, k);
    if k < i {
        lemma_ordinals_ascend(b, k, i);
    } else if i < k {
        lemma_ordinals_ascend(b, i, k);
    }
}

/// Whether the first eight bytes are the magic.
fn magic_matches(bytes: &[u8]) -> (r: bool)
    requires
        bytes@.len() >= 8,
    ensures
        r == (bytes@.subrange(0, 8) == MAGIC@),
{
    let mut i: usize = 0;
    while i < 8
        invariant
            i <= 8,
            bytes@.len() >= 8,
            forall|k: int| 0 <= k < i ==> bytes@[k] == #[trigger] MAGIC@[k],
        decreases 8 - i,
    {
        if bytes[i] != MAGIC[i] {
            assert(bytes@.subrange(0, 8)[i as int] != MAGIC@[i as int]);
            return false;
        }
        i = i + 1;
    }
    assert(bytes@.subrange(0, 8) =~= MAGIC@);
    true
}

/// Reads only the 24-byte header: slab digest, chain count, blob length. The
/// rest of the source is not looked at.
pub fn read_chains_header(r: &[u8]) -> (h: Result<(u64, usize, usize), ChainError>)
    ensures
        r@.len() < 24 ==> h == Err::<(u64, usize, usize), ChainError>(ChainError::Truncated),
        r@.len() >= 24 && !has_magic(r@) ==> h == Err::<(u64, usize, usize), ChainError>(
            ChainError::BadMagic,
        ),
        has_magic(r@) ==> (h matches Ok((digest, count, blob_len)) && digest == header_digest(r@)
            && count == header_count(r@) && blob_len == header_blob_len(r@)),
{
    if r.len() < 24 {
        return Err(ChainError::Truncated);
    }
    if !magic_matches(r) {
        return Err(ChainError::BadMagic);
    }
    Ok((read_u64(r, 8), read_u32(r, 16) as usize, read_u32(r, 20) as usize))
}

/// The shape of a chains file, as text: what its header says.
pub open spec fn chains_shape(b: Seq<u8>) -> Seq<char> {
    "Chains { slab_digest: "@ + hex(header_digest(b), 16) + ", count: "@ + decimal(header_count(b))
        + ", blob_len: "@ + decimal(header_blob_len(b)) + ", .. }"@
}

/// The chains sidecar, opened for reading. It holds the raw bytes; a chain is
/// decoded on demand ([`Chains::get`]). It has no `Debug`, which would print the bytes;
/// [`Chains::shape`] says what there is to say.
pub struct Chains {
    bytes: Vec<u8>,
    slab_digest: u64,
    count: usize,
    blob_at: usize,
    blob_len: usize,
}

impl Chains {
    /// The bytes of the file.
    pub closed spec fn file(&self) -> Seq<u8> {
        self.bytes@
    }

    /// Whether this is a sound file and the fields are its header's.
    pub closed spec fn wf(&self) -> bool {
        &&& file_error(self.bytes@) is None
        &&& self.bytes@.len() <= usize::MAX
        &&& self.slab_digest == header_digest(self.bytes@)
        &&& self.count == header_count(self.bytes@)
        &&& self.blob_at == blob_start(self.bytes@)
        &&& self.blob_len == header_blob_len(self.bytes@)
    }

    /// What [`Self::wf`] says of the file.
    pub proof fn lemma_wf(&self)
        requires
            self.wf(),
        ensures
            file_error(self.file()) is None,
    {
    }

    /// The shape of the file, never its bytes.
    pub fn shape(&self) -> (s: String)
        requires
            self.wf(),
        ensures
            s@ == chains_shape(self.file()),
    {
        let mut s: String = String::new();
        s.append("Chains { slab_digest: ");
        push_hex(&mut s, self.slab_digest, 16);
        s.append(", count: ");
        push_decimal(&mut s, self.count as u64);
        s.append(", blob_len: ");
        push_decimal(&mut s, self.blob_len as u64);
        s.append(", .. }");
        assert(s@ =~= chains_shape(self.file()));
        s
    }

    /// Opens a file: header, bounds and index are checked, chains stay undecoded.
    pub fn from_bytes(bytes: Vec<u8>) -> (r: Result<Self, ChainError>)
        ensures
            match file_error(bytes@) {
                Some(e) => r == Err::<Self, ChainError>(e),
                None => r matches Ok(c) && c.wf() && c.file() == bytes@,
            },
    {
        if bytes.len() < 24 || !magic_matches(bytes.as_slice()) {
            return Err(ChainError::BadMagic);
        }
        let slab_digest: u64 = read_u64(bytes.as_slice(), 8);
        let count32: u32 = read_u32(bytes.as_slice(), 16);
        let len32: u32 = read_u32(bytes.as_slice(), 20);
        let need: u64 = 24 + 12 * (count32 as u64) + len32 as u64;
        if (bytes.len() as u64) < need {
            return Err(ChainError::Truncated);
        }
        let count: usize = count32 as usize;
        let blob_len: usize = len32 as usize;
        let blob_at: usize = 24 + 12 * count;
        let me: Chains = Chains { bytes, slab_digest, count, blob_at, blob_len };
        let mut prev: u32 = 0;
        let mut i: usize = 0;
        while i < count
            invariant
                i <= count,
                me.bytes@ == bytes@,
                me.count == count,
                me.blob_at == blob_at,
                me.blob_len == blob_len,
                count == header_count(bytes@),
                blob_at == blob_start(bytes@),
                blob_len == header_blob_len(bytes@),
                blob_at + blob_len <= bytes@.len() <= usize::MAX,
                has_magic(bytes@),
                i > 0 ==> prev == entry_ordinal(bytes@, i - 1),
                file_error(bytes@) == index_error(bytes@, i as int),
            decreases count - i,
        {
            let (ordinal, off, len): (u32, u32, u32) = me.entry(i);
            if i > 0 && prev >= ordinal {
                return Err(ChainError::IndexNotAscending);
            }
            prev = ordinal;
            if off as u64 + len as u64 > blob_len as u64 {
                return Err(ChainError::IndexOutOfBounds);
            }
            i = i + 1;
        }
        Ok(me)
    }

    /// Digest of the slab this sidecar belongs to.
    pub fn slab_digest(&self) -> (d: u64)
        requires
            self.wf(),
        ensures
            d == header_digest(self.file()),
    {
        self.slab_digest
    }

    /// How many ways carry a chain.
    pub fn len(&self) -> (n: usize)
        requires
            self.wf(),
        ensures
            n == header_count(self.file()),
    {
        self.count
    }

    /// Whether no chains are stored.
    pub fn is_empty(&self) -> (b: bool)
        requires
            self.wf(),
        ensures
            b == (header_count(self.file()) == 0),
    {
        self.count == 0
    }

    /// Where the blob starts in the file.
    pub fn blob_at(&self) -> (n: usize)
        requires
            self.wf(),
        ensures
            n == blob_start(self.file()),
    {
        self.blob_at
    }

    /// How long the blob is.
    pub fn blob_len(&self) -> (n: usize)
        requires
            self.wf(),
        ensures
            n == header_blob_len(self.file()),
    {
        self.blob_len
    }

    fn entry(&self, i: usize) -> (e: (u32, u32, u32))
        requires
            i < self.count,
            self.blob_at == 24 + 12 * self.count,
            self.blob_at <= self.bytes@.len() <= usize::MAX,
        ensures
            e.0 == entry_ordinal(self.bytes@, i as int),
            e.1 == entry_offset(self.bytes@, i as int),
            e.2 == entry_length(self.bytes@, i as int),
    {
        let at: usize = 24 + 12 * i;
        let b: &[u8] = self.bytes.as_slice();
        (read_u32(b, at), read_u32(b, at + 4), read_u32(b, at + 8))
    }

    /// The raw record of entry `i`, borrowed from the file.
    fn record(&self, i: usize) -> (rec: &[u8])
        requires
            self.wf(),
            i < self.count,
        ensures
            rec@ == record(self.file(), i as int),
    {
        let (_, off, len): (u32, u32, u32) = self.entry(i);
        proof {
            lemma_sound_entries(self.bytes@, 0);
            assert(entry_error(self.bytes@, i as int) is None);
        }
        let from: usize = self.blob_at + off as usize;
        slice_subrange(self.bytes.as_slice(), from, from + len as usize)
    }

    /// Every stored ordinal with its raw record, in ascending order of the
    /// ordinals. The records borrow from the file; nothing is decoded.
    pub fn iter(&self) -> (out: Vec<(u32, &[u8])>)
        requires
            self.wf(),
        ensures
            out@.len() == header_count(self.file()),
            forall|i: int|
                0 <= i < out@.len() ==> (#[trigger] out@[i]).0 == entry_ordinal(self.file(), i)
                    && out@[i].1@ == record(self.file(), i),
    {
        let mut out: Vec<(u32, &[u8])> = Vec::new();
        let mut i: usize = 0;
        while i < self.count
            invariant
                self.wf(),
                i <= self.count,
                out@.len() == i,
                forall|k: int|
                    0 <= k < i ==> (#[trigger] out@[k]).0 == entry_ordinal(self.file(), k)
                        && out@[k].1@ == record(self.file(), k),
            decreases self.count - i,
        {
            let (ordinal, _, _): (u32, u32, u32) = self.entry(i);
            let rec: &[u8] = self.record(i);
            out.push((ordinal, rec));
            i = i + 1;
        }
        out
    }

    /// The chain of the way with this ordinal; none where no chain is stored
    /// for it. A malformed record is an error, never an empty chain.
    pub fn get(&self, ordinal: u32) -> (r: Result<Option<Vec<TileXy>>, ChainError>)
        requires
            self.wf(),
        ensures
            match stored(self.file(), ordinal) {
                None => r == Ok::<Option<Vec<TileXy>>, ChainError>(None),
                Some(Ok(chain)) => r matches Ok(Some(v)) && v@ == chain,
                Some(Err(e)) => r == Err::<Option<Vec<TileXy>>, ChainError>(e),
            },
    {
        let mut lo: usize = 0;
        let mut hi: usize = self.count;
        let ghost b = self.bytes@;
        while lo < hi
            invariant
                self.wf(),
                b == self.bytes@,
                lo <= hi <= self.count,
                forall|i: int| 0 <= i < lo ==> #[trigger] entry_ordinal(b, i) < ordinal,
                forall|i: int| hi <= i < self.count ==> #[trigger] entry_ordinal(b, i) > ordinal,
            decreases hi - lo,
        {
            let mid: usize = lo + (hi - lo) / 2;
            let (here, _, _): (u32, u32, u32) = self.entry(mid);
            if here == ordinal {
                let found: Result<Vec<TileXy>, ChainError> = decode_chain(self.record(mid));
                proof {
                    lemma_stored(b, ordinal, mid as int);
                }
                return match found {
                    Ok(v) => Ok(Some(v)),
                    Err(e) => Err(e),
                };
            }
            if here < ordinal {
                proof {
                    assert forall|i: int| 0 <= i < mid + 1 implies #[trigger] entry_ordinal(b, i)
                        < ordinal by {
                        if i < mid {
                            lemma_ordinals_ascend(b, i, mid as int);
                        }
                    }
                }
                lo = mid + 1;
            } else {
                proof {
                    assert forall|i: int| mid <= i < self.count implies #[trigger] entry_ordinal(
                        b,
                        i,
                    ) > ordinal by {
                        if i > mid {
                            lemma_ordinals_ascend(b, mid as int, i);
                        }
                    }
                }
                hi = mid;
            }
        }
        proof {
            if exists|i: int| is_entry_for(b, ordinal, i) {
                let i = choose|i: int| is_entry_for(b, ordinal, i);
                assert(entry_ordinal(b, i) == ordinal);
            }
        }
        Ok(None)
    }
}

// ── Laws of the file ────────────────────────────────────────────────
proof fn lemma_leb_nonempty(v: nat)
    ensures
        leb(v).len() >= 1,
{
}

proof fn lemma_steps_long(chain: Seq<TileXy>)
    ensures
        steps_bytes(chain).len() + 1 >= chain.len(),
    decreases chain.len(),
{
    if chain.len() > 1 {
        lemma_steps_long(chain.subrange(1, chain.len() as int));
        lemma_leb_nonempty(zigzagged(chain[1].x - chain[0].x));
    }
}

/// A record takes at least a byte per vertex.
proof fn lemma_record_long(chain: Seq<TileXy>)
    ensures
        chain_record(chain).len() >= chain.len(),
{
    lemma_steps_long(chain);
    if chain.len() > 0 {
        lemma_leb_nonempty(chain.len());
    }
}

/// Where record `i` stands in the blob.
proof fn lemma_record_in_blob(entries: Seq<(u32, Seq<TileXy>)>, i: int)
    requires
        0 <= i < entries.len(),
    ensures
        ({
            let at = blob_of(entries.take(i)).len() as int;
            let rec = chain_record(entries[i].1);
            &&& at + rec.len() <= blob_of(entries).len()
            &&& blob_of(entries).subrange(at, at + rec.len()) == rec
        }),
    decreases entries.len(),
{
    let front = entries.drop_last();
    let rec = chain_record(entries[i].1);
    let at = blob_of(entries.take(i)).len() as int;
    if i == entries.len() - 1 {
        assert(entries.take(i) =~= front);
        assert(blob_of(entries).subrange(at, at + rec.len()) =~= rec);
    } else {
        lemma_record_in_blob(front, i);
        assert(front.take(i) =~= entries.take(i));
        assert(blob_of(entries).subrange(at, at + rec.len()) =~= blob_of(front).subrange(
            at,
            at + rec.len(),
        ));
    }
}

/// Where entry `i` stands in the index.
proof fn lemma_entry_in_index(entries: Seq<(u32, Seq<TileXy>)>, i: int)
    requires
        0 <= i < entries.len(),
    ensures
        index_of(entries).len() == 12 * entries.len(),
        index_of(entries).subrange(12 * i, 12 * i + 12) == index_entry(
            entries[i].0 as nat,
            blob_of(entries.take(i)).len(),
            chain_record(entries[i].1).len(),
        ),
    decreases entries.len(),
{
    let front = entries.drop_last();
    lemma_index_len(entries);
    lemma_index_len(front);
    if i == entries.len() - 1 {
        assert(entries.take(i) =~= front);
        let e = index_entry(
            entries[i].0 as nat,
            blob_of(entries.take(i)).len(),
            chain_record(entries[i].1).len(),
        );
        assert(index_of(entries) == index_of(front) + e);
        assert(index_of(entries).subrange(12 * i, 12 * i + 12) =~= e);
    } else {
        lemma_entry_in_index(front, i);
        assert(front.take(i) =~= entries.take(i));
        assert(index_of(entries).subrange(12 * i, 12 * i + 12) =~= index_of(front).subrange(
            12 * i,
            12 * i + 12,
        ));
    }
}

proof fn lemma_index_len(entries: Seq<(u32, Seq<TileXy>)>)
    ensures
        index_of(entries).len() == 12 * entries.len(),
    decreases entries.len(),
{
    if entries.len() > 0 {
        lemma_index_len(entries.drop_last());
        lemma_le_bytes_len(entries.last().0 as nat, 4);
        lemma_le_bytes_len(blob_of(entries.drop_last()).len(), 4);
        lemma_le_bytes_len(chain_record(entries.last().1).len(), 4);
    }
}

/// An integer field of the file.
proof fn lemma_field(b: Seq<u8>, at: int, n: nat, v: nat)
    requires
        0 <= at,
        at + n <= b.len(),
        b.subrange(at, at + n) == le_bytes(v, n),
        v < crate::bytes::pow256(n),
    ensures
        le_at(b, at, n as int) == v,
{
    lemma_le_round_trip(v, n);
}

/// The header of a written file.
proof fn lemma_written_header(slab_digest: u64, entries: Seq<(u32, Seq<TileXy>)>)
    requires
        fits(entries),
    ensures
        ({
            let b = chains_file(slab_digest, entries);
            &&& b.len() == 24 + 12 * entries.len() + blob_of(entries).len()
            &&& has_magic(b)
            &&& header_digest(b) == slab_digest
            &&& header_count(b) == entries.len()
            &&& header_blob_len(b) == blob_of(entries).len()
        }),
{
    let b = chains_file(slab_digest, entries);
    let (d, c, l) = (slab_digest as nat, entries.len(), blob_of(entries).len());
    lemma_pow256_widths();
    lemma_le_bytes_len(d, 8);
    lemma_le_bytes_len(c, 4);
    lemma_le_bytes_len(l, 4);
    lemma_index_len(entries);
    assert(b.subrange(0, 8) =~= MAGIC@);
    assert(b.subrange(8, 16) =~= le_bytes(d, 8));
    assert(b.subrange(16, 20) =~= le_bytes(c, 4));
    assert(b.subrange(20, 24) =~= le_bytes(l, 4));
    lemma_field(b, 8, 8, d);
    lemma_field(b, 16, 4, c);
    lemma_field(b, 20, 4, l);
}

/// Entry `i` of a written file.
proof fn lemma_written_entry(slab_digest: u64, entries: Seq<(u32, Seq<TileXy>)>, i: int)
    requires
        fits(entries),
        0 <= i < entries.len(),
    ensures
        ({
            let b = chains_file(slab_digest, entries);
            &&& entry_ordinal(b, i) == entries[i].0
            &&& entry_offset(b, i) + entry_length(b, i) <= header_blob_len(b)
            &&& record(b, i) == chain_record(entries[i].1)
        }),
{
    let b = chains_file(slab_digest, entries);
    let o = entries[i].0 as nat;
    let at = blob_of(entries.take(i)).len();
    let rec = chain_record(entries[i].1);
    lemma_written_header(slab_digest, entries);
    lemma_index_len(entries);
    lemma_entry_in_index(entries, i);
    lemma_record_in_blob(entries, i);
    lemma_pow256_widths();
    lemma_le_bytes_len(o, 4);
    lemma_le_bytes_len(at, 4);
    lemma_le_bytes_len(rec.len(), 4);
    lemma_le_bytes_len(slab_digest as nat, 8);
    lemma_le_bytes_len(entries.len(), 4);
    lemma_le_bytes_len(blob_of(entries).len(), 4);
    let e = index_entry(o, at, rec.len());
    let here = b.subrange(24 + 12 * i, 36 + 12 * i);
    assert(here =~= index_of(entries).subrange(12 * i, 12 * i + 12));
    assert(b.subrange(24 + 12 * i, 28 + 12 * i) =~= here.subrange(0, 4));
    assert(here.subrange(0, 4) =~= le_bytes(o, 4));
    assert(b.subrange(28 + 12 * i, 32 + 12 * i) =~= here.subrange(4, 8));
    assert(here.subrange(4, 8) =~= le_bytes(at, 4));
    assert(b.subrange(32 + 12 * i, 36 + 12 * i) =~= here.subrange(8, 12));
    assert(here.subrange(8, 12) =~= le_bytes(rec.len(), 4));
    lemma_field(b, 24 + 12 * i, 4, o);
    lemma_field(b, 28 + 12 * i, 4, at);
    lemma_field(b, 32 + 12 * i, 4, rec.len());
    assert(record(b, i) =~= blob_of(entries).subrange(at as int, (at + rec.len()) as int));
}

proof fn lemma_written_index(slab_digest: u64, entries: Seq<(u32, Seq<TileXy>)>, from: int)
    requires
        fits(entries),
        ascending(entries),
        0 <= from <= entries.len(),
    ensures
        index_error(chains_file(slab_digest, entries), from) is None,
    decreases entries.len() - from,
{
    lemma_written_header(slab_digest, entries);
    if from < entries.len() {
        lemma_written_index(slab_digest, entries, from + 1);
        lemma_written_entry(slab_digest, entries, from);
        if from > 0 {
            lemma_written_entry(slab_digest, entries, from - 1);
            assert(entries[from - 1].0 < entries[from].0);
        }
    }
}

/// What the reader gives back of what the writer wrote: a written file opens,
/// its header is the one written, every chain comes back exactly under its
/// ordinal, and nothing is stored under any other ordinal.
pub proof fn law_chains_round_trip(slab_digest: u64, entries: Seq<(u32, Seq<TileXy>)>)
    requires
        ascending(entries),
        fits(entries),
    ensures
        ({
            let b = chains_file(slab_digest, entries);
            &&& file_error(b) is None
            &&& header_digest(b) == slab_digest
            &&& header_count(b) == entries.len()
            &&& forall|i: int|
                0 <= i < entries.len() ==> {
                    &&& entry_ordinal(b, i) == (#[trigger] entries[i]).0
                    &&& record(b, i) == chain_record(entries[i].1)
                    &&& stored(b, entries[i].0) == Some(
                        Ok::<Seq<TileXy>, ChainError>(entries[i].1),
                    )
                }
            &&& forall|ordinal: u32|
                (forall|i: int| 0 <= i < entries.len() ==> (#[trigger] entries[i]).0 != ordinal)
                    ==> #[trigger] stored(b, ordinal) is None
        }),
{
    let b = chains_file(slab_digest, entries);
    lemma_written_header(slab_digest, entries);
    lemma_written_index(slab_digest, entries, 0);
    assert forall|i: int| 0 <= i < entries.len() implies {
        &&& entry_ordinal(b, i) == (#[trigger] entries[i]).0
        &&& record(b, i) == chain_record(entries[i].1)
        &&& stored(b, entries[i].0) == Some(Ok::<Seq<TileXy>, ChainError>(entries[i].1))
    } by {
        lemma_written_entry(slab_digest, entries, i);
        lemma_record_in_blob(entries, i);
        lemma_record_long(entries[i].1);
        law_chain_round_trip(entries[i].1);
        assert(is_entry_for(b, entries[i].0, i));
        lemma_stored(b, entries[i].0, i);
    }
    assert forall|ordinal: u32|
        (forall|i: int| 0 <= i < entries.len() ==> (#[trigger] entries[i]).0 != ordinal) implies
    #[trigger] stored(b, ordinal) is None by {
        if exists|i: int| is_entry_for(b, ordinal, i) {
            let i = choose|i: int| is_entry_for(b, ordinal, i);
            lemma_written_entry(slab_digest, entries, i);
            assert(entries[i].0 != ordinal);
        }
    }
}

/// The cheap header read and the full open agree: where the full open succeeds
/// or finds anything but a bad magic, both read the same three fields.
pub proof fn law_header_agrees(b: Seq<u8>)
    ensures
        file_error(b) is None ==> has_magic(b),
        b.len() >= 24 ==> (has_magic(b) <==> file_error(b) != Some(ChainError::BadMagic)),
{
    if has_magic(b) {
        lemma_index_error_not_magic(b, 0);
    }
}

proof fn lemma_index_error_not_magic(b: Seq<u8>, i: int)
    ensures
        index_error(b, i) != Some(ChainError::BadMagic),
    decreases header_count(b) - i,
{
    if i < header_count(b) {
        lemma_index_error_not_magic(b, i + 1);
    }
}

// ── Laws of the file ────────────────────────────────────────────────
/// The layout of a chains file: magic, digest, count and blob length in 24 bytes, then
/// twelve bytes for each chain, then the records.
pub proof fn law_chains_layout(digest: u64, entries: Seq<(u32, Seq<TileXy>)>)
    ensures
        ({
            let w = chains_file(digest, entries);
            &&& w[0] == 'O' as u8 && w[1] == 'S' as u8 && w[2] == 'M' as u8 && w[3] == 'C' as u8
            &&& w[4] == 'H' as u8 && w[5] == 'N' as u8 && w[6] == 'S' as u8 && w[7] == '1' as u8
            &&& w.subrange(8, 16) == le_bytes(digest as nat, 8)
            &&& w.subrange(16, 20) == le_bytes(entries.len(), 4)
            &&& w.subrange(20, 24) == le_bytes(blob_of(entries).len(), 4)
            &&& w.len() == 24 + index_of(entries).len() + blob_of(entries).len()
            &&& w.skip(24 + index_of(entries).len() as int) == blob_of(entries)
        }),
{
    let w = chains_file(digest, entries);
    lemma_le_bytes_len(digest as nat, 8);
    lemma_le_bytes_len(entries.len(), 4);
    lemma_le_bytes_len(blob_of(entries).len(), 4);
    assert(w.subrange(8, 16) =~= le_bytes(digest as nat, 8));
    assert(w.subrange(16, 20) =~= le_bytes(entries.len(), 4));
    assert(w.subrange(20, 24) =~= le_bytes(blob_of(entries).len(), 4));
    assert(w.skip(24 + index_of(entries).len() as int) =~= blob_of(entries));
}

/// A chain is written as its number of vertices, its first vertex, and the steps between
/// neighbours, the column of each before its row.
pub proof fn law_a_record_begins_with_its_first_vertex(a: TileXy, b: TileXy)
    ensures
        chain_record(Seq::empty()) == seq![0u8],
        chain_record(seq![a]) == seq![1u8] + leb(a.x as nat) + leb(a.y_xyz as nat),
        chain_record(seq![a, b]) == seq![2u8] + leb(a.x as nat) + leb(a.y_xyz as nat) + leb(
            zigzagged(b.x - a.x),
        ) + leb(zigzagged(b.y_xyz - a.y_xyz)),
{
    reveal_with_fuel(steps_bytes, 3);
    let (one, two) = (seq![a], seq![a, b]);
    assert(two.subrange(1, 2).len() == 1);
    assert(chain_record(one) =~= seq![1u8] + leb(a.x as nat) + leb(a.y_xyz as nat));
    assert(chain_record(two) =~= seq![2u8] + leb(a.x as nat) + leb(a.y_xyz as nat) + leb(
        zigzagged(b.x - a.x),
    ) + leb(zigzagged(b.y_xyz - a.y_xyz)));
}

/// A chain that goes on costs the steps that it goes on by, wherever it is cut.
pub proof fn law_steps_follow_each_other(chain: Seq<TileXy>, k: int)
    requires
        0 < k < chain.len(),
    ensures
        steps_bytes(chain) == steps_bytes(chain.take(k)) + step_bytes(chain[k - 1], chain[k])
            + steps_bytes(chain.skip(k)),
    decreases k,
{
    let rest = chain.subrange(1, chain.len() as int);
    if k == 1 {
        assert(chain.take(1).len() == 1);
        assert(chain.skip(1) =~= rest);
        assert(steps_bytes(chain) =~= steps_bytes(chain.take(k)) + step_bytes(
            chain[k - 1],
            chain[k],
        ) + steps_bytes(chain.skip(k)));
    } else {
        law_steps_follow_each_other(rest, k - 1);
        let t = chain.take(k);
        assert(t.subrange(1, t.len() as int) =~= rest.take(k - 1));
        assert(rest.skip(k - 1) =~= chain.skip(k));
        assert(rest[k - 2] == chain[k - 1] && rest[k - 1] == chain[k]);
        assert(steps_bytes(chain) =~= steps_bytes(chain.take(k)) + step_bytes(
            chain[k - 1],
            chain[k],
        ) + steps_bytes(chain.skip(k)));
    }
}

/// A file is opened exactly where it begins with the magic, is as long as its header says,
/// its ordinals ascend, and every record lies inside the blob.
pub proof fn law_only_sound_files_are_opened(b: Seq<u8>)
    ensures
        file_error(b) is None <==> {
            &&& b.len() >= 24 && b.subrange(0, 8) == MAGIC@
            &&& b.len() >= 24 + 12 * le_at(b, 16, 4) + le_at(b, 20, 4)
            &&& forall|i: int|
                0 < i < le_at(b, 16, 4) ==> le_at(b, 24 + 12 * (i - 1), 4) < #[trigger] le_at(
                    b,
                    24 + 12 * i,
                    4,
                )
            &&& forall|i: int|
                0 <= i < le_at(b, 16, 4) ==> #[trigger] le_at(b, 28 + 12 * i, 4) + le_at(
                    b,
                    32 + 12 * i,
                    4,
                ) <= le_at(b, 20, 4)
        },
{
    if has_magic(b) {
        lemma_index_error(b, 0);
        let n = header_count(b) as int;
        assert((forall|i: int| 0 <= i < n ==> #[trigger] entry_error(b, i) is None) <==> {
            &&& forall|i: int|
                0 < i < n ==> le_at(b, 24 + 12 * (i - 1), 4) < #[trigger] le_at(b, 24 + 12 * i, 4)
            &&& forall|i: int|
                0 <= i < n ==> #[trigger] le_at(b, 28 + 12 * i, 4) + le_at(b, 32 + 12 * i, 4)
                    <= le_at(b, 20, 4)
        }) by {
            if forall|i: int| 0 <= i < n ==> #[trigger] entry_error(b, i) is None {
                assert forall|i: int| 0 < i < n implies le_at(b, 24 + 12 * (i - 1), 4)
                    < #[trigger] le_at(b, 24 + 12 * i, 4) by {
                    assert(entry_error(b, i) is None);
                }
                assert forall|i: int| 0 <= i < n implies #[trigger] le_at(b, 28 + 12 * i, 4)
                    + le_at(b, 32 + 12 * i, 4) <= le_at(b, 20, 4) by {
                    assert(entry_error(b, i) is None);
                }
            } else {
                let i = choose|i: int| 0 <= i < n && #[trigger] entry_error(b, i) is Some;
                if i > 0 {
                    assert(le_at(b, 24 + 12 * i, 4) == entry_ordinal(b, i));
                }
                assert(le_at(b, 28 + 12 * i, 4) == entry_offset(b, i));
            }
        }
    }
}

proof fn lemma_index_error(b: Seq<u8>, i: int)
    requires
        0 <= i,
    ensures
        index_error(b, i) is None <==> forall|k: int|
            i <= k < header_count(b) ==> #[trigger] entry_error(b, k) is None,
    decreases header_count(b) - i,
{
    if i < header_count(b) {
        lemma_index_error(b, i + 1);
        assert(entry_error(b, i) is None || entry_error(b, i) is Some);
    }
}

} // verus!
