//! The two-level rank index over a bit array: per-word `blocks` counts and
//! per-superblock `sblocks` running totals.
//!
//! A block is one 64-bit word of the bit array; a superblock is 52 blocks.
//! `blocks[i]` holds the number of set bits from word `i` to the end of its
//! superblock; `sblocks[j]` holds the number of set bits from the start of
//! the array through superblock `j`. Blocks are stored as a log array of
//! width 12 (a superblock holds at most 3328 bits), superblocks at width 64.

use vstd::prelude::*;

use crate::bits::fits_width;

verus! {

/// Number of set bits in a bit sequence.
pub open spec fn ones(s: Seq<bool>) -> int
    decreases s.len(),
{
    if s.len() == 0 {
        0
    } else {
        ones(s.drop_last()) + if s.last() {
            1int
        } else {
            0int
        }
    }
}

/// Set bits split over a concatenation.
pub proof fn lemma_ones_concat(a: Seq<bool>, b: Seq<bool>)
    ensures
        ones(a + b) == ones(a) + ones(b),
    decreases b.len(),
{
    if b.len() == 0 {
        assert(a + b =~= a);
    } else {
        assert((a + b).drop_last() =~= a + b.drop_last());
        lemma_ones_concat(a, b.drop_last());
    }
}

/// Set bits are bounded by the length.
pub proof fn lemma_ones_bound(s: Seq<bool>)
    ensures
        0 <= ones(s) <= s.len(),
    decreases s.len(),
{
    if s.len() > 0 {
        lemma_ones_bound(s.drop_last());
    }
}

/// Set bits in `s[a..b]`, clamped to the sequence.
pub open spec fn ones_in(s: Seq<bool>, a: int, b: int) -> int {
    let lo = if a < 0 {
        0
    } else if a > s.len() {
        s.len() as int
    } else {
        a
    };
    let hi = if b < lo {
        lo
    } else if b > s.len() {
        s.len() as int
    } else {
        b
    };
    ones(s.subrange(lo, hi))
}

/// Words a bit sequence occupies.
pub open spec fn word_count(len: int) -> int {
    (len + 63) / 64
}

/// Superblocks a bit sequence occupies.
pub open spec fn sblock_count(len: int) -> int {
    (word_count(len) + 51) / 52
}

/// The value of block `i`: set bits from word `i` through the end of its
/// superblock.
pub open spec fn block_value(s: Seq<bool>, i: int) -> int {
    let sb_end = 52 * (i / 52 + 1);
    let wend = if sb_end < word_count(s.len() as int) {
        sb_end
    } else {
        word_count(s.len() as int)
    };
    ones_in(s, 64 * i, 64 * wend)
}

/// The value of superblock `j`: set bits through its last word.
pub open spec fn sblock_value(s: Seq<bool>, j: int) -> int {
    let wend = if 52 * (j + 1) < word_count(s.len() as int) {
        52 * (j + 1)
    } else {
        word_count(s.len() as int)
    };
    ones_in(s, 0, 64 * wend)
}

/// Count the set bits of `bits[from..to]`.
fn count_ones_range(bits: &Vec<bool>, from: usize, to: usize) -> (r: u64)
    requires
        from <= to <= bits@.len(),
        bits@.len() <= usize::MAX,
    ensures
        r == ones(bits@.subrange(from as int, to as int)),
        r <= to - from,
{
    let mut r: u64 = 0;
    let mut i = from;
    proof {
        assert(bits@.subrange(from as int, from as int) =~= Seq::<bool>::empty());
    }
    while i < to
        invariant
            from <= i <= to <= bits@.len(),
            r == ones(bits@.subrange(from as int, i as int)),
            r <= i - from,
        decreases to - i,
    {
        proof {
            assert(bits@.subrange(from as int, i + 1).drop_last() =~= bits@.subrange(
                from as int,
                i as int,
            ));
        }
        if bits[i] {
            r = r + 1;
        }
        i = i + 1;
    }
    r
}

/// Build the rank index of a bit sequence: the logical `blocks` and
/// `sblocks` arrays, ready for log-array encoding at widths 12 and 64.
pub fn build_bitindex(bits: &Vec<bool>) -> (r: (Vec<u64>, Vec<u64>))
    requires
        bits@.len() <= usize::MAX - 127,
    ensures
        r.0@.len() == word_count(bits@.len() as int),
        r.1@.len() == sblock_count(bits@.len() as int),
        forall|i: int| 0 <= i < r.0@.len() ==> r.0@[i] == block_value(bits@, i),
        forall|j: int| 0 <= j < r.1@.len() ==> r.1@[j] == sblock_value(bits@, j),
        forall|i: int| 0 <= i < r.0@.len() ==> fits_width(#[trigger] r.0@[i], 12),
{
    let n = bits.len();
    let nwords: usize = (n + 63) / 64;
    let mut blocks: Vec<u64> = Vec::new();
    let mut sblocks: Vec<u64> = Vec::new();
    let mut w: usize = 0;
    while w < nwords
        invariant
            n == bits@.len(),
            n <= usize::MAX - 127,
            nwords == word_count(n as int),
            w <= nwords,
            w % 52 == 0 || w == nwords,
            blocks@.len() == w,
            sblocks@.len() == (w + 51) / 52,
            forall|i: int| 0 <= i < w ==> blocks@[i] == block_value(bits@, i),
            forall|j: int| 0 <= j < sblocks@.len() ==> sblocks@[j] == sblock_value(bits@, j),
            forall|i: int| 0 <= i < blocks@.len() ==> fits_width(#[trigger] blocks@[i], 12),
        decreases nwords - w,
    {
        let sb_end: usize = if w + 52 < nwords {
            w + 52
        } else {
            nwords
        };
        let chunk_bit_end: usize = if sb_end * 64 < n {
            sb_end * 64
        } else {
            n
        };
        let mut i: usize = w;
        while i < sb_end
            invariant
                n == bits@.len(),
                nwords == word_count(n as int),
                w <= i <= sb_end <= nwords,
                w % 52 == 0,
                w + 52 < nwords ==> sb_end == w + 52,
                w + 52 >= nwords ==> sb_end == nwords,
                sb_end * 64 < n ==> chunk_bit_end == sb_end * 64,
                sb_end * 64 >= n ==> chunk_bit_end == n,
                blocks@.len() == i,
                forall|q: int| 0 <= q < w ==> blocks@[q] == block_value(bits@, q),
                forall|q: int| w <= q < i ==> blocks@[q] == block_value(bits@, q),
                forall|q: int| 0 <= q < blocks@.len() ==> fits_width(#[trigger] blocks@[q], 12),
            decreases sb_end - i,
        {
            let from: usize = if i * 64 < n {
                i * 64
            } else {
                n
            };
            let c = count_ones_range(bits, from, chunk_bit_end);
            proof {
                assert(i / 52 == w / 52) by (nonlinear_arith)
                    requires
                        w % 52 == 0,
                        w <= i < w + 52,
                ;
                assert(52 * (i / 52 + 1) == w + 52) by (nonlinear_arith)
                    requires
                        w % 52 == 0,
                        i / 52 == w / 52,
                        w >= 0,
                ;
                assert(c == block_value(bits@, i as int));
                assert(c <= 3328);
                assert(c >> 12u64 == 0) by (bit_vector)
                    requires
                        c <= 3328,
                ;
            }
            blocks.push(c);
            i = i + 1;
        }
        let total = count_ones_range(bits, 0, chunk_bit_end);
        proof {
            let j = sblocks@.len() as int;
            assert(j == w / 52) by (nonlinear_arith)
                requires
                    j == (w + 51) / 52int,
                    w % 52 == 0,
                    w >= 0,
            ;
            assert(52 * (j + 1) == w + 52) by (nonlinear_arith)
                requires
                    j == w / 52,
                    w % 52 == 0,
                    w >= 0,
            ;
            assert(total == sblock_value(bits@, j));
            assert((sb_end + 51) / 52 == j + 1) by (nonlinear_arith)
                requires
                    j == w / 52,
                    w % 52 == 0,
                    w >= 0,
                    w < sb_end <= w + 52,
            ;
        }
        sblocks.push(total);
        w = sb_end;
    }
    (blocks, sblocks)
}

} // verus!
