//! Bit-indexed adjacency lists: a `nums` log array of destination ids and a
//! `bits` array marking the end of each source's run.
//!
//! Decoding walks positions: the source id starts at 1 and steps up after
//! every set bit; a zero destination marks an empty run (a hole) and yields
//! no pair. Encoding inverts this, writing one run per source id from a
//! strictly sorted pair list, with holes for sources that have no pairs.

use vstd::prelude::*;

use crate::bitarray::BitArray;
use crate::error::LarchError;
use crate::logarray::LogArray;

verus! {

/// The pairs a suffix of an adjacency list denotes, starting at `pos` with
/// the given current source id.
pub open spec fn adj_pairs_from(bits: Seq<bool>, nums: Seq<u64>, pos: int, left: u64) -> Seq<
    (u64, u64),
>
    recommends
        bits.len() == nums.len(),
    decreases nums.len() - pos,
{
    if pos < 0 || pos >= nums.len() {
        Seq::empty()
    } else {
        let rest = adj_pairs_from(
            bits,
            nums,
            pos + 1,
            if bits[pos] {
                (left + 1) as u64
            } else {
                left
            },
        );
        if nums[pos] == 0 {
            rest
        } else {
            seq![(left, nums[pos])] + rest
        }
    }
}

/// All `(source, destination)` pairs an adjacency list denotes.
pub open spec fn adj_pairs(bits: Seq<bool>, nums: Seq<u64>) -> Seq<(u64, u64)> {
    adj_pairs_from(bits, nums, 0, 1)
}

/// Every decoded pair has a nonzero source and destination.
pub proof fn lemma_adj_pairs_nonzero(bits: Seq<bool>, nums: Seq<u64>, pos: int, left: u64)
    requires
        left >= 1,
        left + nums.len() - pos <= u64::MAX,
    ensures
        forall|q: int|
            0 <= q < adj_pairs_from(bits, nums, pos, left).len() ==> (#[trigger] adj_pairs_from(
                bits,
                nums,
                pos,
                left,
            )[q]).0 >= 1 && adj_pairs_from(bits, nums, pos, left)[q].1 >= 1,
    decreases nums.len() - pos,
{
    if 0 <= pos < nums.len() {
        let nl: u64 = if bits[pos] {
            (left + 1) as u64
        } else {
            left
        };
        lemma_adj_pairs_nonzero(bits, nums, pos + 1, nl);
        let s = adj_pairs_from(bits, nums, pos, left);
        let rest = adj_pairs_from(bits, nums, pos + 1, nl);
        assert forall|q: int| 0 <= q < s.len() implies (#[trigger] s[q]).0 >= 1 && s[q].1 >= 1 by {
            if nums[pos] == 0 {
                assert(s[q] == rest[q]);
            } else {
                if q == 0 {
                    assert(s[q] == (left, nums[pos]));
                } else {
                    assert(s[q] == rest[q - 1]);
                }
            }
        }
    }
}

/// Decode every pair of an adjacency list.
pub fn decode_adjacency(bits: &BitArray, nums: &LogArray) -> (r: Vec<(u64, u64)>)
    requires
        bits.wf(),
        nums.wf(),
        bits@.len() == nums@.len(),
    ensures
        r@ == adj_pairs(bits@, nums@),
{
    let len = nums.len();
    let mut r: Vec<(u64, u64)> = Vec::new();
    let mut pos: u64 = 0;
    let mut left: u64 = 1;
    while pos < len
        invariant
            bits.wf(),
            nums.wf(),
            bits@.len() == nums@.len(),
            len == nums@.len(),
            pos <= len,
            1 <= left,
            left <= 1 + pos,
            adj_pairs(bits@, nums@) == r@ + adj_pairs_from(bits@, nums@, pos as int, left),
        decreases len - pos,
    {
        let b = match bits.get(pos) {
            Ok(v) => v,
            Err(_) => {
                proof {
                    assert(false);
                }
                false
            },
        };
        let n = match nums.get(pos) {
            Ok(v) => v,
            Err(_) => {
                proof {
                    assert(false);
                }
                0
            },
        };
        let ghost pre = r@;
        if n != 0 {
            r.push((left, n));
        }
        proof {
            let nl: u64 = if b {
                (left + 1) as u64
            } else {
                left
            };
            assert(adj_pairs_from(bits@, nums@, pos as int, left) == (if n == 0 {
                adj_pairs_from(bits@, nums@, pos + 1, nl)
            } else {
                seq![(left, n)] + adj_pairs_from(bits@, nums@, pos + 1, nl)
            }));
            if n != 0 {
                assert(r@ + adj_pairs_from(bits@, nums@, pos + 1, nl) =~= pre + adj_pairs_from(
                    bits@,
                    nums@,
                    pos as int,
                    left,
                ));
            }
        }
        if b {
            left = left + 1;
        }
        pos = pos + 1;
    }
    r
}

/// A sequence of `k` zero destinations.
pub open spec fn zero_run(k: int) -> Seq<u64> {
    Seq::new(k as nat, |q: int| 0u64)
}

/// A sequence of `k` set bits.
pub open spec fn one_bits(k: int) -> Seq<bool> {
    Seq::new(k as nat, |q: int| true)
}

/// The encoder state after a prefix of the pair list: the `nums` and `bits`
/// written so far (the closing bit of the last run still outstanding) and
/// the source id last written, 0 before the first.
pub open spec fn adj_enc(pairs: Seq<(u64, u64)>) -> (Seq<u64>, Seq<bool>, u64)
    decreases pairs.len(),
{
    if pairs.len() == 0 {
        (Seq::empty(), Seq::empty(), 0u64)
    } else {
        let (nums, bits, last) = adj_enc(pairs.drop_last());
        let p = pairs.last();
        if last == 0 {
            (nums + zero_run(p.0 - 1) + seq![p.1], bits + one_bits(p.0 - 1), p.0)
        } else if p.0 == last {
            (nums + seq![p.1], bits + seq![false], last)
        } else {
            (nums + zero_run(p.0 - last - 1) + seq![p.1], bits + one_bits(p.0 - last), p.0)
        }
    }
}

/// The finished arrays: the state of the full list plus the closing bit.
pub open spec fn adj_encode(pairs: Seq<(u64, u64)>) -> (Seq<u64>, Seq<bool>) {
    let (nums, bits, last) = adj_enc(pairs);
    if nums.len() > 0 {
        (nums, bits + seq![true])
    } else {
        (nums, bits)
    }
}

/// Encode a strictly sorted pair list as an adjacency list.
pub fn encode_adjacency(pairs: &Vec<(u64, u64)>) -> (r: (Vec<u64>, Vec<bool>))
    requires
        crate::sort::strictly_sorted_pairs(pairs@),
        forall|q: int| 0 <= q < pairs@.len() ==> (#[trigger] pairs@[q]).0 >= 1,
    ensures
        (r.0@, r.1@) == adj_encode(pairs@),
        r.0@.len() == r.1@.len(),
{
    let mut nums: Vec<u64> = Vec::new();
    let mut bits: Vec<bool> = Vec::new();
    let mut last: u64 = 0;
    let mut i: usize = 0;
    while i < pairs.len()
        invariant
            crate::sort::strictly_sorted_pairs(pairs@),
            forall|q: int| 0 <= q < pairs@.len() ==> (#[trigger] pairs@[q]).0 >= 1,
            i <= pairs@.len(),
            (nums@, bits@, last) == adj_enc(pairs@.take(i as int)),
            i > 0 ==> last == pairs@[i - 1].0 && last >= 1,
            i == 0 ==> last == 0,
            nums@.len() == bits@.len() + if i > 0 {
                1int
            } else {
                0int
            },
        decreases pairs@.len() - i,
    {
        let p = pairs[i];
        proof {
            assert(pairs@.take(i + 1).drop_last() =~= pairs@.take(i as int));
            assert(pairs@.take(i + 1).last() == p);
            if i > 0 {
                assert(crate::sort::pair_lt(pairs@[i - 1], pairs@[i as int]));
            }
        }
        let ghost pre_nums = nums@;
        let ghost pre_bits = bits@;
        if last == 0 {
            let mut c: u64 = 0;
            while c < p.0 - 1
                invariant
                    c <= p.0 - 1,
                    nums@ == pre_nums + zero_run(c as int),
                    bits@ == pre_bits + one_bits(c as int),
                decreases p.0 - 1 - c,
            {
                nums.push(0);
                bits.push(true);
                proof {
                    assert(nums@ =~= pre_nums + zero_run(c + 1));
                    assert(bits@ =~= pre_bits + one_bits(c + 1));
                }
                c = c + 1;
            }
            nums.push(p.1);
            proof {
                assert(nums@ =~= pre_nums + zero_run(p.0 - 1) + seq![p.1]);
                assert(bits@ =~= pre_bits + one_bits(p.0 - 1));
            }
        } else if p.0 == last {
            nums.push(p.1);
            bits.push(false);
            proof {
                assert(nums@ =~= pre_nums + seq![p.1]);
                assert(bits@ =~= pre_bits + seq![false]);
            }
        } else {
            let skip = p.0 - last;
            let mut c: u64 = 0;
            while c < skip - 1
                invariant
                    c <= skip - 1,
                    nums@ == pre_nums + zero_run(c as int),
                    bits@ == pre_bits + one_bits(c as int),
                decreases skip - 1 - c,
            {
                nums.push(0);
                bits.push(true);
                proof {
                    assert(nums@ =~= pre_nums + zero_run(c + 1));
                    assert(bits@ =~= pre_bits + one_bits(c + 1));
                }
                c = c + 1;
            }
            bits.push(true);
            nums.push(p.1);
            proof {
                assert(nums@ =~= pre_nums + zero_run(skip - 1) + seq![p.1]);
                assert(bits@ =~= pre_bits + one_bits(skip - 1) + seq![true]);
                assert(pre_bits + one_bits(skip - 1) + seq![true] =~= pre_bits + one_bits(
                    skip as int,
                ));
            }
        }
        last = p.0;
        i = i + 1;
    }
    proof {
        assert(pairs@.take(pairs@.len() as int) =~= pairs@);
    }
    if nums.len() > 0 {
        bits.push(true);
    }
    (nums, bits)
}

} // verus!
