//! The object index builder: inverts a source→destination adjacency list by
//! destination and re-encodes it, with its own rank index.
//!
//! For every pair `(s, o)` the source adjacency denotes, the pair `(o, s)`
//! goes into the new list; the pairs are sorted, identical pairs collapse to
//! one (the documented policy), and the result is run-length re-encoded the
//! same way the source was, with a blocks/superblocks rank index over its
//! run-boundary bits. The output is a pure function of the input bytes, so a
//! rebuild over the same input is byte-identical.

use vstd::prelude::*;

use crate::adjacency::{adj_encode, adj_pairs, lemma_adj_pairs_nonzero};
use crate::bitarray::{bitarray_parse_ok, encode_bitarray, encodes_bitarray_file, BitArray};
use crate::bitindex::{block_value, build_bitindex, sblock_count, sblock_value, word_count};
use crate::bits::{fits_width, lemma_fits_width_mono, spec_width, width_for};
use crate::error::LarchError;
use crate::logarray::{encode_logarray, encodes_logarray_file, parse_ok, LogArray};
use crate::control::max_control_count;
use crate::sort::{dedup_pairs, dedup_sorted, pair_leq, sort_pairs};

verus! {

/// The four output files of an object index build.
pub struct ObjectIndexFiles {
    /// The destination `nums` log array (control word last).
    pub nums: Vec<u8>,
    /// The run-boundary bit array.
    pub bits: Vec<u8>,
    /// The rank index blocks, a log array of width 12.
    pub blocks: Vec<u8>,
    /// The rank index superblocks, a log array of width 64.
    pub sblocks: Vec<u8>,
}

/// Pairs with both sides swapped.
pub open spec fn swap_pairs(s: Seq<(u64, u64)>) -> Seq<(u64, u64)> {
    Seq::new(s.len(), |i: int| (s[i].1, s[i].0))
}

/// The lexicographic order handed to the specification sort.
pub open spec fn pair_leq_fn() -> spec_fn((u64, u64), (u64, u64)) -> bool {
    (|a: (u64, u64), b: (u64, u64)| pair_leq(a, b))
}

/// The inverted, sorted, deduplicated pair list of an adjacency list.
pub open spec fn object_pairs(bits: Seq<bool>, nums: Seq<u64>) -> Seq<(u64, u64)> {
    dedup_sorted(swap_pairs(adj_pairs(bits, nums)).sort_by(pair_leq_fn()))
}

/// Completeness: every pair the source adjacency denotes appears, sides
/// swapped, in the object index's pair list.
pub proof fn lemma_object_index_complete(bits: Seq<bool>, nums: Seq<u64>, p: (u64, u64))
    requires
        adj_pairs(bits, nums).contains(p),
    ensures
        object_pairs(bits, nums).contains((p.1, p.0)),
{
    broadcast use vstd::seq_lib::group_to_multiset_ensures;

    let pairs = adj_pairs(bits, nums);
    let swapped = swap_pairs(pairs);
    let leq = pair_leq_fn();
    let i = choose|i: int| 0 <= i < pairs.len() && #[trigger] pairs[i] == p;
    assert(swapped[i] == (p.1, p.0));
    assert(swapped.contains((p.1, p.0)));
    assert(vstd::relations::total_ordering(leq)) by {
        assert forall|a: (u64, u64), b: (u64, u64), c: (u64, u64)|
            #[trigger] leq(a, b) && #[trigger] leq(b, c) implies leq(a, c) by {}
    }
    swapped.lemma_sort_by_ensures(leq);
    let sorted = swapped.sort_by(leq);
    assert(sorted.to_multiset().count((p.1, p.0)) > 0);
    assert(sorted.contains((p.1, p.0)));
    crate::sort::lemma_dedup_sorted_contains(sorted);
}

/// The largest value of a sequence, 0 when empty.
pub open spec fn max_val(s: Seq<u64>) -> u64
    decreases s.len(),
{
    if s.len() == 0 {
        0u64
    } else if s.last() >= max_val(s.drop_last()) {
        s.last()
    } else {
        max_val(s.drop_last())
    }
}

/// A log array of these dimensions is encodable on this machine.
pub open spec fn enc_ok(l: int, w: int) -> bool {
    &&& l <= max_control_count()
    &&& l * w <= usize::MAX - 127
}

/// Whether an encode of `l` elements at width `w` fits this machine.
pub(crate) fn check_enc_ok(l: usize, w: u8) -> (r: bool)
    requires
        1 <= w <= 64,
    ensures
        r == enc_ok(l as int, w as int),
{
    let max_c: u64 = 0xFF_FFFF_FFFF_FFFF;
    if (l as u64) > max_c {
        return false;
    }
    let budget: u64 = (usize::MAX - 127) as u64;
    let per = budget / (w as u64);
    proof {
        assert((l as int) * (w as int) <= budget <==> l as int <= budget as int / (w as int))
            by (nonlinear_arith)
            requires
                1 <= (w as int) <= 64,
                budget >= 0,
                l as int >= 0,
                per == budget as int / (w as int),
        ;
    }
    (l as u64) <= per
}

/// Largest element of a vector.
fn max_of(v: &Vec<u64>) -> (r: u64)
    ensures
        r == max_val(v@),
        forall|q: int| 0 <= q < v@.len() ==> v@[q] <= r,
{
    let mut r: u64 = 0;
    let mut i: usize = 0;
    while i < v.len()
        invariant
            i <= v@.len(),
            r == max_val(v@.take(i as int)),
            forall|q: int| 0 <= q < i ==> v@[q] <= r,
        decreases v@.len() - i,
    {
        proof {
            assert(v@.take(i + 1).drop_last() =~= v@.take(i as int));
        }
        if v[i] > r {
            r = v[i];
        }
        i = i + 1;
    }
    proof {
        assert(v@.take(v@.len() as int) =~= v@);
    }
    r
}

/// Build the object index from the source adjacency's `nums` log array file
/// and run-boundary bit array file.
///
/// Succeeds exactly when both inputs parse, agree on their length, and the
/// output stays within machine and format limits; the outputs are then the
/// exact encodings of the inverted, sorted, deduplicated pair list.
pub fn build_object_index(sp_o_nums_file: &Vec<u8>, sp_o_bits_file: &Vec<u8>) -> (r: Result<
    ObjectIndexFiles,
    LarchError,
>)
    ensures
        r is Ok ==> {
            let bits_in = Seq::new(
                crate::bitarray::be_u64_at(sp_o_bits_file@, sp_o_bits_file@.len() - 8) as nat,
                |j: int|
                    crate::bits::stream_bit(
                        sp_o_bits_file@.subrange(0, sp_o_bits_file@.len() - 8),
                        j,
                    ),
            );
            let nums_in = Seq::new(
                crate::control::control_count(
                    crate::logarray::control_slice(sp_o_nums_file@, false),
                ) as nat,
                |i: int|
                    crate::logarray::element_value(
                        crate::logarray::payload_slice(sp_o_nums_file@, false),
                        crate::control::control_width(
                            crate::logarray::control_slice(sp_o_nums_file@, false),
                        ) as int,
                        i,
                    ) as u64,
            );
            let sd = object_pairs(bits_in, nums_in);
            let enc = adj_encode(sd);
            let w = spec_width(max_val(enc.0));
            let bi = (
                Seq::new(word_count(enc.1.len() as int) as nat, |i: int| block_value(enc.1, i)),
                Seq::new(sblock_count(enc.1.len() as int) as nat, |j: int| sblock_value(enc.1, j)),
            );
            let files = r->Ok_0;
            &&& parse_ok(sp_o_nums_file@, false)
            &&& bitarray_parse_ok(sp_o_bits_file@)
            &&& bits_in.len() == nums_in.len()
            &&& encodes_logarray_file(files.nums@, enc.0, w as u8, false)
            &&& encodes_bitarray_file(files.bits@, enc.1)
            &&& encodes_logarray_file(files.blocks@, bi.0.map_values(|x: int| x as u64), 12, false)
            &&& encodes_logarray_file(files.sblocks@, bi.1.map_values(|x: int| x as u64), 64, false)
        },
        r is Err && (!parse_ok(sp_o_nums_file@, false) || !bitarray_parse_ok(sp_o_bits_file@)) ==> (
        r->Err_0 == crate::logarray::parse_err(sp_o_nums_file@, false) || r->Err_0
            == LarchError::TruncatedBuffer),
        ({
            let bits_in = Seq::new(
                crate::bitarray::be_u64_at(sp_o_bits_file@, sp_o_bits_file@.len() - 8) as nat,
                |j: int|
                    crate::bits::stream_bit(
                        sp_o_bits_file@.subrange(0, sp_o_bits_file@.len() - 8),
                        j,
                    ),
            );
            let nums_in = Seq::new(
                crate::control::control_count(
                    crate::logarray::control_slice(sp_o_nums_file@, false),
                ) as nat,
                |i: int|
                    crate::logarray::element_value(
                        crate::logarray::payload_slice(sp_o_nums_file@, false),
                        crate::control::control_width(
                            crate::logarray::control_slice(sp_o_nums_file@, false),
                        ) as int,
                        i,
                    ) as u64,
            );
            let enc = adj_encode(object_pairs(bits_in, nums_in));
            &&& parse_ok(sp_o_nums_file@, false)
            &&& bitarray_parse_ok(sp_o_bits_file@)
            &&& bits_in.len() == nums_in.len()
            &&& enc_ok(enc.0.len() as int, spec_width(max_val(enc.0)))
            &&& enc.0.len() <= usize::MAX - 127
            &&& enc_ok(word_count(enc.1.len() as int), 12)
            &&& enc_ok(sblock_count(enc.1.len() as int), 64)
        }) ==> r is Ok,
{
    let nums_in = match LogArray::parse(sp_o_nums_file, false) {
        Ok((la, _)) => la,
        Err(e) => {
            return Err(e);
        },
    };
    let bits_in = match BitArray::parse(sp_o_bits_file) {
        Ok(ba) => ba,
        Err(e) => {
            return Err(e);
        },
    };
    if bits_in.len() != nums_in.len() {
        return Err(LarchError::TruncatedBuffer);
    }
    let pairs = crate::adjacency::decode_adjacency(&bits_in, &nums_in);
    proof {
        lemma_adj_pairs_nonzero(bits_in@, nums_in@, 0, 1);
    }
    let mut swapped: Vec<(u64, u64)> = Vec::new();
    let mut i: usize = 0;
    while i < pairs.len()
        invariant
            i <= pairs@.len(),
            swapped@ == swap_pairs(pairs@.take(i as int)),
        decreases pairs@.len() - i,
    {
        let p = pairs[i];
        swapped.push((p.1, p.0));
        proof {
            assert(swapped@ =~= swap_pairs(pairs@.take(i + 1)));
        }
        i = i + 1;
    }
    proof {
        assert(pairs@.take(pairs@.len() as int) =~= pairs@);
        assert(swapped@ =~= swap_pairs(pairs@));
    }
    let ghost leq = pair_leq_fn();
    proof {
        assert(vstd::relations::total_ordering(leq)) by {
            assert forall|a: (u64, u64), b: (u64, u64), c: (u64, u64)|
                #[trigger] leq(a, b) && #[trigger] leq(b, c) implies leq(a, c) by {}
        }
    }
    let sorted = sort_pairs(swapped);
    proof {
        broadcast use vstd::seq_lib::group_to_multiset_ensures;

        swapped@.lemma_sort_by_ensures(leq);
        assert(vstd::relations::sorted_by(sorted@, leq)) by {
            assert forall|x: int, y: int| 0 <= x < y < sorted@.len() implies leq(
                sorted@[x],
                sorted@[y],
            ) by {
                assert(pair_leq(sorted@[x], sorted@[y]));
            }
        }
        vstd::seq_lib::lemma_sorted_unique(sorted@, swapped@.sort_by(leq), leq);
        assert(sorted@ == swapped@.sort_by(leq));
        assert forall|q: int| 0 <= q < sorted@.len() implies (#[trigger] sorted@[q]).0 >= 1 by {
            assert(sorted@.contains(sorted@[q]));
            assert(sorted@.to_multiset().count(sorted@[q]) > 0);
            assert(swapped@.to_multiset().count(sorted@[q]) > 0);
            assert(swapped@.contains(sorted@[q]));
            let p = choose|p: int| 0 <= p < swapped@.len() && #[trigger] swapped@[p] == sorted@[q];
            assert(swapped@[p] == (pairs@[p].1, pairs@[p].0));
        }
    }
    let sd = dedup_pairs(sorted);
    proof {
        assert forall|q: int| 0 <= q < sd@.len() implies (#[trigger] sd@[q]).0 >= 1 by {
            assert(sd@.contains(sd@[q]));
            assert(sorted@.contains(sd@[q]));
            let p = choose|p: int| 0 <= p < sorted@.len() && #[trigger] sorted@[p] == sd@[q];
        }
    }
    let (onums, obits) = crate::adjacency::encode_adjacency(&sd);
    let m = max_of(&onums);
    let w = width_for(m);
    if !check_enc_ok(onums.len(), w) {
        return Err(LarchError::InsufficientSpace);
    }
    if onums.len() > usize::MAX - 127 {
        return Err(LarchError::InsufficientSpace);
    }
    proof {
        assert forall|q: int| 0 <= q < onums@.len() implies fits_width(
            #[trigger] onums@[q],
            w as int,
        ) by {
            lemma_fits_width_mono(onums@[q], m, w as int);
        }
    }
    let nums_file = encode_logarray(&onums, w, false);
    let bits_file = encode_bitarray(&obits);
    let (blocks, sblocks) = build_bitindex(&obits);
    let ghost gblocks = blocks@;
    let ghost gsblocks = sblocks@;
    if !check_enc_ok(blocks.len(), 12) {
        return Err(LarchError::InsufficientSpace);
    }
    if !check_enc_ok(sblocks.len(), 64) {
        return Err(LarchError::InsufficientSpace);
    }
    proof {
        assert forall|q: int| 0 <= q < blocks@.len() implies fits_width(
            #[trigger] blocks@[q],
            12,
        ) by {}
    }
    let blocks_file = encode_logarray(&blocks, 12, false);
    let sblocks_file = encode_logarray(&sblocks, 64, false);
    proof {
        let bseq = Seq::new(
            word_count(obits@.len() as int) as nat,
            |i: int| block_value(obits@, i),
        );
        let sbseq = Seq::new(
            sblock_count(obits@.len() as int) as nat,
            |j: int| sblock_value(obits@, j),
        );
        assert(gblocks =~= bseq.map_values(|x: int| x as u64));
        assert(gsblocks =~= sbseq.map_values(|x: int| x as u64));
    }
    Ok(
        ObjectIndexFiles {
            nums: nums_file,
            bits: bits_file,
            blocks: blocks_file,
            sblocks: sblocks_file,
        },
    )
}

} // verus!
