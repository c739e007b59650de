//! The predicate index builder: a wavelet-style rank/select structure over
//! a numeric sequence, stored as `bits`, `blocks` and `sblocks` files.
//!
//! The bits concatenate, layer by layer and fragment by fragment, one bit
//! per element: at layer `d` the elements are grouped by their top `d` bits
//! in value order (sequence order within a group), and each contributes bit
//! `d` of its width-bit encoding. The blocks and superblocks are the rank
//! index of those bits. The output is a pure function of the input bytes,
//! so a rebuild over the same input is byte-identical.

use vstd::prelude::*;

use crate::bitarray::{encode_bitarray, encodes_bitarray_file};
use crate::bitindex::{block_value, build_bitindex, sblock_count, sblock_value, word_count};
use crate::bits::{fits_width, num_bit};
use crate::error::LarchError;
use crate::logarray::{encode_logarray, encodes_logarray_file, parse_ok, LogArray};
use crate::object_index::{enc_ok, check_enc_ok};

verus! {

/// The fragment an element belongs to at layer `d`: its top `d` bits.
pub open spec fn frag_key(v: u64, width: int, d: int) -> u64 {
    if width - d >= 64 {
        0u64
    } else {
        v >> ((width - d) as u64)
    }
}

/// The bits one fragment contributes: for each element of the fragment, in
/// sequence order, bit `d` of its width-bit encoding.
pub open spec fn wav_frag(s: Seq<u64>, width: int, d: int, j: u64) -> Seq<bool>
    decreases s.len(),
{
    if s.len() == 0 {
        Seq::empty()
    } else {
        wav_frag(s.drop_last(), width, d, j) + if frag_key(s.last(), width, d) == j {
            seq![num_bit(s.last(), width, d)]
        } else {
            Seq::empty()
        }
    }
}

/// The bits of layer `d`, fragments `0 .. jmax` concatenated.
pub open spec fn wav_layer(s: Seq<u64>, width: int, d: int, jmax: int) -> Seq<bool>
    decreases jmax,
{
    if jmax <= 0 {
        Seq::empty()
    } else {
        wav_layer(s, width, d, jmax - 1) + wav_frag(s, width, d, (jmax - 1) as u64)
    }
}

/// The bits of layers `0 .. dmax` concatenated.
pub open spec fn wav_bits_upto(s: Seq<u64>, width: int, dmax: int) -> Seq<bool>
    decreases dmax,
{
    if dmax <= 0 {
        Seq::empty()
    } else {
        wav_bits_upto(s, width, dmax - 1) + wav_layer(
            s,
            width,
            dmax - 1,
            (1u64 << ((dmax - 1) as u64)) as int,
        )
    }
}

/// All the wavelet bits of a sequence at the given width.
pub open spec fn wav_bits(s: Seq<u64>, width: int) -> Seq<bool> {
    wav_bits_upto(s, width, width)
}

/// Build the wavelet bits of a value sequence.
pub fn build_wavelet_bits(vals: &Vec<u64>, width: u8) -> (r: Vec<bool>)
    requires
        width <= 64,
    ensures
        r@ == wav_bits(vals@, width as int),
{
    let mut bits: Vec<bool> = Vec::new();
    let mut d: u8 = 0;
    while d < width
        invariant
            width <= 64,
            d <= width,
            bits@ == wav_bits_upto(vals@, width as int, d as int),
        decreases width - d,
    {
        let limit: u64 = 1u64 << (d as u64);
        let mut j: u64 = 0;
        while j < limit
            invariant
                width <= 64,
                d < width,
                limit == 1u64 << (d as u64),
                j <= limit,
                bits@ == wav_bits_upto(vals@, width as int, d as int) + wav_layer(
                    vals@,
                    width as int,
                    d as int,
                    j as int,
                ),
            decreases limit - j,
        {
            let mut i: usize = 0;
            let ghost base = bits@;
            while i < vals.len()
                invariant
                    width <= 64,
                    d < width,
                    i <= vals@.len(),
                    bits@ == base + wav_frag(vals@.take(i as int), width as int, d as int, j),
                decreases vals@.len() - i,
            {
                let v = vals[i];
                let shift: u8 = width - d;
                let key: u64 = if shift >= 64 {
                    0
                } else {
                    v >> (shift as u64)
                };
                proof {
                    assert(vals@.take(i + 1).drop_last() =~= vals@.take(i as int));
                    assert(vals@.take(i + 1).last() == v);
                }
                if key == j {
                    let b = (v >> ((width - 1 - d) as u64)) & 1 == 1;
                    bits.push(b);
                }
                i = i + 1;
            }
            proof {
                assert(vals@.take(vals@.len() as int) =~= vals@);
                assert(wav_layer(vals@, width as int, d as int, j + 1) == wav_layer(
                    vals@,
                    width as int,
                    d as int,
                    j as int,
                ) + wav_frag(vals@, width as int, d as int, j));
            }
            j = j + 1;
        }
        proof {
            assert(wav_bits_upto(vals@, width as int, d as int + 1) == wav_bits_upto(
                vals@,
                width as int,
                d as int,
            ) + wav_layer(vals@, width as int, d as int, (1u64 << (d as u64)) as int));
        }
        d = d + 1;
    }
    bits
}

/// Occurrences of `p` among the first `n` elements.
pub open spec fn count_eq(s: Seq<u64>, p: u64, n: int) -> int
    decreases n,
{
    if n <= 0 || n > s.len() {
        0
    } else {
        count_eq(s, p, n - 1) + if s[n - 1] == p {
            1int
        } else {
            0int
        }
    }
}

/// The count never decreases as the prefix grows.
pub proof fn lemma_rank_monotonic(s: Seq<u64>, p: u64, a: int, b: int)
    requires
        0 <= a <= b <= s.len(),
    ensures
        count_eq(s, p, a) <= count_eq(s, p, b),
    decreases b - a,
{
    if a < b {
        lemma_rank_monotonic(s, p, a, b - 1);
    }
}

/// How often `p` occurs among the first `pos` elements of the sequence the
/// index was built from. Fails past the end of the sequence.
pub fn rank(nums: &LogArray, p: u64, pos: u64) -> (r: Result<u64, LarchError>)
    requires
        nums.wf(),
    ensures
        r is Ok <==> pos <= nums@.len(),
        r is Ok ==> r->Ok_0 == count_eq(nums@, p, pos as int),
        r is Err ==> r->Err_0 == LarchError::IndexOutOfRange,
{
    let len = nums.len();
    if pos > len {
        return Err(LarchError::IndexOutOfRange);
    }
    let mut c: u64 = 0;
    let mut i: u64 = 0;
    while i < pos
        invariant
            nums.wf(),
            pos <= nums@.len(),
            i <= pos,
            c == count_eq(nums@, p, i as int),
            c <= i,
        decreases pos - i,
    {
        let v = match nums.get(i) {
            Ok(v) => v,
            Err(_) => {
                proof {
                    assert(false);
                }
                0
            },
        };
        if v == p {
            c = c + 1;
        }
        i = i + 1;
    }
    Ok(c)
}

/// The three output files of a predicate index build.
pub struct PredicateIndexFiles {
    /// The wavelet bit array.
    pub bits: Vec<u8>,
    /// The rank index blocks, a log array of width 12.
    pub blocks: Vec<u8>,
    /// The rank index superblocks, a log array of width 64.
    pub sblocks: Vec<u8>,
}

/// Build the predicate index from a `nums` log array file (control word
/// last).
///
/// Succeeds exactly when the input parses and the output stays within
/// machine and format limits; the outputs are then the exact encodings of
/// the wavelet bits of the decoded sequence, and of their rank index.
pub fn build_predicate_index(s_p_nums_file: &Vec<u8>) -> (r: Result<
    PredicateIndexFiles,
    LarchError,
>)
    ensures
        r is Ok ==> {
            let nums_in = Seq::new(
                crate::control::control_count(
                    crate::logarray::control_slice(s_p_nums_file@, false),
                ) as nat,
                |i: int|
                    crate::logarray::element_value(
                        crate::logarray::payload_slice(s_p_nums_file@, false),
                        crate::control::control_width(
                            crate::logarray::control_slice(s_p_nums_file@, false),
                        ) as int,
                        i,
                    ) as u64,
            );
            let width = crate::control::control_width(
                crate::logarray::control_slice(s_p_nums_file@, false),
            );
            let wb = wav_bits(nums_in, width as int);
            let files = r->Ok_0;
            &&& parse_ok(s_p_nums_file@, false)
            &&& encodes_bitarray_file(files.bits@, wb)
            &&& encodes_logarray_file(
                files.blocks@,
                Seq::new(
                    word_count(wb.len() as int) as nat,
                    |i: int| block_value(wb, i),
                ).map_values(|x: int| x as u64),
                12,
                false,
            )
            &&& encodes_logarray_file(
                files.sblocks@,
                Seq::new(
                    sblock_count(wb.len() as int) as nat,
                    |j: int| sblock_value(wb, j),
                ).map_values(|x: int| x as u64),
                64,
                false,
            )
        },
        r is Err && !parse_ok(s_p_nums_file@, false) ==> r->Err_0 == crate::logarray::parse_err(
            s_p_nums_file@,
            false,
        ),
        ({
            let nums_in = Seq::new(
                crate::control::control_count(
                    crate::logarray::control_slice(s_p_nums_file@, false),
                ) as nat,
                |i: int|
                    crate::logarray::element_value(
                        crate::logarray::payload_slice(s_p_nums_file@, false),
                        crate::control::control_width(
                            crate::logarray::control_slice(s_p_nums_file@, false),
                        ) as int,
                        i,
                    ) as u64,
            );
            let wb = wav_bits(
                nums_in,
                crate::control::control_width(
                    crate::logarray::control_slice(s_p_nums_file@, false),
                ) as int,
            );
            &&& parse_ok(s_p_nums_file@, false)
            &&& wb.len() <= usize::MAX - 127
            &&& enc_ok(word_count(wb.len() as int), 12)
            &&& enc_ok(sblock_count(wb.len() as int), 64)
        }) ==> r is Ok,
{
    let nums = match LogArray::parse(s_p_nums_file, false) {
        Ok((la, _)) => la,
        Err(e) => {
            return Err(e);
        },
    };
    let vals = nums.to_vec();
    let wbits = build_wavelet_bits(&vals, nums.width());
    if wbits.len() > usize::MAX - 127 {
        return Err(LarchError::InsufficientSpace);
    }
    let bits_file = encode_bitarray(&wbits);
    let (blocks, sblocks) = build_bitindex(&wbits);
    let ghost gblocks = blocks@;
    let ghost gsblocks = sblocks@;
    if !check_enc_ok(blocks.len(), 12) {
        return Err(LarchError::InsufficientSpace);
    }
    if !check_enc_ok(sblocks.len(), 64) {
        return Err(LarchError::InsufficientSpace);
    }
    proof {
        assert forall|q: int| 0 <= q < blocks@.len() implies fits_width(
            #[trigger] blocks@[q],
            12,
        ) by {}
        let wb = wav_bits(vals@, nums.width as int);
        let bseq = Seq::new(word_count(wb.len() as int) as nat, |i: int| block_value(wb, i));
        let sbseq = Seq::new(sblock_count(wb.len() as int) as nat, |j: int| sblock_value(wb, j));
        assert(gblocks =~= bseq.map_values(|x: int| x as u64));
        assert(gsblocks =~= sbseq.map_values(|x: int| x as u64));
    }
    let blocks_file = encode_logarray(&blocks, 12, false);
    let sblocks_file = encode_logarray(&sblocks, 64, false);
    Ok(PredicateIndexFiles { bits: bits_file, blocks: blocks_file, sblocks: sblocks_file })
}

/// Idempotence: any two builds over the same input bytes produce the same
/// three files, byte for byte.
pub proof fn lemma_predicate_index_deterministic(
    a: PredicateIndexFiles,
    b: PredicateIndexFiles,
    wb: Seq<bool>,
)
    requires
        encodes_bitarray_file(a.bits@, wb),
        encodes_bitarray_file(b.bits@, wb),
        word_count(wb.len() as int) <= crate::control::max_control_count(),
        sblock_count(wb.len() as int) <= crate::control::max_control_count(),
        encodes_logarray_file(
            a.blocks@,
            Seq::new(word_count(wb.len() as int) as nat, |i: int| block_value(wb, i)).map_values(
                |x: int| x as u64,
            ),
            12,
            false,
        ),
        encodes_logarray_file(
            b.blocks@,
            Seq::new(word_count(wb.len() as int) as nat, |i: int| block_value(wb, i)).map_values(
                |x: int| x as u64,
            ),
            12,
            false,
        ),
        encodes_logarray_file(
            a.sblocks@,
            Seq::new(sblock_count(wb.len() as int) as nat, |j: int| sblock_value(wb, j)).map_values(
                |x: int| x as u64,
            ),
            64,
            false,
        ),
        encodes_logarray_file(
            b.sblocks@,
            Seq::new(sblock_count(wb.len() as int) as nat, |j: int| sblock_value(wb, j)).map_values(
                |x: int| x as u64,
            ),
            64,
            false,
        ),
    ensures
        a.bits@ == b.bits@,
        a.blocks@ == b.blocks@,
        a.sblocks@ == b.sblocks@,
{
    crate::bitarray::lemma_bitarray_file_deterministic(a.bits@, b.bits@, wb);
    crate::logarray::lemma_logarray_file_deterministic(
        a.blocks@,
        b.blocks@,
        Seq::new(word_count(wb.len() as int) as nat, |i: int| block_value(wb, i)).map_values(
            |x: int| x as u64,
        ),
        12,
        false,
    );
    crate::logarray::lemma_logarray_file_deterministic(
        a.sblocks@,
        b.sblocks@,
        Seq::new(sblock_count(wb.len() as int) as nat, |j: int| sblock_value(wb, j)).map_values(
            |x: int| x as u64,
        ),
        64,
        false,
    );
}

} // verus!
