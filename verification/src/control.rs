//! The control word: eight trailing (or, for the directory, leading) bytes
//! that self-describe a dense numeric array as `(element count, bit width)`.
//!
//! Wire layout, fixed for good: bytes 0..4 hold the low 32 bits of the count
//! big-endian; byte 4 holds the bit width; bytes 5..8 hold bits 32..56 of the
//! count big-endian. Counts are therefore limited to `2^56 - 1` and widths to
//! 64.

use vstd::prelude::*;

use crate::error::LarchError;

verus! {

/// The largest element count a control word can carry.
pub open spec fn max_control_count() -> u64 {
    0xFF_FFFF_FFFF_FFFF
}

/// The eight bytes of the control word for `(count, width)`.
pub open spec fn control_word_bytes(count: u64, width: u8) -> Seq<u8> {
    seq![
        ((count >> 24) & 0xFF) as u8,
        ((count >> 16) & 0xFF) as u8,
        ((count >> 8) & 0xFF) as u8,
        (count & 0xFF) as u8,
        width,
        ((count >> 48) & 0xFF) as u8,
        ((count >> 40) & 0xFF) as u8,
        ((count >> 32) & 0xFF) as u8,
    ]
}

/// The count a well-formed eight-byte control word declares.
pub open spec fn control_count(s: Seq<u8>) -> u64
    recommends
        s.len() == 8,
{
    (((s[0] as u64) << 24) | ((s[1] as u64) << 16) | ((s[2] as u64) << 8) | (s[3] as u64) | ((
    s[5] as u64) << 48) | ((s[6] as u64) << 40) | ((s[7] as u64) << 32)) as u64
}

/// The bit width an eight-byte control word declares.
pub open spec fn control_width(s: Seq<u8>) -> u8
    recommends
        s.len() == 8,
{
    s[4]
}

/// Encode `(count, width)` as the eight bytes of a control word.
pub fn encode_control_word(count: u64, width: u8) -> (r: Vec<u8>)
    requires
        count <= max_control_count(),
        width <= 64,
    ensures
        r@ == control_word_bytes(count, width),
        r@.len() == 8,
{
    let r: Vec<u8> = vec![
        ((count >> 24) & 0xFF) as u8,
        ((count >> 16) & 0xFF) as u8,
        ((count >> 8) & 0xFF) as u8,
        (count & 0xFF) as u8,
        width,
        ((count >> 48) & 0xFF) as u8,
        ((count >> 40) & 0xFF) as u8,
        ((count >> 32) & 0xFF) as u8,
    ];
    proof {
        assert(r@ =~= control_word_bytes(count, width));
    }
    r
}

/// Decode a control word from a slice of bytes.
///
/// Succeeds exactly on slices of exactly eight bytes whose declared width is
/// at most 64, and then returns the declared `(count, width)`.
pub fn decode_control_word(bytes: &Vec<u8>) -> (r: Result<(u64, u8), LarchError>)
    ensures
        r is Ok <==> bytes@.len() == 8 && control_width(bytes@) <= 64,
        r is Ok ==> r->Ok_0.0 == control_count(bytes@) && r->Ok_0.1 == control_width(bytes@),
        r is Err ==> r->Err_0 == LarchError::MalformedControlWord,
{
    if bytes.len() != 8 {
        return Err(LarchError::MalformedControlWord);
    }
    let width = bytes[4];
    if width > 64 {
        return Err(LarchError::MalformedControlWord);
    }
    let count: u64 = ((bytes[0] as u64) << 24) | ((bytes[1] as u64) << 16) | ((bytes[2] as u64)
        << 8) | (bytes[3] as u64) | ((bytes[5] as u64) << 48) | ((bytes[6] as u64) << 40) | ((
    bytes[7] as u64) << 32);
    Ok((count, width))
}

/// Decode a control word that sits at position `at` inside a larger buffer.
pub fn decode_control_word_at(bytes: &Vec<u8>, at: usize) -> (r: (u64, u8))
    requires
        at + 8 <= bytes@.len(),
    ensures
        r.0 == control_count(bytes@.subrange(at as int, at + 8)),
        r.1 == control_width(bytes@.subrange(at as int, at + 8)),
        r.0 <= max_control_count(),
{
    let n = bytes.len();
    assert(at + 8 <= n);
    let c0 = bytes[at];
    let c1 = bytes[at + 1];
    let c2 = bytes[at + 2];
    let c3 = bytes[at + 3];
    let c5 = bytes[at + 5];
    let c6 = bytes[at + 6];
    let c7 = bytes[at + 7];
    let count: u64 = ((c0 as u64) << 24) | ((c1 as u64) << 16) | ((c2 as u64) << 8) | (c3 as u64)
        | ((c5 as u64) << 48) | ((c6 as u64) << 40) | ((c7 as u64) << 32);
    let width = bytes[at + 4];
    proof {
        assert(count <= 0xFF_FFFF_FFFF_FFFFu64) by (bit_vector)
            requires
                count == ((c0 as u64) << 24) | ((c1 as u64) << 16) | ((c2 as u64) << 8) | (
                c3 as u64) | ((c5 as u64) << 48) | ((c6 as u64) << 40) | ((c7 as u64) << 32),
        ;
    }
    proof {
        let s = bytes@.subrange(at as int, at + 8);
        assert(s[0] == bytes@[at as int] && s[1] == bytes@[at + 1] && s[2] == bytes@[at + 2] && s[3]
            == bytes@[at + 3] && s[4] == bytes@[at + 4] && s[5] == bytes@[at + 5] && s[6] == bytes@[
        at + 6] && s[7] == bytes@[at + 7]);
    }
    (count, width)
}

/// Round trip: decoding the encoding of `(count, width)` recovers both, for
/// every count the control word can carry and every width up to 64.
pub proof fn lemma_control_word_round_trip(count: u64, width: u8)
    requires
        count <= max_control_count(),
        width <= 64,
    ensures
        control_count(control_word_bytes(count, width)) == count,
        control_width(control_word_bytes(count, width)) == width,
{
    let s = control_word_bytes(count, width);
    let b0: u64 = (count >> 24) & 0xFF;
    let b1: u64 = (count >> 16) & 0xFF;
    let b2: u64 = (count >> 8) & 0xFF;
    let b3: u64 = count & 0xFF;
    let b5: u64 = (count >> 48) & 0xFF;
    let b6: u64 = (count >> 40) & 0xFF;
    let b7: u64 = (count >> 32) & 0xFF;
    assert(s[0] == b0 as u8 && s[1] == b1 as u8 && s[2] == b2 as u8 && s[3] == b3 as u8 && s[5]
        == b5 as u8 && s[6] == b6 as u8 && s[7] == b7 as u8);
    assert(b0 < 256 && b1 < 256 && b2 < 256 && b3 < 256 && b5 < 256 && b6 < 256 && b7 < 256)
        by (bit_vector)
        requires
            b0 == (count >> 24) & 0xFF,
            b1 == (count >> 16) & 0xFF,
            b2 == (count >> 8) & 0xFF,
            b3 == count & 0xFF,
            b5 == (count >> 48) & 0xFF,
            b6 == (count >> 40) & 0xFF,
            b7 == (count >> 32) & 0xFF,
    ;
    assert(((b0 as u8) as u64) == b0 && ((b1 as u8) as u64) == b1 && ((b2 as u8) as u64) == b2 && ((
    b3 as u8) as u64) == b3 && ((b5 as u8) as u64) == b5 && ((b6 as u8) as u64) == b6 && ((
    b7 as u8) as u64) == b7) by (bit_vector)
        requires
            b0 < 256 && b1 < 256 && b2 < 256 && b3 < 256 && b5 < 256 && b6 < 256 && b7 < 256,
    ;
    assert(((b0 << 24) | (b1 << 16) | (b2 << 8) | b3 | (b5 << 48) | (b6 << 40) | (b7 << 32)) as u64
        == count) by (bit_vector)
        requires
            count <= 0xFF_FFFF_FFFF_FFFFu64,
            b0 == (count >> 24) & 0xFF,
            b1 == (count >> 16) & 0xFF,
            b2 == (count >> 8) & 0xFF,
            b3 == count & 0xFF,
            b5 == (count >> 48) & 0xFF,
            b6 == (count >> 40) & 0xFF,
            b7 == (count >> 32) & 0xFF,
    ;
}

} // verus!
