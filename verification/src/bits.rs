//! Bit-level addressing of byte buffers.
//!
//! Every packed structure in a layer archive (log arrays, bit arrays, the
//! wavelet bits) uses the same bit order: bit `j` of a buffer lives in byte
//! `j / 8`, and within that byte the most significant bit comes first. This
//! module fixes that convention once, as spec functions over byte sequences,
//! and provides the verified single-bit reads and writes everything else is
//! built from.

use vstd::prelude::*;

verus! {

/// Bit `k` of a byte, counting the most significant bit as bit 0.
pub open spec fn byte_bit(b: u8, k: int) -> bool
    recommends
        0 <= k < 8,
{
    (b >> ((7 - k) as u8)) & 1 == 1
}

/// Bit `j` of a byte buffer, most significant bit of each byte first.
pub open spec fn stream_bit(bytes: Seq<u8>, j: int) -> bool
    recommends
        0 <= j < bytes.len() * 8,
{
    byte_bit(bytes[j / 8], j % 8)
}

/// The unsigned value of a bit sequence read most significant bit first.
pub open spec fn bits_value(s: Seq<bool>) -> nat
    decreases s.len(),
{
    if s.len() == 0 {
        0
    } else {
        2 * bits_value(s.drop_last()) + if s.last() {
            1nat
        } else {
            0nat
        }
    }
}

/// Bit `k` (most significant first) of the `w`-bit encoding of `v`.
pub open spec fn num_bit(v: u64, w: int, k: int) -> bool
    recommends
        0 <= k < w <= 64,
{
    (v >> ((w - 1 - k) as u64)) & 1 == 1
}

/// `v` is representable in `w` bits.
pub open spec fn fits_width(v: u64, w: int) -> bool {
    w >= 64 || v >> (w as u64) == 0
}

/// The first `w` bits (most significant first) of `v` as a sequence.
pub open spec fn num_bits(v: u64, w: int) -> Seq<bool> {
    Seq::new(w as nat, |k: int| num_bit(v, w, k))
}

/// A fresh zero byte has no bit set.
pub proof fn lemma_zero_byte_bits()
    ensures
        forall|k: int| 0 <= k < 8 ==> !byte_bit(0u8, k),
{
    assert forall|k: int| 0 <= k < 8 implies !byte_bit(0u8, k) by {
        let s: u8 = (7 - k) as u8;
        assert((0u8 >> s) & 1 != 1) by (bit_vector);
    }
}

/// Setting one bit of a byte by `or` leaves every other bit alone and makes
/// the chosen bit true.
pub proof fn lemma_or_bit(b: u8, k: u8)
    requires
        k < 8,
    ensures
        byte_bit(b | (128u8 >> k), k as int),
        forall|k2: int| 0 <= k2 < 8 && k2 != k ==> byte_bit(b | (128u8 >> k), k2) == byte_bit(
            b,
            k2,
        ),
{
    let r = b | (128u8 >> k);
    assert((r >> ((7 - k) as u8)) & 1 == 1) by (bit_vector)
        requires
            k < 8,
            r == b | (128u8 >> k),
    ;
    assert forall|k2: int| 0 <= k2 < 8 && k2 != k implies byte_bit(r, k2) == byte_bit(b, k2) by {
        let s: u8 = (7 - k2) as u8;
        assert((r >> s) & 1 == (b >> s) & 1) by (bit_vector)
            requires
                k < 8,
                s < 8,
                s != 7 - k,
                r == b | (128u8 >> k),
        ;
    }
}

/// The value of a bit sequence is bounded by the width it occupies.
pub proof fn lemma_bits_value_bound(s: Seq<bool>)
    ensures
        bits_value(s) < vstd::arithmetic::power2::pow2(s.len()),
    decreases s.len(),
{
    if s.len() == 0 {
        vstd::arithmetic::power2::lemma2_to64();
    } else {
        vstd::arithmetic::power2::lemma_pow2_unfold(s.len());
        lemma_bits_value_bound(s.drop_last());
    }
}

/// A bit sequence of at most 64 bits has a value that fits in a `u64`.
pub proof fn lemma_bits_value_u64(s: Seq<bool>)
    requires
        s.len() <= 64,
    ensures
        bits_value(s) < 0x1_0000_0000_0000_0000,
{
    lemma_bits_value_bound(s);
    vstd::arithmetic::power2::lemma_pow2_strictly_increases(s.len(), 65);
    vstd::arithmetic::power2::lemma2_to64_rest();
    if s.len() < 64 {
        vstd::arithmetic::power2::lemma_pow2_strictly_increases(s.len(), 64);
    }
}

/// Reading back the `w`-bit encoding of `v` yields `v` again.
pub proof fn lemma_num_bits_value(v: u64, w: int)
    requires
        0 <= w <= 64,
        fits_width(v, w),
    ensures
        bits_value(num_bits(v, w)) == v,
    decreases w,
{
    let s = num_bits(v, w);
    if w == 0 {
        assert(v >> 0u64 == v) by (bit_vector);
    } else {
        let v2: u64 = v >> 1;
        let s2 = num_bits(v2, w - 1);
        assert(s.drop_last() =~= s2) by {
            assert forall|k: int| 0 <= k < w - 1 implies s[k] == s2[k] by {
                let a: u64 = (w - 1 - k) as u64;
                assert((v >> a) & 1 == ((v >> 1u64) >> ((a - 1) as u64)) & 1) by (bit_vector)
                    requires
                        0 < a < 64,
                ;
            }
        }
        let w64: u64 = w as u64;
        let wm1: u64 = (w - 1) as u64;
        assert(fits_width(v2, w - 1)) by {
            if w == 64 {
                assert((v >> 1u64) >> 63u64 == 0) by (bit_vector);
            } else {
                assert((v >> 1u64) >> wm1 == 0) by (bit_vector)
                    requires
                        v >> w64 == 0,
                        wm1 + 1 == w64,
                        1 <= w64 < 64,
                ;
            }
        }
        lemma_num_bits_value(v2, w - 1);
        assert(bits_value(s) == 2 * bits_value(s2) + (if s.last() {
            1nat
        } else {
            0nat
        }));
        assert(s.last() == ((v >> 0u64) & 1 == 1));
        if s.last() {
            assert(2 * v2 + 1 == v) by (bit_vector)
                requires
                    v2 == v >> 1u64,
                    (v >> 0u64) & 1 == 1,
            ;
        } else {
            assert(2 * v2 == v) by (bit_vector)
                requires
                    v2 == v >> 1u64,
                    (v >> 0u64) & 1 != 1,
            ;
        }
    }
}

/// The smallest width from `w` upward that holds `v`, capped at 64.
pub open spec fn width_from(v: u64, w: int) -> int
    decreases 64 - w,
{
    if w >= 64 {
        64
    } else if v >> (w as u64) == 0 {
        w
    } else {
        width_from(v, w + 1)
    }
}

/// The bit width the builders choose for a value: the position of its most
/// significant set bit, at least 1.
pub open spec fn spec_width(v: u64) -> int {
    width_from(v, 1)
}

/// The chosen width holds the value, and any smaller one.
pub proof fn lemma_width_from_fits(v: u64, w: int)
    requires
        1 <= w <= 64,
    ensures
        w <= width_from(v, w) <= 64,
        fits_width(v, width_from(v, w)),
    decreases 64 - w,
{
    if w < 64 && v >> (w as u64) != 0 {
        lemma_width_from_fits(v, w + 1);
    }
}

/// A smaller value fits wherever a larger one does.
pub proof fn lemma_fits_width_mono(a: u64, b: u64, w: int)
    requires
        a <= b,
        fits_width(b, w),
        0 <= w,
    ensures
        fits_width(a, w),
{
    if w < 64 {
        let w64: u64 = w as u64;
        assert(a >> w64 == 0) by (bit_vector)
            requires
                a <= b,
                b >> w64 == 0,
        ;
    }
}

/// Compute the builders' width for a value.
pub fn width_for(v: u64) -> (r: u8)
    ensures
        r as int == spec_width(v),
        1 <= r <= 64,
        fits_width(v, r as int),
{
    let mut w: u8 = 1;
    while w < 64 && (v >> w) != 0
        invariant
            1 <= w <= 64,
            spec_width(v) == width_from(v, w as int),
        decreases 64 - w,
    {
        w = w + 1;
    }
    proof {
        lemma_width_from_fits(v, w as int);
    }
    w
}

/// Two bytes that agree on all eight bits are equal.
pub proof fn lemma_byte_from_bits(a: u8, b: u8)
    requires
        forall|k: int| 0 <= k < 8 ==> byte_bit(a, k) == byte_bit(b, k),
    ensures
        a == b,
{
    assert(byte_bit(a, 0) == byte_bit(b, 0) && byte_bit(a, 1) == byte_bit(b, 1) && byte_bit(a, 2)
        == byte_bit(b, 2) && byte_bit(a, 3) == byte_bit(b, 3) && byte_bit(a, 4) == byte_bit(b, 4)
        && byte_bit(a, 5) == byte_bit(b, 5) && byte_bit(a, 6) == byte_bit(b, 6) && byte_bit(a, 7)
        == byte_bit(b, 7));
    assert(a == b) by (bit_vector)
        requires
            ((a >> 7u8) & 1 == 1) == ((b >> 7u8) & 1 == 1),
            ((a >> 6u8) & 1 == 1) == ((b >> 6u8) & 1 == 1),
            ((a >> 5u8) & 1 == 1) == ((b >> 5u8) & 1 == 1),
            ((a >> 4u8) & 1 == 1) == ((b >> 4u8) & 1 == 1),
            ((a >> 3u8) & 1 == 1) == ((b >> 3u8) & 1 == 1),
            ((a >> 2u8) & 1 == 1) == ((b >> 2u8) & 1 == 1),
            ((a >> 1u8) & 1 == 1) == ((b >> 1u8) & 1 == 1),
            ((a >> 0u8) & 1 == 1) == ((b >> 0u8) & 1 == 1),
    ;
}

/// Two buffers of the same length that agree on every bit are equal.
pub proof fn lemma_bytes_from_bits(s1: Seq<u8>, s2: Seq<u8>)
    requires
        s1.len() == s2.len(),
        forall|j: int| 0 <= j < s1.len() * 8 ==> stream_bit(s1, j) == stream_bit(s2, j),
    ensures
        s1 =~= s2,
{
    assert forall|ix: int| 0 <= ix < s1.len() implies s1[ix] == s2[ix] by {
        assert forall|k: int| 0 <= k < 8 implies byte_bit(s1[ix], k) == byte_bit(s2[ix], k) by {
            let j = 8 * ix + k;
            assert(j / 8 == ix && j % 8 == k) by (nonlinear_arith)
                requires
                    0 <= k < 8,
                    j == 8 * ix + k,
                    ix >= 0,
            ;
            assert(stream_bit(s1, j) == stream_bit(s2, j));
        }
        lemma_byte_from_bits(s1[ix], s2[ix]);
    }
}

/// Read bit `j` of a byte buffer.
pub fn get_stream_bit(bytes: &Vec<u8>, j: u64) -> (r: bool)
    requires
        j < bytes@.len() * 8,
    ensures
        r == stream_bit(bytes@, j as int),
{
    let n = bytes.len();
    proof {
        assert(j / 8 < bytes@.len()) by (nonlinear_arith)
            requires
                j < bytes@.len() * 8,
        ;
    }
    let b: u8 = bytes[(j / 8) as usize];
    let k: u8 = (j % 8) as u8;
    proof {
        assert(j as int % 8 == (j % 8) as int);
        assert(j as int / 8 == (j / 8) as int);
    }
    (b >> (7 - k)) & 1 == 1
}

/// Append one bit to a buffer whose tail byte may be partially filled.
///
/// The buffer holds `n` bits so far: all bits past `n` in the final byte are
/// still zero, and bit `n` is the next to be written.
pub fn push_stream_bit(bytes: &mut Vec<u8>, n: usize, bit: bool)
    requires
        old(bytes)@.len() == (n + 7) / 8,
        n < usize::MAX - 8,
        forall|j: int| n <= j < old(bytes)@.len() * 8 ==> !stream_bit(old(bytes)@, j),
    ensures
        final(bytes)@.len() == (n + 1 + 7) / 8,
        forall|j: int|
            0 <= j < n ==> stream_bit(final(bytes)@, j) == stream_bit(old(bytes)@, j),
        stream_bit(final(bytes)@, n as int) == bit,
        forall|j: int| n + 1 <= j < final(bytes)@.len() * 8 ==> !stream_bit(final(bytes)@, j),
{
    let ghost pre = bytes@;
    if n % 8 == 0 {
        bytes.push(0u8);
        proof {
            lemma_zero_byte_bits();
            assert(bytes@.len() == (n + 1 + 7) / 8);
            assert forall|j: int| 0 <= j < n implies stream_bit(bytes@, j) == stream_bit(pre, j) by {
                assert(j / 8 < pre.len());
                assert(bytes@[j / 8] == pre[j / 8]);
            }
        }
    }
    let ghost mid = bytes@;
    if bit {
        let ix = n / 8;
        let k: u8 = (n % 8) as u8;
        let b = bytes[ix];
        bytes.set(ix, b | (128u8 >> k));
        proof {
            lemma_or_bit(b, k);
            assert forall|j: int| 0 <= j < n implies stream_bit(bytes@, j) == stream_bit(mid, j) by {
                if j / 8 == ix {
                    assert(j % 8 != k as int);
                }
            }
            assert forall|j: int| n + 1 <= j < bytes@.len() * 8 implies !stream_bit(bytes@, j) by {
                if j / 8 == ix {
                    assert(j % 8 != k as int);
                    assert(!stream_bit(mid, j));
                } else {
                    assert(!stream_bit(mid, j));
                }
            }
        }
    } else {
        proof {
            assert(stream_bit(bytes@, n as int) == false) by {
                if n % 8 == 0 {
                    lemma_zero_byte_bits();
                } else {
                    assert(!stream_bit(mid, n as int));
                }
            }
        }
    }
}

} // verus!
