//! The log array: a packed array of fixed-width unsigned integers with its
//! control word at either the end (the default) or the start of the buffer.
//!
//! Wire contract, fixed once: the value at logical index `i` occupies bits
//! `[i * width, (i + 1) * width)` of the payload, most significant bit first
//! within each byte; the payload is padded with zero bits to a whole number
//! of eight-byte words.

use vstd::prelude::*;

use crate::bits::{
    bits_value, fits_width, get_stream_bit, lemma_bits_value_u64, lemma_bytes_from_bits,
    lemma_num_bits_value, lemma_zero_byte_bits, num_bit, num_bits, push_stream_bit, stream_bit,
};
use crate::control::{
    control_count, control_width, control_word_bytes, decode_control_word_at, encode_control_word,
    max_control_count,
};
use crate::error::LarchError;

verus! {

/// Number of payload bytes a log array of `len` elements of `width` bits
/// occupies: its bits rounded up to whole 64-bit words.
pub open spec fn payload_len(len: int, width: int) -> int {
    ((len * width + 63) / 64) * 8
}

/// The bits of element `i` within a payload.
pub open spec fn element_bits(data: Seq<u8>, width: int, i: int) -> Seq<bool> {
    Seq::new(width as nat, |k: int| stream_bit(data, i * width + k))
}

/// The value of element `i` within a payload.
pub open spec fn element_value(data: Seq<u8>, width: int, i: int) -> nat {
    bits_value(element_bits(data, width, i))
}

/// The payload holds at least `len * width` bits.
pub proof fn lemma_payload_len_bits(len: int, width: int)
    requires
        len >= 0,
        width >= 0,
    ensures
        payload_len(len, width) * 8 >= len * width,
        payload_len(len, width) >= 0,
        payload_len(len, width) % 8 == 0,
{
    let b = len * width;
    vstd::arithmetic::mul::lemma_mul_nonnegative(len, width);
    vstd::arithmetic::div_mod::lemma_fundamental_div_mod(b + 63, 64);
    assert(((b + 63) / 64) * 8 * 8 == ((b + 63) / 64) * 64) by (nonlinear_arith);
    assert(((b + 63) / 64) * 8 % 8 == 0) by (nonlinear_arith);
}

/// An in-memory log array: the payload bytes plus the decoded control word.
pub struct LogArray {
    /// The payload bytes, a whole number of eight-byte words.
    pub data: Vec<u8>,
    /// Number of elements; trusted only when `wf()` holds.
    pub len: u64,
    /// Bit width of each element; trusted only when `wf()` holds.
    pub width: u8,
}

impl View for LogArray {
    type V = Seq<u64>;

    open spec fn view(&self) -> Seq<u64> {
        Seq::new(self.len as nat, |i: int| element_value(self.data@, self.width as int, i) as u64)
    }
}

impl LogArray {
    /// The structural invariant every parsed log array satisfies.
    pub open spec fn wf(&self) -> bool {
        &&& self.width <= 64
        &&& self.len <= max_control_count()
        &&& self.data@.len() == payload_len(self.len as int, self.width as int)
    }

    /// The payload bytes, as the wire holds them.
    pub open spec fn spec_data(&self) -> Seq<u8> {
        self.data@
    }

    /// Number of elements.
    pub fn len(&self) -> (r: u64)
        ensures
            r == self.len,
            r == self@.len(),
    {
        self.len
    }

    /// Bit width of each element.
    pub fn width(&self) -> (r: u8)
        ensures
            r == self.width,
    {
        self.width
    }

    /// Random access: the element at `index`, or `IndexOutOfRange` at or past
    /// the length.
    pub fn get(&self, index: u64) -> (r: Result<u64, LarchError>)
        requires
            self.wf(),
        ensures
            r is Ok <==> index < self@.len(),
            r is Ok ==> r->Ok_0 == self@[index as int],
            r is Err ==> r->Err_0 == LarchError::IndexOutOfRange,
    {
        if index >= self.len {
            return Err(LarchError::IndexOutOfRange);
        }
        let w = self.width as u64;
        let ghost wi = self.width as int;
        let ghost ii = index as int;
        let ghost ebits = element_bits(self.data@, wi, ii);
        proof {
            lemma_payload_len_bits(self.len as int, wi);
            vstd::arithmetic::mul::lemma_mul_inequality(ii + 1, self.len as int, wi);
            assert((ii + 1) * wi == ii * wi + wi) by (nonlinear_arith);
            assert(ii * wi + wi <= 0x4000_0000_0000_0000) by (nonlinear_arith)
                requires
                    0 <= ii < 0x100_0000_0000_0000,
                    0 <= wi <= 64,
            ;
            assert(0u64 >> 0u64 == 0) by (bit_vector);
        }
        let mut acc: u64 = 0;
        let mut k: u64 = 0;
        while k < w
            invariant
                self.wf(),
                w == self.width,
                wi == w,
                ii == index,
                index < self.len,
                k <= w,
                ebits == element_bits(self.data@, wi, ii),
                ii * wi + wi <= self.data@.len() * 8,
                ii * wi + wi <= 0x4000_0000_0000_0000,
                acc == bits_value(ebits.take(k as int)),
                acc >> k == 0,
            decreases w - k,
        {
            proof {
                vstd::arithmetic::mul::lemma_mul_nonnegative(ii, wi);
            }
            let j64: u64 = index * (self.width as u64) + k;
            let bit = get_stream_bit(&self.data, j64);
            proof {
                let pre = ebits.take(k as int);
                let post = ebits.take(k as int + 1);
                assert(post.drop_last() =~= pre);
                assert(post.last() == stream_bit(self.data@, ii * wi + k));
                assert(acc <= 0x7FFF_FFFF_FFFF_FFFF) by (bit_vector)
                    requires
                        acc >> k == 0,
                        k < 64,
                ;
            }
            let b: u64 = if bit {
                1
            } else {
                0
            };
            let acc2: u64 = acc * 2 + b;
            proof {
                assert(acc2 >> (k + 1) == 0) by (bit_vector)
                    requires
                        acc >> k == 0,
                        k < 64,
                        b <= 1,
                        acc <= 0x7FFF_FFFF_FFFF_FFFF,
                        acc2 == acc * 2 + b,
                ;
            }
            acc = acc2;
            k = k + 1;
        }
        proof {
            assert(ebits.take(wi) =~= ebits);
            lemma_bits_value_u64(ebits);
        }
        Ok(acc)
    }

    /// Decode every element into a plain vector.
    pub fn to_vec(&self) -> (r: Vec<u64>)
        requires
            self.wf(),
        ensures
            r@ == self@,
    {
        let len = self.len;
        let mut r: Vec<u64> = Vec::new();
        let mut i: u64 = 0;
        while i < len
            invariant
                self.wf(),
                len == self.len,
                i <= len,
                r@ == self@.take(i as int),
            decreases len - i,
        {
            let v = match self.get(i) {
                Ok(v) => v,
                Err(_) => {
                    proof {
                        assert(false);
                    }
                    0
                },
            };
            r.push(v);
            proof {
                assert(r@ =~= self@.take(i + 1));
            }
            i = i + 1;
        }
        proof {
            assert(r@ =~= self@);
        }
        r
    }

    /// Whether a buffer parses, under either layout, without copying it.
    ///
    /// Success and failure match `parse` exactly.
    pub fn validate(buffer: &Vec<u8>, header_first: bool) -> (r: Result<(), LarchError>)
        ensures
            r is Ok <==> parse_ok(buffer@, header_first),
            r is Err ==> r->Err_0 == parse_err(buffer@, header_first),
    {
        match Self::parse_bounds(buffer, header_first) {
            Ok(_) => Ok(()),
            Err(e) => Err(e),
        }
    }

    /// Shared structural check: on success returns `(count, width, payload
    /// byte length)`.
    fn parse_bounds(buffer: &Vec<u8>, header_first: bool) -> (r: Result<(u64, u8, usize), LarchError
    >)
        ensures
            r is Ok <==> parse_ok(buffer@, header_first),
            r is Err ==> r->Err_0 == parse_err(buffer@, header_first),
            r is Ok ==> {
                let cw = control_slice(buffer@, header_first);
                &&& r->Ok_0.0 == control_count(cw)
                &&& r->Ok_0.0 <= max_control_count()
                &&& r->Ok_0.1 == control_width(cw)
                &&& r->Ok_0.2 == payload_len(control_count(cw) as int, control_width(cw) as int)
                &&& r->Ok_0.2 + 8 <= buffer@.len()
            },
    {
        let n = buffer.len();
        if n < 8 {
            return Err(LarchError::TruncatedBuffer);
        }
        let at = if header_first {
            0
        } else {
            n - 8
        };
        let (count, width) = decode_control_word_at(buffer, at);
        if width > 64 {
            return Err(LarchError::MalformedControlWord);
        }
        proof {
            assert((count as int) * (width as int) <= 0x4000_0000_0000_0000) by (nonlinear_arith)
                requires
                    0 <= count <= 0xFF_FFFF_FFFF_FFFFu64,
                    0 <= width <= 64,
            ;
        }
        let bits: u64 = count * (width as u64);
        let words: u64 = (bits + 63) / 64;
        proof {
            assert(words <= 0x1000_0000_0000_0000) by (nonlinear_arith)
                requires
                    words == (bits + 63) / 64int,
                    bits <= 0x4000_0000_0000_0000,
            ;
        }
        let pl: u64 = words * 8;
        if header_first {
            if (n as u64) < pl + 8 {
                return Err(LarchError::TruncatedBuffer);
            }
        } else {
            if (n as u64) != pl + 8 {
                return Err(LarchError::TruncatedBuffer);
            }
        }
        Ok((count, width, pl as usize))
    }

    /// Parse a buffer as a log array.
    ///
    /// With the control word last (the default) the buffer must hold exactly
    /// the payload plus the control word, and the returned remainder is
    /// empty. With the control word first, the payload follows the control
    /// word and whatever trails it is returned as the remainder.
    pub fn parse(buffer: &Vec<u8>, header_first: bool) -> (r: Result<(LogArray, Vec<u8>), LarchError
    >)
        ensures
            r is Ok <==> parse_ok(buffer@, header_first),
            r is Err ==> r->Err_0 == parse_err(buffer@, header_first),
            r is Ok ==> {
                let cw = control_slice(buffer@, header_first);
                let la = r->Ok_0.0;
                let pl = payload_len(control_count(cw) as int, control_width(cw) as int);
                &&& la.wf()
                &&& la@.len() == control_count(cw)
                &&& la.width == control_width(cw)
                &&& la.spec_data() == payload_slice(buffer@, header_first)
                &&& r->Ok_0.1@ == if header_first {
                    buffer@.subrange(8 + pl, buffer@.len() as int)
                } else {
                    Seq::<u8>::empty()
                }
            },
    {
        let (count, width, pl) = match Self::parse_bounds(buffer, header_first) {
            Ok(t) => t,
            Err(e) => {
                return Err(e);
            },
        };
        let nb = buffer.len();
        assert(pl + 8 <= nb);
        let start: usize = if header_first {
            8
        } else {
            0
        };
        let data = copy_range(buffer, start, start + pl);
        let remainder = if header_first {
            copy_range(buffer, 8 + pl, buffer.len())
        } else {
            Vec::new()
        };
        let la = LogArray { data, len: count, width };
        proof {
            assert(la.spec_data() =~= payload_slice(buffer@, header_first));
            assert(remainder@ =~= if header_first {
                buffer@.subrange(8 + pl as int, buffer@.len() as int)
            } else {
                Seq::<u8>::empty()
            });
        }
        Ok((la, remainder))
    }
}

/// Where the control word sits in a buffer under the given layout.
pub open spec fn control_slice(buffer: Seq<u8>, header_first: bool) -> Seq<u8> {
    if header_first {
        buffer.subrange(0, 8)
    } else {
        buffer.subrange(buffer.len() - 8, buffer.len() as int)
    }
}

/// Where the payload sits in a buffer under the given layout.
pub open spec fn payload_slice(buffer: Seq<u8>, header_first: bool) -> Seq<u8> {
    let cw = control_slice(buffer, header_first);
    let pl = payload_len(control_count(cw) as int, control_width(cw) as int);
    if header_first {
        buffer.subrange(8, 8 + pl)
    } else {
        buffer.subrange(0, pl)
    }
}

/// Exactly when a buffer parses as a log array under the given layout.
pub open spec fn parse_ok(buffer: Seq<u8>, header_first: bool) -> bool {
    let cw = control_slice(buffer, header_first);
    let pl = payload_len(control_count(cw) as int, control_width(cw) as int);
    &&& buffer.len() >= 8
    &&& control_width(cw) <= 64
    &&& if header_first {
        buffer.len() >= pl + 8
    } else {
        buffer.len() == pl + 8
    }
}

/// The error a failing parse reports under the given layout.
pub open spec fn parse_err(buffer: Seq<u8>, header_first: bool) -> LarchError {
    if buffer.len() < 8 {
        LarchError::TruncatedBuffer
    } else if control_width(control_slice(buffer, header_first)) > 64 {
        LarchError::MalformedControlWord
    } else {
        LarchError::TruncatedBuffer
    }
}

/// Copy `buffer[from..to]` into a fresh vector.
pub fn copy_range(buffer: &Vec<u8>, from: usize, to: usize) -> (r: Vec<u8>)
    requires
        from <= to <= buffer@.len(),
    ensures
        r@ == buffer@.subrange(from as int, to as int),
{
    let mut r: Vec<u8> = Vec::new();
    let mut i = from;
    while i < to
        invariant
            from <= i <= to <= buffer@.len(),
            r@ == buffer@.subrange(from as int, i as int),
        decreases to - i,
    {
        r.push(buffer[i]);
        proof {
            assert(r@ =~= buffer@.subrange(from as int, i + 1));
        }
        i = i + 1;
    }
    proof {
        assert(r@ =~= buffer@.subrange(from as int, to as int));
    }
    r
}

/// Encode `vals` as a log array payload plus control word.
///
/// Every bit of the result is pinned down: payload bit `j` is bit `j % width`
/// of `vals[j / width]`, the padding up to the word boundary is zero, and the
/// control word declares `(vals.len(), width)`.
pub fn encode_logarray(vals: &Vec<u64>, width: u8, header_first: bool) -> (r: Vec<u8>)
    requires
        width <= 64,
        vals@.len() <= max_control_count(),
        vals@.len() * width <= usize::MAX - 127,
        forall|i: int| 0 <= i < vals@.len() ==> fits_width(vals@[i], width as int),
    ensures
        r@.len() == payload_len(vals@.len() as int, width as int) + 8,
        control_slice(r@, header_first) == control_word_bytes(vals@.len() as u64, width),
        encodes_payload(payload_slice(r@, header_first), vals@, width as int),
        parse_ok(r@, header_first),
{
    let ghost l = vals@.len() as int;
    let ghost wi = width as int;
    proof {
        lemma_payload_len_bits(l, wi);
    }
    let total_bits: usize = vals.len() * (width as usize);
    let mut data: Vec<u8> = Vec::new();
    let mut n: usize = 0;
    let mut i: usize = 0;
    while i < vals.len()
        invariant
            vals@.len() <= max_control_count(),
            vals@.len() * width <= usize::MAX - 127,
            width <= 64,
            l == vals@.len(),
            wi == width,
            total_bits == l * wi,
            forall|q: int| 0 <= q < l ==> fits_width(vals@[q], wi),
            i <= vals@.len(),
            n == i * wi,
            data@.len() == (n + 7) / 8,
            forall|j: int| 0 <= j < n ==> stream_bit(data@, j) == num_bit(
                vals@[j / wi],
                wi,
                j % wi,
            ),
            forall|j: int| n <= j < data@.len() * 8 ==> !stream_bit(data@, j),
        decreases vals@.len() - i,
    {
        proof {
            vstd::arithmetic::mul::lemma_mul_inequality(i + 1, l, wi);
            assert((i + 1) * wi == i * wi + wi) by (nonlinear_arith);
        }
        let v = vals[i];
        let mut k: usize = 0;
        while k < width as usize
            invariant
                vals@.len() <= max_control_count(),
                vals@.len() * width <= usize::MAX - 127,
                width <= 64,
                l == vals@.len(),
                wi == width,
                total_bits == l * wi,
                forall|q: int| 0 <= q < l ==> fits_width(vals@[q], wi),
                i < vals@.len(),
                v == vals@[i as int],
                k <= wi,
                i * wi + wi <= l * wi,
                n == i * wi + k,
                data@.len() == (n + 7) / 8,
                forall|j: int| 0 <= j < n ==> stream_bit(data@, j) == num_bit(
                    vals@[j / wi],
                    wi,
                    j % wi,
                ),
                forall|j: int| n <= j < data@.len() * 8 ==> !stream_bit(data@, j),
            decreases width - k,
        {
            let shift: u64 = (width - 1 - k as u8) as u64;
            let bit = (v >> shift) & 1 == 1;
            let ghost pre = data@;
            push_stream_bit(&mut data, n, bit);
            proof {
                assert(n / 8 < usize::MAX);
                assert forall|j: int| 0 <= j < n + 1 implies stream_bit(data@, j) == num_bit(
                    vals@[j / wi],
                    wi,
                    j % wi,
                ) by {
                    if j < n {
                        assert(stream_bit(data@, j) == stream_bit(pre, j));
                    } else {
                        assert(j == i * wi + k);
                        assert(j / wi == i && j % wi == k) by (nonlinear_arith)
                            requires
                                j == i * wi + k,
                                0 <= k < wi,
                                i >= 0,
                        ;
                        assert(stream_bit(data@, j) == bit);
                        assert(bit == num_bit(v, wi, k as int));
                    }
                }
            }
            n = n + 1;
            k = k + 1;
        }
        proof {
            assert((i + 1) * wi == i * wi + wi) by (nonlinear_arith);
        }
        i = i + 1;
    }
    proof {
        assert(n == total_bits);
    }
    let words: usize = (total_bits + 63) / 64;
    let target: usize = words * 8;
    proof {
        assert(target == payload_len(l, wi));
        assert(data@.len() <= target) by {
            assert((n + 7) / 8 <= ((n + 63) / 64) * 8) by (nonlinear_arith)
                requires
                    n >= 0,
            ;
        }
        assert(n <= data@.len() * 8) by (nonlinear_arith)
            requires
                n >= 0,
                data@.len() == (n + 7) / 8,
        ;
    }
    while data.len() < target
        invariant
            n <= data@.len() * 8,
            data@.len() <= target,
            forall|j: int| 0 <= j < n ==> stream_bit(data@, j) == num_bit(
                vals@[j / wi],
                wi,
                j % wi,
            ),
            forall|j: int| n <= j < data@.len() * 8 ==> !stream_bit(data@, j),
        decreases target - data@.len(),
    {
        let ghost pre = data@;
        data.push(0u8);
        proof {
            lemma_zero_byte_bits();
            assert forall|j: int| 0 <= j < n implies stream_bit(data@, j) == stream_bit(pre, j) by {
                assert(j / 8 < pre.len()) by (nonlinear_arith)
                    requires
                        0 <= j,
                        j < pre.len() * 8,
                ;
            }
            assert forall|j: int| 0 <= j < n implies stream_bit(data@, j) == num_bit(
                vals@[j / wi],
                wi,
                j % wi,
            ) by {
                assert(stream_bit(data@, j) == stream_bit(pre, j));
                assert(stream_bit(pre, j) == num_bit(vals@[j / wi], wi, j % wi));
            }
            assert forall|j: int| n <= j < data@.len() * 8 implies !stream_bit(data@, j) by {
                if j < pre.len() * 8 {
                    assert(j / 8 < pre.len()) by (nonlinear_arith)
                        requires
                            0 <= j,
                            j < pre.len() * 8,
                    ;
                    assert(!stream_bit(pre, j));
                } else {
                    assert(j / 8 == pre.len() as int) by (nonlinear_arith)
                        requires
                            pre.len() * 8 <= j < (pre.len() + 1) * 8,
                    ;
                    assert(data@[j / 8] == 0u8);
                }
            }
        }
    }
    let mut cw = encode_control_word(vals.len() as u64, width);
    let mut r = data;
    let ghost payload = r@;
    if header_first {
        let mut out = cw;
        let mut ix: usize = 0;
        while ix < r.len()
            invariant
                out@ == control_word_bytes(l as u64, width as u8).add(r@.take(ix as int)),
                ix <= r@.len(),
                payload == r@,
            decreases r@.len() - ix,
        {
            out.push(r[ix]);
            proof {
                assert(out@ =~= control_word_bytes(l as u64, width as u8).add(
                    r@.take(ix as int + 1),
                ));
            }
            ix = ix + 1;
        }
        proof {
            crate::control::lemma_control_word_round_trip(l as u64, width);
            assert(r@.take(r@.len() as int) =~= r@);
            assert(control_slice(out@, true) =~= control_word_bytes(l as u64, width));
            assert(payload_slice(out@, true) =~= payload);
        }
        out
    } else {
        let mut ix: usize = 0;
        while ix < cw.len()
            invariant
                r@ == payload.add(cw@.take(ix as int)),
                ix <= cw@.len(),
                cw@ == control_word_bytes(l as u64, width as u8),
            decreases cw@.len() - ix,
        {
            r.push(cw[ix]);
            proof {
                assert(r@ =~= payload.add(cw@.take(ix as int + 1)));
            }
            ix = ix + 1;
        }
        proof {
            crate::control::lemma_control_word_round_trip(l as u64, width);
            assert(cw@.take(cw@.len() as int) =~= cw@);
            assert(control_slice(r@, false) =~= control_word_bytes(l as u64, width));
            assert(payload_slice(r@, false) =~= payload);
        }
        r
    }
}

/// A payload carries exactly the packed bits of `vals` at the given width,
/// with zero padding to the word boundary.
pub open spec fn encodes_payload(data: Seq<u8>, vals: Seq<u64>, width: int) -> bool {
    &&& data.len() == payload_len(vals.len() as int, width)
    &&& forall|j: int|
        0 <= j < vals.len() * width ==> stream_bit(data, j) == num_bit(
            vals[j / width],
            width,
            j % width,
        )
    &&& forall|j: int| vals.len() * width <= j < data.len() * 8 ==> !stream_bit(data, j)
}

/// A complete log array file: payload, padding and control word all pinned
/// down by `(vals, width)` under the given layout.
pub open spec fn encodes_logarray_file(
    file: Seq<u8>,
    vals: Seq<u64>,
    width: u8,
    header_first: bool,
) -> bool {
    &&& file.len() == payload_len(vals.len() as int, width as int) + 8
    &&& control_slice(file, header_first) == control_word_bytes(vals.len() as u64, width)
    &&& encodes_payload(payload_slice(file, header_first), vals, width as int)
}

/// Two files that encode the same values at the same width and layout are
/// byte-identical.
pub proof fn lemma_logarray_file_deterministic(
    f1: Seq<u8>,
    f2: Seq<u8>,
    vals: Seq<u64>,
    width: u8,
    header_first: bool,
)
    requires
        vals.len() <= max_control_count(),
        width <= 64,
        encodes_logarray_file(f1, vals, width, header_first),
        encodes_logarray_file(f2, vals, width, header_first),
    ensures
        f1 == f2,
{
    let pl = payload_len(vals.len() as int, width as int);
    lemma_encode_deterministic(
        payload_slice(f1, header_first),
        payload_slice(f2, header_first),
        vals,
        width as int,
    );
    crate::control::lemma_control_word_round_trip(vals.len() as u64, width);
    assert(f1 =~= f2) by {
        assert forall|q: int| 0 <= q < f1.len() implies f1[q] == f2[q] by {
            if header_first {
                if q < 8 {
                    assert(control_slice(f1, true)[q] == f1[q]);
                    assert(control_slice(f2, true)[q] == f2[q]);
                } else {
                    assert(payload_slice(f1, true)[q - 8] == f1[q]);
                    assert(payload_slice(f2, true)[q - 8] == f2[q]);
                }
            } else {
                if q < pl {
                    assert(payload_slice(f1, false)[q] == f1[q]);
                    assert(payload_slice(f2, false)[q] == f2[q]);
                } else {
                    assert(control_slice(f1, false)[q - pl] == f1[q]);
                    assert(control_slice(f2, false)[q - pl] == f2[q]);
                }
            }
        }
    }
}

/// Round trip: reading element `i` of a payload that encodes `vals` yields
/// `vals[i]` again, for every sequence whose members fit the chosen width.
/// This holds for both layouts, which share the payload representation.
pub proof fn lemma_logarray_round_trip(data: Seq<u8>, vals: Seq<u64>, width: int)
    requires
        0 <= width <= 64,
        forall|i: int| 0 <= i < vals.len() ==> fits_width(vals[i], width),
        encodes_payload(data, vals, width),
    ensures
        forall|i: int| 0 <= i < vals.len() ==> element_value(data, width, i) == vals[i],
{
    assert forall|i: int| 0 <= i < vals.len() implies element_value(data, width, i) == vals[i] by {
        let ebits = element_bits(data, width, i);
        assert(ebits =~= num_bits(vals[i], width)) by {
            assert forall|k: int| 0 <= k < width implies ebits[k] == num_bit(vals[i], width, k) by {
                let j = i * width + k;
                assert(j / width == i && j % width == k) by (nonlinear_arith)
                    requires
                        j == i * width + k,
                        0 <= k < width,
                        i >= 0,
                ;
                vstd::arithmetic::mul::lemma_mul_inequality(i + 1, vals.len() as int, width);
                assert((i + 1) * width == i * width + width) by (nonlinear_arith);
                assert(ebits[k] == stream_bit(data, j));
            }
        }
        lemma_num_bits_value(vals[i], width);
    }
}

/// The encoding is a function of `(vals, width)` alone: any two payloads that
/// both encode the same values at the same width are byte-identical.
pub proof fn lemma_encode_deterministic(d1: Seq<u8>, d2: Seq<u8>, vals: Seq<u64>, width: int)
    requires
        encodes_payload(d1, vals, width),
        encodes_payload(d2, vals, width),
    ensures
        d1 == d2,
{
    lemma_bytes_from_bits(d1, d2);
}

} // verus!
