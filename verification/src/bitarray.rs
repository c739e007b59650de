//! The bit array: a packed sequence of bits padded with zeros to whole
//! eight-byte words, followed by one big-endian word holding the bit count.
//! Run boundaries of adjacency lists and the wavelet bits of the predicate
//! index are stored this way.

use vstd::prelude::*;

use crate::bits::{get_stream_bit, lemma_zero_byte_bits, push_stream_bit, stream_bit};
use crate::error::LarchError;

verus! {

/// Payload bytes a bit array of `len` bits occupies.
pub open spec fn bit_payload_len(len: int) -> int {
    ((len + 63) / 64) * 8
}

/// The eight big-endian bytes of a 64-bit count.
pub open spec fn u64_be_bytes(v: u64) -> Seq<u8> {
    seq![
        ((v >> 56) & 0xFF) as u8,
        ((v >> 48) & 0xFF) as u8,
        ((v >> 40) & 0xFF) as u8,
        ((v >> 32) & 0xFF) as u8,
        ((v >> 24) & 0xFF) as u8,
        ((v >> 16) & 0xFF) as u8,
        ((v >> 8) & 0xFF) as u8,
        (v & 0xFF) as u8,
    ]
}

/// The count the last eight bytes of a buffer declare.
pub open spec fn be_u64_at(s: Seq<u8>, at: int) -> u64
    recommends
        0 <= at,
        at + 8 <= s.len(),
{
    (((s[at] as u64) << 56) | ((s[at + 1] as u64) << 48) | ((s[at + 2] as u64) << 40) | ((s[at
        + 3] as u64) << 32) | ((s[at + 4] as u64) << 24) | ((s[at + 5] as u64) << 16) | ((s[at
        + 6] as u64) << 8) | (s[at + 7] as u64)) as u64
}

/// Reading back the big-endian bytes of `v` yields `v`.
pub proof fn lemma_u64_be_round_trip(v: u64)
    ensures
        be_u64_at(u64_be_bytes(v), 0) == v,
{
    let s = u64_be_bytes(v);
    let b0: u64 = (v >> 56) & 0xFF;
    let b1: u64 = (v >> 48) & 0xFF;
    let b2: u64 = (v >> 40) & 0xFF;
    let b3: u64 = (v >> 32) & 0xFF;
    let b4: u64 = (v >> 24) & 0xFF;
    let b5: u64 = (v >> 16) & 0xFF;
    let b6: u64 = (v >> 8) & 0xFF;
    let b7: u64 = v & 0xFF;
    assert(b0 < 256 && b1 < 256 && b2 < 256 && b3 < 256 && b4 < 256 && b5 < 256 && b6 < 256 && b7
        < 256) by (bit_vector)
        requires
            b0 == (v >> 56) & 0xFF,
            b1 == (v >> 48) & 0xFF,
            b2 == (v >> 40) & 0xFF,
            b3 == (v >> 32) & 0xFF,
            b4 == (v >> 24) & 0xFF,
            b5 == (v >> 16) & 0xFF,
            b6 == (v >> 8) & 0xFF,
            b7 == v & 0xFF,
    ;
    assert(((b0 as u8) as u64) == b0 && ((b1 as u8) as u64) == b1 && ((b2 as u8) as u64) == b2 && ((
    b3 as u8) as u64) == b3 && ((b4 as u8) as u64) == b4 && ((b5 as u8) as u64) == b5 && ((
    b6 as u8) as u64) == b6 && ((b7 as u8) as u64) == b7) by (bit_vector)
        requires
            b0 < 256 && b1 < 256 && b2 < 256 && b3 < 256 && b4 < 256 && b5 < 256 && b6 < 256 && b7
                < 256,
    ;
    assert(((b0 << 56) | (b1 << 48) | (b2 << 40) | (b3 << 32) | (b4 << 24) | (b5 << 16) | (b6 << 8)
        | b7) as u64 == v) by (bit_vector)
        requires
            b0 == (v >> 56) & 0xFF,
            b1 == (v >> 48) & 0xFF,
            b2 == (v >> 40) & 0xFF,
            b3 == (v >> 32) & 0xFF,
            b4 == (v >> 24) & 0xFF,
            b5 == (v >> 16) & 0xFF,
            b6 == (v >> 8) & 0xFF,
            b7 == v & 0xFF,
    ;
}

/// Append the big-endian bytes of `v` to a buffer.
pub fn push_u64_be(out: &mut Vec<u8>, v: u64)
    ensures
        final(out)@ == old(out)@ + u64_be_bytes(v),
{
    out.push(((v >> 56) & 0xFF) as u8);
    out.push(((v >> 48) & 0xFF) as u8);
    out.push(((v >> 40) & 0xFF) as u8);
    out.push(((v >> 32) & 0xFF) as u8);
    out.push(((v >> 24) & 0xFF) as u8);
    out.push(((v >> 16) & 0xFF) as u8);
    out.push(((v >> 8) & 0xFF) as u8);
    out.push((v & 0xFF) as u8);
    proof {
        assert(out@ =~= old(out)@ + u64_be_bytes(v));
    }
}

/// Read a big-endian 64-bit word at position `at`.
pub fn read_u64_be(bytes: &Vec<u8>, at: usize) -> (r: u64)
    requires
        at + 8 <= bytes@.len(),
    ensures
        r == be_u64_at(bytes@, at as int),
{
    let n = bytes.len();
    assert(at + 8 <= n);
    ((bytes[at] as u64) << 56) | ((bytes[at + 1] as u64) << 48) | ((bytes[at + 2] as u64) << 40)
        | ((bytes[at + 3] as u64) << 32) | ((bytes[at + 4] as u64) << 24) | ((bytes[at
        + 5] as u64) << 16) | ((bytes[at + 6] as u64) << 8) | (bytes[at + 7] as u64)
}

/// A payload carries exactly the given bits, zero-padded to the word
/// boundary.
pub open spec fn encodes_bits(data: Seq<u8>, bits: Seq<bool>) -> bool {
    &&& data.len() == bit_payload_len(bits.len() as int)
    &&& forall|j: int| 0 <= j < bits.len() ==> stream_bit(data, j) == bits[j]
    &&& forall|j: int| bits.len() <= j < data.len() * 8 ==> !stream_bit(data, j)
}

/// Encode a bit sequence as a bit array file: payload then count word.
pub fn encode_bitarray(bits: &Vec<bool>) -> (r: Vec<u8>)
    requires
        bits@.len() <= usize::MAX - 127,
    ensures
        r@.len() == bit_payload_len(bits@.len() as int) + 8,
        encodes_bits(r@.subrange(0, bit_payload_len(bits@.len() as int)), bits@),
        be_u64_at(r@, r@.len() - 8) == bits@.len(),
        r@.subrange(r@.len() - 8, r@.len() as int) == u64_be_bytes(bits@.len() as u64),
{
    let mut data: Vec<u8> = Vec::new();
    let mut n: usize = 0;
    while n < bits.len()
        invariant
            bits@.len() <= usize::MAX - 127,
            n <= bits@.len(),
            data@.len() == (n + 7) / 8,
            forall|j: int| 0 <= j < n ==> stream_bit(data@, j) == bits@[j],
            forall|j: int| n <= j < data@.len() * 8 ==> !stream_bit(data@, j),
        decreases bits@.len() - n,
    {
        push_stream_bit(&mut data, n, bits[n]);
        n = n + 1;
    }
    let words: usize = (n + 63) / 64;
    let target: usize = words * 8;
    proof {
        assert(data@.len() <= target) by {
            assert((n + 7) / 8 <= ((n + 63) / 64) * 8) by (nonlinear_arith)
                requires
                    n >= 0,
            ;
        }
        assert(n <= data@.len() * 8) by (nonlinear_arith)
            requires
                n >= 0,
                data@.len() == (n + 7) / 8,
        ;
    }
    while data.len() < target
        invariant
            n <= data@.len() * 8,
            n == bits@.len(),
            data@.len() <= target,
            forall|j: int| 0 <= j < n ==> stream_bit(data@, j) == bits@[j],
            forall|j: int| n <= j < data@.len() * 8 ==> !stream_bit(data@, j),
        decreases target - data@.len(),
    {
        let ghost pre = data@;
        data.push(0u8);
        proof {
            lemma_zero_byte_bits();
            assert forall|j: int| 0 <= j < n implies stream_bit(data@, j) == bits@[j] by {
                assert(j / 8 < pre.len()) by (nonlinear_arith)
                    requires
                        0 <= j,
                        j < pre.len() * 8,
                ;
                assert(stream_bit(pre, j) == bits@[j]);
            }
            assert forall|j: int| n <= j < data@.len() * 8 implies !stream_bit(data@, j) by {
                if j < pre.len() * 8 {
                    assert(j / 8 < pre.len()) by (nonlinear_arith)
                        requires
                            0 <= j,
                            j < pre.len() * 8,
                    ;
                    assert(!stream_bit(pre, j));
                } else {
                    assert(j / 8 == pre.len() as int) by (nonlinear_arith)
                        requires
                            pre.len() * 8 <= j < (pre.len() + 1) * 8,
                    ;
                    assert(data@[j / 8] == 0u8);
                }
            }
        }
    }
    let ghost payload = data@;
    push_u64_be(&mut data, n as u64);
    proof {
        assert(data@.subrange(0, payload.len() as int) =~= payload);
        assert(data@.subrange(data@.len() - 8, data@.len() as int) =~= u64_be_bytes(n as u64));
        lemma_u64_be_round_trip(n as u64);
        let tail = data@.subrange(data@.len() - 8, data@.len() as int);
        assert(be_u64_at(data@, data@.len() - 8) == be_u64_at(tail, 0)) by {
            assert(tail[0] == data@[data@.len() - 8] && tail[1] == data@[data@.len() - 7] && tail[2]
                == data@[data@.len() - 6] && tail[3] == data@[data@.len() - 5] && tail[4] == data@[
            data@.len() - 4] && tail[5] == data@[data@.len() - 3] && tail[6] == data@[data@.len()
                - 2] && tail[7] == data@[data@.len() - 1]);
        }
    }
    data
}

/// A complete bit array file: payload, padding and count word all pinned
/// down by the bit sequence.
pub open spec fn encodes_bitarray_file(file: Seq<u8>, bits: Seq<bool>) -> bool {
    &&& file.len() == bit_payload_len(bits.len() as int) + 8
    &&& encodes_bits(file.subrange(0, bit_payload_len(bits.len() as int)), bits)
    &&& file.subrange(file.len() - 8, file.len() as int) == u64_be_bytes(bits.len() as u64)
}

/// Two files that encode the same bit sequence are byte-identical.
pub proof fn lemma_bitarray_file_deterministic(f1: Seq<u8>, f2: Seq<u8>, bits: Seq<bool>)
    requires
        encodes_bitarray_file(f1, bits),
        encodes_bitarray_file(f2, bits),
    ensures
        f1 == f2,
{
    let pl = bit_payload_len(bits.len() as int);
    crate::bits::lemma_bytes_from_bits(f1.subrange(0, pl), f2.subrange(0, pl));
    assert(f1 =~= f2) by {
        assert forall|q: int| 0 <= q < f1.len() implies f1[q] == f2[q] by {
            if q < pl {
                assert(f1.subrange(0, pl)[q] == f1[q]);
                assert(f2.subrange(0, pl)[q] == f2[q]);
            } else {
                assert(f1.subrange(f1.len() - 8, f1.len() as int)[q - pl] == f1[q]);
                assert(f2.subrange(f2.len() - 8, f2.len() as int)[q - pl] == f2[q]);
            }
        }
    }
}

/// An in-memory bit array: payload bytes plus the decoded bit count.
pub struct BitArray {
    /// The payload bytes, a whole number of eight-byte words.
    pub data: Vec<u8>,
    /// Number of usable bits; trusted only when `wf()` holds.
    pub len: u64,
}

impl View for BitArray {
    type V = Seq<bool>;

    open spec fn view(&self) -> Seq<bool> {
        Seq::new(self.len as nat, |j: int| stream_bit(self.data@, j))
    }
}

impl BitArray {
    /// The structural invariant every parsed bit array satisfies.
    pub open spec fn wf(&self) -> bool {
        &&& self.data@.len() == bit_payload_len(self.len as int)
        &&& self.len <= u64::MAX - 127
    }

    /// Number of usable bits.
    pub fn len(&self) -> (r: u64)
        ensures
            r == self.len,
            r == self@.len(),
    {
        self.len
    }

    /// The bit at `index`.
    pub fn get(&self, index: u64) -> (r: Result<bool, LarchError>)
        requires
            self.wf(),
        ensures
            r is Ok <==> index < self@.len(),
            r is Ok ==> r->Ok_0 == self@[index as int],
            r is Err ==> r->Err_0 == LarchError::IndexOutOfRange,
    {
        if index >= self.len {
            return Err(LarchError::IndexOutOfRange);
        }
        proof {
            assert(index < ((self.len + 63) / 64) * 8 * 8) by (nonlinear_arith)
                requires
                    index < self.len,
                    self.len <= u64::MAX - 127,
            ;
        }
        Ok(get_stream_bit(&self.data, index))
    }

    /// Parse a buffer as a bit array.
    ///
    /// Succeeds exactly when the buffer holds at least its trailing count
    /// word and its size matches the count the word declares.
    pub fn parse(buffer: &Vec<u8>) -> (r: Result<BitArray, LarchError>)
        ensures
            r is Ok <==> bitarray_parse_ok(buffer@),
            r is Err ==> r->Err_0 == LarchError::TruncatedBuffer,
            r is Ok ==> {
                let ba = r->Ok_0;
                &&& ba.wf()
                &&& ba.len == be_u64_at(buffer@, buffer@.len() - 8)
                &&& ba.data@ == buffer@.subrange(0, buffer@.len() - 8)
            },
    {
        let n = buffer.len();
        if n < 8 {
            return Err(LarchError::TruncatedBuffer);
        }
        let len = read_u64_be(buffer, n - 8);
        if len > u64::MAX - 127 {
            return Err(LarchError::TruncatedBuffer);
        }
        let words: u64 = (len + 63) / 64;
        proof {
            assert(words <= 0x400_0000_0000_0000 + 2) by (nonlinear_arith)
                requires
                    words == (len + 63) / 64int,
                    len <= u64::MAX - 127,
            ;
        }
        let pl: u64 = words * 8;
        if (n as u64) != pl + 8 {
            return Err(LarchError::TruncatedBuffer);
        }
        let data = crate::logarray::copy_range(buffer, 0, n - 8);
        Ok(BitArray { data, len })
    }
}

/// Exactly when a buffer parses as a bit array.
pub open spec fn bitarray_parse_ok(buffer: Seq<u8>) -> bool {
    let len = be_u64_at(buffer, buffer.len() - 8);
    &&& buffer.len() >= 8
    &&& len <= u64::MAX - 127
    &&& buffer.len() == bit_payload_len(len as int) + 8
}

} // verus!
