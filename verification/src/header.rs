//! The archive directory: a leading presence bitmap plus a header-first
//! monotonic log array of cumulative segment end offsets.
//!
//! Wire layout: the first eight bytes are a big-endian word whose bit `o`
//! (most significant first) says whether the segment kind with ordinal `o`
//! is present; the word's least significant bit is reserved and must be
//! clear. A header-first log array follows, holding one cumulative end
//! offset per present segment, in ordinal order and non-decreasing. Offsets
//! are relative to the first byte after the directory.

use vstd::prelude::*;

use crate::bitarray::{be_u64_at, read_u64_be};
use crate::error::LarchError;
use crate::logarray::{
    control_slice, element_value, parse_ok, payload_len, payload_slice, LogArray,
};
use crate::control::{control_count, control_width};
use vstd::multiset::Multiset;

verus! {

/// The closed set of segment kinds a layer archive can hold, in wire order.
#[derive(Clone, Copy, PartialEq, Eq, Debug)]
pub enum SegmentKind {
    NodeDictionaryBlocks,
    NodeDictionaryOffsets,
    PredicateDictionaryBlocks,
    PredicateDictionaryOffsets,
    ValueDictionaryTypesPresent,
    ValueDictionaryTypeOffsets,
    ValueDictionaryBlocks,
    ValueDictionaryOffsets,
    NodeValueIdMapBits,
    NodeValueIdMapBitIndexBlocks,
    NodeValueIdMapBitIndexSBlocks,
    PredicateIdMapBits,
    PredicateIdMapBitIndexBlocks,
    PredicateIdMapBitIndexSBlocks,
    PosSubjects,
    PosObjects,
    NegSubjects,
    NegObjects,
    PosSPAdjacencyListNums,
    PosSPAdjacencyListBits,
    PosSPAdjacencyListBitIndexBlocks,
    PosSPAdjacencyListBitIndexSBlocks,
    PosSpOAdjacencyListNums,
    PosSpOAdjacencyListBits,
    PosSpOAdjacencyListBitIndexBlocks,
    PosSpOAdjacencyListBitIndexSBlocks,
    PosOPsAdjacencyListNums,
    PosOPsAdjacencyListBits,
    PosOPsAdjacencyListBitIndexBlocks,
    PosOPsAdjacencyListBitIndexSBlocks,
    PosPredicateWaveletTreeBits,
    PosPredicateWaveletTreeBitIndexBlocks,
    PosPredicateWaveletTreeBitIndexSBlocks,
    NegSPAdjacencyListNums,
    NegSPAdjacencyListBits,
    NegSPAdjacencyListBitIndexBlocks,
    NegSPAdjacencyListBitIndexSBlocks,
    NegSpOAdjacencyListNums,
    NegSpOAdjacencyListBits,
    NegSpOAdjacencyListBitIndexBlocks,
    NegSpOAdjacencyListBitIndexSBlocks,
    NegOPsAdjacencyListNums,
    NegOPsAdjacencyListBits,
    NegOPsAdjacencyListBitIndexBlocks,
    NegOPsAdjacencyListBitIndexSBlocks,
    NegPredicateWaveletTreeBits,
    NegPredicateWaveletTreeBitIndexBlocks,
    NegPredicateWaveletTreeBitIndexSBlocks,
    Parent,
    Rollup,
}

impl SegmentKind {
    /// The ordinal that fixes this kind's bit in the presence word and its
    /// place among the offsets.
    pub open spec fn spec_ord(self) -> int {
        match self {
            SegmentKind::NodeDictionaryBlocks => 0,
            SegmentKind::NodeDictionaryOffsets => 1,
            SegmentKind::PredicateDictionaryBlocks => 2,
            SegmentKind::PredicateDictionaryOffsets => 3,
            SegmentKind::ValueDictionaryTypesPresent => 4,
            SegmentKind::ValueDictionaryTypeOffsets => 5,
            SegmentKind::ValueDictionaryBlocks => 6,
            SegmentKind::ValueDictionaryOffsets => 7,
            SegmentKind::NodeValueIdMapBits => 8,
            SegmentKind::NodeValueIdMapBitIndexBlocks => 9,
            SegmentKind::NodeValueIdMapBitIndexSBlocks => 10,
            SegmentKind::PredicateIdMapBits => 11,
            SegmentKind::PredicateIdMapBitIndexBlocks => 12,
            SegmentKind::PredicateIdMapBitIndexSBlocks => 13,
            SegmentKind::PosSubjects => 14,
            SegmentKind::PosObjects => 15,
            SegmentKind::NegSubjects => 16,
            SegmentKind::NegObjects => 17,
            SegmentKind::PosSPAdjacencyListNums => 18,
            SegmentKind::PosSPAdjacencyListBits => 19,
            SegmentKind::PosSPAdjacencyListBitIndexBlocks => 20,
            SegmentKind::PosSPAdjacencyListBitIndexSBlocks => 21,
            SegmentKind::PosSpOAdjacencyListNums => 22,
            SegmentKind::PosSpOAdjacencyListBits => 23,
            SegmentKind::PosSpOAdjacencyListBitIndexBlocks => 24,
            SegmentKind::PosSpOAdjacencyListBitIndexSBlocks => 25,
            SegmentKind::PosOPsAdjacencyListNums => 26,
            SegmentKind::PosOPsAdjacencyListBits => 27,
            SegmentKind::PosOPsAdjacencyListBitIndexBlocks => 28,
            SegmentKind::PosOPsAdjacencyListBitIndexSBlocks => 29,
            SegmentKind::PosPredicateWaveletTreeBits => 30,
            SegmentKind::PosPredicateWaveletTreeBitIndexBlocks => 31,
            SegmentKind::PosPredicateWaveletTreeBitIndexSBlocks => 32,
            SegmentKind::NegSPAdjacencyListNums => 33,
            SegmentKind::NegSPAdjacencyListBits => 34,
            SegmentKind::NegSPAdjacencyListBitIndexBlocks => 35,
            SegmentKind::NegSPAdjacencyListBitIndexSBlocks => 36,
            SegmentKind::NegSpOAdjacencyListNums => 37,
            SegmentKind::NegSpOAdjacencyListBits => 38,
            SegmentKind::NegSpOAdjacencyListBitIndexBlocks => 39,
            SegmentKind::NegSpOAdjacencyListBitIndexSBlocks => 40,
            SegmentKind::NegOPsAdjacencyListNums => 41,
            SegmentKind::NegOPsAdjacencyListBits => 42,
            SegmentKind::NegOPsAdjacencyListBitIndexBlocks => 43,
            SegmentKind::NegOPsAdjacencyListBitIndexSBlocks => 44,
            SegmentKind::NegPredicateWaveletTreeBits => 45,
            SegmentKind::NegPredicateWaveletTreeBitIndexBlocks => 46,
            SegmentKind::NegPredicateWaveletTreeBitIndexSBlocks => 47,
            SegmentKind::Parent => 48,
            SegmentKind::Rollup => 49,
        }
    }

    /// Executable ordinal, equal to the specification ordinal.
    pub fn ord(&self) -> (r: u8)
        ensures
            r as int == self.spec_ord(),
            r < 64,
    {
        match self {
            SegmentKind::NodeDictionaryBlocks => 0,
            SegmentKind::NodeDictionaryOffsets => 1,
            SegmentKind::PredicateDictionaryBlocks => 2,
            SegmentKind::PredicateDictionaryOffsets => 3,
            SegmentKind::ValueDictionaryTypesPresent => 4,
            SegmentKind::ValueDictionaryTypeOffsets => 5,
            SegmentKind::ValueDictionaryBlocks => 6,
            SegmentKind::ValueDictionaryOffsets => 7,
            SegmentKind::NodeValueIdMapBits => 8,
            SegmentKind::NodeValueIdMapBitIndexBlocks => 9,
            SegmentKind::NodeValueIdMapBitIndexSBlocks => 10,
            SegmentKind::PredicateIdMapBits => 11,
            SegmentKind::PredicateIdMapBitIndexBlocks => 12,
            SegmentKind::PredicateIdMapBitIndexSBlocks => 13,
            SegmentKind::PosSubjects => 14,
            SegmentKind::PosObjects => 15,
            SegmentKind::NegSubjects => 16,
            SegmentKind::NegObjects => 17,
            SegmentKind::PosSPAdjacencyListNums => 18,
            SegmentKind::PosSPAdjacencyListBits => 19,
            SegmentKind::PosSPAdjacencyListBitIndexBlocks => 20,
            SegmentKind::PosSPAdjacencyListBitIndexSBlocks => 21,
            SegmentKind::PosSpOAdjacencyListNums => 22,
            SegmentKind::PosSpOAdjacencyListBits => 23,
            SegmentKind::PosSpOAdjacencyListBitIndexBlocks => 24,
            SegmentKind::PosSpOAdjacencyListBitIndexSBlocks => 25,
            SegmentKind::PosOPsAdjacencyListNums => 26,
            SegmentKind::PosOPsAdjacencyListBits => 27,
            SegmentKind::PosOPsAdjacencyListBitIndexBlocks => 28,
            SegmentKind::PosOPsAdjacencyListBitIndexSBlocks => 29,
            SegmentKind::PosPredicateWaveletTreeBits => 30,
            SegmentKind::PosPredicateWaveletTreeBitIndexBlocks => 31,
            SegmentKind::PosPredicateWaveletTreeBitIndexSBlocks => 32,
            SegmentKind::NegSPAdjacencyListNums => 33,
            SegmentKind::NegSPAdjacencyListBits => 34,
            SegmentKind::NegSPAdjacencyListBitIndexBlocks => 35,
            SegmentKind::NegSPAdjacencyListBitIndexSBlocks => 36,
            SegmentKind::NegSpOAdjacencyListNums => 37,
            SegmentKind::NegSpOAdjacencyListBits => 38,
            SegmentKind::NegSpOAdjacencyListBitIndexBlocks => 39,
            SegmentKind::NegSpOAdjacencyListBitIndexSBlocks => 40,
            SegmentKind::NegOPsAdjacencyListNums => 41,
            SegmentKind::NegOPsAdjacencyListBits => 42,
            SegmentKind::NegOPsAdjacencyListBitIndexBlocks => 43,
            SegmentKind::NegOPsAdjacencyListBitIndexSBlocks => 44,
            SegmentKind::NegPredicateWaveletTreeBits => 45,
            SegmentKind::NegPredicateWaveletTreeBitIndexBlocks => 46,
            SegmentKind::NegPredicateWaveletTreeBitIndexSBlocks => 47,
            SegmentKind::Parent => 48,
            SegmentKind::Rollup => 49,
        }
    }
}

/// Every segment kind, in ordinal order. Iteration over the kinds goes
/// through this explicit list; nothing relies on ordinal arithmetic.
pub fn all_segment_kinds() -> (r: Vec<SegmentKind>)
    ensures
        r@.len() == 50,
        forall|i: int| 0 <= i < 50 ==> r@[i].spec_ord() == i,
{
    let r: Vec<SegmentKind> = vec![
        SegmentKind::NodeDictionaryBlocks,
        SegmentKind::NodeDictionaryOffsets,
        SegmentKind::PredicateDictionaryBlocks,
        SegmentKind::PredicateDictionaryOffsets,
        SegmentKind::ValueDictionaryTypesPresent,
        SegmentKind::ValueDictionaryTypeOffsets,
        SegmentKind::ValueDictionaryBlocks,
        SegmentKind::ValueDictionaryOffsets,
        SegmentKind::NodeValueIdMapBits,
        SegmentKind::NodeValueIdMapBitIndexBlocks,
        SegmentKind::NodeValueIdMapBitIndexSBlocks,
        SegmentKind::PredicateIdMapBits,
        SegmentKind::PredicateIdMapBitIndexBlocks,
        SegmentKind::PredicateIdMapBitIndexSBlocks,
        SegmentKind::PosSubjects,
        SegmentKind::PosObjects,
        SegmentKind::NegSubjects,
        SegmentKind::NegObjects,
        SegmentKind::PosSPAdjacencyListNums,
        SegmentKind::PosSPAdjacencyListBits,
        SegmentKind::PosSPAdjacencyListBitIndexBlocks,
        SegmentKind::PosSPAdjacencyListBitIndexSBlocks,
        SegmentKind::PosSpOAdjacencyListNums,
        SegmentKind::PosSpOAdjacencyListBits,
        SegmentKind::PosSpOAdjacencyListBitIndexBlocks,
        SegmentKind::PosSpOAdjacencyListBitIndexSBlocks,
        SegmentKind::PosOPsAdjacencyListNums,
        SegmentKind::PosOPsAdjacencyListBits,
        SegmentKind::PosOPsAdjacencyListBitIndexBlocks,
        SegmentKind::PosOPsAdjacencyListBitIndexSBlocks,
        SegmentKind::PosPredicateWaveletTreeBits,
        SegmentKind::PosPredicateWaveletTreeBitIndexBlocks,
        SegmentKind::PosPredicateWaveletTreeBitIndexSBlocks,
        SegmentKind::NegSPAdjacencyListNums,
        SegmentKind::NegSPAdjacencyListBits,
        SegmentKind::NegSPAdjacencyListBitIndexBlocks,
        SegmentKind::NegSPAdjacencyListBitIndexSBlocks,
        SegmentKind::NegSpOAdjacencyListNums,
        SegmentKind::NegSpOAdjacencyListBits,
        SegmentKind::NegSpOAdjacencyListBitIndexBlocks,
        SegmentKind::NegSpOAdjacencyListBitIndexSBlocks,
        SegmentKind::NegOPsAdjacencyListNums,
        SegmentKind::NegOPsAdjacencyListBits,
        SegmentKind::NegOPsAdjacencyListBitIndexBlocks,
        SegmentKind::NegOPsAdjacencyListBitIndexSBlocks,
        SegmentKind::NegPredicateWaveletTreeBits,
        SegmentKind::NegPredicateWaveletTreeBitIndexBlocks,
        SegmentKind::NegPredicateWaveletTreeBitIndexSBlocks,
        SegmentKind::Parent,
        SegmentKind::Rollup,
    ];
    proof {
        assert(r@[0].spec_ord() == 0);
        assert(r@[1].spec_ord() == 1);
        assert(r@[2].spec_ord() == 2);
        assert(r@[3].spec_ord() == 3);
        assert(r@[4].spec_ord() == 4);
        assert(r@[5].spec_ord() == 5);
        assert(r@[6].spec_ord() == 6);
        assert(r@[7].spec_ord() == 7);
        assert(r@[8].spec_ord() == 8);
        assert(r@[9].spec_ord() == 9);
        assert(r@[10].spec_ord() == 10);
        assert(r@[11].spec_ord() == 11);
        assert(r@[12].spec_ord() == 12);
        assert(r@[13].spec_ord() == 13);
        assert(r@[14].spec_ord() == 14);
        assert(r@[15].spec_ord() == 15);
        assert(r@[16].spec_ord() == 16);
        assert(r@[17].spec_ord() == 17);
        assert(r@[18].spec_ord() == 18);
        assert(r@[19].spec_ord() == 19);
        assert(r@[20].spec_ord() == 20);
        assert(r@[21].spec_ord() == 21);
        assert(r@[22].spec_ord() == 22);
        assert(r@[23].spec_ord() == 23);
        assert(r@[24].spec_ord() == 24);
        assert(r@[25].spec_ord() == 25);
        assert(r@[26].spec_ord() == 26);
        assert(r@[27].spec_ord() == 27);
        assert(r@[28].spec_ord() == 28);
        assert(r@[29].spec_ord() == 29);
        assert(r@[30].spec_ord() == 30);
        assert(r@[31].spec_ord() == 31);
        assert(r@[32].spec_ord() == 32);
        assert(r@[33].spec_ord() == 33);
        assert(r@[34].spec_ord() == 34);
        assert(r@[35].spec_ord() == 35);
        assert(r@[36].spec_ord() == 36);
        assert(r@[37].spec_ord() == 37);
        assert(r@[38].spec_ord() == 38);
        assert(r@[39].spec_ord() == 39);
        assert(r@[40].spec_ord() == 40);
        assert(r@[41].spec_ord() == 41);
        assert(r@[42].spec_ord() == 42);
        assert(r@[43].spec_ord() == 43);
        assert(r@[44].spec_ord() == 44);
        assert(r@[45].spec_ord() == 45);
        assert(r@[46].spec_ord() == 46);
        assert(r@[47].spec_ord() == 47);
        assert(r@[48].spec_ord() == 48);
        assert(r@[49].spec_ord() == 49);
    }
    r
}

/// Every segment kind's ordinal lies below 50.
pub proof fn lemma_ord_bounds(k: SegmentKind)
    ensures
        0 <= k.spec_ord() < 50,
{
}

/// Whether the presence word `p` marks ordinal `o` (most significant bit
/// first) as present.
pub open spec fn presence_bit(p: u64, o: int) -> bool
    recommends
        0 <= o < 64,
{
    (p >> ((63 - o) as u64)) & 1 == 1
}

/// How many ordinals below `o` the presence word marks present.
pub open spec fn rank_below(p: u64, o: int) -> int
    decreases o,
{
    if o <= 0 {
        0
    } else {
        rank_below(p, o - 1) + if presence_bit(p, o - 1) {
            1int
        } else {
            0int
        }
    }
}

/// Rank never decreases as the ordinal grows.
pub proof fn lemma_rank_mono(p: u64, a: int, b: int)
    requires
        a <= b,
    ensures
        rank_below(p, a) <= rank_below(p, b),
    decreases b - a,
{
    if a < b {
        lemma_rank_mono(p, a, b - 1);
    }
}

/// A present ordinal strictly raises the rank of everything above it.
pub proof fn lemma_rank_strict(p: u64, a: int, b: int)
    requires
        0 <= a < b,
        presence_bit(p, a),
    ensures
        rank_below(p, a) + 1 <= rank_below(p, b),
{
    lemma_rank_mono(p, a + 1, b);
}

/// Rank is bounded by the ordinal.
pub proof fn lemma_rank_bound(p: u64, o: int)
    requires
        o >= 0,
    ensures
        0 <= rank_below(p, o) <= o,
    decreases o,
{
    if o > 0 {
        lemma_rank_bound(p, o - 1);
    }
}

/// Count the present ordinals below `o`.
pub fn rank_below_exec(p: u64, o: u8) -> (r: u64)
    requires
        o <= 64,
    ensures
        r == rank_below(p, o as int),
        r <= o,
{
    let mut c: u64 = 0;
    let mut i: u8 = 0;
    while i < o
        invariant
            i <= o <= 64,
            c == rank_below(p, i as int),
            c <= i,
        decreases o - i,
    {
        if (p >> ((63 - i) as u64)) & 1 == 1 {
            c = c + 1;
        }
        i = i + 1;
    }
    c
}

/// A parsed archive directory.
pub struct Header {
    /// The presence word; bit `o`, most significant first, marks ordinal `o`.
    pub presence: u64,
    /// One cumulative end offset per present segment, in ordinal order.
    pub offsets: LogArray,
}

impl Header {
    /// The invariant every parsed directory satisfies: the reserved bit is
    /// clear, the offsets array is well formed, holds exactly one entry per
    /// present segment, and is non-decreasing.
    pub open spec fn wf(&self) -> bool {
        &&& self.presence & 1 == 0
        &&& self.offsets.wf()
        &&& self.offsets@.len() == rank_below(self.presence, 64)
        &&& forall|i: int| 0 < i < self.offsets@.len() ==> self.offsets@[i - 1] <= #[trigger] self.offsets@[i]
    }

    /// The byte range of a segment: `None` when the archive does not contain
    /// it, else `(start, end)` relative to the end of the directory.
    pub open spec fn spec_range_for(&self, kind: SegmentKind) -> Option<(u64, u64)> {
        let o = kind.spec_ord();
        if presence_bit(self.presence, o) {
            let rk = rank_below(self.presence, o);
            Some(
                (
                    if rk == 0 {
                        0u64
                    } else {
                        self.offsets@[rk - 1]
                    },
                    self.offsets@[rk],
                ),
            )
        } else {
            None
        }
    }

    /// Look a segment's byte range up. Absence is an answer, not an error.
    pub fn range_for(&self, kind: SegmentKind) -> (r: Option<(u64, u64)>)
        requires
            self.wf(),
        ensures
            r == self.spec_range_for(kind),
            r is Some ==> (r->0).0 <= (r->0).1,
    {
        let o = kind.ord();
        if (self.presence >> ((63 - o) as u64)) & 1 == 1 {
            let rk = rank_below_exec(self.presence, o);
            proof {
                lemma_rank_strict(self.presence, o as int, 64);
                lemma_rank_bound(self.presence, o as int);
            }
            let end = match self.offsets.get(rk) {
                Ok(v) => v,
                Err(_) => {
                    proof {
                        assert(false);
                    }
                    0
                },
            };
            let start = if rk == 0 {
                0
            } else {
                match self.offsets.get(rk - 1) {
                    Ok(v) => v,
                    Err(_) => {
                        proof {
                            assert(false);
                        }
                        0
                    },
                }
            };
            Some((start, end))
        } else {
            None
        }
    }

    /// Every present range sits before the ranges of all later present
    /// segments; in particular no two present ranges overlap, and every
    /// range ends at or after its start.
    pub proof fn lemma_ranges_disjoint(&self, k1: SegmentKind, k2: SegmentKind)
        requires
            self.wf(),
            self.spec_range_for(k1) is Some,
            self.spec_range_for(k2) is Some,
            k1.spec_ord() < k2.spec_ord(),
        ensures
            (self.spec_range_for(k1)->0).0 <= (self.spec_range_for(k1)->0).1,
            (self.spec_range_for(k2)->0).0 <= (self.spec_range_for(k2)->0).1,
            (self.spec_range_for(k1)->0).1 <= (self.spec_range_for(k2)->0).0,
    {
        let p = self.presence;
        let o1 = k1.spec_ord();
        let o2 = k2.spec_ord();
        let r1 = rank_below(p, o1);
        let r2 = rank_below(p, o2);
        lemma_ord_bounds(k1);
        lemma_ord_bounds(k2);
        lemma_rank_bound(p, o1);
        lemma_rank_strict(p, o1, o2);
        lemma_rank_strict(p, o2, 64);
        self.lemma_offsets_sorted(r1, r2 - 1);
        if r1 > 0 {
            self.lemma_offsets_sorted(r1 - 1, r1);
        }
        if r2 > 0 {
            self.lemma_offsets_sorted(r2 - 1, r2);
        }
    }

    /// The offsets are sorted: adjacent monotonicity extends to any pair.
    pub proof fn lemma_offsets_sorted(&self, i: int, j: int)
        requires
            self.wf(),
            0 <= i <= j < self.offsets@.len(),
        ensures
            self.offsets@[i] <= self.offsets@[j],
        decreases j - i,
    {
        if i < j {
            self.lemma_offsets_sorted(i, j - 1);
        }
    }

    /// List `(kind, start, end, length)` for every present segment, in
    /// ordinal order. A pure transform over the parsed directory.
    pub fn segment_report(&self) -> (r: Vec<(SegmentKind, u64, u64, u64)>)
        requires
            self.wf(),
        ensures
            forall|i: int|
                0 <= i < r@.len() ==> self.spec_range_for(#[trigger] r@[i].0) == Some(
                    (r@[i].1, r@[i].2),
                ) && r@[i].3 == r@[i].2 - r@[i].1,
            forall|i: int, j: int|
                0 <= i < j < r@.len() ==> r@[i].0.spec_ord() < r@[j].0.spec_ord(),
            forall|o: int|
                0 <= o < 50 && presence_bit(self.presence, o) ==> exists|i: int|
                    0 <= i < r@.len() && #[trigger] r@[i].0.spec_ord() == o,
    {
        let kinds = all_segment_kinds();
        let mut r: Vec<(SegmentKind, u64, u64, u64)> = Vec::new();
        let mut ix: usize = 0;
        while ix < kinds.len()
            invariant
                self.wf(),
                kinds@.len() == 50,
                forall|q: int| 0 <= q < 50 ==> kinds@[q].spec_ord() == q,
                ix <= 50,
                forall|i: int|
                    0 <= i < r@.len() ==> self.spec_range_for(#[trigger] r@[i].0) == Some(
                        (r@[i].1, r@[i].2),
                    ) && r@[i].3 == r@[i].2 - r@[i].1,
                forall|i: int| 0 <= i < r@.len() ==> r@[i].0.spec_ord() < ix,
                forall|i: int, j: int|
                    0 <= i < j < r@.len() ==> r@[i].0.spec_ord() < r@[j].0.spec_ord(),
                forall|o: int|
                    0 <= o < ix && presence_bit(self.presence, o) ==> exists|i: int|
                        0 <= i < r@.len() && #[trigger] r@[i].0.spec_ord() == o,
            decreases 50 - ix,
        {
            let kind = kinds[ix];
            if let Some((start, end)) = self.range_for(kind) {
                let ghost pre = r@;
                r.push((kind, start, end, end - start));
                proof {
                    assert(r@[r@.len() - 1].0.spec_ord() == ix);
                    assert forall|o: int|
                        0 <= o < ix + 1 && presence_bit(self.presence, o) implies exists|i: int|
                        0 <= i < r@.len() && #[trigger] r@[i].0.spec_ord() == o by {
                        if o < ix {
                            let i = choose|i: int|
                                0 <= i < pre.len() && #[trigger] pre[i].0.spec_ord() == o;
                            assert(r@[i].0.spec_ord() == o);
                        } else {
                            assert(r@[r@.len() - 1].0.spec_ord() == o);
                        }
                    }
                }
            }
            ix = ix + 1;
        }
        r
    }
}

/// One line of the diagnostics report.
pub type ReportEntry = (SegmentKind, u64, u64, u64);

/// Sort a segment report by length, longest first. The result holds
/// exactly the entries of the input.
pub fn sort_report_by_length(report: Vec<ReportEntry>) -> (r: Vec<ReportEntry>)
    ensures
        r@.to_multiset() == report@.to_multiset(),
        r@.len() == report@.len(),
        forall|i: int, j: int| 0 <= i < j < r@.len() ==> (#[trigger] r@[i]).3 >= (#[trigger] r@[j]).3,
{
    broadcast use vstd::seq_lib::group_to_multiset_ensures;
    broadcast use vstd::multiset::group_multiset_axioms;

    let mut rest = report;
    let mut out: Vec<ReportEntry> = Vec::new();
    while rest.len() > 0
        invariant
            out@.to_multiset().add(rest@.to_multiset()) == report@.to_multiset(),
            out@.len() + rest@.len() == report@.len(),
            forall|i: int, j: int|
                0 <= i < j < out@.len() ==> (#[trigger] out@[i]).3 >= (#[trigger] out@[j]).3,
            forall|q: int|
                0 <= q < rest@.len() && out@.len() > 0 ==> out@.last().3 >= (#[trigger] rest@[q]).3,
        decreases rest@.len(),
    {
        let mut best: usize = 0;
        let mut ix: usize = 1;
        while ix < rest.len()
            invariant
                best < ix <= rest@.len() || (ix <= rest@.len() && best == 0),
                best < rest@.len(),
                rest@.len() > 0,
                forall|q: int| 0 <= q < ix ==> (#[trigger] rest@[q]).3 <= rest@[best as int].3,
            decreases rest@.len() - ix,
        {
            if rest[ix].3 > rest[best].3 {
                best = ix;
            }
            ix = ix + 1;
        }
        let ghost pre_rest = rest@;
        let picked = rest.remove(best);
        let ghost pre_out = out@;
        out.push(picked);
        proof {
            pre_rest.to_multiset_ensures();
            pre_out.to_multiset_ensures();
            assert(rest@ == pre_rest.remove(best as int));
            assert(picked == pre_rest[best as int]);
            assert(rest@.to_multiset() =~= pre_rest.to_multiset().remove(picked));
            assert(out@ == pre_out.push(picked));
            assert(pre_rest.to_multiset().count(picked) > 0);
            assert(out@.to_multiset().add(rest@.to_multiset()) =~= pre_out.to_multiset().add(
                pre_rest.to_multiset(),
            ));
        }
    }
    proof {
        assert(rest@.to_multiset() =~= Multiset::<ReportEntry>::empty());
        assert(out@.to_multiset() =~= report@.to_multiset());
    }
    out
}

/// The presence word an archive buffer declares.
pub open spec fn dir_presence(b: Seq<u8>) -> u64 {
    be_u64_at(b, 0)
}

/// The count, width and offsets of the directory's log array.
pub open spec fn dir_count(b: Seq<u8>) -> u64 {
    control_count(control_slice(b.skip(8), true))
}

/// The declared width of the directory's offsets array.
pub open spec fn dir_width(b: Seq<u8>) -> u8 {
    control_width(control_slice(b.skip(8), true))
}

/// The offsets the directory declares, decoded from its payload.
pub open spec fn dir_offsets(b: Seq<u8>) -> Seq<u64> {
    Seq::new(
        dir_count(b) as nat,
        |i: int| element_value(payload_slice(b.skip(8), true), dir_width(b) as int, i) as u64,
    )
}

/// Exactly when a buffer parses as an archive directory.
pub open spec fn header_parse_ok(b: Seq<u8>) -> bool {
    &&& b.len() >= 8
    &&& dir_presence(b) & 1 == 0
    &&& parse_ok(b.skip(8), true)
    &&& dir_count(b) == rank_below(dir_presence(b), 64)
    &&& forall|i: int| 0 < i < dir_offsets(b).len() ==> dir_offsets(b)[i - 1] <= #[trigger] dir_offsets(b)[i]
}

/// The error a failing directory parse reports.
pub open spec fn header_parse_err(b: Seq<u8>) -> LarchError {
    if b.len() < 8 {
        LarchError::TruncatedBuffer
    } else if dir_presence(b) & 1 != 0 {
        LarchError::MalformedHeader
    } else if !parse_ok(b.skip(8), true) {
        crate::logarray::parse_err(b.skip(8), true)
    } else {
        LarchError::MalformedHeader
    }
}

/// Parse an archive directory from the start of a buffer.
///
/// On success also returns how many bytes the directory occupies; the
/// segment ranges are relative to that point.
pub fn parse_header(buffer: &Vec<u8>) -> (r: Result<(Header, usize), LarchError>)
    ensures
        r is Ok <==> header_parse_ok(buffer@),
        r is Err ==> r->Err_0 == header_parse_err(buffer@),
        r is Ok ==> {
            let h = r->Ok_0.0;
            &&& h.wf()
            &&& h.presence == dir_presence(buffer@)
            &&& h.offsets@ == dir_offsets(buffer@)
            &&& r->Ok_0.1 == 16 + payload_len(dir_count(buffer@) as int, dir_width(buffer@) as int)
            &&& r->Ok_0.1 <= buffer@.len()
        },
{
    let n = buffer.len();
    if n < 8 {
        return Err(LarchError::TruncatedBuffer);
    }
    let presence = read_u64_be(buffer, 0);
    if presence & 1 != 0 {
        return Err(LarchError::MalformedHeader);
    }
    let tail = crate::logarray::copy_range(buffer, 8, n);
    proof {
        assert(tail@ =~= buffer@.skip(8));
    }
    let (offsets, _rest) = match LogArray::parse(&tail, true) {
        Ok(t) => t,
        Err(e) => {
            return Err(e);
        },
    };
    proof {
        assert(offsets@ =~= dir_offsets(buffer@));
    }
    let total = rank_below_exec(presence, 64);
    if offsets.len() != total {
        return Err(LarchError::MalformedHeader);
    }
    let mut i: u64 = 1;
    let len = offsets.len();
    while i < len
        invariant
            offsets.wf(),
            len == offsets@.len(),
            1 <= i,
            i <= len || len == 0,
            buffer@.len() >= 8,
            presence == dir_presence(buffer@),
            presence & 1 == 0,
            parse_ok(buffer@.skip(8), true),
            offsets@ == dir_offsets(buffer@),
            offsets@.len() == rank_below(presence, 64),
            forall|j: int| 0 < j < i ==> offsets@[j - 1] <= #[trigger] offsets@[j],
        decreases len - i,
    {
        let prev = match offsets.get(i - 1) {
            Ok(v) => v,
            Err(_) => {
                proof {
                    assert(false);
                }
                0
            },
        };
        let cur = match offsets.get(i) {
            Ok(v) => v,
            Err(_) => {
                proof {
                    assert(false);
                }
                0
            },
        };
        if prev > cur {
            proof {
                assert(dir_offsets(buffer@)[i - 1] > dir_offsets(buffer@)[i as int]);
                assert(!header_parse_ok(buffer@));
            }
            return Err(LarchError::MalformedHeader);
        }
        i = i + 1;
    }
    let consumed = 16 + offsets.data.len();
    let h = Header { presence, offsets };
    Ok((h, consumed))
}

} // verus!
