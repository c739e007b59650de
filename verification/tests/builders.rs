//! Tests for the object index and predicate index builders.

use larch::adjacency::decode_adjacency;
use larch::bitarray::{encode_bitarray, BitArray};
use larch::error::LarchError;
use larch::logarray::{encode_logarray, LogArray};
use larch::object_index::build_object_index;
use larch::predicate_index::{build_predicate_index, rank};

/// The source adjacency for the triples {(1,1,2), (1,2,3), (2,1,2)}: the
/// subject-predicate pairs (1,1), (1,2) and (2,1) get source ids 1, 2 and 3,
/// and their object runs are [2], [3] and [2].
fn sample_sp_o_files() -> (Vec<u8>, Vec<u8>) {
    let nums = encode_logarray(&vec![2, 3, 2], 2, false);
    let bits = encode_bitarray(&vec![true, true, true]);
    (nums, bits)
}

#[test]
fn object_index_inverts_triples() {
    let (nums, bits) = sample_sp_o_files();
    let files = build_object_index(&nums, &bits).unwrap();

    let (o_nums, _) = LogArray::parse(&files.nums, false).unwrap();
    let o_bits = BitArray::parse(&files.bits).unwrap();
    let pairs = decode_adjacency(&o_bits, &o_nums);
    assert_eq!(pairs, vec![(2, 1), (2, 3), (3, 2)]);

    // Object 2 is reached from source ids 1 and 3; those carry predicate 1
    // from subjects 1 and 2 respectively, so object 2 reports predicates
    // {1, 1} before deduplication by (object, source id) — the pairs here
    // are distinct because the source ids differ.
    let sp_to_subject_predicate = [(1u64, (1u64, 1u64)), (2, (1, 2)), (3, (2, 1))];
    let mut predicates = Vec::new();
    let mut subjects = Vec::new();
    for (o, sp) in &pairs {
        if *o == 2 {
            let (s, p) = sp_to_subject_predicate
                .iter()
                .find(|(k, _)| k == sp)
                .unwrap()
                .1;
            subjects.push(s);
            predicates.push(p);
        }
    }
    assert_eq!(predicates, vec![1, 1]);
    assert_eq!(subjects, vec![1, 2]);
}

#[test]
fn object_index_encodes_holes() {
    // Sources 1 and 2 point at objects 5 and 3: inverted, object 3 and 5
    // have runs, objects 1, 2 and 4 are holes.
    let nums = encode_logarray(&vec![5, 3], 3, false);
    let bits = encode_bitarray(&vec![true, true]);
    let files = build_object_index(&nums, &bits).unwrap();
    let (o_nums, _) = LogArray::parse(&files.nums, false).unwrap();
    let o_bits = BitArray::parse(&files.bits).unwrap();
    assert_eq!(o_nums.len(), 5);
    let pairs = decode_adjacency(&o_bits, &o_nums);
    assert_eq!(pairs, vec![(3, 2), (5, 1)]);
}

#[test]
fn object_index_deduplicates_identical_pairs() {
    // Two runs of the same source id cannot occur, but the same (source,
    // object) pair can be fed twice through a run: 1 -> [2] and 2 -> [2]
    // invert to the distinct pairs (2,1) and (2,2); a true duplicate would
    // collapse. Feed an adjacency with a repeated destination in one run.
    let nums = encode_logarray(&vec![2, 2], 2, false);
    let bits = encode_bitarray(&vec![false, true]);
    let files = build_object_index(&nums, &bits).unwrap();
    let (o_nums, _) = LogArray::parse(&files.nums, false).unwrap();
    let o_bits = BitArray::parse(&files.bits).unwrap();
    let pairs = decode_adjacency(&o_bits, &o_nums);
    // (1,2) and (1,2) inverted are (2,1) twice; the documented policy keeps
    // one.
    assert_eq!(pairs, vec![(2, 1)]);
}

#[test]
fn object_index_rejects_length_mismatch() {
    let nums = encode_logarray(&vec![2, 3, 2], 2, false);
    let bits = encode_bitarray(&vec![true, true]);
    assert!(matches!(
        build_object_index(&nums, &bits),
        Err(LarchError::TruncatedBuffer)
    ));
}

#[test]
fn object_index_rejects_bad_input() {
    let bits = encode_bitarray(&vec![true]);
    assert!(matches!(
        build_object_index(&vec![1, 2], &bits),
        Err(LarchError::TruncatedBuffer)
    ));
}

#[test]
fn object_index_is_deterministic() {
    let (nums, bits) = sample_sp_o_files();
    let a = build_object_index(&nums, &bits).unwrap();
    let b = build_object_index(&nums, &bits).unwrap();
    assert_eq!(a.nums, b.nums);
    assert_eq!(a.bits, b.bits);
    assert_eq!(a.blocks, b.blocks);
    assert_eq!(a.sblocks, b.sblocks);
}

#[test]
fn predicate_index_rank_counts() {
    let file = encode_logarray(&vec![1, 2, 1, 3, 1], 2, false);
    let (la, _) = LogArray::parse(&file, false).unwrap();
    assert_eq!(rank(&la, 1, 5).unwrap(), 3);
    assert_eq!(rank(&la, 1, 2).unwrap(), 1);
    assert_eq!(rank(&la, 2, 5).unwrap(), 1);
    assert_eq!(rank(&la, 3, 3).unwrap(), 0);
    assert_eq!(rank(&la, 1, 0).unwrap(), 0);
    assert_eq!(rank(&la, 1, 6), Err(LarchError::IndexOutOfRange));
}

#[test]
fn predicate_index_rank_is_monotonic() {
    let file = encode_logarray(&vec![1, 2, 1, 3, 1], 2, false);
    let (la, _) = LogArray::parse(&file, false).unwrap();
    let mut prev = 0;
    for pos in 0..=5 {
        let r = rank(&la, 1, pos).unwrap();
        assert!(r >= prev);
        prev = r;
    }
}

#[test]
fn predicate_index_wavelet_bits() {
    let file = encode_logarray(&vec![1, 2, 1, 3, 1], 2, false);
    let built = build_predicate_index(&file).unwrap();
    let ba = BitArray::parse(&built.bits).unwrap();
    // Layer 0: the top bit of each element in sequence order; layer 1: the
    // low bit, grouped by top bit.
    let expected = [
        false, true, false, true, false, // layer 0: 1,2,1,3,1
        true, true, true, // layer 1, group 0: 1,1,1
        false, true, // layer 1, group 1: 2,3
    ];
    assert_eq!(ba.len(), expected.len() as u64);
    for (i, b) in expected.iter().enumerate() {
        assert_eq!(ba.get(i as u64).unwrap(), *b, "bit {}", i);
    }
}

#[test]
fn predicate_index_build_is_idempotent() {
    let file = encode_logarray(&vec![1, 2, 1, 3, 1], 2, false);
    let a = build_predicate_index(&file).unwrap();
    let b = build_predicate_index(&file).unwrap();
    assert_eq!(a.bits, b.bits);
    assert_eq!(a.blocks, b.blocks);
    assert_eq!(a.sblocks, b.sblocks);
}

#[test]
fn predicate_index_blocks_count_ones() {
    let file = encode_logarray(&vec![1, 2, 1, 3, 1], 2, false);
    let built = build_predicate_index(&file).unwrap();
    // Ten wavelet bits fit one word; six of them are set.
    let (blocks, _) = LogArray::parse(&built.blocks, false).unwrap();
    assert_eq!(blocks.len(), 1);
    assert_eq!(blocks.get(0).unwrap(), 6);
    let (sblocks, _) = LogArray::parse(&built.sblocks, false).unwrap();
    assert_eq!(sblocks.len(), 1);
    assert_eq!(sblocks.get(0).unwrap(), 6);
}

#[test]
fn predicate_index_rejects_bad_input() {
    assert!(matches!(
        build_predicate_index(&vec![0, 1]),
        Err(LarchError::TruncatedBuffer)
    ));
}

#[test]
fn empty_adjacency_builds_empty_index() {
    let nums = encode_logarray(&vec![], 1, false);
    let bits = encode_bitarray(&vec![]);
    let files = build_object_index(&nums, &bits).unwrap();
    let (o_nums, _) = LogArray::parse(&files.nums, false).unwrap();
    assert_eq!(o_nums.len(), 0);
}
