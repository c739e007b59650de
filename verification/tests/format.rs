//! Tests for the control word, log array, directory and slice reader.

use larch::bitarray::BitArray;
use larch::control::{decode_control_word, encode_control_word};
use larch::error::LarchError;
use larch::header::{parse_header, all_segment_kinds, SegmentKind};
use larch::logarray::{encode_logarray, LogArray};
use larch::slice::SliceReader;

#[test]
fn control_word_round_trip_small() {
    let bytes = encode_control_word(5, 3);
    let decoded = decode_control_word(&bytes).unwrap();
    assert_eq!(decoded, (5, 3));
}

#[test]
fn control_word_round_trip_large() {
    // The largest count a control word can carry, at width 32.
    let bytes = encode_control_word(0xFF_FFFF_FFFF_FFFF, 32);
    assert_eq!(bytes, vec![255, 255, 255, 255, 32, 255, 255, 255]);
    let decoded = decode_control_word(&bytes).unwrap();
    assert_eq!(decoded, (0xFF_FFFF_FFFF_FFFF, 32));
}

#[test]
fn control_word_round_trip_forty_bit_counts() {
    for count in [0u64, 1, 255, 256, 0xFFFF_FFFF, 0x1_0000_0000, 0xFF_FFFF_FFFF] {
        for width in [0u8, 1, 17, 63, 64] {
            let bytes = encode_control_word(count, width);
            assert_eq!(decode_control_word(&bytes).unwrap(), (count, width));
        }
    }
}

#[test]
fn control_word_rejects_wrong_length() {
    assert_eq!(
        decode_control_word(&vec![0u8; 7]),
        Err(LarchError::MalformedControlWord)
    );
    assert_eq!(
        decode_control_word(&vec![0u8; 9]),
        Err(LarchError::MalformedControlWord)
    );
}

#[test]
fn control_word_rejects_wide_width() {
    let mut bytes = encode_control_word(1, 64);
    bytes[4] = 65;
    assert_eq!(decode_control_word(&bytes), Err(LarchError::MalformedControlWord));
}

#[test]
fn logarray_known_bytes() {
    // One element of width 1: a single set bit, zero padding, control word.
    let bytes = encode_logarray(&vec![1u64], 1, false);
    assert_eq!(
        bytes,
        vec![0x80, 0, 0, 0, 0, 0, 0, 0, 0, 0, 0, 1, 1, 0, 0, 0]
    );
}

#[test]
fn logarray_round_trip_header_last() {
    let vals: Vec<u64> = vec![1, 5, 9, 0, 2, 15];
    let bytes = encode_logarray(&vals, 4, false);
    let (la, rest) = LogArray::parse(&bytes, false).unwrap();
    assert_eq!(rest.len(), 0);
    assert_eq!(la.len(), 6);
    assert_eq!(la.width(), 4);
    for (i, v) in vals.iter().enumerate() {
        assert_eq!(la.get(i as u64).unwrap(), *v);
    }
}

#[test]
fn logarray_round_trip_header_first() {
    let vals: Vec<u64> = vec![7, 0, 3, 1024, 77];
    let mut bytes = encode_logarray(&vals, 11, true);
    bytes.extend_from_slice(&[9, 9, 9]);
    let (la, rest) = LogArray::parse(&bytes, true).unwrap();
    assert_eq!(rest, vec![9, 9, 9]);
    assert_eq!(la.len(), 5);
    for (i, v) in vals.iter().enumerate() {
        assert_eq!(la.get(i as u64).unwrap(), *v);
    }
}

#[test]
fn logarray_round_trip_wide_values() {
    let vals: Vec<u64> = vec![u64::MAX, 0, 1, u64::MAX - 1];
    let bytes = encode_logarray(&vals, 64, false);
    let (la, _) = LogArray::parse(&bytes, false).unwrap();
    for (i, v) in vals.iter().enumerate() {
        assert_eq!(la.get(i as u64).unwrap(), *v);
    }
}

#[test]
fn logarray_empty_round_trip() {
    let bytes = encode_logarray(&vec![], 7, false);
    let (la, _) = LogArray::parse(&bytes, false).unwrap();
    assert_eq!(la.len(), 0);
    assert_eq!(la.get(0), Err(LarchError::IndexOutOfRange));
}

#[test]
fn logarray_rejects_short_buffer() {
    assert!(matches!(
        LogArray::parse(&vec![1, 2, 3], false),
        Err(LarchError::TruncatedBuffer)
    ));
    assert!(matches!(
        LogArray::validate(&vec![], true),
        Err(LarchError::TruncatedBuffer)
    ));
}

#[test]
fn logarray_rejects_wide_width() {
    // A control word declaring width 65.
    let bytes = vec![0, 0, 0, 1, 65, 0, 0, 0];
    assert!(matches!(
        LogArray::parse(&bytes, false),
        Err(LarchError::MalformedControlWord)
    ));
}

#[test]
fn logarray_rejects_size_mismatch() {
    let mut bytes = encode_logarray(&vec![1, 2, 3], 2, false);
    bytes.insert(0, 0);
    assert!(matches!(
        LogArray::parse(&bytes, false),
        Err(LarchError::TruncatedBuffer)
    ));
}

#[test]
fn logarray_validate_agrees_with_parse() {
    let good = encode_logarray(&vec![3, 1, 4], 3, false);
    assert!(LogArray::validate(&good, false).is_ok());
    let mut short = good.clone();
    short.truncate(9);
    assert!(LogArray::validate(&short, false).is_err());
    assert!(LogArray::parse(&short, false).is_err());
}

fn sample_header_bytes() -> Vec<u8> {
    // Segments with ordinals 0 and 22 present; ends at 10 and 30.
    let presence: u64 = (1 << 63) | (1 << (63 - 22));
    let mut bytes: Vec<u8> = presence.to_be_bytes().to_vec();
    bytes.extend_from_slice(&encode_logarray(&vec![10, 30], 5, true));
    bytes
}

#[test]
fn header_parse_and_ranges() {
    let bytes = sample_header_bytes();
    let (h, consumed) = parse_header(&bytes).unwrap();
    assert_eq!(consumed, bytes.len());
    assert_eq!(
        h.range_for(SegmentKind::NodeDictionaryBlocks),
        Some((0, 10))
    );
    assert_eq!(
        h.range_for(SegmentKind::PosSpOAdjacencyListNums),
        Some((10, 30))
    );
    assert_eq!(h.range_for(SegmentKind::Rollup), None);
}

#[test]
fn header_ranges_disjoint() {
    let bytes = sample_header_bytes();
    let (h, _) = parse_header(&bytes).unwrap();
    let report = h.segment_report();
    assert_eq!(report.len(), 2);
    for i in 0..report.len() {
        let (_, start, end, len) = report[i];
        assert!(start <= end);
        assert_eq!(len, end - start);
        if i > 0 {
            // Earlier segments end before later ones start.
            assert!(report[i - 1].2 <= start);
        }
    }
}

#[test]
fn header_rejects_reserved_bit() {
    let mut bytes = sample_header_bytes();
    bytes[7] |= 1;
    assert!(matches!(parse_header(&bytes), Err(LarchError::MalformedHeader)));
}

#[test]
fn header_rejects_nonmonotonic_offsets() {
    let presence: u64 = (1 << 63) | (1 << (63 - 22));
    let mut bytes: Vec<u8> = presence.to_be_bytes().to_vec();
    bytes.extend_from_slice(&encode_logarray(&vec![30, 10], 5, true));
    assert!(matches!(parse_header(&bytes), Err(LarchError::MalformedHeader)));
}

#[test]
fn header_rejects_count_mismatch() {
    let presence: u64 = 1 << 63;
    let mut bytes: Vec<u8> = presence.to_be_bytes().to_vec();
    bytes.extend_from_slice(&encode_logarray(&vec![10, 30], 5, true));
    assert!(matches!(parse_header(&bytes), Err(LarchError::MalformedHeader)));
}

#[test]
fn header_rejects_short_buffer() {
    assert!(matches!(
        parse_header(&vec![1, 2, 3]),
        Err(LarchError::TruncatedBuffer)
    ));
}

#[test]
fn all_kinds_are_distinct() {
    let kinds = all_segment_kinds();
    assert_eq!(kinds.len(), 50);
    for i in 0..kinds.len() {
        assert_eq!(kinds[i].ord() as usize, i);
    }
}

#[test]
fn slice_reader_stays_in_range() {
    let archive: Vec<u8> = (0u8..20).collect();
    let mut r = SliceReader::new(archive, 5, 10).unwrap();
    assert_eq!(r.remaining(), 5);
    assert_eq!(r.read(3), vec![5, 6, 7]);
    // Asking past the bound short-reads; no byte outside [5, 10) appears.
    assert_eq!(r.read(100), vec![8, 9]);
    assert_eq!(r.read(1), Vec::<u8>::new());
}

#[test]
fn slice_reader_rejects_bad_range() {
    let archive: Vec<u8> = vec![0; 4];
    assert!(matches!(
        SliceReader::new(archive, 2, 10),
        Err(LarchError::TruncatedBuffer)
    ));
}

#[test]
fn bitarray_round_trip() {
    let bits = vec![true, false, true, true, false, false, true];
    let bytes = larch::bitarray::encode_bitarray(&bits);
    let ba = BitArray::parse(&bytes).unwrap();
    assert_eq!(ba.len(), 7);
    for (i, b) in bits.iter().enumerate() {
        assert_eq!(ba.get(i as u64).unwrap(), *b);
    }
    assert_eq!(ba.get(7), Err(LarchError::IndexOutOfRange));
}

#[test]
fn bitarray_rejects_size_mismatch() {
    let mut bytes = larch::bitarray::encode_bitarray(&vec![true; 65]);
    bytes.truncate(bytes.len() - 9);
    assert!(matches!(
        BitArray::parse(&bytes),
        Err(LarchError::TruncatedBuffer)
    ));
}
