//! Tests for the dictionary stream decoder.

use larch::dict::decode_dict_segment;
use larch::error::LarchError;
use larch::slice::SliceReader;

/// A segment with one variable-record block holding "apple" and
/// "applesauce" (shared prefix 5), plus the trailing count word.
fn sample_segment() -> Vec<u8> {
    let mut seg: Vec<u8> = Vec::new();
    seg.push(0x01); // two entries, variable records
    seg.push(0x85); // first entry length 5
    seg.extend_from_slice(b"apple");
    seg.push(0x85); // shared prefix 5
    seg.push(0x85); // suffix length 5
    seg.extend_from_slice(b"sauce");
    seg.extend_from_slice(&2u64.to_be_bytes());
    seg
}

#[test]
fn dict_stream_decodes_front_coding() {
    let seg = sample_segment();
    let end = seg.len();
    let mut reader = SliceReader::new(seg, 0, end).unwrap();
    let entries = decode_dict_segment(&mut reader).unwrap();
    assert_eq!(entries.len(), 2);
    assert_eq!(entries[0], b"apple".to_vec());
    assert_eq!(entries[1], b"applesauce".to_vec());
}

#[test]
fn dict_stream_two_blocks() {
    let mut seg: Vec<u8> = Vec::new();
    // Block one: a single entry "x".
    seg.push(0x00);
    seg.push(0x81);
    seg.push(b'x');
    // Block two: "ab" then "ac" (shared prefix 1).
    seg.push(0x01);
    seg.push(0x82);
    seg.extend_from_slice(b"ab");
    seg.push(0x81);
    seg.push(0x81);
    seg.push(b'c');
    seg.extend_from_slice(&3u64.to_be_bytes());
    let end = seg.len();
    let mut reader = SliceReader::new(seg, 0, end).unwrap();
    let entries = decode_dict_segment(&mut reader).unwrap();
    assert_eq!(entries, vec![b"x".to_vec(), b"ab".to_vec(), b"ac".to_vec()]);
}

#[test]
fn dict_stream_is_deterministic() {
    // Two independently opened readers over the same segment yield the same
    // ordered entries.
    let seg = sample_segment();
    let end = seg.len();
    let mut r1 = SliceReader::new(seg.clone(), 0, end).unwrap();
    let mut r2 = SliceReader::new(seg, 0, end).unwrap();
    let e1 = decode_dict_segment(&mut r1).unwrap();
    let e2 = decode_dict_segment(&mut r2).unwrap();
    assert_eq!(e1, e2);
}

#[test]
fn dict_stream_empty_segment() {
    let seg: Vec<u8> = 0u64.to_be_bytes().to_vec();
    let end = seg.len();
    let mut reader = SliceReader::new(seg, 0, end).unwrap();
    assert_eq!(decode_dict_segment(&mut reader).unwrap().len(), 0);
}

#[test]
fn dict_stream_reports_corrupt_block() {
    // An unknown record-size code fails at the first entry.
    let mut seg: Vec<u8> = vec![0xFF, 0x81, b'x'];
    seg.extend_from_slice(&1u64.to_be_bytes());
    let end = seg.len();
    let mut reader = SliceReader::new(seg, 0, end).unwrap();
    assert_eq!(
        decode_dict_segment(&mut reader),
        Err(LarchError::DictionaryCorrupt(1))
    );
}

#[test]
fn dict_stream_reports_corrupt_after_entries() {
    // A good block of two entries followed by garbage fails at entry 3.
    let mut seg: Vec<u8> = Vec::new();
    seg.push(0x01);
    seg.push(0x85);
    seg.extend_from_slice(b"apple");
    seg.push(0x85);
    seg.push(0x85);
    seg.extend_from_slice(b"sauce");
    seg.push(0xFF); // corrupt next block control byte
    seg.extend_from_slice(&2u64.to_be_bytes());
    let end = seg.len();
    let mut reader = SliceReader::new(seg, 0, end).unwrap();
    assert_eq!(
        decode_dict_segment(&mut reader),
        Err(LarchError::DictionaryCorrupt(3))
    );
}

#[test]
fn dict_stream_truncated_suffix_is_corrupt() {
    // The block promises five suffix bytes but the payload ends early.
    let mut seg: Vec<u8> = Vec::new();
    seg.push(0x01);
    seg.push(0x85);
    seg.extend_from_slice(b"apple");
    seg.push(0x85);
    seg.push(0x85);
    seg.extend_from_slice(b"sa");
    seg.extend_from_slice(&2u64.to_be_bytes());
    let end = seg.len();
    let mut reader = SliceReader::new(seg, 0, end).unwrap();
    assert_eq!(
        decode_dict_segment(&mut reader),
        Err(LarchError::DictionaryCorrupt(1))
    );
}
