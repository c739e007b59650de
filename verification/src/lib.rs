//! Verified core of a layer-archive inspection and index-building toolkit.
//!
//! A layer archive is a single immutable file that packs the segments of a
//! dictionary-encoded triple store behind a leading directory of byte
//! ranges. This crate holds the archive's wire formats (control words, log
//! arrays, bit arrays, the segment directory) and the builders for the two
//! auxiliary indexes (the object index and the predicate index) as verified
//! code over in-memory byte buffers; all file and network traffic stays with
//! the callers.

pub mod adjacency;
pub mod bitarray;
pub mod bitindex;
pub mod bits;
pub mod control;
pub mod dict;
pub mod error;
pub mod header;
pub mod logarray;
pub mod object_index;
pub mod predicate_index;
pub mod slice;
pub mod sort;
