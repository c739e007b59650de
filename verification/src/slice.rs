//! A bounded sequential reader scoped to one segment's byte range.
//!
//! The reader exposes sequential reads only, and a read never yields a byte
//! outside the range the reader was constructed for: asked for more than
//! remains, it short-reads.

use vstd::prelude::*;

use crate::error::LarchError;

verus! {

/// A sequential reader over `archive[start..end)`.
pub struct SliceReader {
    /// The archive bytes the reader draws from.
    pub archive: Vec<u8>,
    /// First byte of the owning segment.
    pub start: usize,
    /// One past the last byte of the owning segment.
    pub end: usize,
    /// Next byte to yield.
    pub pos: usize,
}

/// What a read of `n` bytes yields: the next `n` bytes, short of the bound.
pub open spec fn spec_read(r: SliceReader, n: int) -> Seq<u8> {
    let take = if n <= r.end - r.pos {
        n
    } else {
        r.end - r.pos
    };
    r.archive@.subrange(r.pos as int, r.pos + take)
}

impl SliceReader {
    /// Positions stay ordered and inside the archive.
    pub open spec fn wf(&self) -> bool {
        self.start <= self.pos <= self.end <= self.archive@.len()
    }

    /// Scope a reader to `archive[start..end)`.
    ///
    /// Rejects a range that leaves the archive.
    pub fn new(archive: Vec<u8>, start: usize, end: usize) -> (r: Result<SliceReader, LarchError>)
        ensures
            r is Ok <==> start <= end <= archive@.len(),
            r is Err ==> r->Err_0 == LarchError::TruncatedBuffer,
            r is Ok ==> {
                let sr = r->Ok_0;
                &&& sr.wf()
                &&& sr.archive@ == archive@
                &&& sr.start == start
                &&& sr.pos == start
                &&& sr.end == end
            },
    {
        if start > end || end > archive.len() {
            return Err(LarchError::TruncatedBuffer);
        }
        Ok(SliceReader { archive, start, end, pos: start })
    }

    /// How many bytes remain before the bound.
    pub fn remaining(&self) -> (r: usize)
        requires
            self.wf(),
        ensures
            r == self.end - self.pos,
    {
        self.end - self.pos
    }

    /// Read up to `n` bytes; past the bound the read is short, never long.
    pub fn read(&mut self, n: usize) -> (r: Vec<u8>)
        requires
            old(self).wf(),
        ensures
            final(self).wf(),
            r@ == spec_read(*old(self), n as int),
            final(self).archive@ == old(self).archive@,
            final(self).start == old(self).start,
            final(self).end == old(self).end,
            final(self).pos == old(self).pos + r@.len(),
    {
        let avail = self.end - self.pos;
        let take = if n <= avail {
            n
        } else {
            avail
        };
        let r = crate::logarray::copy_range(&self.archive, self.pos, self.pos + take);
        self.pos = self.pos + take;
        r
    }

    /// Read everything up to the bound.
    pub fn read_to_end(&mut self) -> (r: Vec<u8>)
        requires
            old(self).wf(),
        ensures
            final(self).wf(),
            r@ == old(self).archive@.subrange(old(self).pos as int, old(self).end as int),
            final(self).archive@ == old(self).archive@,
            final(self).start == old(self).start,
            final(self).end == old(self).end,
            final(self).pos == old(self).end,
    {
        let avail = self.end - self.pos;
        self.read(avail)
    }
}

/// Containment: whatever a read yields lies inside `[start, end)` of the
/// owning segment, byte for byte, and a read past the bound is short.
pub proof fn lemma_slice_read_contained(r: SliceReader, n: int)
    requires
        r.wf(),
        n >= 0,
    ensures
        spec_read(r, n).len() <= r.end - r.pos,
        spec_read(r, n).len() <= n,
        forall|j: int|
            0 <= j < spec_read(r, n).len() ==> r.start <= r.pos + j < r.end && #[trigger] spec_read(
                r,
                n,
            )[j] == r.archive@[r.pos + j],
{
}

} // verus!
