//! The dictionary stream decoder: front-coded blocks of up to eight entries
//! each, consumed in order from a dictionary segment.
//!
//! A block starts with a control byte (entry count minus one in the low
//! three bits, a record-size code above), a variable-byte length and the
//! bytes of its first entry, then per further entry a shared-prefix length
//! (and, for variable records, a suffix length), and finally the suffix
//! bytes back to back. Each entry is the shared prefix of its predecessor
//! plus its own suffix. The segment's last eight bytes hold an entry count
//! and are not part of the block stream. Decoding is a pure function of the
//! segment bytes: two decodes over the same segment agree entry for entry.

use vstd::prelude::*;

use crate::error::LarchError;
use crate::slice::SliceReader;

verus! {

/// Variable-byte decode starting at `pos`: bits arrive seven a byte, low
/// bits first; a byte with the high bit set ends the number.
pub open spec fn vbyte_rec(s: Seq<u8>, pos: int, acc: u64, shift: int) -> Option<(u64, int)>
    decreases s.len() - pos,
{
    if pos < 0 || pos >= s.len() {
        None
    } else {
        let b = s[pos];
        if b >= 0x80 {
            if shift == 63 && b > 0x81 {
                None
            } else {
                Some(((acc | (((b & 0x7f) as u64) << (shift as u64))) as u64, pos + 1))
            }
        } else {
            if shift + 7 > 64 {
                None
            } else {
                vbyte_rec(s, pos + 1, (acc | ((b as u64) << (shift as u64))) as u64, shift + 7)
            }
        }
    }
}

/// A variable-byte number at `pos`.
pub open spec fn spec_vbyte(s: Seq<u8>, pos: int) -> Option<(u64, int)> {
    vbyte_rec(s, pos, 0, 0)
}

/// One decode step never moves backwards.
pub proof fn lemma_vbyte_bounds(s: Seq<u8>, pos: int, acc: u64, shift: int)
    ensures
        vbyte_rec(s, pos, acc, shift) is Some ==> pos < (vbyte_rec(s, pos, acc, shift)->0).1
            <= s.len(),
    decreases s.len() - pos,
{
    if 0 <= pos < s.len() {
        let b = s[pos];
        if b < 0x80 && shift + 7 <= 64 {
            lemma_vbyte_bounds(
                s,
                pos + 1,
                (acc | ((b as u64) << (shift as u64))) as u64,
                shift + 7,
            );
        }
    }
}

/// Decode a variable-byte number.
pub fn decode_vbyte(s: &Vec<u8>, pos: usize) -> (r: Option<(u64, usize)>)
    requires
        pos <= s@.len(),
    ensures
        r is Some <==> spec_vbyte(s@, pos as int) is Some,
        r is Some ==> {
            let t = spec_vbyte(s@, pos as int)->0;
            (r->0).0 == t.0 && (r->0).1 == t.1 && pos < (r->0).1 <= s@.len()
        },
{
    proof {
        lemma_vbyte_bounds(s@, pos as int, 0, 0);
    }
    let n = s.len();
    let mut acc: u64 = 0;
    let mut shift: u8 = 0;
    let mut cur = pos;
    loop
        invariant
            pos <= cur <= n,
            n == s@.len(),
            shift <= 63,
            shift % 7 == 0,
            spec_vbyte(s@, pos as int) == vbyte_rec(s@, cur as int, acc, shift as int),
            spec_vbyte(s@, pos as int) is Some ==> pos < (spec_vbyte(s@, pos as int)->0).1
                <= s@.len(),
        decreases n - cur,
    {
        if cur >= n {
            return None;
        }
        let b = s[cur];
        if b >= 0x80 {
            if shift == 63 && b > 0x81 {
                return None;
            }
            return Some((acc | (((b & 0x7f) as u64) << (shift as u64)), cur + 1));
        }
        if shift > 57 {
            return None;
        }
        acc = acc | ((b as u64) << (shift as u64));
        cur = cur + 1;
        shift = shift + 7;
    }
}

/// The record-size code of a block control byte: `None` for an unknown
/// code, else the fixed record size, if any.
pub open spec fn spec_record_size(cw: u8) -> Option<Option<u8>> {
    if cw >> 3 == 0 {
        Some(None)
    } else if cw >> 3 == 3 {
        Some(Some(4u8))
    } else if cw >> 3 == 4 {
        Some(Some(8u8))
    } else {
        None
    }
}

/// The `(shared, size)` table for the entries after a block's head.
pub open spec fn read_meta(s: Seq<u8>, pos: int, n: int, record: Option<u8>) -> Option<
    (Seq<(u64, u64)>, int),
>
    decreases n,
{
    if n <= 0 {
        Some((Seq::empty(), pos))
    } else {
        match spec_vbyte(s, pos) {
            None => None,
            Some((shared, p1)) => match record {
                Some(rs) => if shared > rs {
                    None
                } else {
                    match read_meta(s, p1, n - 1, record) {
                        None => None,
                        Some((rest, pe)) => Some((seq![(shared, (rs - shared) as u64)] + rest, pe)),
                    }
                },
                None => match spec_vbyte(s, p1) {
                    None => None,
                    Some((size, p2)) => match read_meta(s, p2, n - 1, record) {
                        None => None,
                        Some((rest, pe)) => Some((seq![(shared, size)] + rest, pe)),
                    },
                },
            },
        }
    }
}

/// Resolve the suffix table to full entries, front to back.
pub open spec fn build_entries(prev: Seq<u8>, meta: Seq<(u64, u64)>, s: Seq<u8>, dpos: int) -> Option<
    (Seq<Seq<u8>>, int),
>
    decreases meta.len(),
{
    if meta.len() == 0 {
        Some((Seq::empty(), dpos))
    } else {
        let shared = meta[0].0;
        let size = meta[0].1;
        if shared > prev.len() || dpos < 0 || dpos + size > s.len() {
            None
        } else {
            let e = prev.take(shared as int) + s.subrange(dpos, dpos + size);
            match build_entries(e, meta.drop_first(), s, dpos + size) {
                None => None,
                Some((rest, fp)) => Some((seq![e] + rest, fp)),
            }
        }
    }
}

/// Building entries only moves forward through the suffix data.
pub proof fn lemma_build_entries_bounds(prev: Seq<u8>, meta: Seq<(u64, u64)>, s: Seq<u8>, dpos: int)
    requires
        0 <= dpos <= s.len(),
    ensures
        build_entries(prev, meta, s, dpos) is Some ==> dpos <= (build_entries(
            prev,
            meta,
            s,
            dpos,
        )->0).1 <= s.len(),
        build_entries(prev, meta, s, dpos) is Some ==> (build_entries(
            prev,
            meta,
            s,
            dpos,
        )->0).0.len() == meta.len(),
    decreases meta.len(),
{
    if meta.len() > 0 {
        let shared = meta[0].0;
        let size = meta[0].1;
        if !(shared > prev.len() || dpos < 0 || dpos + size > s.len()) {
            let e = prev.take(shared as int) + s.subrange(dpos, dpos + size);
            lemma_build_entries_bounds(e, meta.drop_first(), s, dpos + size);
            let rest = build_entries(e, meta.drop_first(), s, dpos + size);
            if rest is Some {
                assert((build_entries(prev, meta, s, dpos)->0).1 == (rest->0).1);
                assert((build_entries(prev, meta, s, dpos)->0).0.len() == 1 + (rest->0).0.len());
            }
        }
    }
}

/// Parse one block at `pos`: its entries and the position after it.
pub open spec fn spec_parse_block(s: Seq<u8>, pos: int) -> Option<(Seq<Seq<u8>>, int)> {
    if pos < 0 || pos >= s.len() {
        None
    } else {
        let cw = s[pos];
        match spec_record_size(cw) {
            None => None,
            Some(record) => match spec_vbyte(s, pos + 1) {
                None => None,
                Some((first_size, p1)) => if p1 + first_size > s.len() {
                    None
                } else {
                    let head = s.subrange(p1, p1 + first_size);
                    match read_meta(s, p1 + first_size, (cw & 7) as int, record) {
                        None => None,
                        Some((meta, dstart)) => match build_entries(head, meta, s, dstart) {
                            None => None,
                            Some((rest, fp)) => Some((seq![head] + rest, fp)),
                        },
                    }
                },
            },
        }
    }
}

/// All entries of a block stream from `pos` to the end, or the number of
/// entries that precede the block that fails.
pub open spec fn spec_dict_from(s: Seq<u8>, pos: int) -> Result<Seq<Seq<u8>>, int>
    decreases s.len() - pos,
{
    if pos == s.len() {
        Ok(Seq::empty())
    } else {
        match spec_parse_block(s, pos) {
            None => Err(0),
            Some((entries, np)) => if np <= pos || np > s.len() {
                Err(0)
            } else {
                match spec_dict_from(s, np) {
                    Ok(rest) => Ok(entries + rest),
                    Err(k) => Err(entries.len() + k),
                }
            },
        }
    }
}

/// The entries a dictionary segment denotes: its block stream without the
/// trailing count word. A segment shorter than the count word has no
/// entries.
pub open spec fn spec_dict(segment: Seq<u8>) -> Result<Seq<Seq<u8>>, int> {
    if segment.len() < 8 {
        Ok(Seq::empty())
    } else {
        spec_dict_from(segment.take(segment.len() - 8), 0)
    }
}

/// Parse one block of a dictionary payload.
fn parse_block(s: &Vec<u8>, pos: usize) -> (r: Option<(Vec<Vec<u8>>, usize)>)
    requires
        pos < s@.len(),
    ensures
        r is Some <==> spec_parse_block(s@, pos as int) is Some,
        r is Some ==> {
            let t = spec_parse_block(s@, pos as int)->0;
            &&& (r->0).0@.map_values(|e: Vec<u8>| e@) == t.0
            &&& (r->0).1 == t.1
            &&& pos < (r->0).1 <= s@.len()
            &&& (r->0).1 - pos > (r->0).0@.len()
        },
{
    let n = s.len();
    let cw = s[pos];
    let code = cw >> 3;
    let record: Option<u8> = if code == 0 {
        None
    } else if code == 3 {
        Some(4)
    } else if code == 4 {
        Some(8)
    } else {
        proof {
            assert(spec_record_size(cw) is None);
        }
        return None;
    };
    let (first_size, p1) = match decode_vbyte(s, pos + 1) {
        Some(t) => t,
        None => {
            return None;
        },
    };
    if first_size > (n - p1) as u64 {
        return None;
    }
    let head = crate::logarray::copy_range(s, p1, p1 + first_size as usize);
    let ghost ghead = head@;
    let nm: u8 = cw & 7;
    let mut meta: Vec<(u64, u64)> = Vec::new();
    let mut cur = p1 + first_size as usize;
    let mut i: u8 = 0;
    let ghost hstart = cur as int;
    while i < nm
        invariant
            i <= nm,
            nm == (cw & 7),
            cur <= s@.len(),
            hstart + i <= cur,
            n == s@.len(),
            meta@.len() == i,
            pos < n,
            s@[pos as int] == cw,
            record == (spec_record_size(cw)->0),
            spec_record_size(cw) is Some,
            spec_vbyte(s@, pos + 1) is Some,
            (spec_vbyte(s@, pos + 1)->0).0 == first_size,
            (spec_vbyte(s@, pos + 1)->0).1 == p1,
            pos + 1 < p1,
            p1 + first_size <= n,
            hstart == p1 + first_size,
            ghead == s@.subrange(p1 as int, p1 + first_size),
            read_meta(s@, hstart, nm as int, record) == (match read_meta(
                s@,
                cur as int,
                nm - i,
                record,
            ) {
                Some((rest, pe)) => Some::<(Seq<(u64, u64)>, int)>((meta@ + rest, pe)),
                None => None::<(Seq<(u64, u64)>, int)>,
            }),
        decreases nm - i,
    {
        let (shared, pa) = match decode_vbyte(s, cur) {
            Some(t) => t,
            None => {
                return None;
            },
        };
        let entry: (u64, u64);
        let np: usize;
        match record {
            Some(rs) => {
                if shared > rs as u64 {
                    return None;
                }
                entry = (shared, (rs as u64) - shared);
                np = pa;
            },
            None => {
                let (size, pb) = match decode_vbyte(s, pa) {
                    Some(t) => t,
                    None => {
                        return None;
                    },
                };
                entry = (shared, size);
                np = pb;
            },
        }
        let ghost pre_meta = meta@;
        meta.push(entry);
        proof {
            if read_meta(s@, np as int, nm - i - 1, record) is Some {
                let t = read_meta(s@, np as int, nm - i - 1, record)->0;
                assert(pre_meta + (seq![entry] + t.0) =~= meta@ + t.0);
            }
        }
        cur = np;
        i = i + 1;
    }
    let ghost dstart = cur as int;
    proof {
        assert(meta@ + Seq::<(u64, u64)>::empty() =~= meta@);
        lemma_build_entries_bounds(ghead, meta@, s@, dstart);
    }
    let ghost gbuild = build_entries(ghead, meta@, s@, dstart);
    let mut entries: Vec<Vec<u8>> = Vec::new();
    entries.push(head);
    let ghost base = seq![ghead];
    let ghost gprev = ghead;
    let mut k: usize = 0;
    proof {
        assert(entries@.map_values(|e: Vec<u8>| e@) =~= base);
        assert(meta@.skip(0) =~= meta@);
        if gbuild is Some {
            assert((gbuild->0).0.skip(0) =~= (gbuild->0).0);
            assert((gbuild->0).0.take(0) =~= Seq::<Seq<u8>>::empty());
            assert(base + (gbuild->0).0.take(0) =~= base);
        }
    }
    while k < meta.len()
        invariant
            k <= meta@.len(),
            dstart <= cur <= s@.len(),
            n == s@.len(),
            entries@.len() == 1 + k,
            gbuild == build_entries(ghead, meta@, s@, dstart),
            base == seq![ghead],
            pos < n,
            s@[pos as int] == cw,
            record == (spec_record_size(cw)->0),
            spec_record_size(cw) is Some,
            spec_vbyte(s@, pos + 1) is Some,
            (spec_vbyte(s@, pos + 1)->0).0 == first_size,
            (spec_vbyte(s@, pos + 1)->0).1 == p1,
            pos + 1 < p1,
            p1 + first_size <= n,
            hstart == p1 + first_size,
            nm == (cw & 7),
            meta@.len() == nm,
            hstart + nm <= dstart,
            ghead == s@.subrange(p1 as int, p1 + first_size),
            read_meta(s@, hstart, nm as int, record) == Some::<(Seq<(u64, u64)>, int)>(
                (meta@, dstart),
            ),
            gbuild is Some ==> (gbuild->0).0.len() == meta@.len(),
            gprev == entries@[entries@.len() - 1]@,
            gbuild is Some ==> {
                let t = gbuild->0;
                &&& entries@.map_values(|e: Vec<u8>| e@) == base + t.0.take(k as int)
                &&& build_entries(gprev, meta@.skip(k as int), s@, cur as int) == Some::<
                    (Seq<Seq<u8>>, int),
                >((t.0.skip(k as int), t.1))
            },
            gbuild is None ==> build_entries(gprev, meta@.skip(k as int), s@, cur as int) is None,
        decreases meta@.len() - k,
    {
        let (shared, size) = meta[k];
        proof {
            assert(meta@.skip(k as int)[0] == meta@[k as int]);
            assert(meta@.skip(k as int).drop_first() =~= meta@.skip(k + 1));
        }
        let last_ix = entries.len() - 1;
        let plen = entries[last_ix].len();
        if shared > plen as u64 {
            proof {
                assert(build_entries(gprev, meta@.skip(k as int), s@, cur as int) is None);
                assert(gbuild is None);
            }
            return None;
        }
        if size > (n - cur) as u64 {
            proof {
                assert(build_entries(gprev, meta@.skip(k as int), s@, cur as int) is None);
                assert(gbuild is None);
            }
            return None;
        }
        let mut e: Vec<u8> = Vec::new();
        let mut q: usize = 0;
        while q < shared as usize
            invariant
                q <= shared,
                shared <= entries@[last_ix as int]@.len(),
                last_ix == entries@.len() - 1,
                entries@.len() >= 1,
                e@ == entries@[last_ix as int]@.take(q as int),
            decreases shared - q,
        {
            let b = entries[last_ix][q];
            e.push(b);
            proof {
                assert(e@ =~= entries@[last_ix as int]@.take(q + 1));
            }
            q = q + 1;
        }
        let mut q2: usize = cur;
        let ghost emid = e@;
        while q2 < cur + size as usize
            invariant
                cur <= q2 <= cur + size,
                cur + size <= s@.len(),
                n == s@.len(),
                e@ == emid + s@.subrange(cur as int, q2 as int),
            decreases cur + size - q2,
        {
            e.push(s[q2]);
            proof {
                assert(e@ =~= emid + s@.subrange(cur as int, q2 + 1));
            }
            q2 = q2 + 1;
        }
        proof {
            assert(e@ =~= gprev.take(shared as int) + s@.subrange(cur as int, cur + size));
        }
        let ghost pre_entries = entries@;
        entries.push(e);
        proof {
            let newest = entries@[entries@.len() - 1]@;
            assert(entries@.map_values(|x: Vec<u8>| x@) =~= pre_entries.map_values(
                |x: Vec<u8>| x@,
            ).push(newest));
            if gbuild is Some {
                let t = gbuild->0;
                assert(build_entries(gprev, meta@.skip(k as int), s@, cur as int) == Some::<
                    (Seq<Seq<u8>>, int),
                >((t.0.skip(k as int), t.1)));
                assert(t.0.skip(k as int)[0] == newest);
                assert(t.0.take(k + 1).drop_last() =~= t.0.take(k as int));
                assert(t.0.take(k + 1).last() == t.0[k as int]);
                assert(t.0[k as int] == t.0.skip(k as int)[0]);
                assert(base + t.0.take(k + 1) =~= (base + t.0.take(k as int)).push(newest));
                let rest = build_entries(newest, meta@.skip(k + 1), s@, cur + size);
                assert(rest is Some);
                assert(seq![newest] + (rest->0).0 == t.0.skip(k as int));
                assert((rest->0).0 =~= (seq![newest] + (rest->0).0).drop_first());
                assert(t.0.skip(k as int).drop_first() =~= t.0.skip(k + 1));
                assert((rest->0).0 == t.0.skip(k + 1));
                assert((rest->0).1 == t.1);
            }
            gprev = entries@[entries@.len() - 1]@;
        }
        cur = cur + size as usize;
        k = k + 1;
    }
    proof {
        assert(meta@.skip(meta@.len() as int) =~= Seq::<(u64, u64)>::empty());
        assert(gbuild is Some);
        let t = gbuild->0;
        assert(t.0.take(t.0.len() as int) =~= t.0);
        assert(base + t.0 =~= (spec_parse_block(s@, pos as int)->0).0);
        assert(cur == t.1);
    }
    Some((entries, cur))
}

/// Decode a whole dictionary segment into its ordered entries.
///
/// The stream is forward-only: this consumes the reader from its current
/// position to its bound. Failure at entry `i` (1-based) reports
/// `DictionaryCorrupt(i)` and yields nothing.
pub fn decode_dict_segment(reader: &mut SliceReader) -> (r: Result<Vec<Vec<u8>>, LarchError>)
    requires
        old(reader).wf(),
    ensures
        final(reader).wf(),
        ({
            let segment = old(reader).archive@.subrange(
                old(reader).pos as int,
                old(reader).end as int,
            );
            &&& (r is Ok <==> spec_dict(segment) is Ok)
            &&& (r is Ok ==> r->Ok_0@.map_values(|e: Vec<u8>| e@) == spec_dict(segment)->Ok_0)
            &&& (r is Err ==> r->Err_0 == LarchError::DictionaryCorrupt(
                (spec_dict(segment)->Err_0 + 1) as u64,
            ))
        }),
{
    let segment = reader.read_to_end();
    let ghost gseg = segment@;
    if segment.len() < 8 {
        return Ok(Vec::new());
    }
    let payload_len = segment.len() - 8;
    let payload = crate::logarray::copy_range(&segment, 0, payload_len);
    proof {
        assert(payload@ =~= gseg.take(gseg.len() - 8));
    }
    let mut entries: Vec<Vec<u8>> = Vec::new();
    let mut pos: usize = 0;
    while pos < payload_len
        invariant
            pos <= payload@.len(),
            payload_len == payload@.len(),
            entries@.len() <= pos,
            reader.wf(),
            gseg == old(reader).archive@.subrange(old(reader).pos as int, old(reader).end as int),
            gseg.len() >= 8,
            payload@ == gseg.take(gseg.len() - 8),
            spec_dict(gseg) == spec_dict_from(payload@, 0),
            spec_dict_from(payload@, 0) == (match spec_dict_from(payload@, pos as int) {
                Ok(rest) => Ok::<Seq<Seq<u8>>, int>(entries@.map_values(|e: Vec<u8>| e@) + rest),
                Err(k) => Err::<Seq<Seq<u8>>, int>(entries@.map_values(|e: Vec<u8>| e@).len() + k),
            }),
        decreases payload@.len() - pos,
    {
        let (block_entries, np) = match parse_block(&payload, pos) {
            Some(t) => t,
            None => {
                let at: u64 = (entries.len() as u64) + 1;
                return Err(LarchError::DictionaryCorrupt(at));
            },
        };
        let ghost premap = entries@.map_values(|e: Vec<u8>| e@);
        let ghost gmap = block_entries@.map_values(|e: Vec<u8>| e@);
        let ghost prelen = entries@.len();
        let block_entries = block_entries;
        let mut b: usize = 0;
        proof {
            assert(gmap.take(0) =~= Seq::<Seq<u8>>::empty());
            assert(premap + gmap.take(0) =~= premap);
        }
        while b < block_entries.len()
            invariant
                b <= block_entries@.len(),
                gmap == block_entries@.map_values(|e: Vec<u8>| e@),
                entries@.len() == prelen + b,
                entries@.map_values(|e: Vec<u8>| e@) == premap + gmap.take(b as int),
            decreases block_entries@.len() - b,
        {
            let item = crate::logarray::copy_range(&block_entries[b], 0, block_entries[b].len());
            proof {
                assert(item@ =~= gmap[b as int]);
                assert(gmap.take(b + 1).drop_last() =~= gmap.take(b as int));
            }
            let ghost oldmap = entries@.map_values(|e: Vec<u8>| e@);
            entries.push(item);
            proof {
                assert(entries@.map_values(|e: Vec<u8>| e@) =~= oldmap.push(item@));
                assert(premap + gmap.take(b + 1) =~= (premap + gmap.take(b as int)).push(
                    gmap[b as int],
                ));
            }
            b = b + 1;
        }
        proof {
            assert(gmap.take(gmap.len() as int) =~= gmap);
            let after = spec_dict_from(payload@, np as int);
            if after is Ok {
                assert(premap + (gmap + after->Ok_0) =~= (premap + gmap) + after->Ok_0);
            }
        }
        pos = np;
    }
    proof {
        assert(spec_dict_from(payload@, payload@.len() as int) == Ok::<Seq<Seq<u8>>, int>(
            Seq::empty(),
        ));
        assert(entries@.map_values(|e: Vec<u8>| e@) + Seq::<Seq<u8>>::empty() =~= entries@.map_values(
            |e: Vec<u8>| e@,
        ));
    }
    Ok(entries)
}

/// Determinism: two independently opened readers over the same segment
/// denote the same ordered entry sequence, because decoding is a pure
/// function of the segment bytes both decodes consume.
pub proof fn lemma_dict_deterministic(r1: SliceReader, r2: SliceReader)
    requires
        r1.wf(),
        r2.wf(),
        r1.archive@.subrange(r1.pos as int, r1.end as int) == r2.archive@.subrange(
            r2.pos as int,
            r2.end as int,
        ),
    ensures
        spec_dict(r1.archive@.subrange(r1.pos as int, r1.end as int)) == spec_dict(
            r2.archive@.subrange(r2.pos as int, r2.end as int),
        ),
{
}

} // verus!
