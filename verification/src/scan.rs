//! The container scanner: walks the flat sequence of top-level boxes,
//! delegating header decoding and box skipping to the generic container
//! library, until it meets the payload box and drains it through the
//! demultiplexer.

use vstd::prelude::*;

use crate::bytes::{be32_at, be64_at};
use crate::demux::{demux, demux_end, demux_out, demux_truncated, DemuxResult};

verus! {

/// The four-character type code of the payload box, `mdat`, as the
/// big-endian value of its four bytes.
pub const MDAT_TAG: u32 = 0x6d646174;

/// A decoded box header: the type tag, the declared size of the box in
/// bytes (header included), and the position just after the header.
pub struct SpecHeader {
    pub tag: int,
    pub size: int,
    pub after: int,
}

/// What the generic box-header decoder yields at `pos`: the big-endian
/// 32-bit size then 32-bit tag; a size field of 1 announces an 8-byte
/// large-size field whose value, less the 8 bytes it itself occupies,
/// replaces the size (0 stays 0; 1 through 15 is malformed). `None` when
/// the bytes run out before the header is complete or the large size is
/// malformed.
pub open spec fn spec_header(data: Seq<u8>, pos: int) -> Option<SpecHeader> {
    if 0 <= pos && pos + 8 <= data.len() {
        let size32 = be32_at(data, pos);
        let tag = be32_at(data, pos + 4);
        if size32 == 1 {
            if pos + 16 <= data.len() {
                let largesize = be64_at(data, pos + 8);
                if largesize == 0 {
                    Option::Some(SpecHeader { tag, size: 0, after: pos + 16 })
                } else if largesize <= 15 {
                    Option::None
                } else {
                    Option::Some(SpecHeader { tag, size: largesize - 8, after: pos + 16 })
                }
            } else {
                Option::None
            }
        } else {
            Option::Some(SpecHeader { tag, size: size32, after: pos + 8 })
        }
    } else {
        Option::None
    }
}

/// How a scan of `data` from box position `pos` ends.
pub enum SpecScan {
    /// The payload box was met; its body begins at `body_offset`.
    Found { body_offset: int },
    /// The boxes ran out, or a zero-size box stopped the scan, without a
    /// payload box.
    NoPayload,
    /// A box header could not be decoded.
    HeaderError,
    /// A box declared more bytes than remain in the input.
    Oversized,
}

/// The scan: read the header at `pos`; fail on an undecodable header or on
/// a declared size exceeding what remains; stop at the payload box; stop
/// defensively after a zero-size box; otherwise step over the box and go
/// on while boxes remain.
pub open spec fn spec_scan(data: Seq<u8>, pos: int) -> SpecScan
    decreases data.len() - pos,
{
    if 0 <= pos && pos < data.len() {
        match spec_header(data, pos) {
            Option::None => SpecScan::HeaderError,
            Option::Some(h) => {
                if h.size > data.len() - pos {
                    SpecScan::Oversized
                } else if h.tag == MDAT_TAG {
                    SpecScan::Found { body_offset: h.after }
                } else if h.size == 0 {
                    SpecScan::NoPayload
                } else if h.after - 8 + h.size >= data.len() {
                    SpecScan::NoPayload
                } else {
                    spec_scan(data, h.after - 8 + h.size)
                }
            },
        }
    } else {
        SpecScan::NoPayload
    }
}

/// Relies on mp4::BoxHeader::read: it reads 8 bytes — a big-endian 32-bit
/// size then a 32-bit type tag — and, when the size field is 1, 8 more
/// bytes of big-endian large size, returning that value minus 8 as the
/// size (0 stays 0; 1 through 15 is rejected as invalid data); it fails
/// when the bytes run out. The tag is returned through
/// u32::from(BoxType), which inverts BoxType::from(u32) for every value.
#[verifier::external_body]
fn read_box_header(data: &[u8], pos: usize) -> (r: Option<(u32, u64, u64)>)
    ensures
        match spec_header(data@, pos as int) {
            Option::Some(h) => {
                &&& r matches Option::Some(t)
                &&& t.0 == h.tag
                &&& t.1 == h.size
                &&& t.2 == h.after
            },
            Option::None => r is None,
        },
{
    let mut cur = std::io::Cursor::new(data);
    cur.set_position(pos as u64);
    match mp4::BoxHeader::read(&mut cur) {
        Ok(h) => Some((u32::from(h.name), h.size, cur.position())),
        Err(_) => None,
    }
}

/// Relies on mp4::skip_box: from a source positioned just after an 8-byte
/// box header, it seeks to the box's start position plus the declared
/// size, that is to (position - 8) + size; on an in-memory source a
/// forward absolute seek cannot fail.
#[verifier::external_body]
fn skip_past_box(data: &[u8], after_header: u64, size: u64) -> (r: u64)
    requires
        8 <= after_header,
        after_header - 8 + size <= u64::MAX,
    ensures
        r == after_header - 8 + size,
{
    let mut cur = std::io::Cursor::new(data);
    cur.set_position(after_header);
    mp4::skip_box(&mut cur, size).unwrap();
    cur.position()
}

/// What a scan that ran to an end without a fatal error yields.
pub enum ScanOutcome {
    /// The payload box was found and drained.
    Found {
        /// Where the payload body begins: the position just after the
        /// payload box's header.
        body_offset: usize,
        /// What the demultiplexer made of every byte from `body_offset` to
        /// the end of the input.
        payload: DemuxResult,
    },
    /// No payload box was met.
    NoPayload,
}

/// A fatal structural error: nothing downstream is attempted.
#[derive(Clone, Copy, PartialEq, Eq, Structural, Debug)]
pub enum ScanError {
    /// A box header could not be decoded from the remaining bytes.
    HeaderRead,
    /// A box declared a size exceeding the bytes remaining in the input.
    Oversized,
}

/// Scans the top-level boxes of `data` from the start. On meeting the
/// payload box, demultiplexes every remaining byte of the input and
/// returns without visiting any later box; otherwise skips each box by its
/// declared size, stopping defensively after a zero-size box.
pub fn scan(data: &[u8]) -> (r: Result<ScanOutcome, ScanError>)
    requires
        data@.len() < 0x8000000000000000,
    ensures
        match spec_scan(data@, 0) {
            SpecScan::Found { body_offset } => {
                &&& r matches Ok(ScanOutcome::Found { body_offset: off, payload })
                &&& off == body_offset
                &&& payload.stream@ == demux_out(data@, body_offset)
                &&& payload.consumed == demux_end(data@, body_offset) - body_offset
                &&& payload.truncated == demux_truncated(data@, body_offset)
            },
            SpecScan::NoPayload => r matches Ok(ScanOutcome::NoPayload),
            SpecScan::HeaderError => r == Err::<ScanOutcome, ScanError>(ScanError::HeaderRead),
            SpecScan::Oversized => r == Err::<ScanOutcome, ScanError>(ScanError::Oversized),
        },
{
    let n: usize = data.len();
    let mut cur: u64 = 0;
    while cur < n as u64
        invariant
            n == data@.len(),
            n < 0x8000000000000000,
            cur <= n,
            spec_scan(data@, 0) == spec_scan(data@, cur as int),
        decreases n - cur,
    {
        match read_box_header(data, cur as usize) {
            None => {
                return Err(ScanError::HeaderRead);
            },
            Some((tag, size, after)) => {
                proof {
                    let h = spec_header(data@, cur as int).unwrap();
                    assert(h.after <= data@.len());
                    assert(h.after == cur + 8 || h.after == cur + 16);
                    assert(h.size == 0 || h.size >= 2);
                }
                if size > n as u64 - cur {
                    return Err(ScanError::Oversized);
                }
                if tag == MDAT_TAG {
                    let off: usize = after as usize;
                    let payload = demux(data, off);
                    return Ok(ScanOutcome::Found { body_offset: off, payload });
                }
                let next = skip_past_box(data, after, size);
                if size == 0 {
                    return Ok(ScanOutcome::NoPayload);
                }
                if next >= n as u64 {
                    return Ok(ScanOutcome::NoPayload);
                }
                cur = next;
            },
        }
    }
    Ok(ScanOutcome::NoPayload)
}

/// A box in the plain 8-byte-header form that the scanner steps over: its
/// size field holds its whole length, and its tag is not the payload tag.
pub open spec fn is_plain_box(b: Seq<u8>) -> bool {
    &&& b.len() >= 8
    &&& be32_at(b, 0) == b.len()
    &&& be32_at(b, 4) != MDAT_TAG
}

/// A flat sequence of boxes laid end to end.
pub open spec fn pack_boxes(bs: Seq<Seq<u8>>) -> Seq<u8>
    decreases bs.len(),
{
    if bs.len() == 0 {
        Seq::empty()
    } else {
        bs[0] + pack_boxes(bs.skip(1))
    }
}

pub open spec fn all_plain_boxes(bs: Seq<Seq<u8>>) -> bool {
    forall|i: int| 0 <= i < bs.len() ==> is_plain_box(#[trigger] bs[i])
}

/// Skipping: a scan standing at a run of plain non-payload boxes ends as
/// the scan standing just after them ends.
pub proof fn lemma_scan_over_boxes(data: Seq<u8>, pos: int, bs: Seq<Seq<u8>>)
    requires
        0 <= pos,
        pos + pack_boxes(bs).len() <= data.len(),
        data.subrange(pos, pos + pack_boxes(bs).len() as int) == pack_boxes(bs),
        all_plain_boxes(bs),
    ensures
        spec_scan(data, pos) == spec_scan(data, pos + pack_boxes(bs).len() as int),
    decreases bs.len(),
{
    if bs.len() > 0 {
        let b = bs[0];
        let rest = bs.skip(1);
        let packed = pack_boxes(bs);
        assert(is_plain_box(b));
        assert(packed =~= b + pack_boxes(rest));
        assert(all_plain_boxes(rest)) by {
            assert forall|i: int| 0 <= i < rest.len() implies is_plain_box(
                #[trigger] rest[i],
            ) by {
                assert(rest[i] == bs[i + 1]);
            }
        }
        let sub = data.subrange(pos, pos + packed.len() as int);
        assert(data[pos] == sub[0] && sub[0] == b[0]);
        assert(data[pos + 1] == sub[1] && sub[1] == b[1]);
        assert(data[pos + 2] == sub[2] && sub[2] == b[2]);
        assert(data[pos + 3] == sub[3] && sub[3] == b[3]);
        assert(data[pos + 4] == sub[4] && sub[4] == b[4]);
        assert(data[pos + 5] == sub[5] && sub[5] == b[5]);
        assert(data[pos + 6] == sub[6] && sub[6] == b[6]);
        assert(data[pos + 7] == sub[7] && sub[7] == b[7]);
        assert(be32_at(data, pos) == be32_at(b, 0));
        assert(be32_at(data, pos + 4) == be32_at(b, 4));
        assert(be32_at(b, 0) == b.len());
        let np = pos + b.len() as int;
        assert(spec_header(data, pos) == Option::Some(
            SpecHeader { tag: be32_at(b, 4), size: b.len() as int, after: pos + 8 },
        ));
        assert(spec_scan(data, pos) == spec_scan(data, np));
        assert(data.subrange(np, np + pack_boxes(rest).len() as int) =~= pack_boxes(rest)) by {
            assert forall|j: int| 0 <= j < pack_boxes(rest).len() implies data.subrange(
                np,
                np + pack_boxes(rest).len() as int,
            )[j] == pack_boxes(rest)[j] by {
                assert(data[pos + (b.len() + j)] == packed[b.len() + j]);
                assert(packed[b.len() + j] == pack_boxes(rest)[j]);
            }
        }
        lemma_scan_over_boxes(data, np, rest);
    }
}

/// Oversized box rejection: a run of plain boxes followed by a box whose
/// 8-byte header declares more bytes than the whole of what remains ends
/// the scan in the fatal structural error, whatever the box's tag and
/// before any payload processing.
pub proof fn lemma_oversized_box(bs: Seq<Seq<u8>>, hdr: Seq<u8>, rest: Seq<u8>)
    requires
        all_plain_boxes(bs),
        hdr.len() == 8,
        be32_at(hdr, 0) != 1,
        be32_at(hdr, 0) > 8 + rest.len(),
    ensures
        spec_scan(pack_boxes(bs) + hdr + rest, 0) == SpecScan::Oversized,
{
    let data = pack_boxes(bs) + hdr + rest;
    let p = pack_boxes(bs).len() as int;
    assert(data.subrange(0, p) =~= pack_boxes(bs));
    lemma_scan_over_boxes(data, 0, bs);
    assert(data[p] == hdr[0]);
    assert(data[p + 1] == hdr[1]);
    assert(data[p + 2] == hdr[2]);
    assert(data[p + 3] == hdr[3]);
    assert(data[p + 4] == hdr[4]);
    assert(data[p + 5] == hdr[5]);
    assert(data[p + 6] == hdr[6]);
    assert(data[p + 7] == hdr[7]);
    assert(be32_at(data, p) == be32_at(hdr, 0));
    assert(be32_at(data, p + 4) == be32_at(hdr, 4));
    assert(spec_header(data, p) == Option::Some(
        SpecHeader { tag: be32_at(hdr, 4), size: be32_at(hdr, 0), after: p + 8 },
    ));
    assert(spec_scan(data, p) == SpecScan::Oversized);
}

/// Single-payload selection: a run of plain non-payload boxes followed by
/// a payload box ends the scan at that box, its body beginning just after
/// the 8-byte header, whatever bytes follow — later boxes are never
/// visited as boxes, their bytes counting toward the payload budget.
pub proof fn lemma_single_payload_selection(bs: Seq<Seq<u8>>, hdr: Seq<u8>, body: Seq<u8>)
    requires
        all_plain_boxes(bs),
        hdr.len() == 8,
        be32_at(hdr, 0) != 1,
        be32_at(hdr, 4) == MDAT_TAG,
        be32_at(hdr, 0) <= 8 + body.len(),
    ensures
        spec_scan(pack_boxes(bs) + hdr + body, 0) == (SpecScan::Found {
            body_offset: pack_boxes(bs).len() as int + 8,
        }),
{
    let data = pack_boxes(bs) + hdr + body;
    let p = pack_boxes(bs).len() as int;
    assert(data.subrange(0, p) =~= pack_boxes(bs));
    lemma_scan_over_boxes(data, 0, bs);
    assert(data[p] == hdr[0]);
    assert(data[p + 1] == hdr[1]);
    assert(data[p + 2] == hdr[2]);
    assert(data[p + 3] == hdr[3]);
    assert(data[p + 4] == hdr[4]);
    assert(data[p + 5] == hdr[5]);
    assert(data[p + 6] == hdr[6]);
    assert(data[p + 7] == hdr[7]);
    assert(be32_at(data, p) == be32_at(hdr, 0));
    assert(be32_at(data, p + 4) == be32_at(hdr, 4));
    assert(spec_header(data, p) == Option::Some(
        SpecHeader { tag: MDAT_TAG as int, size: be32_at(hdr, 0), after: p + 8 },
    ));
    assert(spec_scan(data, p) == (SpecScan::Found { body_offset: p + 8 }));
}

} // verus!
