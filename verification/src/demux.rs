//! The payload demultiplexer: decodes the length-prefixed records packed in
//! a byte range and re-emits each as a start-code-delimited record.

use vstd::prelude::*;

use crate::bytes::{be32_at, be32_bytes, lemma_be32_round_trip, marker};

verus! {

/// The output stream produced by demultiplexing `data` from position `pos`
/// to the end of the budget: for each record whose declared length fits the
/// remaining budget, the marker followed by the record's payload bytes.
pub open spec fn demux_out(data: Seq<u8>, pos: int) -> Seq<u8>
    decreases data.len() - pos,
{
    if pos + 4 < data.len() {
        let len = be32_at(data, pos);
        if len > data.len() - (pos + 4) {
            Seq::empty()
        } else {
            marker() + data.subrange(pos + 4, pos + 4 + len) + demux_out(data, pos + 4 + len)
        }
    } else {
        Seq::empty()
    }
}

/// The position at which demultiplexing from `pos` stops: after the last
/// record copied, plus the length prefix of a truncated record if one was
/// met, leaving at most 4 trailing budget bytes unread otherwise.
pub open spec fn demux_end(data: Seq<u8>, pos: int) -> int
    decreases data.len() - pos,
{
    if pos + 4 < data.len() {
        let len = be32_at(data, pos);
        if len > data.len() - (pos + 4) {
            pos + 4
        } else {
            demux_end(data, pos + 4 + len)
        }
    } else {
        pos
    }
}

/// Whether demultiplexing from `pos` stops on a record whose declared
/// length exceeds the remaining budget — the truncation signature.
pub open spec fn demux_truncated(data: Seq<u8>, pos: int) -> bool
    decreases data.len() - pos,
{
    if pos + 4 < data.len() {
        let len = be32_at(data, pos);
        if len > data.len() - (pos + 4) {
            true
        } else {
            demux_truncated(data, pos + 4 + len)
        }
    } else {
        false
    }
}

/// What one demultiplexer run produced.
pub struct DemuxResult {
    /// The start-code-delimited output stream.
    pub stream: Vec<u8>,
    /// How many budget bytes were consumed, counted from the start position.
    pub consumed: usize,
    /// Whether the run stopped on a record declaring more bytes than the
    /// budget still held.
    pub truncated: bool,
}

/// Appends `data[from..to]` to `out`.
fn append_range(out: &mut Vec<u8>, data: &[u8], from: usize, to: usize)
    requires
        from <= to <= data@.len(),
    ensures
        final(out)@ == old(out)@ + data@.subrange(from as int, to as int),
{
    let mut i: usize = from;
    while i < to
        invariant
            from <= i <= to <= data@.len(),
            out@ == old(out)@ + data@.subrange(from as int, i as int),
        decreases to - i,
    {
        out.push(data[i]);
        assert(data@.subrange(from as int, i as int).push(data@[i as int]) =~= data@.subrange(
            from as int,
            i + 1,
        ));
        assert(out@ =~= old(out)@ + data@.subrange(from as int, i + 1));
        i = i + 1;
    }
    assert(out@ =~= old(out)@ + data@.subrange(from as int, to as int));
}

/// Demultiplexes the records packed in `data[start..]`, with the budget
/// running to the end of `data`.
///
/// Reads records while a 4-byte length prefix still fits strictly inside the
/// budget; copies each record whose declared length fits what remains as the
/// marker followed by the payload; stops cleanly, keeping everything already
/// produced, on the first record declaring more than the remaining budget.
pub fn demux(data: &[u8], start: usize) -> (r: DemuxResult)
    requires
        start <= data@.len(),
    ensures
        r.stream@ == demux_out(data@, start as int),
        r.consumed == demux_end(data@, start as int) - start,
        r.truncated == demux_truncated(data@, start as int),
{
    let n: usize = data.len();
    let mut pos: usize = start;
    let mut out: Vec<u8> = Vec::new();
    let mut truncated: bool = false;
    while !truncated && n - pos > 4
        invariant
            n == data@.len(),
            start <= pos <= n,
            !truncated ==> demux_out(data@, start as int) == out@ + demux_out(
                data@,
                pos as int,
            ),
            !truncated ==> demux_end(data@, start as int) == demux_end(data@, pos as int),
            !truncated ==> demux_truncated(data@, start as int) == demux_truncated(
                data@,
                pos as int,
            ),
            truncated ==> out@ == demux_out(data@, start as int),
            truncated ==> pos == demux_end(data@, start as int),
            truncated ==> demux_truncated(data@, start as int),
        decreases n - pos, (if truncated { 0int } else { 1int }),
    {
        let len = crate::bytes::read_be32(data, pos) as usize;
        let after_len = pos + 4;
        let remaining = n - after_len;
        if len > remaining {
            assert(demux_out(data@, pos as int) =~= Seq::<u8>::empty());
            assert(out@ + Seq::<u8>::empty() =~= out@);
            pos = after_len;
            truncated = true;
        } else {
            let ghost prev = out@;
            out.push(0u8);
            out.push(0u8);
            out.push(0u8);
            out.push(1u8);
            assert(out@ =~= prev + marker());
            append_range(&mut out, data, after_len, after_len + len);
            proof {
                let p = pos as int;
                assert(demux_out(data@, p) == marker() + data@.subrange(p + 4, p + 4 + len)
                    + demux_out(data@, p + 4 + len));
                assert(out@ =~= prev + marker() + data@.subrange(p + 4, p + 4 + len));
                assert(demux_out(data@, start as int) =~= out@ + demux_out(data@, p + 4 + len));
            }
            pos = after_len + len;
        }
    }
    proof {
        if !truncated {
            assert(demux_out(data@, pos as int) =~= Seq::<u8>::empty());
            assert(out@ + Seq::<u8>::empty() =~= out@);
        }
    }
    DemuxResult { stream: out, consumed: pos - start, truncated }
}

/// Records that can be packed faithfully: each one holds at least one byte
/// (a record that is empty and last would sit inside the 4 trailing budget
/// bytes the demultiplexer deliberately leaves unread) and its length fits
/// the 32-bit prefix.
pub open spec fn well_sized_records(rs: Seq<Seq<u8>>) -> bool {
    forall|i: int| 0 <= i < rs.len() ==> 1 <= (#[trigger] rs[i]).len() < 0x100000000
}

/// The records packed as the payload carries them: each prefixed by its
/// length as a 4-byte big-endian field, with no padding.
pub open spec fn pack_records(rs: Seq<Seq<u8>>) -> Seq<u8>
    decreases rs.len(),
{
    if rs.len() == 0 {
        Seq::empty()
    } else {
        be32_bytes(rs[0].len() as int) + rs[0] + pack_records(rs.skip(1))
    }
}

/// The records as the output stream carries them: each preceded by the
/// start-code marker, in order, with no other separator.
pub open spec fn framed_records(rs: Seq<Seq<u8>>) -> Seq<u8>
    decreases rs.len(),
{
    if rs.len() == 0 {
        Seq::empty()
    } else {
        marker() + rs[0] + framed_records(rs.skip(1))
    }
}

/// Demultiplexing does not depend on where inside the byte sequence the
/// budget begins: dropping the `k` bytes before the start position leaves
/// the output and the truncation flag unchanged and shifts the end
/// position by `k`.
pub proof fn lemma_demux_shift(data: Seq<u8>, k: int, pos: int)
    requires
        0 <= k <= pos <= data.len(),
    ensures
        demux_out(data, pos) == demux_out(data.skip(k), pos - k),
        demux_end(data, pos) == demux_end(data.skip(k), pos - k) + k,
        demux_truncated(data, pos) == demux_truncated(data.skip(k), pos - k),
    decreases data.len() - pos,
{
    let s = data.skip(k);
    assert(s.len() == data.len() - k);
    if pos + 4 < data.len() {
        assert(s[pos - k] == data[pos]);
        assert(s[pos - k + 1] == data[pos + 1]);
        assert(s[pos - k + 2] == data[pos + 2]);
        assert(s[pos - k + 3] == data[pos + 3]);
        assert(be32_at(s, pos - k) == be32_at(data, pos));
        let len = be32_at(data, pos);
        if len <= data.len() - (pos + 4) {
            assert(data.subrange(pos + 4, pos + 4 + len) =~= s.subrange(
                pos - k + 4,
                pos - k + 4 + len,
            ));
            lemma_demux_shift(data, k, pos + 4 + len);
        }
    }
}

/// Demultiplexing a packed record sequence followed by anything emits
/// exactly those records, framed, and then whatever demultiplexing makes
/// of the bytes after them.
pub proof fn lemma_demux_packed(rs: Seq<Seq<u8>>, suffix: Seq<u8>)
    requires
        well_sized_records(rs),
    ensures
        demux_out(pack_records(rs) + suffix, 0) == framed_records(rs) + demux_out(
            pack_records(rs) + suffix,
            pack_records(rs).len() as int,
        ),
        demux_end(pack_records(rs) + suffix, 0) == demux_end(
            pack_records(rs) + suffix,
            pack_records(rs).len() as int,
        ),
        demux_truncated(pack_records(rs) + suffix, 0) == demux_truncated(
            pack_records(rs) + suffix,
            pack_records(rs).len() as int,
        ),
    decreases rs.len(),
{
    let data = pack_records(rs) + suffix;
    let p = pack_records(rs).len() as int;
    if rs.len() == 0 {
        assert(pack_records(rs) =~= Seq::<u8>::empty());
        assert(framed_records(rs) + demux_out(data, 0) =~= demux_out(data, 0));
    } else {
        let r0 = rs[0];
        let l0 = r0.len() as int;
        let rest = rs.skip(1);
        assert(well_sized_records(rest)) by {
            assert forall|i: int| 0 <= i < rest.len() implies 1 <= (#[trigger] rest[i]).len()
                < 0x100000000 by {
                assert(rest[i] == rs[i + 1]);
            }
        }
        let tail = pack_records(rest) + suffix;
        assert(data =~= be32_bytes(l0) + r0 + tail);
        assert(data.subrange(0, 4) =~= be32_bytes(l0));
        lemma_be32_round_trip(data, 0, l0);
        assert(be32_at(data, 0) == l0);
        assert(data.len() == 4 + l0 + tail.len());
        assert(0 + 4 < data.len());
        assert(l0 <= data.len() - 4);
        assert(data.subrange(4, 4 + l0) =~= r0);
        assert(demux_out(data, 0) == marker() + r0 + demux_out(data, 4 + l0));
        assert(demux_end(data, 0) == demux_end(data, 4 + l0));
        assert(demux_truncated(data, 0) == demux_truncated(data, 4 + l0));
        assert(data.skip(4 + l0) =~= tail);
        lemma_demux_shift(data, 4 + l0, 4 + l0);
        lemma_demux_packed(rest, suffix);
        let p1 = pack_records(rest).len() as int;
        assert(p == 4 + l0 + p1);
        lemma_demux_shift(data, 4 + l0, p);
        assert(demux_out(data, 4 + l0) == framed_records(rest) + demux_out(data, p));
        assert(framed_records(rs) == marker() + r0 + framed_records(rest));
        assert(marker() + r0 + (framed_records(rest) + demux_out(data, p)) =~= framed_records(rs)
            + demux_out(data, p));
    }
}

/// Round-trip framing: demultiplexing a buffer that is exactly a packed
/// record sequence, with the budget the whole buffer, emits every record,
/// framed and in order, consumes the whole buffer, and meets no
/// truncation.
pub proof fn lemma_round_trip(rs: Seq<Seq<u8>>)
    requires
        well_sized_records(rs),
    ensures
        demux_out(pack_records(rs), 0) == framed_records(rs),
        demux_end(pack_records(rs), 0) == pack_records(rs).len(),
        !demux_truncated(pack_records(rs), 0),
{
    let p = pack_records(rs);
    lemma_demux_packed(rs, Seq::empty());
    assert(p + Seq::<u8>::empty() =~= p);
    assert(demux_out(p, p.len() as int) =~= Seq::<u8>::empty());
    assert(framed_records(rs) + Seq::<u8>::empty() =~= framed_records(rs));
}

/// Truncation tolerance: when packed records are followed by a length
/// prefix declaring more bytes than remain, the output holds exactly the
/// earlier, fully valid records and nothing of the tail; the run stops
/// just after that prefix with the truncation flag raised, not a fatal
/// error.
pub proof fn lemma_truncation_tolerance(rs: Seq<Seq<u8>>, tail: Seq<u8>)
    requires
        well_sized_records(rs),
        tail.len() > 4,
        be32_at(tail, 0) > tail.len() - 4,
    ensures
        demux_out(pack_records(rs) + tail, 0) == framed_records(rs),
        demux_end(pack_records(rs) + tail, 0) == pack_records(rs).len() + 4,
        demux_truncated(pack_records(rs) + tail, 0),
{
    let data = pack_records(rs) + tail;
    let p = pack_records(rs).len() as int;
    lemma_demux_packed(rs, tail);
    assert(data[p] == tail[0]);
    assert(data[p + 1] == tail[1]);
    assert(data[p + 2] == tail[2]);
    assert(data[p + 3] == tail[3]);
    assert(be32_at(data, p) == be32_at(tail, 0));
    assert(demux_out(data, p) =~= Seq::<u8>::empty());
    assert(framed_records(rs) + Seq::<u8>::empty() =~= framed_records(rs));
}

/// Boundary underrun: when at most 4 budget bytes follow the packed
/// records, no further record is attempted; those trailing bytes stay
/// unconsumed and the run ends without truncation.
pub proof fn lemma_boundary_underrun(rs: Seq<Seq<u8>>, tail: Seq<u8>)
    requires
        well_sized_records(rs),
        tail.len() <= 4,
    ensures
        demux_out(pack_records(rs) + tail, 0) == framed_records(rs),
        demux_end(pack_records(rs) + tail, 0) == pack_records(rs).len(),
        !demux_truncated(pack_records(rs) + tail, 0),
{
    let data = pack_records(rs) + tail;
    let p = pack_records(rs).len() as int;
    lemma_demux_packed(rs, tail);
    assert(!(p + 4 < data.len()));
    assert(demux_out(data, p) =~= Seq::<u8>::empty());
    assert(framed_records(rs) + Seq::<u8>::empty() =~= framed_records(rs));
}

} // verus!
