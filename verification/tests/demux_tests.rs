use mdat_extract::demux::demux;

const MARKER: [u8; 4] = [0x00, 0x00, 0x00, 0x01];

fn be32(n: u32) -> [u8; 4] {
    [(n >> 24) as u8, (n >> 16) as u8, (n >> 8) as u8, n as u8]
}

fn pack(records: &[&[u8]]) -> Vec<u8> {
    let mut out: Vec<u8> = Vec::new();
    for r in records {
        out.extend_from_slice(&be32(r.len() as u32));
        out.extend_from_slice(r);
    }
    out
}

fn framed(records: &[&[u8]]) -> Vec<u8> {
    let mut out: Vec<u8> = Vec::new();
    for r in records {
        out.extend_from_slice(&MARKER);
        out.extend_from_slice(r);
    }
    out
}

#[test]
fn round_trip_two_records() {
    let records: [&[u8]; 2] = [&[0xAA, 0xBB, 0xCC, 0xDD], &[1, 2, 3, 4, 5, 6, 7, 8]];
    let data = pack(&records);
    let r = demux(&data, 0);
    assert_eq!(r.stream, framed(&records));
    assert_eq!(r.consumed, data.len());
    assert!(!r.truncated);
}

#[test]
fn round_trip_single_byte_record() {
    let records: [&[u8]; 1] = [&[0x42]];
    let data = pack(&records);
    let r = demux(&data, 0);
    assert_eq!(r.stream, vec![0, 0, 0, 1, 0x42]);
    assert_eq!(r.consumed, 5);
    assert!(!r.truncated);
}

#[test]
fn truncation_stops_cleanly() {
    let records: [&[u8]; 2] = [&[9, 9], &[7]];
    let mut data = pack(&records);
    // A last record declaring 10 bytes where only 3 remain in the budget.
    data.extend_from_slice(&be32(10));
    data.extend_from_slice(&[1, 2, 3]);
    let r = demux(&data, 0);
    assert_eq!(r.stream, framed(&records));
    assert_eq!(r.consumed, pack(&records).len() + 4);
    assert!(r.truncated);
}

#[test]
fn truncated_tail_alone() {
    // Budget opens on a prefix declaring far more than remains.
    let mut data = be32(1000).to_vec();
    data.push(0xEE);
    let r = demux(&data, 0);
    assert_eq!(r.stream, Vec::<u8>::new());
    assert_eq!(r.consumed, 4);
    assert!(r.truncated);
}

#[test]
fn boundary_underrun_leaves_tail() {
    let records: [&[u8]; 1] = [&[5, 6, 7]];
    for taillen in 1..=4usize {
        let mut data = pack(&records);
        for _ in 0..taillen {
            data.push(0xFF);
        }
        let r = demux(&data, 0);
        assert_eq!(r.stream, framed(&records));
        assert_eq!(r.consumed, pack(&records).len());
        assert!(!r.truncated);
    }
}

#[test]
fn empty_budget() {
    let data: Vec<u8> = Vec::new();
    let r = demux(&data, 0);
    assert_eq!(r.stream, Vec::<u8>::new());
    assert_eq!(r.consumed, 0);
    assert!(!r.truncated);
}

#[test]
fn four_byte_budget_reads_nothing() {
    let data = vec![0, 0, 0, 2];
    let r = demux(&data, 0);
    assert_eq!(r.stream, Vec::<u8>::new());
    assert_eq!(r.consumed, 0);
    assert!(!r.truncated);
}

#[test]
fn exact_fit_record() {
    let data = vec![0, 0, 0, 2, 7, 8];
    let r = demux(&data, 0);
    assert_eq!(r.stream, vec![0, 0, 0, 1, 7, 8]);
    assert_eq!(r.consumed, 6);
    assert!(!r.truncated);
}

#[test]
fn zero_length_record_mid_stream() {
    // A zero-length record followed by a one-byte record: both are framed.
    let data = vec![0, 0, 0, 0, 0, 0, 0, 1, 9];
    let r = demux(&data, 0);
    assert_eq!(r.stream, vec![0, 0, 0, 1, 0, 0, 0, 1, 9]);
    assert_eq!(r.consumed, 9);
    assert!(!r.truncated);
}

#[test]
fn trailing_zero_length_record_left_unread() {
    // A zero-length record sitting in the last 4 budget bytes is never
    // attempted: the length-prefix guard is a strict inequality.
    let records: [&[u8]; 1] = [&[3, 4]];
    let mut data = pack(&records);
    data.extend_from_slice(&be32(0));
    let r = demux(&data, 0);
    assert_eq!(r.stream, framed(&records));
    assert_eq!(r.consumed, pack(&records).len());
    assert!(!r.truncated);
}

#[test]
fn demux_from_offset() {
    let records: [&[u8]; 1] = [&[0x10, 0x20]];
    let mut data = vec![0xDE, 0xAD, 0xBE, 0xEF];
    let packed = pack(&records);
    data.extend_from_slice(&packed);
    let r = demux(&data, 4);
    assert_eq!(r.stream, framed(&records));
    assert_eq!(r.consumed, packed.len());
    assert!(!r.truncated);
}
