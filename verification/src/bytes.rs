//! Big-endian integer fields and the start-code marker, as mathematical
//! functions over byte sequences.

use vstd::prelude::*;

verus! {

/// The value of the 32-bit big-endian field at `pos`.
pub open spec fn be32_at(data: Seq<u8>, pos: int) -> int
    recommends
        0 <= pos,
        pos + 4 <= data.len(),
{
    data[pos] * 0x1000000 + data[pos + 1] * 0x10000 + data[pos + 2] * 0x100 + data[pos + 3]
}

/// The value of the 64-bit big-endian field at `pos`.
pub open spec fn be64_at(data: Seq<u8>, pos: int) -> int
    recommends
        0 <= pos,
        pos + 8 <= data.len(),
{
    be32_at(data, pos) * 0x100000000 + be32_at(data, pos + 4)
}

/// The 4-byte big-endian encoding of `n`.
pub open spec fn be32_bytes(n: int) -> Seq<u8>
    recommends
        0 <= n < 0x100000000,
{
    seq![
        ((n / 0x1000000) % 0x100) as u8,
        ((n / 0x10000) % 0x100) as u8,
        ((n / 0x100) % 0x100) as u8,
        (n % 0x100) as u8,
    ]
}

/// The fixed start-code marker that delimits records in the output stream.
pub open spec fn marker() -> Seq<u8> {
    seq![0u8, 0u8, 0u8, 1u8]
}

/// Decoding inverts encoding: the 32-bit field written by `be32_bytes`
/// reads back as the value it was made from.
pub proof fn lemma_be32_round_trip(data: Seq<u8>, pos: int, n: int)
    requires
        0 <= n < 0x100000000,
        0 <= pos,
        pos + 4 <= data.len(),
        data.subrange(pos, pos + 4) == be32_bytes(n),
    ensures
        be32_at(data, pos) == n,
{
    assert(data[pos] == be32_bytes(n)[0]);
    assert(data[pos + 1] == be32_bytes(n)[1]);
    assert(data[pos + 2] == be32_bytes(n)[2]);
    assert(data[pos + 3] == be32_bytes(n)[3]);
    let a = (n / 0x1000000) % 0x100;
    let b = (n / 0x10000) % 0x100;
    let c = (n / 0x100) % 0x100;
    let d = n % 0x100;
    assert(a * 0x1000000 + b * 0x10000 + c * 0x100 + d == n) by (nonlinear_arith)
        requires
            0 <= n < 0x100000000,
            a == (n / 0x1000000) % 0x100,
            b == (n / 0x10000) % 0x100,
            c == (n / 0x100) % 0x100,
            d == n % 0x100,
    ;
}

/// Reads the 32-bit big-endian field at `pos`.
pub fn read_be32(data: &[u8], pos: usize) -> (r: u32)
    requires
        pos + 4 <= data@.len(),
    ensures
        r == be32_at(data@, pos as int),
{
    let b0 = data[pos] as u32;
    let b1 = data[pos + 1] as u32;
    let b2 = data[pos + 2] as u32;
    let b3 = data[pos + 3] as u32;
    b0 * 0x1000000 + b1 * 0x10000 + b2 * 0x100 + b3
}

} // verus!
