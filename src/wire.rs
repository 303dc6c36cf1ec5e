//! Big-endian integers as they appear on the peer wire.

use vstd::prelude::*;

verus! {

/// The four big-endian bytes of `x`.
pub open spec fn be_u32_bytes(x: u32) -> Seq<u8> {
    seq![
        (x / 0x100_0000) as u8,
        ((x / 0x1_0000) % 0x100) as u8,
        ((x / 0x100) % 0x100) as u8,
        (x % 0x100) as u8,
    ]
}

/// The number that four bytes spell in big-endian order.
pub open spec fn be_u32_value(b: Seq<u8>) -> int
    recommends
        b.len() == 4,
{
    b[0] * 0x100_0000 + b[1] * 0x1_0000 + b[2] * 0x100 + b[3]
}

/// The number that two bytes spell in big-endian order.
pub open spec fn be_u16_value(hi: u8, lo: u8) -> int {
    hi * 0x100 + lo
}

/// Reading back the bytes of a number gives the number.
pub proof fn lemma_be_u32_round_trip(x: u32)
    ensures
        be_u32_value(be_u32_bytes(x)) == x,
{
    let a = x / 0x100_0000;
    let b = (x / 0x1_0000) % 0x100;
    let c = (x / 0x100) % 0x100;
    let d = x % 0x100;
    assert(a * 0x100_0000 + b * 0x1_0000 + c * 0x100 + d == x) by (nonlinear_arith)
        requires
            a == x / 0x100_0000,
            b == (x / 0x1_0000) % 0x100,
            c == (x / 0x100) % 0x100,
            d == x % 0x100,
            0 <= x < 0x1_0000_0000,
    ;
}

/// The big-endian bytes of `x`.
pub fn u32_be_bytes(x: u32) -> (r: [u8; 4])
    ensures
        r@ == be_u32_bytes(x),
{
    [(x / 0x100_0000) as u8, ((x / 0x1_0000) % 0x100) as u8, ((x / 0x100) % 0x100) as u8, (x % 0x100) as u8]
}

/// Appends the big-endian bytes of `x` to `out`.
pub fn push_u32_be(out: &mut Vec<u8>, x: u32)
    ensures
        final(out)@ == old(out)@ + be_u32_bytes(x),
{
    let b = u32_be_bytes(x);
    out.push(b[0]);
    out.push(b[1]);
    out.push(b[2]);
    out.push(b[3]);
    assert(out@ =~= old(out)@ + be_u32_bytes(x));
}

/// Reads a big-endian `u32` at offset `at` of `b`.
pub fn read_u32_be(b: &[u8], at: usize) -> (r: u32)
    requires
        at + 4 <= b@.len(),
    ensures
        r == be_u32_value(b@.subrange(at as int, at + 4)),
{
    (b[at] as u32) * 0x100_0000 + (b[at + 1] as u32) * 0x1_0000 + (b[at + 2] as u32) * 0x100 + (b[at + 3] as u32)
}

} // verus!
