//! Integers in network byte order.

use vstd::prelude::*;

verus! {

/// The two bytes of `x`, most significant first.
pub open spec fn be16(x: u16) -> Seq<u8> {
    seq![(x / 0x100) as u8, (x % 0x100) as u8]
}

/// The four bytes of `x`, most significant first.
pub open spec fn be32(x: u32) -> Seq<u8> {
    seq![
        (x / 0x100_0000) as u8,
        ((x / 0x1_0000) % 0x100) as u8,
        ((x / 0x100) % 0x100) as u8,
        (x % 0x100) as u8,
    ]
}

/// The eight bytes of `x`, most significant first.
pub open spec fn be64(x: u64) -> Seq<u8> {
    be32((x / 0x1_0000_0000) as u32) + be32((x % 0x1_0000_0000) as u32)
}

/// The number whose bytes start `s`.
pub open spec fn of_be16(s: Seq<u8>) -> u16 {
    (s[0] * 0x100 + s[1]) as u16
}

/// The number whose bytes start `s`.
pub open spec fn of_be32(s: Seq<u8>) -> u32 {
    (s[0] * 0x100_0000 + s[1] * 0x1_0000 + s[2] * 0x100 + s[3]) as u32
}

/// The number whose bytes start `s`.
pub open spec fn of_be64(s: Seq<u8>) -> u64 {
    (of_be32(s) * 0x1_0000_0000 + of_be32(s.skip(4))) as u64
}

/// Reading two bytes gives back the number that was written.
pub proof fn be16_round_trip(x: u16, rest: Seq<u8>)
    ensures
        of_be16(be16(x) + rest) == x,
{
}

/// Reading four bytes gives back the number that was written.
pub proof fn be32_round_trip(x: u32, rest: Seq<u8>)
    ensures
        of_be32(be32(x) + rest) == x,
{
}

/// Reading eight bytes gives back the number that was written.
pub proof fn be64_round_trip(x: u64, rest: Seq<u8>)
    ensures
        of_be64(be64(x) + rest) == x,
{
    let high = (x / 0x1_0000_0000) as u32;
    let low = (x % 0x1_0000_0000) as u32;
    assert((be64(x) + rest) =~= be32(high) + (be32(low) + rest));
    be32_round_trip(high, be32(low) + rest);
    assert((be64(x) + rest).skip(4) =~= be32(low) + rest);
    be32_round_trip(low, rest);
}

/// Append two bytes.
pub fn write_u16(out: &mut Vec<u8>, x: u16)
    ensures
        final(out)@ == old(out)@ + be16(x),
{
    out.push((x / 0x100) as u8);
    out.push((x % 0x100) as u8);
    assert(out@ =~= old(out)@ + be16(x));
}

/// Append four bytes.
pub fn write_u32(out: &mut Vec<u8>, x: u32)
    ensures
        final(out)@ == old(out)@ + be32(x),
{
    out.push((x / 0x100_0000) as u8);
    out.push(((x / 0x1_0000) % 0x100) as u8);
    out.push(((x / 0x100) % 0x100) as u8);
    out.push((x % 0x100) as u8);
    assert(out@ =~= old(out)@ + be32(x));
}

/// Append eight bytes.
pub fn write_u64(out: &mut Vec<u8>, x: u64)
    ensures
        final(out)@ == old(out)@ + be64(x),
{
    write_u32(out, (x / 0x1_0000_0000) as u32);
    write_u32(out, (x % 0x1_0000_0000) as u32);
    assert(out@ =~= old(out)@ + be64(x));
}

/// The number at `at`.
pub fn read_u16(b: &[u8], at: usize) -> (r: u16)
    requires
        at + 2 <= b.len(),
    ensures
        r == of_be16(b@.skip(at as int)),
{
    (b[at] as u16) * 0x100 + (b[at + 1] as u16)
}

/// The number at `at`.
pub fn read_u32(b: &[u8], at: usize) -> (r: u32)
    requires
        at + 4 <= b.len(),
    ensures
        r == of_be32(b@.skip(at as int)),
{
    (b[at] as u32) * 0x100_0000 + (b[at + 1] as u32) * 0x1_0000 + (b[at + 2] as u32) * 0x100 + (b[at
        + 3] as u32)
}

/// The number at `at`.
pub fn read_u64(b: &[u8], at: usize) -> (r: u64)
    requires
        at + 8 <= b.len(),
    ensures
        r == of_be64(b@.skip(at as int)),
{
    assert(b@.skip(at as int).skip(4) =~= b@.skip(at + 4));
    (read_u32(b, at) as u64) * 0x1_0000_0000 + (read_u32(b, at + 4) as u64)
}

} // verus!
