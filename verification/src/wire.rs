//! Big-endian integers as they travel on the wire.

use vstd::prelude::*;

verus! {

/// The two bytes of `x`, most significant first.
pub open spec fn be16(x: u16) -> Seq<u8> {
    seq![(x / 256) as u8, (x % 256) as u8]
}

/// The four bytes of `x`, most significant first.
pub open spec fn be32(x: u32) -> Seq<u8> {
    seq![
        (x / 0x100_0000) as u8,
        ((x / 0x1_0000) % 256) as u8,
        ((x / 256) % 256) as u8,
        (x % 256) as u8,
    ]
}

/// The eight bytes of `x`, most significant first.
pub open spec fn be64(x: u64) -> Seq<u8> {
    be32((x / 0x1_0000_0000) as u32) + be32((x % 0x1_0000_0000) as u32)
}

/// The number that two bytes write, most significant first.
pub open spec fn be16_value(s: Seq<u8>) -> u16 {
    (s[0] * 256 + s[1]) as u16
}

/// The number that four bytes write, most significant first.
pub open spec fn be32_value(s: Seq<u8>) -> u32 {
    (s[0] * 0x100_0000 + s[1] * 0x1_0000 + s[2] * 256 + s[3]) as u32
}

/// The number that eight bytes write, most significant first.
pub open spec fn be64_value(s: Seq<u8>) -> u64 {
    (be32_value(s.subrange(0, 4)) * 0x1_0000_0000 + be32_value(s.subrange(4, 8))) as u64
}

/// Reading back the bytes of a number gives the number.
pub proof fn law_be32_roundtrip(x: u32)
    ensures
        be32(x).len() == 4,
        be32_value(be32(x)) == x,
{
}

/// Reading back the bytes of a number gives the number.
pub proof fn law_be16_roundtrip(x: u16)
    ensures
        be16(x).len() == 2,
        be16_value(be16(x)) == x,
{
}

/// Reading back the bytes of a number gives the number.
pub proof fn law_be64_roundtrip(x: u64)
    ensures
        be64(x).len() == 8,
        be64_value(be64(x)) == x,
{
    let hi = (x / 0x1_0000_0000) as u32;
    let lo = (x % 0x1_0000_0000) as u32;
    law_be32_roundtrip(hi);
    law_be32_roundtrip(lo);
    assert(be64(x).subrange(0, 4) =~= be32(hi));
    assert(be64(x).subrange(4, 8) =~= be32(lo));
}

/// Append the two bytes of `x`, most significant first.
pub fn push_u16_be(v: &mut Vec<u8>, x: u16)
    ensures
        final(v)@ == old(v)@ + be16(x),
{
    v.push((x / 256) as u8);
    v.push((x % 256) as u8);
    assert(v@ =~= old(v)@ + be16(x));
}

/// Append the four bytes of `x`, most significant first.
pub fn push_u32_be(v: &mut Vec<u8>, x: u32)
    ensures
        final(v)@ == old(v)@ + be32(x),
{
    v.push((x / 0x100_0000) as u8);
    v.push(((x / 0x1_0000) % 256) as u8);
    v.push(((x / 256) % 256) as u8);
    v.push((x % 256) as u8);
    assert(v@ =~= old(v)@ + be32(x));
}

/// Append the eight bytes of `x`, most significant first.
pub fn push_u64_be(v: &mut Vec<u8>, x: u64)
    ensures
        final(v)@ == old(v)@ + be64(x),
{
    push_u32_be(v, (x / 0x1_0000_0000) as u32);
    push_u32_be(v, (x % 0x1_0000_0000) as u32);
    assert(v@ =~= old(v)@ + be64(x));
}

/// The number written by `s[at..at + 2]`.
pub fn read_u16_be(s: &[u8], at: usize) -> (r: u16)
    requires
        at + 2 <= s@.len(),
    ensures
        r == be16_value(s@.subrange(at as int, at + 2)),
{
    s[at] as u16 * 256 + s[at + 1] as u16
}

/// The number written by `s[at..at + 4]`.
pub fn read_u32_be(s: &[u8], at: usize) -> (r: u32)
    requires
        at + 4 <= s@.len(),
    ensures
        r == be32_value(s@.subrange(at as int, at + 4)),
{
    s[at] as u32 * 0x100_0000 + s[at + 1] as u32 * 0x1_0000 + s[at + 2] as u32 * 256 + s[at
        + 3] as u32
}

/// The number written by `s[at..at + 8]`.
pub fn read_u64_be(s: &[u8], at: usize) -> (r: u64)
    requires
        at + 8 <= s@.len(),
    ensures
        r == be64_value(s@.subrange(at as int, at + 8)),
{
    let n = s.len();
    let hi = read_u32_be(s, at);
    let lo = read_u32_be(s, at + 4);
    assert(s@.subrange(at as int, at + 8).subrange(0, 4) =~= s@.subrange(at as int, at + 4));
    assert(s@.subrange(at as int, at + 8).subrange(4, 8) =~= s@.subrange(at + 4, at + 8));
    hi as u64 * 0x1_0000_0000 + lo as u64
}

} // verus!
