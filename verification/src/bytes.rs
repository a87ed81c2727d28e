//! Little-endian 16- and 32-bit field encoding shared by the chunk codec.

use vstd::prelude::*;

verus! {

/// The two little-endian bytes of a 16-bit value.
pub open spec fn le16(v: u16) -> Seq<u8> {
    seq![(v % 256) as u8, (v / 256) as u8]
}

/// The four little-endian bytes of a 32-bit value.
pub open spec fn le32(v: u32) -> Seq<u8> {
    seq![
        (v % 256) as u8,
        ((v / 256) % 256) as u8,
        ((v / 0x10000) % 256) as u8,
        (v / 0x1000000) as u8,
    ]
}

/// The 16-bit value whose little-endian bytes sit at `pos` in `b`.
pub open spec fn rd16(b: Seq<u8>, pos: int) -> u16
    recommends
        0 <= pos,
        pos + 2 <= b.len(),
{
    (b[pos] + 256 * b[pos + 1]) as u16
}

/// The 32-bit value whose little-endian bytes sit at `pos` in `b`.
pub open spec fn rd32(b: Seq<u8>, pos: int) -> u32
    recommends
        0 <= pos,
        pos + 4 <= b.len(),
{
    (b[pos] + 0x100 * b[pos + 1] + 0x10000 * b[pos + 2] + 0x1000000 * b[pos + 3]) as u32
}

pub proof fn lemma_rd16_le16(v: u16, b: Seq<u8>, pos: int)
    requires
        0 <= pos,
        pos + 2 <= b.len(),
        b[pos] == le16(v)[0],
        b[pos + 1] == le16(v)[1],
    ensures
        rd16(b, pos) == v,
{
    assert(b[pos] == v % 256 && b[pos + 1] == v / 256);
    assert(v % 256 + 256 * (v / 256) == v) by {
        vstd::arithmetic::div_mod::lemma_fundamental_div_mod(v as int, 256);
    }
}

pub proof fn lemma_rd32_le32(v: u32, b: Seq<u8>, pos: int)
    requires
        0 <= pos,
        pos + 4 <= b.len(),
        b[pos] == le32(v)[0],
        b[pos + 1] == le32(v)[1],
        b[pos + 2] == le32(v)[2],
        b[pos + 3] == le32(v)[3],
    ensures
        rd32(b, pos) == v,
{
    assert(b[pos] == v % 256);
    assert(b[pos + 1] == (v / 256) % 256);
    assert(b[pos + 2] == (v / 0x10000) % 256);
    assert(b[pos + 3] == v / 0x1000000);
    assert(v % 256 + 0x100 * ((v / 256) % 256) + 0x10000 * ((v / 0x10000) % 256) + 0x1000000 * (
    v / 0x1000000) == v) by {
        vstd::arithmetic::div_mod::lemma_fundamental_div_mod(v as int, 256);
        vstd::arithmetic::div_mod::lemma_fundamental_div_mod(v as int / 256, 256);
        vstd::arithmetic::div_mod::lemma_fundamental_div_mod(v as int / 0x10000, 256);
        assert(v as int / 256 / 256 == v as int / 0x10000) by {
            vstd::arithmetic::div_mod::lemma_div_denominator(v as int, 256, 256);
        }
        assert(v as int / 0x10000 / 256 == v as int / 0x1000000) by {
            vstd::arithmetic::div_mod::lemma_div_denominator(v as int, 0x10000, 256);
        }
    }
}

/// Appends the two little-endian bytes of `v`.
pub fn push_u16(out: &mut Vec<u8>, v: u16)
    ensures
        final(out)@ == old(out)@ + le16(v),
{
    out.push((v % 256) as u8);
    out.push((v / 256) as u8);
    assert(out@ =~= old(out)@ + le16(v));
}

/// Appends the four little-endian bytes of `v`.
pub fn push_u32(out: &mut Vec<u8>, v: u32)
    ensures
        final(out)@ == old(out)@ + le32(v),
{
    out.push((v % 256) as u8);
    out.push(((v / 256) % 256) as u8);
    out.push(((v / 0x10000) % 256) as u8);
    out.push((v / 0x1000000) as u8);
    assert(out@ =~= old(out)@ + le32(v));
}

/// Reads the 16-bit little-endian value at `pos`.
pub fn read_u16(b: &Vec<u8>, pos: usize) -> (r: u16)
    requires
        pos + 2 <= b@.len(),
    ensures
        r == rd16(b@, pos as int),
{
    let n = b.len();
    b[pos] as u16 + 256 * b[pos + 1] as u16
}

/// Reads the 32-bit little-endian value at `pos`.
pub fn read_u32(b: &Vec<u8>, pos: usize) -> (r: u32)
    requires
        pos + 4 <= b@.len(),
    ensures
        r == rd32(b@, pos as int),
{
    let n = b.len();
    b[pos] as u32 + 0x100 * b[pos + 1] as u32 + 0x10000 * b[pos + 2] as u32 + 0x1000000 * b[pos
        + 3] as u32
}

} // verus!
