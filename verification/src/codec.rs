//! Big-endian 32-bit integers inside byte sequences.

use vstd::prelude::*;

verus! {

/// The big-endian integer held by the four bytes of `s` that start at `off`.
#[verifier::opaque]
pub open spec fn be32(s: Seq<u8>, off: int) -> u32 {
    (s[off] as int * 0x100_0000 + s[off + 1] as int * 0x1_0000 + s[off + 2] as int * 0x100
        + s[off + 3] as int) as u32
}

/// The most significant byte first: byte `k` (0 to 3) of `v`.
pub open spec fn be_byte(v: u32, k: int) -> u8 {
    if k == 0 {
        (v as int / 0x100_0000) as u8
    } else if k == 1 {
        (v as int / 0x1_0000 % 0x100) as u8
    } else if k == 2 {
        (v as int / 0x100 % 0x100) as u8
    } else {
        (v as int % 0x100) as u8
    }
}

/// `s` with the four bytes from `off` replaced by the big-endian form of `v`.
pub open spec fn put32(s: Seq<u8>, off: int, v: u32) -> Seq<u8> {
    s.update(off, be_byte(v, 0)).update(off + 1, be_byte(v, 1)).update(off + 2, be_byte(v, 2)).update(
        off + 3,
        be_byte(v, 3),
    )
}

/// `s` with the bytes from `off` on replaced by those of `src`.
pub open spec fn splice(s: Seq<u8>, off: int, src: Seq<u8>) -> Seq<u8> {
    Seq::new(
        s.len(),
        |i: int|
            if off <= i < off + src.len() {
                src[i - off]
            } else {
                s[i]
            },
    )
}

/// Reading back what `put32` wrote gives the value written.
pub proof fn lemma_be32_put32_same(s: Seq<u8>, off: int, v: u32)
    requires
        0 <= off,
        off + 4 <= s.len(),
    ensures
        be32(put32(s, off, v), off) == v,
        put32(s, off, v).len() == s.len(),
{
    reveal(be32);
    let x = v as int;
    assert(x == (x / 0x100_0000) * 0x100_0000 + (x / 0x1_0000 % 0x100) * 0x1_0000 + (x / 0x100
        % 0x100) * 0x100 + x % 0x100);
}

/// `put32` leaves every four-byte field that it does not overlap as it was.
pub proof fn lemma_be32_put32_other(s: Seq<u8>, off: int, v: u32, other: int)
    requires
        0 <= off,
        off + 4 <= s.len(),
        0 <= other,
        other + 4 <= s.len(),
        other + 4 <= off || off + 4 <= other,
    ensures
        be32(put32(s, off, v), other) == be32(s, other),
{
    reveal(be32);
}

/// The integer at `off` depends on the four bytes there alone.
pub proof fn lemma_be32_same_bytes(s: Seq<u8>, off: int, t: Seq<u8>, off2: int)
    requires
        s[off] == t[off2],
        s[off + 1] == t[off2 + 1],
        s[off + 2] == t[off2 + 2],
        s[off + 3] == t[off2 + 3],
    ensures
        be32(s, off) == be32(t, off2),
{
    reveal(be32);
}

/// Reads the big-endian integer at `off`.
pub fn read_be32(v: &Vec<u8>, off: usize) -> (r: u32)
    requires
        off + 4 <= v@.len(),
    ensures
        r == be32(v@, off as int),
{
    reveal(be32);
    assert(v@.len() == v.len());
    let b0: u32 = v[off] as u32;
    let b1: u32 = v[off + 1] as u32;
    let b2: u32 = v[off + 2] as u32;
    let b3: u32 = v[off + 3] as u32;
    b0 * 0x100_0000 + b1 * 0x1_0000 + b2 * 0x100 + b3
}

/// Writes `x` at `off`, most significant byte first.
pub fn write_be32(v: &mut Vec<u8>, off: usize, x: u32)
    requires
        off + 4 <= old(v)@.len(),
    ensures
        final(v)@ == put32(old(v)@, off as int, x),
{
    assert(v@.len() == v.len());
    v.set(off, (x / 0x100_0000) as u8);
    v.set(off + 1, (x / 0x1_0000 % 0x100) as u8);
    v.set(off + 2, (x / 0x100 % 0x100) as u8);
    v.set(off + 3, (x % 0x100) as u8);
}


/// Reads the big-endian integer at `off` of a slice.
pub fn read_be32_slice(v: &[u8], off: usize) -> (r: u32)
    requires
        off + 4 <= v@.len(),
    ensures
        r == be32(v@, off as int),
{
    reveal(be32);
    let b0: u32 = v[off] as u32;
    let b1: u32 = v[off + 1] as u32;
    let b2: u32 = v[off + 2] as u32;
    let b3: u32 = v[off + 3] as u32;
    b0 * 0x100_0000 + b1 * 0x1_0000 + b2 * 0x100 + b3
}

} // verus!
