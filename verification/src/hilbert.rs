use vstd::prelude::*;

verus! {

/// One round of the state combination used by the Hilbert index
/// construction, shifting by `sh`.
pub open spec fn spec_hilbert_round(a: u32, b: u32, c: u32, d: u32, sh: u32) -> (u32, u32, u32, u32) {
    (
        (a & (a >> sh)) ^ (b & (b >> sh)),
        (a & (b >> sh)) ^ (b & ((a ^ b) >> sh)),
        c ^ ((a & (c >> sh)) ^ (b & (d >> sh))),
        d ^ ((b & (c >> sh)) ^ ((a ^ b) & (d >> sh))),
    )
}

/// Spread the low 16 bits of `x` into the even bit positions.
pub open spec fn spec_interleave(x: u32) -> u32 {
    let x1 = (x | (x << 8)) & 0x00FF_00FF;
    let x2 = (x1 | (x1 << 4)) & 0x0F0F_0F0F;
    let x3 = (x2 | (x2 << 2)) & 0x3333_3333;
    (x3 | (x3 << 1)) & 0x5555_5555
}

/// The 32-bit Hilbert curve index of a point on the 16-bit grid,
/// by parallel prefix over the four direction states.
pub open spec fn spec_hilbert_index(x: u32, y: u32) -> u32 {
    let a0 = x ^ y;
    let b0 = 0xFFFF ^ a0;
    let c0 = 0xFFFF ^ (x | y);
    let d0 = x & (y ^ 0xFFFF);
    let s1 = spec_hilbert_round(a0 | (b0 >> 1), (a0 >> 1) ^ a0, ((c0 >> 1) ^ (b0 & (d0 >> 1))) ^ c0, ((a0 & (c0 >> 1)) ^ (d0 >> 1)) ^ d0, 2);
    let s2 = spec_hilbert_round(s1.0, s1.1, s1.2, s1.3, 4);
    let c3 = s2.2 ^ ((s2.0 & (s2.2 >> 8)) ^ (s2.1 & (s2.3 >> 8)));
    let d3 = s2.3 ^ ((s2.1 & (s2.2 >> 8)) ^ ((s2.0 ^ s2.1) & (s2.3 >> 8)));
    let a = c3 ^ (c3 >> 1);
    let b = d3 ^ (d3 >> 1);
    let i0 = x ^ y;
    let i1 = b | (0xFFFF ^ (i0 | a));
    (spec_interleave(i1) << 1) | spec_interleave(i0)
}

/// The Hilbert curve index of `(x, y)` on the 16-bit grid, used as a
/// sort key when packing a tree in spatial order.  Inputs wider than 16
/// bits contribute only through the same bitwise combination.
pub fn hilbert_normalized(x: u32, y: u32) -> (r: u32)
    ensures
        r == spec_hilbert_index(x, y),
{
    let mut a = x ^ y;
    let mut b = 0xFFFF ^ a;
    let mut c = 0xFFFF ^ (x | y);
    let mut d = x & (y ^ 0xFFFF);

    let mut na = a | (b >> 1);
    let mut nb = (a >> 1) ^ a;
    let mut nc = ((c >> 1) ^ (b & (d >> 1))) ^ c;
    let mut nd = ((a & (c >> 1)) ^ (d >> 1)) ^ d;

    a = na;
    b = nb;
    c = nc;
    d = nd;
    na = (a & (a >> 2)) ^ (b & (b >> 2));
    nb = (a & (b >> 2)) ^ (b & ((a ^ b) >> 2));
    nc = c ^ ((a & (c >> 2)) ^ (b & (d >> 2)));
    nd = d ^ ((b & (c >> 2)) ^ ((a ^ b) & (d >> 2)));

    a = na;
    b = nb;
    c = nc;
    d = nd;
    na = (a & (a >> 4)) ^ (b & (b >> 4));
    nb = (a & (b >> 4)) ^ (b & ((a ^ b) >> 4));
    nc = c ^ ((a & (c >> 4)) ^ (b & (d >> 4)));
    nd = d ^ ((b & (c >> 4)) ^ ((a ^ b) & (d >> 4)));

    a = na;
    b = nb;
    c = nc;
    d = nd;
    nc = c ^ ((a & (c >> 8)) ^ (b & (d >> 8)));
    nd = d ^ ((b & (c >> 8)) ^ ((a ^ b) & (d >> 8)));

    a = nc ^ (nc >> 1);
    b = nd ^ (nd >> 1);

    let mut i0 = x ^ y;
    let mut i1 = b | (0xFFFF ^ (i0 | a));

    i0 = (i0 | (i0 << 8)) & 0x00FF_00FF;
    i0 = (i0 | (i0 << 4)) & 0x0F0F_0F0F;
    i0 = (i0 | (i0 << 2)) & 0x3333_3333;
    i0 = (i0 | (i0 << 1)) & 0x5555_5555;

    i1 = (i1 | (i1 << 8)) & 0x00FF_00FF;
    i1 = (i1 | (i1 << 4)) & 0x0F0F_0F0F;
    i1 = (i1 | (i1 << 2)) & 0x3333_3333;
    i1 = (i1 | (i1 << 1)) & 0x5555_5555;

    (i1 << 1) | i0
}

} // verus!
