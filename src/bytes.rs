use vstd::prelude::*;

verus! {

/// Byte `m` (0 = least significant) of the little-endian form of `v`.
pub open spec fn byte_of(v: u32, m: int) -> u8 {
    if m == 0 {
        (v & 0xff) as u8
    } else if m == 1 {
        ((v >> 8u32) & 0xff) as u8
    } else if m == 2 {
        ((v >> 16u32) & 0xff) as u8
    } else {
        ((v >> 24u32) & 0xff) as u8
    }
}

/// The little-endian 32-bit value stored at `p..p + 4` of `d`.
pub open spec fn le32_at(d: Seq<u8>, p: int) -> u32 {
    (d[p] as u32) | ((d[p + 1] as u32) << 8u32) | ((d[p + 2] as u32) << 16u32) | ((d[p + 3]
        as u32) << 24u32)
}

/// Four bytes laid out as `v`'s little-endian form read back as `v`.
pub proof fn lemma_le32_of_bytes(d: Seq<u8>, p: int, v: u32)
    requires
        0 <= p,
        p + 4 <= d.len(),
        d[p] == byte_of(v, 0),
        d[p + 1] == byte_of(v, 1),
        d[p + 2] == byte_of(v, 2),
        d[p + 3] == byte_of(v, 3),
    ensures
        le32_at(d, p) == v,
{
    let b0 = d[p];
    let b1 = d[p + 1];
    let b2 = d[p + 2];
    let b3 = d[p + 3];
    assert(b0 == (v & 0xff) as u8 && b1 == ((v >> 8u32) & 0xff) as u8 && b2 == ((v >> 16u32)
        & 0xff) as u8 && b3 == ((v >> 24u32) & 0xff) as u8 ==> (b0 as u32) | ((b1 as u32)
        << 8u32) | ((b2 as u32) << 16u32) | ((b3 as u32) << 24u32) == v) by (bit_vector);
}

/// Reads the little-endian `u32` at `p`.
pub fn read_u32(d: &[u8], p: usize) -> (r: u32)
    requires
        p + 4 <= d@.len(),
    ensures
        r == le32_at(d@, p as int),
{
    (d[p] as u32) | ((d[p + 1] as u32) << 8u32) | ((d[p + 2] as u32) << 16u32) | ((d[p + 3]
        as u32) << 24u32)
}

/// Appends the little-endian form of `v`.
pub fn push_u32(out: &mut Vec<u8>, v: u32)
    ensures
        final(out)@ == old(out)@ + seq![byte_of(v, 0), byte_of(v, 1), byte_of(v, 2), byte_of(v, 3)],
{
    out.push((v & 0xff) as u8);
    out.push(((v >> 8u32) & 0xff) as u8);
    out.push(((v >> 16u32) & 0xff) as u8);
    out.push(((v >> 24u32) & 0xff) as u8);
    assert(final(out)@ =~= old(out)@ + seq![byte_of(v, 0), byte_of(v, 1), byte_of(v, 2), byte_of(v, 3)]);
}

/// `n * q + r` divided by `n` is `q`, remainder `r`.
pub proof fn lemma_div_exact(q: int, n: int, r: int)
    requires
        q >= 0,
        n > 0,
        0 <= r < n,
    ensures
        (n * q + r) / n == q,
        (n * q + r) % n == r,
{
    vstd::arithmetic::mul::lemma_mul_is_commutative(n, q);
    vstd::arithmetic::div_mod::lemma_fundamental_div_mod_converse(n * q + r, n, q, r);
}

} // verus!
