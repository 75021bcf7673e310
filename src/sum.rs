use vstd::prelude::*;

verus! {

/// The plain sum of all byte values of `s`, as an unbounded integer.
pub open spec fn byte_sum(s: Seq<u8>) -> int
    decreases s.len(),
{
    if s.len() == 0 {
        0
    } else {
        byte_sum(s.drop_last()) + s.last() as int
    }
}

/// The 32-bit checksum of a byte span: the byte sum taken modulo 2^32.
pub open spec fn sum32(s: Seq<u8>) -> u32 {
    (byte_sum(s) % 0x1_0000_0000) as u32
}

/// Splitting a span splits its byte sum.
pub proof fn lemma_byte_sum_concat(a: Seq<u8>, b: Seq<u8>)
    ensures
        byte_sum(a + b) == byte_sum(a) + byte_sum(b),
    decreases b.len(),
{
    if b.len() == 0 {
        assert(a + b =~= a);
    } else {
        assert((a + b).drop_last() =~= a + b.drop_last());
        lemma_byte_sum_concat(a, b.drop_last());
    }
}

/// Folding two partial checksums with wraparound addition gives the checksum
/// of the joined span.
pub proof fn lemma_sum32_concat(a: Seq<u8>, b: Seq<u8>)
    ensures
        sum32(a + b) == ((sum32(a) as int + sum32(b) as int) % 0x1_0000_0000) as u32,
{
    lemma_byte_sum_concat(a, b);
    lemma_byte_sum_nonneg(a);
    lemma_byte_sum_nonneg(b);
    vstd::arithmetic::div_mod::lemma_add_mod_noop(byte_sum(a), byte_sum(b), 0x1_0000_0000);
}

pub proof fn lemma_byte_sum_nonneg(s: Seq<u8>)
    ensures
        byte_sum(s) >= 0,
    decreases s.len(),
{
    if s.len() > 0 {
        lemma_byte_sum_nonneg(s.drop_last());
    }
}

/// Wraparound byte sum of `data`.
pub fn checksum(data: &[u8]) -> (r: u32)
    ensures
        r == sum32(data@),
{
    let mut acc: u32 = 0;
    let mut i: usize = 0;
    while i < data.len()
        invariant
            i <= data@.len(),
            acc == sum32(data@.subrange(0, i as int)),
        decreases data@.len() - i,
    {
        proof {
            let s = data@.subrange(0, i as int + 1);
            assert(s.drop_last() =~= data@.subrange(0, i as int));
            lemma_byte_sum_nonneg(s.drop_last());
            vstd::arithmetic::div_mod::lemma_add_mod_noop(byte_sum(s.drop_last()), data@[i as int] as int, 0x1_0000_0000);
            vstd::arithmetic::div_mod::lemma_small_mod(data@[i as int] as nat, 0x1_0000_0000);
        }
        acc = acc.wrapping_add(data[i] as u32);
        i = i + 1;
    }
    assert(data@.subrange(0, i as int) =~= data@);
    acc
}

/// Folds a partial checksum into a running total by wraparound addition.
pub fn fold_sum(acc: u32, x: u32) -> (r: u32)
    ensures
        r == ((acc as int + x as int) % 0x1_0000_0000) as u32,
{
    acc.wrapping_add(x)
}

} // verus!
