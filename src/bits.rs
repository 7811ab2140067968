//! Bit-level facts about 64-bit words.
use vstd::prelude::*;

verus! {

/// Bit `i` of `w` is set.
pub open spec fn bit(w: u64, i: u64) -> bool {
    (w >> i) & 1u64 == 1u64
}

/// The word's bits taken one at a time.
pub proof fn lemma_bit_ops(a: u64, b: u64, i: u64)
    requires
        i < 64,
    ensures
        bit(a | b, i) == (bit(a, i) || bit(b, i)),
        bit(a & b, i) == (bit(a, i) && bit(b, i)),
        bit(a ^ b, i) == (bit(a, i) != bit(b, i)),
        bit(!a, i) == !bit(a, i),
        bit(0u64, i) == false,
        bit(0xffff_ffff_ffff_ffffu64, i) == true,
{
    assert(bit(a | b, i) == (bit(a, i) || bit(b, i))) by (bit_vector)
        requires i < 64;
    assert(bit(a & b, i) == (bit(a, i) && bit(b, i))) by (bit_vector)
        requires i < 64;
    assert(bit(a ^ b, i) == (bit(a, i) != bit(b, i))) by (bit_vector)
        requires i < 64;
    assert(bit(!a, i) == !bit(a, i)) by (bit_vector)
        requires i < 64;
    assert(bit(0u64, i) == false) by (bit_vector)
        requires i < 64;
    assert(bit(0xffff_ffff_ffff_ffffu64, i) == true) by (bit_vector)
        requires i < 64;
}

/// Shifting left by one moves every bit up one place and brings in `c`
/// (zero or one) at the bottom.
pub proof fn lemma_bit_shl1(a: u64, c: u64, i: u64)
    requires
        i < 64,
        c <= 1,
    ensures
        i == 0 ==> bit((a << 1u64) | c, i) == (c == 1),
        i > 0 ==> bit((a << 1u64) | c, i) == bit(a, (i - 1) as u64),
{
    assert(i == 0 ==> bit((a << 1u64) | c, i) == (c == 1)) by (bit_vector)
        requires i < 64, c <= 1;
    assert(i > 0 ==> bit((a << 1u64) | c, i) == bit(a, (i - 1) as u64)) by (bit_vector)
        requires i < 64, c <= 1;
}

/// A single-bit mask.
pub proof fn lemma_bit_single(w: u64, k: u64, i: u64)
    requires
        i < 64,
        k < 64,
    ensures
        bit(1u64 << k, i) == (i == k),
        ((w & (1u64 << k)) != 0) == bit(w, k),
        bit(w | (1u64 << k), i) == (bit(w, i) || i == k),
        bit(w ^ (1u64 << k), i) == (bit(w, i) != (i == k)),
{
    assert(bit(1u64 << k, i) == (i == k)) by (bit_vector)
        requires i < 64, k < 64;
    assert(((w & (1u64 << k)) != 0) == bit(w, k)) by (bit_vector)
        requires k < 64;
    assert(bit(w | (1u64 << k), i) == (bit(w, i) || i == k)) by (bit_vector)
        requires i < 64, k < 64;
    assert(bit(w ^ (1u64 << k), i) == (bit(w, i) != (i == k))) by (bit_vector)
        requires i < 64, k < 64;
}

/// A word that is zero or one has at most its lowest bit set.
pub proof fn lemma_bit_small(c: u64, i: u64)
    requires
        i < 64,
        c <= 1,
    ensures
        bit(c, i) == (i == 0 && c == 1),
{
    assert(bit(c, i) == (i == 0 && c == 1)) by (bit_vector)
        requires i < 64, c <= 1;
}

/// Reading one bit as a number.
pub proof fn lemma_bit_extract(w: u64, k: u64)
    requires
        k < 64,
    ensures
        (w >> k) & 1u64 <= 1,
        ((w >> k) & 1u64 == 1) == bit(w, k),
        (w >> 63u64) <= 1,
        ((w >> 63u64) == 1) == bit(w, 63),
{
    assert((w >> k) & 1u64 <= 1) by (bit_vector);
    assert((w >> 63u64) <= 1) by (bit_vector);
    assert(((w >> 63u64) == 1) == bit(w, 63)) by (bit_vector);
}

/// The carry chain of `((e & p) + p) ^ p | e`: a position is marked when `e`
/// has it, or when the position below is marked and has `p`.
pub proof fn lemma_carry_chain(e: u64, p: u64, s: u64, x: u64)
    requires
        s == (e & p) + p || s == (e & p) + p - 0x1_0000_0000_0000_0000,
        x == (s ^ p) | e,
    ensures
        x == e | ((p & x) << 1u64),
{
    assert(x == e | ((p & x) << 1u64)) by (bit_vector)
        requires
            s == (e & p) + p || s == (e & p) + p - 0x1_0000_0000_0000_0000,
            x == (s ^ p) | e,
    ;
}

/// Bitwise reading of the carry chain.
pub proof fn lemma_carry_bits(e: u64, p: u64, x: u64, i: u64)
    requires
        x == e | ((p & x) << 1u64),
        i < 64,
    ensures
        i == 0 ==> bit(x, i) == bit(e, i),
        i > 0 ==> bit(x, i) == (bit(e, i) || (bit(p, (i - 1) as u64) && bit(x, (i - 1) as u64))),
{
    assert(i == 0 ==> bit(x, i) == bit(e, i)) by (bit_vector)
        requires x == e | ((p & x) << 1u64), i < 64;
    assert(i > 0 ==> bit(x, i) == (bit(e, i) || (bit(p, (i - 1) as u64) && bit(x, (i - 1) as u64)))) by (bit_vector)
        requires x == e | ((p & x) << 1u64), i < 64;
}

} // verus!
