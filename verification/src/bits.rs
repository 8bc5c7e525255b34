//! The arithmetic shape of an index with a given number of trailing ones.
use vstd::prelude::*;
use vstd::std_specs::bits::{u32_trailing_ones, axiom_u32_trailing_ones};
use vstd::arithmetic::power2::{pow2, lemma2_to64, lemma_pow2_pos};

verus! {

/// Low `t` bits set and bit `t` clear make `i ≡ 2^t - 1 (mod 2^(t+1))`.
proof fn lemma_low_ones_bits(i: u32, t: u32, s: u32)
    by (bit_vector)
    requires
        t < 31,
        s == 32 - t,
        (!i) << s == 0,
        (i >> t) & 1 == 0,
    ensures
        i % (2u32 << t) == (1u32 << t) - 1,
{
}

/// An index `i < 2^30` has `t = i.trailing_ones() < 31` and the form
/// `q·2^(t+1) + 2^t - 1`.
pub proof fn lemma_trailing_ones_shape(i: u32)
    requires
        i < 0x4000_0000,
    ensures
        u32_trailing_ones(i) < 31,
        ({
            let t = u32_trailing_ones(i) as nat;
            i as int % (pow2(t + 1) as int) == pow2(t) - 1
        }),
{
    axiom_u32_trailing_ones(i);
    let t = u32_trailing_ones(i);
    if t >= 31 {
        assert((i >> 30u32) & 1u32 == 1u32);
        assert(i < 0x4000_0000 ==> (i >> 30u32) & 1u32 == 0u32) by (bit_vector);
    }
    lemma_low_ones_bits(i, t, (32 - t) as u32);
    lemma2_to64();
    vstd::arithmetic::power2::lemma_pow2_strictly_increases(t as nat, 31);
    vstd::bits::lemma_u32_shl_is_mul(1, t);
    vstd::bits::lemma_u32_shl_is_mul(2, t);
    vstd::arithmetic::power2::lemma_pow2_unfold(t as nat + 1);
}

/// The number of trailing zeros of `2^s` is `s`.
pub proof fn lemma_trailing_zeros_pow2(n: u64, s: nat)
    requires
        s < 64,
        n == pow2(s),
    ensures
        vstd::std_specs::bits::u64_trailing_zeros(n) == s,
{
    lemma2_to64();
    vstd::arithmetic::power2::lemma_pow2_strictly_increases(s, 64);
    vstd::bits::lemma_u64_shl_is_mul(1, s as u64);
    vstd::std_specs::bits::axiom_u64_trailing_zeros(n);
    let t = vstd::std_specs::bits::u64_trailing_zeros(n);
    lemma_pow2_pos(s);
    assert(n != 0);
    lemma_single_bit(n, s as u64, t as u64);
}

/// The only set bit of `2^s` is bit `s`.
proof fn lemma_single_bit(n: u64, s: u64, t: u64)
    by (bit_vector)
    requires
        s < 64,
        t < 64,
        n == 1u64 << s,
        (n >> t) & 1u64 == 1u64,
    ensures
        t == s,
{
}

} // verus!
