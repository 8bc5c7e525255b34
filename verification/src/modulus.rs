//! Plantard arithmetic on bare words: `a·b (mod M)`, powers and conversions, with
//! every residue kept as a `u32` in Plantard representation.
use vstd::prelude::*;
use vstd::arithmetic::div_mod::{
    lemma_fundamental_div_mod, lemma_mod_bound, lemma_mod_twice, lemma_small_mod, lemma_mul_mod_noop,
    lemma_mul_mod_noop_right, lemma_mod_multiples_vanish, lemma_mod_sub_multiples_vanish,
};
use vstd::arithmetic::power::{pow, lemma_pow0};
use vstd::arithmetic::power2::{pow2, lemma2_to64, lemma_pow2_adds, lemma_pow2_unfold};
use crate::modular::{
    congruent, is_odd_modulus, lemma_congruent_cancel_pow2, lemma_congruent_iff_mod_eq, lemma_congruent_mod,
    lemma_congruent_mul, lemma_congruent_mul_both, lemma_congruent_neg, lemma_congruent_symm,
    lemma_congruent_trans, lemma_pow_square_step, lemma_congruent_pow,
};
use crate::reduction::{
    lemma_newton_step, lemma_plantard_reduce, lemma_ilog2_pow2, lemma_wrapping_sub_u64,
};
use crate::plantard::{
    plantard_value, lemma_plantard_value, lemma_plantard_value_of,
    lemma_plantard_value_congruent, lemma_plantard_value_mul,
};

verus! {

/// The moduli that Plantard arithmetic on bare words supports: odd and below
/// `2^31` (`1` included, where every word stands for `0`).
pub open spec fn is_word_modulus(m: int) -> bool {
    is_odd_modulus(m) && m < 0x8000_0000
}

/// Plantard arithmetic modulo `M`.
pub struct Modulus<const M: u32>;

impl<const M: u32> Modulus<M> {
    /// The inverse of `M` modulo `2^64`, by Newton's iteration.
    pub fn inv_modulus() -> (inv: u64)
        requires
            M % 2 == 1,
        ensures
            (M * inv) % (pow2(64) as int) == 1,
    {
        let m = M as u64;
        proof {
            lemma2_to64();
            // 1 * 1 = 3 * 3 = 1 (mod 4)
            assert(m & 3 == m % 4) by (bit_vector);
            assert((m * (m % 4)) % 4 == 1) by {
                lemma_fundamental_div_mod(m as int, 2);
                let t = m as int / 2;
                assert(m * m == 4 * (t * t + t) + 1) by (nonlinear_arith)
                    requires
                        m == 2 * t + 1,
                ;
                lemma_mul_mod_noop_right(m as int, m as int, 4);
                lemma_mod_twice(m as int, 4);
                lemma_mod_multiples_vanish(t * t + t, 1, 4);
                lemma_small_mod(1, 4);
            }
        }
        let mut inv_m = m & 3;
        // Newton's method
        // n inv_n = 1 (mod 2^k) => (n inv_n - 1)^2 = 0 (mod 2^{2k})
        // => n inv_n (2 - n inv_n) = 1 (mod 2^{2k})
        let log_bits = u64::BITS.ilog2();
        proof {
            lemma_ilog2_pow2(log_bits, 6);
            lemma2_to64();
        }
        let mut i = log_bits - 1;
        let ghost mut k: nat = 2;
        while i > 0
            invariant
                m == M,
                i <= 5,
                2 <= k <= 64,
                k * pow2(i as nat) >= 64,
                (m * inv_m) % (pow2(k) as int) == 1,
            decreases i,
        {
            i -= 1;
            proof {
                lemma2_to64();
                lemma_newton_step(m as int, inv_m as int, k, 64);
                lemma_pow2_unfold((i + 1) as nat);
            }
            let e = m.wrapping_mul(inv_m);
            let s = 2_u64.wrapping_sub(e);
            proof {
                lemma_wrapping_sub_u64(2, e);
            }
            inv_m = inv_m.wrapping_mul(s);
            proof {
                let k0 = k;
                k = if 2 * k < 64 { 2 * k } else { 64 };
                assert(k * pow2(i as nat) >= 64) by (nonlinear_arith)
                    requires
                        k == 64 || k == 2 * k0,
                        k0 * pow2((i + 1) as nat) >= 64,
                        pow2((i + 1) as nat) == 2 * pow2(i as nat),
                        pow2(i as nat) >= 1;
            }
        }
        proof {
            lemma2_to64();
            assert(i == 0);
            assert(pow2(i as nat) == 1);
            assert(k * 1 >= 64);
            assert(k == 64);
        }
        inv_m
    }

    /// Computes `a * b (mod M)` in Plantard representation.
    ///
    /// # Preconditions
    ///
    /// `a * b + M * 2^32 < 2^64` OR `a < M` OR `b < M`
    pub fn mul(a: u32, b: u32) -> (r: u32)
        requires
            is_word_modulus(M as int),
            a * b + M * pow2(32) < pow2(64) || a < M || b < M,
        ensures
            r < M,
            congruent(r * pow2(64), -(a * b), M as int),
            plantard_value(r as int, M as int)
                == (plantard_value(a as int, M as int) * plantard_value(b as int, M as int)) % (M as int),
    {
        proof {
            lemma2_to64();
            assert(a * b + M * pow2(32) < pow2(64)) by (nonlinear_arith)
                requires
                    a * b + M * pow2(32) < pow2(64) || a < M || b < M,
                    a < 0x1_0000_0000,
                    b < 0x1_0000_0000,
                    M < 0x8000_0000,
                    pow2(32) == 0x1_0000_0000,
                    pow2(64) == 0x1_0000_0000_0000_0000,
            ;
        }
        let inv = Self::inv_modulus();
        proof {
            lemma_plantard_reduce(a * b, inv as int, M as int);
        }
        let c = (a as u64).wrapping_mul(b as u64);
        assert(c == a * b) by {
            lemma_small_mod((a * b) as nat, pow2(64));
        }
        let d = c.wrapping_mul(inv);
        let x = d >> 32;
        assert(x == d / 0x1_0000_0000) by (bit_vector)
            requires
                x == d >> 32,
        ;
        let x = (x + 1) as u32 as u64 * M as u64;
        let r = (x >> 32) as u32;
        assert(r == x / 0x1_0000_0000) by (bit_vector)
            requires
                r == (x >> 32) as u32,
        ;
        proof {
            lemma_plantard_value_mul(r as int, a as int, b as int, M as int);
        }
        r
    }

    /// Computes `p.pow(exp) (mod M)` in Plantard representation.
    ///
    /// # Time complexity
    ///
    /// O(log `exp`)
    pub fn pow(p: u32, exp: u32) -> (r: u32)
        requires
            is_word_modulus(M as int),
        ensures
            r < M,
            plantard_value(r as int, M as int) == pow(plantard_value(p as int, M as int), exp as nat) % (M as int),
    {
        let ghost m = M as int;
        let ghost v0 = plantard_value(p as int, m);
        let ghost e0 = exp;
        let mut p = p;
        let mut exp = exp;
        proof {
            lemma_congruent_mod(p as int, m);
            lemma_plantard_value_congruent((p as int) % m, p as int, m);
        }
        p %= M;

        let mut result = Self::i2p(1);
        proof {
            // result stands for 1 mod M
            lemma_congruent_mod(1, m);
            lemma_congruent_mul(1int % m, 1, pow(v0, e0 as nat), m);
            assert(1 * pow(v0, e0 as nat) == pow(v0, e0 as nat));
        }
        while exp > 0
            invariant
                m == M as int,
                is_word_modulus(m),
                result < M,
                p < M,
                congruent(
                    plantard_value(result as int, m) * pow(plantard_value(p as int, m), exp as nat),
                    pow(v0, e0 as nat),
                    m,
                ),
            decreases exp,
        {
            let ghost r0 = plantard_value(result as int, m);
            let ghost b0 = plantard_value(p as int, m);
            let ghost ex0 = exp;
            assert(exp & 1 == 1 <==> exp % 2 == 1) by (bit_vector);
            if exp & 1 == 1 {
                result = Self::mul(result, p);
            }
            // `p < M`
            p = Self::mul(p, p);
            exp >>= 1;
            proof {
                assert(exp == ex0 / 2) by (bit_vector)
                    requires
                        exp == ex0 >> 1,
                ;
                let rv = plantard_value(result as int, m);
                let bv = plantard_value(p as int, m);
                let f: int = if ex0 % 2 == 1 { b0 } else { 1 };
                lemma_pow_square_step(b0, ex0 as nat);
                lemma_congruent_mod(b0 * b0, m);
                lemma_congruent_pow(bv, b0 * b0, exp as nat, m);
                if ex0 % 2 == 1 {
                    lemma_congruent_mod(r0 * b0, m);
                } else {
                    assert(r0 * 1 == r0);
                    lemma_small_mod(0, m as nat);
                }
                assert(congruent(rv, r0 * f, m));
                lemma_congruent_mul_both(rv, r0 * f, pow(bv, exp as nat), pow(b0 * b0, exp as nat), m);
                assert((r0 * f) * pow(b0 * b0, exp as nat) == r0 * pow(b0, ex0 as nat)) by (nonlinear_arith)
                    requires
                        pow(b0, ex0 as nat) == pow(b0 * b0, exp as nat) * f,
                ;
                lemma_congruent_trans(rv * pow(bv, exp as nat), r0 * pow(b0, ex0 as nat), pow(v0, e0 as nat), m);
            }
        }
        proof {
            let rv = plantard_value(result as int, m);
            lemma_pow0(plantard_value(p as int, m));
            assert(rv * 1 == rv);
            lemma_plantard_value(result as int, m);
            lemma_congruent_iff_mod_eq(rv, pow(v0, e0 as nat), m);
            lemma_small_mod(rv as nat, m as nat);
        }
        result
    }

    /// Converts an integer into Plantard representation.
    pub fn i2p(i: u32) -> (r: u32)
        requires
            is_word_modulus(M as int),
        ensures
            r < M,
            plantard_value(r as int, M as int) == (i as int) % (M as int),
    {
        // `2^128 (mod M)`
        let pow_2_64 = (M as u64).wrapping_neg() % M as u64;
        proof {
            lemma2_to64();
            let n = pow2(64) as int;
            let m = M as int;
            assert(pow_2_64 == n % m) by {
                lemma_mod_sub_multiples_vanish(n, m);
            }
            lemma_mod_bound(n, m);
            lemma_pow2_adds(64, 64);
            lemma_mul_mod_noop(n, n, m);
            assert(pow_2_64 * pow_2_64 < 0x8000_0000 * 0x8000_0000) by (nonlinear_arith)
                requires
                    pow_2_64 < 0x8000_0000,
            ;
        }
        let pow_2_128 = ((pow_2_64 * pow_2_64) % M as u64) as u32;
        let r = Self::mul(i, pow_2_128);
        proof {
            let m = M as int;
            let n = pow2(64) as int;
            // r n ≡ -(i 2^128) = -(i n) n, so r ≡ -(i n) and i n ≡ -r
            lemma_congruent_mod(pow2(128) as int, m);
            lemma_congruent_mul(pow_2_128 as int, pow2(128) as int, -(i as int), m);
            assert(pow_2_128 * -(i as int) == -(i * pow_2_128)) by (nonlinear_arith);
            assert(pow2(128) * -(i as int) == (-(i * n)) * n) by (nonlinear_arith)
                requires
                    pow2(128) == n * n,
            ;
            lemma_congruent_trans(r * n, -(i * pow_2_128), (-(i * n)) * n, m);
            lemma_congruent_cancel_pow2(r as int, -(i * n), 64, m);
            lemma_congruent_neg(r as int, -(i * n), m);
            lemma_congruent_symm(-(r as int), i * n, m);
            lemma_plantard_value_of(r as int, i as int, m);
        }
        r
    }

    /// Converts a value from Plantard representation back to a standard integer.
    pub fn p2i(p: u32) -> (r: u32)
        requires
            is_word_modulus(M as int),
        ensures
            r == plantard_value(p as int, M as int),
    {
        proof {
            lemma2_to64();
            assert(p * 1 + M * pow2(32) < pow2(64));
        }
        let r = Self::mul(p, 1);
        proof {
            let m = M as int;
            assert(p * 1 == p);
            lemma_plantard_value_of(p as int, r as int, m);
            lemma_small_mod(r as nat, m as nat);
        }
        r
    }
}

pub trait NTTFriendlyPrime {
    const PRIMITIVE_ROOT: u32;
    /// `P = (A << D) + 1`
    const A: u32;
    /// `P = (A << D) + 1`
    const D: u32;
}

impl NTTFriendlyPrime for Modulus<998_244_353> {
    const PRIMITIVE_ROOT: u32 = 3;
    const A: u32 = 998_244_353 >> Self::D;
    /// The number of trailing zeros of `998_244_353 - 1`.
    const D: u32 = 23;
}

/// The constants of `Modulus<998_244_353>` are `PRIMITIVE_ROOT = 3`, `A = 119` and
/// `D = 23`, and describe an NTT-friendly prime.
pub proof fn lemma_modulus_998244353()
    ensures
        crate::prime::is_ntt_friendly(
            998_244_353,
            <Modulus<998_244_353> as NTTFriendlyPrime>::PRIMITIVE_ROOT as int,
            <Modulus<998_244_353> as NTTFriendlyPrime>::A as int,
            <Modulus<998_244_353> as NTTFriendlyPrime>::D as int,
        ),
        <Modulus<998_244_353> as NTTFriendlyPrime>::PRIMITIVE_ROOT == 3,
        <Modulus<998_244_353> as NTTFriendlyPrime>::A == 119,
        <Modulus<998_244_353> as NTTFriendlyPrime>::D == 23,
{
    crate::prime::lemma_998244353_ntt_friendly();
    assert(998_244_353u32 >> 23u32 == 119) by (bit_vector);
}

} // verus!
