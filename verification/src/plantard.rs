//! Modular integers in Plantard representation.
//!
//! A residue `v` modulo an odd `M < 2^31` is stored as the word `p` in `[0, M)`
//! with `p ≡ -v·2^64 (mod M)`; multiplication is a single Plantard reduction.
use vstd::prelude::*;
use vstd::arithmetic::div_mod::{
    lemma_fundamental_div_mod, lemma_mod_bound, lemma_mod_twice, lemma_small_mod,
    lemma_mul_mod_noop, lemma_mul_mod_noop_right,
};
use vstd::arithmetic::power::{pow, lemma_pow0, lemma_pow1};
use vstd::arithmetic::power2::{pow2, lemma2_to64, lemma_pow2_adds, lemma_pow2_unfold};
use crate::modular::{
    congruent, div_pow2_mod, is_odd_modulus, half_mod, lemma_congruent_add,
    lemma_congruent_cancel_pow2, lemma_congruent_iff_mod_eq, lemma_congruent_mod,
    lemma_congruent_mul, lemma_congruent_mul_both, lemma_congruent_neg, lemma_congruent_symm,
    lemma_congruent_trans, lemma_div_pow2_mod, lemma_div_pow2_mod_unique,
    lemma_congruent_add_multiple, lemma_pow_square_step, lemma_congruent_pow,
};
use crate::reduction::{
    lemma_newton_step, lemma_plantard_reduce, lemma_ilog2_pow2, lemma_wrapping_sub_u64,
};
use crate::fermat::{is_prime, lemma_fermat_inverse};

verus! {

/// The moduli the Plantard representation supports: odd, greater than two and
/// below `2^31`.
pub open spec fn is_plantard_modulus(m: int) -> bool {
    is_odd_modulus(m) && m > 2 && m < 0x8000_0000
}

/// The residue that the Plantard word `p` stands for: the `v` in `[0, m)` with
/// `p ≡ -v·2^64 (mod m)`.
pub open spec fn plantard_value(p: int, m: int) -> int {
    div_pow2_mod(-p, 64, m)
}

/// `plantard_value(p, m)` lies in `[0, m)` and satisfies `v·2^64 ≡ -p (mod m)`.
pub proof fn lemma_plantard_value(p: int, m: int)
    requires
        is_odd_modulus(m),
    ensures
        0 <= plantard_value(p, m) < m,
        congruent(plantard_value(p, m) * pow2(64), -p, m),
{
    lemma_div_pow2_mod(-p, 64, m);
}

/// Any `v` with `v·2^64 ≡ -p (mod m)` determines `plantard_value(p, m)`.
pub proof fn lemma_plantard_value_of(p: int, v: int, m: int)
    requires
        is_odd_modulus(m),
        congruent(v * pow2(64), -p, m),
    ensures
        plantard_value(p, m) == v % m,
{
    lemma_div_pow2_mod_unique(-p, 64, m, v);
}

/// Words that are congruent stand for the same residue.
pub proof fn lemma_plantard_value_congruent(p: int, q: int, m: int)
    requires
        is_odd_modulus(m),
        congruent(p, q, m),
    ensures
        plantard_value(p, m) == plantard_value(q, m),
{
    lemma_plantard_value(p, m);
    lemma_congruent_neg(p, q, m);
    lemma_congruent_trans(plantard_value(p, m) * pow2(64), -p, -q, m);
    lemma_plantard_value_of(q, plantard_value(p, m), m);
    lemma_small_mod(plantard_value(p, m) as nat, m as nat);
}

/// Each residue has exactly one word in `[0, m)`: words below `m` that stand for
/// the same residue are equal.
pub proof fn lemma_plantard_value_injective(p: int, q: int, m: int)
    requires
        is_odd_modulus(m),
        0 <= p < m,
        0 <= q < m,
        plantard_value(p, m) == plantard_value(q, m),
    ensures
        p == q,
{
    let v = plantard_value(p, m);
    lemma_plantard_value(p, m);
    lemma_plantard_value(q, m);
    lemma_congruent_symm(v * pow2(64), -p, m);
    lemma_congruent_trans(-p, v * pow2(64), -q, m);
    lemma_congruent_neg(-p, -q, m);
    lemma_congruent_iff_mod_eq(p, q, m);
    lemma_small_mod(p as nat, m as nat);
    lemma_small_mod(q as nat, m as nat);
}

/// The word `0` is the only word in `[0, m)` that stands for zero.
pub proof fn lemma_plantard_value_zero(p: int, m: int)
    requires
        is_odd_modulus(m),
        0 <= p < m,
    ensures
        plantard_value(p, m) == 0 <==> p == 0,
{
    lemma_plantard_value(p, m);
    if plantard_value(p, m) == 0 {
        assert(0 * pow2(64) == 0);
        lemma_congruent_neg(0, -p, m);
        lemma_congruent_symm(0, -p, m);
        lemma_congruent_neg(-p, 0, m);
        lemma_congruent_iff_mod_eq(p, 0, m);
        lemma_small_mod(p as nat, m as nat);
        lemma_small_mod(0, m as nat);
    }
    if p == 0 {
        assert(0 * pow2(64) == 0);
        lemma_small_mod(0, m as nat);
        lemma_plantard_value_of(0, 0, m);
    }
}

/// A word congruent to a sum stands for the sum of the residues.
pub proof fn lemma_plantard_value_add(r: int, a: int, b: int, m: int)
    requires
        is_odd_modulus(m),
        congruent(r, a + b, m),
    ensures
        plantard_value(r, m) == (plantard_value(a, m) + plantard_value(b, m)) % m,
{
    let va = plantard_value(a, m);
    let vb = plantard_value(b, m);
    lemma_plantard_value(a, m);
    lemma_plantard_value(b, m);
    lemma_congruent_add(va * pow2(64), -a, vb * pow2(64), -b, m);
    assert(va * pow2(64) + vb * pow2(64) == (va + vb) * pow2(64)) by (nonlinear_arith);
    lemma_congruent_neg(r, a + b, m);
    lemma_congruent_symm(-r, -(a + b), m);
    assert(-a + -b == -(a + b));
    lemma_congruent_trans((va + vb) * pow2(64), -(a + b), -r, m);
    lemma_plantard_value_of(r, va + vb, m);
}

/// A word congruent to a difference stands for the difference of the residues.
pub proof fn lemma_plantard_value_sub(r: int, a: int, b: int, m: int)
    requires
        is_odd_modulus(m),
        congruent(r, a - b, m),
    ensures
        plantard_value(r, m) == (plantard_value(a, m) - plantard_value(b, m)) % m,
{
    let va = plantard_value(a, m);
    let vb = plantard_value(b, m);
    lemma_plantard_value(a, m);
    lemma_plantard_value(b, m);
    lemma_congruent_neg(vb * pow2(64), -b, m);
    lemma_congruent_add(va * pow2(64), -a, -(vb * pow2(64)), --b, m);
    assert(va * pow2(64) + -(vb * pow2(64)) == (va - vb) * pow2(64)) by (nonlinear_arith);
    lemma_congruent_neg(r, a - b, m);
    lemma_congruent_symm(-r, -(a - b), m);
    assert(-a + --b == -(a - b));
    lemma_congruent_trans((va - vb) * pow2(64), -(a - b), -r, m);
    lemma_plantard_value_of(r, va - vb, m);
}

/// A word `r` with `r·2^64 ≡ -(a·b)` (the result of a Plantard reduction of `a·b`)
/// stands for the product of the residues.
pub proof fn lemma_plantard_value_mul(r: int, a: int, b: int, m: int)
    requires
        is_odd_modulus(m),
        congruent(r * pow2(64), -(a * b), m),
    ensures
        plantard_value(r, m) == (plantard_value(a, m) * plantard_value(b, m)) % m,
{
    let va = plantard_value(a, m);
    let vb = plantard_value(b, m);
    let n = pow2(64) as int;
    lemma_plantard_value(a, m);
    lemma_plantard_value(b, m);
    // (va n)(vb n) ≡ a b ≡ -(r n)
    lemma_congruent_mul_both(va * n, -a, vb * n, -b, m);
    assert((va * n) * (vb * n) == (va * vb * n) * n) by (nonlinear_arith);
    assert((-a) * (-b) == a * b) by (nonlinear_arith);
    lemma_congruent_neg(r * n, -(a * b), m);
    lemma_congruent_symm(-(r * n), --(a * b), m);
    lemma_congruent_trans((va * vb * n) * n, a * b, -(r * n), m);
    assert(-(r * n) == (-r) * n) by (nonlinear_arith);
    lemma_congruent_cancel_pow2(va * vb * n, -r, 64, m);
    lemma_plantard_value_of(r, va * vb, m);
}

/// A residue modulo `M`, kept in Plantard representation.
#[derive(Debug, Clone, Copy, PartialEq, Eq)]
pub struct Mint<const M: u32>(u32);

impl<const M: u32> View for Mint<M> {
    type V = int;

    /// The residue in `[0, M)` that this value stands for.
    closed spec fn view(&self) -> int {
        plantard_value(self.0 as int, M as int)
    }
}

impl<const M: u32> Mint<M> {
    /// Every value stands for a residue in `[0, M)`.
    pub proof fn lemma_view_range(self)
        requires
            M > 0,
        ensures
            0 <= self@ < M,
    {
        lemma_mod_bound(-(self.0 as int) * pow(half_mod(M as int), 64), M as int);
    }

    /// Values that stand for the same residue are the same value: each residue
    /// has exactly one representation.
    pub fn lemma_view_injective(a: &Self, b: &Self)
        requires
            a@ == b@,
        ensures
            *a == *b,
    {
        proof {
            use_type_invariant(a);
            use_type_invariant(b);
            lemma_plantard_value_injective(a.0 as int, b.0 as int, M as int);
        }
    }

    /// The word lies below `M`, and `M` is a supported modulus.
    #[verifier::type_invariant]
    spec fn well_formed(self) -> bool {
        &&& self.0 < M
        &&& is_plantard_modulus(M as int)
    }

    /// The inverse of `M` modulo `2^64`, by Newton's iteration.
    fn inv_m() -> (inv: u64)
        requires
            M % 2 == 1,
        ensures
            (M * inv) % (pow2(64) as int) == 1,
    {
        let m = M as u64;
        proof {
            lemma2_to64();
            // 1 * 1 = 3 * 3 = 1 (mod 4)
            assert(m & 3 == m % 4) by (bit_vector);
            assert((m * (m % 4)) % 4 == 1) by {
                lemma_mul_mod_noop(m as int, m as int, 4);
                lemma_mod_twice(m as int, 4);
                lemma_fundamental_div_mod(m as int, 2);
                let t = m as int / 2;
                assert(m * m == 4 * (t * t + t) + 1) by (nonlinear_arith)
                    requires
                        m == 2 * t + 1,
                ;
                vstd::arithmetic::div_mod::lemma_mul_mod_noop_right(m as int, m as int, 4);
                vstd::arithmetic::div_mod::lemma_mod_multiples_vanish(t * t + t, 1, 4);
                lemma_small_mod(1, 4);
            }
        }
        let mut inv_m = m & 3;
        // Newton's method:
        // n inv_n = 1 (mod 2^k) => (n inv_n - 1)^2 = 0 (mod 2^{2k})
        // => n inv_n (2 - n inv_n) = 1 (mod 2^{2k})
        let log_bits = u64::BITS.ilog2();
        proof {
            lemma_ilog2_pow2(log_bits, 6);
            lemma2_to64();
        }
        let mut i = log_bits - 1;
        let ghost mut k: nat = 2;
        while i > 0
            invariant
                m == M,
                i <= 5,
                2 <= k <= 64,
                k * pow2(i as nat) >= 64,
                (m * inv_m) % (pow2(k) as int) == 1,
            decreases i,
        {
            i -= 1;
            proof {
                lemma2_to64();
                lemma_newton_step(m as int, inv_m as int, k, 64);
                lemma_pow2_unfold((i + 1) as nat);
            }
            let e = m.wrapping_mul(inv_m);
            let s = 2_u64.wrapping_sub(e);
            proof {
                lemma_wrapping_sub_u64(2, e);
            }
            inv_m = inv_m.wrapping_mul(s);
            proof {
                let k0 = k;
                k = if 2 * k < 64 { 2 * k } else { 64 };
                assert(k * pow2(i as nat) >= 64) by (nonlinear_arith)
                    requires
                        k == 64 || k == 2 * k0,
                        k0 * pow2((i + 1) as nat) >= 64,
                        pow2((i + 1) as nat) == 2 * pow2(i as nat),
                        pow2(i as nat) >= 1;
            }
        }
        proof {
            lemma2_to64();
            assert(i == 0);
            assert(pow2(i as nat) == 1);
            assert(k * 1 >= 64);
            assert(k == 64);
        }
        inv_m
    }
}

impl<const M: u32> Mint<M> {
    /// Plantard reduction of `a·b`: the word `r` in `[0, M)` with `r·2^64 ≡ -(a·b)`.
    fn mul_raw(a: u32, b: u32) -> (r: u32)
        requires
            is_plantard_modulus(M as int),
            a * b + M * pow2(32) < pow2(64),
        ensures
            r < M,
            congruent(r * pow2(64), -(a * b), M as int),
    {
        let inv = Self::inv_m();
        proof {
            lemma2_to64();
            lemma_plantard_reduce(a * b, inv as int, M as int);
        }
        let c = (a as u64).wrapping_mul(b as u64);
        assert(c == a * b) by {
            lemma_small_mod((a * b) as nat, pow2(64));
        }
        let d = c.wrapping_mul(inv);
        let q = d >> 32;
        assert(q == d / 0x1_0000_0000) by (bit_vector)
            requires
                q == d >> 32,
        ;
        assert(q + 1 < 0x1_0000_0000);
        let x = (q + 1) as u32 as u64 * M as u64;
        let rem = x >> 32;
        assert(rem == x / 0x1_0000_0000) by (bit_vector)
            requires
                rem == x >> 32,
        ;
        rem as u32
    }

    /// `2^128 mod M`.
    fn pow_2_128() -> (r: u32)
        requires
            is_plantard_modulus(M as int),
        ensures
            r < M,
            r == (pow2(128) as int) % (M as int),
    {
        let pow_2_64 = (M as u64).wrapping_neg() % M as u64;
        proof {
            lemma2_to64();
            let n = pow2(64) as int;
            let m = M as int;
            assert(pow_2_64 == n % m) by {
                vstd::arithmetic::div_mod::lemma_mod_sub_multiples_vanish(n, m);
            }
            lemma_mod_bound(n, m);
            lemma_pow2_adds(64, 64);
            lemma_mul_mod_noop(n, n, m);
            assert(pow_2_64 * pow_2_64 < 0x8000_0000 * 0x8000_0000) by (nonlinear_arith)
                requires
                    pow_2_64 < 0x8000_0000,
            ;
        }
        ((pow_2_64 * pow_2_64) % M as u64) as u32
    }

    /// The word in `[0, M)` congruent to `a - b`.
    fn sub_raw(a: u32, b: u32) -> (r: u32)
        requires
            is_plantard_modulus(M as int),
            a < M,
            b <= M,
        ensures
            r < M,
            congruent(r as int, a - b, M as int),
    {
        let (mut diff, borrow) = a.overflowing_sub(b);
        diff = diff.wrapping_add(if borrow { M } else { 0 });
        proof {
            lemma_small_mod(0, M as nat);
            if borrow {
                lemma_congruent_add_multiple(a - b, 1, M as int);
            }
        }
        diff
    }

    /// Converts an integer into Plantard representation.
    pub fn new(x: u32) -> (r: Self)
        requires
            is_plantard_modulus(M as int),
        ensures
            r@ == (x as int) % (M as int),
    {
        // `2^128 (mod M)`
        let pow_2_128 = Self::pow_2_128();
        proof {
            lemma2_to64();
            assert(x * pow_2_128 < 0x1_0000_0000 * 0x8000_0000) by (nonlinear_arith)
                requires
                    x < 0x1_0000_0000,
                    pow_2_128 < 0x8000_0000,
            ;
        }
        let r = Self::mul_raw(x, pow_2_128);
        proof {
            let m = M as int;
            let n = pow2(64) as int;
            lemma_pow2_adds(64, 64);
            // r n ≡ -(x 2^128) = -(x n) n, so r ≡ -(x n) and x n ≡ -r
            lemma_congruent_mod(pow2(128) as int, m);
            lemma_congruent_mul(pow_2_128 as int, pow2(128) as int, -(x as int), m);
            assert(pow_2_128 * -(x as int) == -(x * pow_2_128)) by (nonlinear_arith);
            assert(pow2(128) * -(x as int) == (-(x * n)) * n) by (nonlinear_arith)
                requires
                    pow2(128) == n * n,
            ;
            lemma_congruent_trans(r * n, -(x * pow_2_128), (-(x * n)) * n, m);
            lemma_congruent_cancel_pow2(r as int, -(x * n), 64, m);
            lemma_congruent_neg(r as int, -(x * n), m);
            lemma_congruent_symm(-(r as int), x * n, m);
            lemma_plantard_value_of(r as int, x as int, m);
        }
        Self(r)
    }

    /// Converts a value from Plantard representation back to a standard integer.
    pub fn get(self) -> (r: u32)
        ensures
            r == self@,
            r < M,
    {
        proof {
            use_type_invariant(&self);
            self.lemma_view_range();
            lemma2_to64();
        }
        let r = Self::mul_raw(self.0, 1);
        proof {
            let m = M as int;
            assert(self.0 * 1 == self.0);
            lemma_plantard_value_of(self.0 as int, r as int, m);
            lemma_small_mod(r as nat, m as nat);
        }
        r
    }

    /// Modular multiplication.
    pub fn mul(self, rhs: Self) -> (r: Self)
        ensures
            r@ == (self@ * rhs@) % (M as int),
    {
        proof {
            use_type_invariant(&self);
            use_type_invariant(&rhs);
            lemma2_to64();
            assert(self.0 * rhs.0 < 0x8000_0000 * 0x8000_0000) by (nonlinear_arith)
                requires
                    self.0 < 0x8000_0000,
                    rhs.0 < 0x8000_0000,
            ;
        }
        let r = Self::mul_raw(self.0, rhs.0);
        proof {
            lemma_plantard_value_mul(r as int, self.0 as int, rhs.0 as int, M as int);
        }
        Self(r)
    }

    /// Modular exponentiation by squaring.
    pub fn pow(self, exp: u32) -> (r: Self)
        ensures
            r@ == pow(self@, exp as nat) % (M as int),
    {
        proof {
            use_type_invariant(&self);
        }
        let m = Ghost(M as int);
        let mut base = self;
        let mut exp = exp;
        let ghost e0 = exp;
        let mut result = Self::new(1);
        proof {
            lemma_small_mod(1, M as nat);
            lemma_pow1(self@);
            assert(1 * pow(self@, e0 as nat) == pow(self@, e0 as nat));
            lemma_small_mod(0, M as nat);
        }
        while exp > 0
            invariant
                m@ == M as int,
                is_plantard_modulus(m@),
                congruent(result@ * pow(base@, exp as nat), pow(self@, e0 as nat), m@),
            decreases exp,
        {
            let ghost r0 = result@;
            let ghost b0 = base@;
            let ghost ex0 = exp;
            assert(exp & 1 == 1 <==> exp % 2 == 1) by (bit_vector);
            if exp & 1 == 1 {
                result = result.mul(base);
            }
            // `p < M`
            base = base.mul(base);
            exp >>= 1;
            proof {
                assert(exp == ex0 / 2) by (bit_vector)
                    requires
                        exp == ex0 >> 1,
                ;
                let f: int = if ex0 % 2 == 1 { b0 } else { 1 };
                lemma_pow_square_step(b0, ex0 as nat);
                lemma_congruent_mod(b0 * b0, m@);
                lemma_congruent_pow(base@, b0 * b0, exp as nat, m@);
                if ex0 % 2 == 1 {
                    lemma_congruent_mod(r0 * b0, m@);
                } else {
                    assert(r0 * 1 == r0);
                    lemma_small_mod(0, m@ as nat);
                }
                assert(congruent(result@, r0 * f, m@));
                lemma_congruent_mul_both(result@, r0 * f, pow(base@, exp as nat), pow(b0 * b0, exp as nat), m@);
                assert((r0 * f) * pow(b0 * b0, exp as nat) == r0 * pow(b0, ex0 as nat)) by (nonlinear_arith)
                    requires
                        pow(b0, ex0 as nat) == pow(b0 * b0, exp as nat) * f,
                ;
                lemma_congruent_trans(result@ * pow(base@, exp as nat), r0 * pow(b0, ex0 as nat), pow(self@, e0 as nat), m@);
            }
        }
        proof {
            lemma_pow0(base@);
            assert(result@ * 1 == result@);
            lemma_plantard_value(result.0 as int, m@);
            lemma_congruent_iff_mod_eq(result@, pow(self@, e0 as nat), m@);
            lemma_small_mod(result@ as nat, m@ as nat);
        }
        result
    }

    /// The inverse `self^(M - 2)` of a nonzero value (a true inverse when `M` is
    /// prime), or `None` for zero.
    pub fn inv(self) -> (r: Option<Self>)
        ensures
            r is None <==> self@ == 0,
            r matches Some(v) ==> v@ == pow(self@, (M - 2) as nat) % (M as int),
            r matches Some(v) ==> (is_prime(M as nat) ==> (self@ * v@) % (M as int) == 1),
    {
        proof {
            use_type_invariant(&self);
            lemma_plantard_value_zero(self.0 as int, M as int);
            lemma_plantard_value(self.0 as int, M as int);
        }
        if self.0 > 0 {
            let v = self.pow(M - 2);
            proof {
                if is_prime(M as nat) {
                    let a = self@;
                    let m = M as int;
                    lemma_small_mod(a as nat, m as nat);
                    lemma_fermat_inverse(a, M as nat);
                    lemma_mul_mod_noop_right(a, pow(a, (M - 2) as nat), m);
                }
            }
            Some(v)
        } else {
            None
        }
    }

    /// Modular addition.
    pub fn add(self, rhs: Self) -> (r: Self)
        ensures
            r@ == (self@ + rhs@) % (M as int),
    {
        proof {
            use_type_invariant(&self);
            use_type_invariant(&rhs);
        }
        let r = Self::sub_raw(self.0, M - rhs.0);
        proof {
            let m = M as int;
            lemma_congruent_add_multiple(self.0 + rhs.0, -1, m);
            assert(self.0 - (M - rhs.0) == self.0 + rhs.0 + (-1) * m);
            lemma_congruent_trans(r as int, self.0 - (M - rhs.0), self.0 + rhs.0, m);
            lemma_plantard_value_add(r as int, self.0 as int, rhs.0 as int, m);
        }
        Self(r)
    }

    /// Modular subtraction.
    pub fn sub(self, rhs: Self) -> (r: Self)
        ensures
            r@ == (self@ - rhs@) % (M as int),
    {
        proof {
            use_type_invariant(&self);
            use_type_invariant(&rhs);
        }
        let r = Self::sub_raw(self.0, rhs.0);
        proof {
            lemma_plantard_value_sub(r as int, self.0 as int, rhs.0 as int, M as int);
        }
        Self(r)
    }
}

} // verus!
