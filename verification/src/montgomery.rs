//! Modular integers in Montgomery representation.
//!
//! A residue `v` modulo an odd `M > 2` is stored as the word `p` in `[0, M)`
//! with `p ≡ v·2^32 (mod M)`; multiplication is a single Montgomery reduction.
use vstd::prelude::*;
use vstd::arithmetic::div_mod::{
    lemma_fundamental_div_mod, lemma_mod_bound, lemma_mod_twice, lemma_small_mod,
    lemma_mul_mod_noop_right, lemma_mod_multiples_vanish, lemma_mod_sub_multiples_vanish,
};
use vstd::arithmetic::power::{pow, lemma_pow0};
use vstd::arithmetic::power2::{pow2, lemma2_to64, lemma_pow2_adds, lemma_pow2_unfold};
use crate::modular::{
    congruent, div_pow2_mod, half_mod, is_odd_modulus, lemma_congruent_add, lemma_congruent_cancel_pow2,
    lemma_congruent_iff_mod_eq, lemma_congruent_mod, lemma_congruent_mul, lemma_congruent_mul_both,
    lemma_congruent_neg, lemma_congruent_symm, lemma_congruent_trans, lemma_div_pow2_mod,
    lemma_div_pow2_mod_unique, lemma_congruent_add_multiple, lemma_pow_square_step,
    lemma_congruent_pow,
};
use crate::reduction::{
    lemma_newton_step, lemma_montgomery_reduce, lemma_ilog2_pow2, lemma_wrapping_sub_u32,
};
use crate::fermat::{is_prime, lemma_fermat_inverse};

verus! {

/// The moduli the Montgomery representation supports: odd and greater than two.
pub open spec fn is_montgomery_modulus(m: int) -> bool {
    is_odd_modulus(m) && m > 2
}

/// The residue that the Montgomery word `p` stands for: the `v` in `[0, m)` with
/// `p ≡ v·2^32 (mod m)`.
pub open spec fn montgomery_value(p: int, m: int) -> int {
    div_pow2_mod(p, 32, m)
}

/// `montgomery_value(p, m)` lies in `[0, m)` and satisfies `v·2^32 ≡ p (mod m)`.
pub proof fn lemma_montgomery_value(p: int, m: int)
    requires
        is_odd_modulus(m),
    ensures
        0 <= montgomery_value(p, m) < m,
        congruent(montgomery_value(p, m) * pow2(32), p, m),
{
    lemma_div_pow2_mod(p, 32, m);
}

/// Any `v` with `v·2^32 ≡ p (mod m)` determines `montgomery_value(p, m)`.
pub proof fn lemma_montgomery_value_of(p: int, v: int, m: int)
    requires
        is_odd_modulus(m),
        congruent(v * pow2(32), p, m),
    ensures
        montgomery_value(p, m) == v % m,
{
    lemma_div_pow2_mod_unique(p, 32, m, v);
}

/// Each residue has exactly one word in `[0, m)`: words below `m` that stand for
/// the same residue are equal.
pub proof fn lemma_montgomery_value_injective(p: int, q: int, m: int)
    requires
        is_odd_modulus(m),
        0 <= p < m,
        0 <= q < m,
        montgomery_value(p, m) == montgomery_value(q, m),
    ensures
        p == q,
{
    let v = montgomery_value(p, m);
    lemma_montgomery_value(p, m);
    lemma_montgomery_value(q, m);
    lemma_congruent_symm(v * pow2(32), p, m);
    lemma_congruent_trans(p, v * pow2(32), q, m);
    lemma_congruent_iff_mod_eq(p, q, m);
    lemma_small_mod(p as nat, m as nat);
    lemma_small_mod(q as nat, m as nat);
}

/// The word `0` is the only word in `[0, m)` that stands for zero.
proof fn lemma_montgomery_value_zero(p: int, m: int)
    requires
        is_odd_modulus(m),
        0 <= p < m,
    ensures
        montgomery_value(p, m) == 0 <==> p == 0,
{
    lemma_montgomery_value(p, m);
    lemma_small_mod(0, m as nat);
    if montgomery_value(p, m) == 0 {
        assert(0 * pow2(32) == 0);
        lemma_congruent_symm(0, p, m);
        lemma_congruent_iff_mod_eq(p, 0, m);
        lemma_small_mod(p as nat, m as nat);
    }
    if p == 0 {
        assert(0 * pow2(32) == 0);
        lemma_montgomery_value_of(0, 0, m);
    }
}

/// A word congruent to a sum stands for the sum of the residues.
proof fn lemma_montgomery_value_add(r: int, a: int, b: int, m: int)
    requires
        is_odd_modulus(m),
        congruent(r, a + b, m),
    ensures
        montgomery_value(r, m) == (montgomery_value(a, m) + montgomery_value(b, m)) % m,
{
    let va = montgomery_value(a, m);
    let vb = montgomery_value(b, m);
    lemma_montgomery_value(a, m);
    lemma_montgomery_value(b, m);
    lemma_congruent_add(va * pow2(32), a, vb * pow2(32), b, m);
    assert(va * pow2(32) + vb * pow2(32) == (va + vb) * pow2(32)) by (nonlinear_arith);
    lemma_congruent_symm(r, a + b, m);
    lemma_congruent_trans((va + vb) * pow2(32), a + b, r, m);
    lemma_montgomery_value_of(r, va + vb, m);
}

/// A word congruent to a difference stands for the difference of the residues.
proof fn lemma_montgomery_value_sub(r: int, a: int, b: int, m: int)
    requires
        is_odd_modulus(m),
        congruent(r, a - b, m),
    ensures
        montgomery_value(r, m) == (montgomery_value(a, m) - montgomery_value(b, m)) % m,
{
    let va = montgomery_value(a, m);
    let vb = montgomery_value(b, m);
    lemma_montgomery_value(a, m);
    lemma_montgomery_value(b, m);
    lemma_congruent_neg(vb * pow2(32), b, m);
    lemma_congruent_add(va * pow2(32), a, -(vb * pow2(32)), -b, m);
    assert(va * pow2(32) + -(vb * pow2(32)) == (va - vb) * pow2(32)) by (nonlinear_arith);
    lemma_congruent_symm(r, a - b, m);
    assert(a + -b == a - b);
    lemma_congruent_trans((va - vb) * pow2(32), a - b, r, m);
    lemma_montgomery_value_of(r, va - vb, m);
}

/// A word `r` with `r·2^32 ≡ a·b` (the result of a Montgomery reduction of `a·b`)
/// stands for the product of the residues.
proof fn lemma_montgomery_value_mul(r: int, a: int, b: int, m: int)
    requires
        is_odd_modulus(m),
        congruent(r * pow2(32), a * b, m),
    ensures
        montgomery_value(r, m) == (montgomery_value(a, m) * montgomery_value(b, m)) % m,
{
    let va = montgomery_value(a, m);
    let vb = montgomery_value(b, m);
    let w = pow2(32) as int;
    lemma_montgomery_value(a, m);
    lemma_montgomery_value(b, m);
    lemma_congruent_mul_both(va * w, a, vb * w, b, m);
    assert((va * w) * (vb * w) == (va * vb * w) * w) by (nonlinear_arith);
    lemma_congruent_symm(r * w, a * b, m);
    lemma_congruent_trans((va * vb * w) * w, a * b, r * w, m);
    lemma_congruent_cancel_pow2(va * vb * w, r, 32, m);
    lemma_montgomery_value_of(r, va * vb, m);
}

/// A residue modulo `M`, kept in Montgomery representation.
#[derive(Debug, Clone, Copy, PartialEq, Eq)]
pub struct Mint<const M: u32>(u32);

impl<const M: u32> View for Mint<M> {
    type V = int;

    /// The residue in `[0, M)` that this value stands for.
    closed spec fn view(&self) -> int {
        montgomery_value(self.0 as int, M as int)
    }
}

impl<const M: u32> Mint<M> {
    /// Every value stands for a residue in `[0, M)`.
    pub proof fn lemma_view_range(self)
        requires
            M > 0,
        ensures
            0 <= self@ < M,
    {
        lemma_mod_bound((self.0 as int) * pow(half_mod(M as int), 32), M as int);
    }

    /// Values that stand for the same residue are the same value: each residue
    /// has exactly one representation.
    pub fn lemma_view_injective(a: &Self, b: &Self)
        requires
            a@ == b@,
        ensures
            *a == *b,
    {
        proof {
            use_type_invariant(a);
            use_type_invariant(b);
            lemma_montgomery_value_injective(a.0 as int, b.0 as int, M as int);
        }
    }

    /// The word lies below `M`, and `M` is a supported modulus.
    #[verifier::type_invariant]
    spec fn well_formed(self) -> bool {
        &&& self.0 < M
        &&& is_montgomery_modulus(M as int)
    }

    /// Modular inverse of `M` modulo `2^32`, by Newton's iteration.
    fn inv_m() -> (inv: u32)
        requires
            M % 2 == 1,
        ensures
            (M * inv) % (pow2(32) as int) == 1,
    {
        let m = M;
        proof {
            lemma2_to64();
            // 1 * 1 = 3 * 3 = 1 (mod 4)
            assert(m & 3 == m % 4) by (bit_vector);
            assert((M * (M % 4)) % 4 == 1) by {
                lemma_fundamental_div_mod(M as int, 2);
                let t = M as int / 2;
                assert(M * M == 4 * (t * t + t) + 1) by (nonlinear_arith)
                    requires
                        M == 2 * t + 1,
                ;
                lemma_mul_mod_noop_right(M as int, M as int, 4);
                lemma_mod_twice(M as int, 4);
                lemma_mod_multiples_vanish(t * t + t, 1, 4);
                lemma_small_mod(1, 4);
            }
        }
        let mut inv_m = m & 3;
        // Newton's method
        // n inv_n = 1 (mod 2^k) => (n inv_n - 1)^2 = 0 (mod 2^{2k})
        // => n inv_n (2 - n inv_n) = 1 (mod 2^{2k})
        let log_bits = u32::BITS.ilog2();
        proof {
            lemma_ilog2_pow2(log_bits, 5);
            lemma2_to64();
        }
        let mut i = log_bits - 1;
        let ghost mut k: nat = 2;
        while i > 0
            invariant
                m == M,
                i <= 4,
                2 <= k <= 32,
                k * pow2(i as nat) >= 32,
                (M * inv_m) % (pow2(k) as int) == 1,
            decreases i,
        {
            i -= 1;
            proof {
                lemma2_to64();
                lemma_newton_step(M as int, inv_m as int, k, 32);
                lemma_pow2_unfold((i + 1) as nat);
            }
            let e = m.wrapping_mul(inv_m);
            let s = 2_u32.wrapping_sub(e);
            proof {
                lemma_wrapping_sub_u32(2, e);
            }
            inv_m = inv_m.wrapping_mul(s);
            proof {
                let k0 = k;
                k = if 2 * k < 32 { 2 * k } else { 32 };
                assert(k * pow2(i as nat) >= 32) by (nonlinear_arith)
                    requires
                        k == 32 || k == 2 * k0,
                        k0 * pow2((i + 1) as nat) >= 32,
                        pow2((i + 1) as nat) == 2 * pow2(i as nat),
                        pow2(i as nat) >= 1;
            }
        }
        proof {
            lemma2_to64();
            assert(i == 0);
            assert(pow2(i as nat) == 1);
            assert(k * 1 >= 32);
            assert(k == 32);
        }
        inv_m
    }

    /// Montgomery reduction of `a·b`: the word `r` in `[0, M)` with `r·2^32 ≡ a·b`.
    fn mul_raw(a: u32, b: u32) -> (r: u32)
        requires
            is_montgomery_modulus(M as int),
            a * b < M * pow2(32),
        ensures
            r < M,
            congruent(r * pow2(32), a * b, M as int),
    {
        let inv = Self::inv_m();
        proof {
            lemma2_to64();
            lemma_montgomery_reduce(a * b, inv as int, M as int);
        }
        let prod = (a as u64) * (b as u64);
        let p_hi = (prod >> 32) as u32;
        let p_lo = prod as u32;
        assert(p_hi == prod / 0x1_0000_0000) by (bit_vector)
            requires
                p_hi == (prod >> 32) as u32,
        ;
        assert(p_lo == prod % 0x1_0000_0000) by (bit_vector)
            requires
                p_lo == prod as u32,
        ;
        let u = p_lo.wrapping_mul(inv);
        let t = u as u64 * (M as u64);
        let t_hi = (t >> 32) as u32;
        assert(t_hi == t / 0x1_0000_0000) by (bit_vector)
            requires
                t_hi == (t >> 32) as u32,
        ;
        let (mut rem, borrow) = p_hi.overflowing_sub(t_hi);
        rem = rem.wrapping_add(if borrow { M } else { 0 });
        proof {
            let m = M as int;
            let diff = p_hi - t_hi;
            lemma_small_mod(0, m as nat);
            if borrow {
                assert(rem == diff + m);
                assert((diff + m) * pow2(32) == diff * pow2(32) + pow2(32) * m) by (nonlinear_arith);
                lemma_congruent_add_multiple(diff * pow2(32), pow2(32) as int, m);
                lemma_congruent_trans(rem * pow2(32), diff * pow2(32), a * b, m);
            }
        }
        rem
    }

    /// Converts an integer into Montgomery representation.
    pub fn new(x: u32) -> (r: Self)
        requires
            is_montgomery_modulus(M as int),
        ensures
            r@ == (x as int) % (M as int),
    {
        let pow_2_64 = (M as u64).wrapping_neg() % (M as u64);
        let init = pow_2_64 as u32;
        proof {
            lemma2_to64();
            let n = pow2(64) as int;
            let m = M as int;
            assert(init == n % m) by {
                lemma_mod_sub_multiples_vanish(n, m);
            }
            lemma_mod_bound(n, m);
            assert(x * init < 0x1_0000_0000 * M) by (nonlinear_arith)
                requires
                    x < 0x1_0000_0000,
                    init < M,
            ;
        }
        // `x * init < (M << 32)`
        let r = Self::mul_raw(x, init);
        proof {
            let m = M as int;
            let w = pow2(32) as int;
            lemma_pow2_adds(32, 32);
            // r w ≡ x 2^64 = (x w) w, so r ≡ x w
            lemma_congruent_mod(pow2(64) as int, m);
            lemma_congruent_mul(init as int, pow2(64) as int, x as int, m);
            assert(init * x == x * init) by (nonlinear_arith);
            assert(pow2(64) * x == (x * w) * w) by (nonlinear_arith)
                requires
                    pow2(64) == w * w,
            ;
            lemma_congruent_trans(r * w, x * init, (x * w) * w, m);
            lemma_congruent_cancel_pow2(r as int, x * w, 32, m);
            lemma_congruent_symm(r as int, x * w, m);
            lemma_montgomery_value_of(r as int, x as int, m);
        }
        Self(r)
    }

    /// Returns remainder.
    pub fn get(self) -> (r: u32)
        ensures
            r == self@,
            r < M,
    {
        proof {
            use_type_invariant(&self);
            self.lemma_view_range();
            lemma2_to64();
            assert(self.0 * 1 < M * 0x1_0000_0000) by (nonlinear_arith)
                requires
                    self.0 < M,
            ;
        }
        let r = Self::mul_raw(self.0, 1);
        proof {
            let m = M as int;
            assert(self.0 * 1 == self.0);
            lemma_montgomery_value_of(self.0 as int, r as int, m);
            lemma_small_mod(r as nat, m as nat);
        }
        r
    }

    /// Performs modular multiplication.
    pub fn mul(self, rhs: Self) -> (r: Self)
        ensures
            r@ == (self@ * rhs@) % (M as int),
    {
        proof {
            use_type_invariant(&self);
            use_type_invariant(&rhs);
            lemma2_to64();
            assert(self.0 * rhs.0 < M * 0x1_0000_0000) by (nonlinear_arith)
                requires
                    self.0 < M,
                    rhs.0 < M,
                    M < 0x1_0000_0000,
            ;
        }
        let r = Self::mul_raw(self.0, rhs.0);
        proof {
            lemma_montgomery_value_mul(r as int, self.0 as int, rhs.0 as int, M as int);
        }
        Self(r)
    }

    /// Modular exponentiation by squaring.
    pub fn pow(self, exp: u32) -> (r: Self)
        ensures
            r@ == pow(self@, exp as nat) % (M as int),
    {
        proof {
            use_type_invariant(&self);
        }
        let m = Ghost(M as int);
        let mut base = self;
        let mut exp = exp;
        let ghost e0 = exp;
        let mut res = Self::new(1);
        proof {
            lemma_small_mod(1, M as nat);
            assert(1 * pow(self@, e0 as nat) == pow(self@, e0 as nat));
            lemma_small_mod(0, M as nat);
        }
        while exp > 0
            invariant
                m@ == M as int,
                is_montgomery_modulus(m@),
                congruent(res@ * pow(base@, exp as nat), pow(self@, e0 as nat), m@),
            decreases exp,
        {
            let ghost r0 = res@;
            let ghost b0 = base@;
            let ghost ex0 = exp;
            assert(exp & 1 == 1 <==> exp % 2 == 1) by (bit_vector);
            if exp & 1 == 1 {
                res = res.mul(base);
            }
            exp >>= 1;
            base = base.mul(base);
            proof {
                assert(exp == ex0 / 2) by (bit_vector)
                    requires
                        exp == ex0 >> 1,
                ;
                let f: int = if ex0 % 2 == 1 { b0 } else { 1 };
                lemma_pow_square_step(b0, ex0 as nat);
                lemma_congruent_mod(b0 * b0, m@);
                lemma_congruent_pow(base@, b0 * b0, exp as nat, m@);
                if ex0 % 2 == 1 {
                    lemma_congruent_mod(r0 * b0, m@);
                } else {
                    assert(r0 * 1 == r0);
                    lemma_small_mod(0, m@ as nat);
                }
                assert(congruent(res@, r0 * f, m@));
                lemma_congruent_mul_both(res@, r0 * f, pow(base@, exp as nat), pow(b0 * b0, exp as nat), m@);
                assert((r0 * f) * pow(b0 * b0, exp as nat) == r0 * pow(b0, ex0 as nat)) by (nonlinear_arith)
                    requires
                        pow(b0, ex0 as nat) == pow(b0 * b0, exp as nat) * f,
                ;
                lemma_congruent_trans(res@ * pow(base@, exp as nat), r0 * pow(b0, ex0 as nat), pow(self@, e0 as nat), m@);
            }
        }
        proof {
            lemma_pow0(base@);
            assert(res@ * 1 == res@);
            lemma_montgomery_value(res.0 as int, m@);
            lemma_congruent_iff_mod_eq(res@, pow(self@, e0 as nat), m@);
            lemma_small_mod(res@ as nat, m@ as nat);
        }
        res
    }

    /// The inverse `self^(M - 2)` of a nonzero value (a true inverse when `M` is
    /// prime), or `None` for zero.
    pub fn inv(self) -> (r: Option<Self>)
        ensures
            r is None <==> self@ == 0,
            r matches Some(v) ==> v@ == pow(self@, (M - 2) as nat) % (M as int),
            r matches Some(v) ==> (is_prime(M as nat) ==> (self@ * v@) % (M as int) == 1),
    {
        proof {
            use_type_invariant(&self);
            lemma_montgomery_value_zero(self.0 as int, M as int);
            lemma_montgomery_value(self.0 as int, M as int);
        }
        if self.0 > 0 {
            let v = self.pow(M - 2);
            proof {
                if is_prime(M as nat) {
                    let a = self@;
                    let m = M as int;
                    lemma_small_mod(a as nat, m as nat);
                    lemma_fermat_inverse(a, M as nat);
                    lemma_mul_mod_noop_right(a, pow(a, (M - 2) as nat), m);
                }
            }
            Some(v)
        } else {
            None
        }
    }

    /// The word in `[0, M)` congruent to `a - b`.
    fn sub_raw(a: u32, b: u32) -> (r: u32)
        requires
            is_montgomery_modulus(M as int),
            a < M,
            b <= M,
        ensures
            r < M,
            congruent(r as int, a - b, M as int),
    {
        let (mut diff, borrow) = a.overflowing_sub(b);
        diff = diff.wrapping_add(if borrow { M } else { 0 });
        proof {
            lemma_small_mod(0, M as nat);
            if borrow {
                lemma_congruent_add_multiple(a - b, 1, M as int);
            }
        }
        diff
    }

    /// Modular addition.
    pub fn add(self, rhs: Self) -> (r: Self)
        ensures
            r@ == (self@ + rhs@) % (M as int),
    {
        proof {
            use_type_invariant(&self);
            use_type_invariant(&rhs);
        }
        let r = Self::sub_raw(self.0, M - rhs.0);
        proof {
            let m = M as int;
            lemma_congruent_add_multiple(self.0 + rhs.0, -1, m);
            assert(self.0 - (M - rhs.0) == self.0 + rhs.0 + (-1) * m);
            lemma_congruent_trans(r as int, self.0 - (M - rhs.0), self.0 + rhs.0, m);
            lemma_montgomery_value_add(r as int, self.0 as int, rhs.0 as int, m);
        }
        Self(r)
    }

    /// Modular subtraction.
    pub fn sub(self, rhs: Self) -> (r: Self)
        ensures
            r@ == (self@ - rhs@) % (M as int),
    {
        proof {
            use_type_invariant(&self);
            use_type_invariant(&rhs);
        }
        let r = Self::sub_raw(self.0, rhs.0);
        proof {
            lemma_montgomery_value_sub(r as int, self.0 as int, rhs.0 as int, M as int);
        }
        Self(r)
    }
}

} // verus!
