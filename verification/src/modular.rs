//! Residue arithmetic shared by the Plantard and Montgomery representations:
//! division by a power of two modulo an odd modulus, and the congruence facts
//! the reductions rely on.
use vstd::prelude::*;
use vstd::arithmetic::div_mod::*;
use vstd::arithmetic::mul::*;
use vstd::arithmetic::power::*;
use vstd::arithmetic::power2::*;

verus! {

/// An odd positive modulus (`1` included: every residue modulo `1` is `0`).
pub open spec fn is_odd_modulus(m: int) -> bool {
    m >= 1 && m % 2 == 1
}

/// The inverse of two modulo an odd `m`.
pub open spec fn half_mod(m: int) -> int {
    (m + 1) / 2
}

/// The residue `x · 2^-k (mod m)`, as a value in `[0, m)`.
pub open spec fn div_pow2_mod(x: int, k: nat, m: int) -> int {
    (x * pow(half_mod(m), k)) % m
}

/// `a ≡ b (mod m)`.
pub open spec fn congruent(a: int, b: int, m: int) -> bool {
    (a - b) % m == 0
}

/// Two values are congruent exactly when their remainders agree.
pub proof fn lemma_congruent_iff_mod_eq(a: int, b: int, m: int)
    requires
        m > 0,
    ensures
        congruent(a, b, m) <==> a % m == b % m,
{
    lemma_fundamental_div_mod(a, m);
    lemma_fundamental_div_mod(b, m);
    lemma_mod_bound(a, m);
    lemma_mod_bound(b, m);
    let qa = a / m;
    let qb = b / m;
    assert(a - b == (qa - qb) * m + (a % m - b % m)) by {
        lemma_mul_is_distributive_sub_other_way(m, qa, qb);
        lemma_mul_is_commutative(m, qa);
        lemma_mul_is_commutative(m, qb);
    }
    if a % m == b % m {
        lemma_mod_multiples_basic(qa - qb, m);
    }
    if congruent(a, b, m) {
        lemma_fundamental_div_mod(a - b, m);
        let d = a % m - b % m;
        assert(-m < d < m);
        assert(((qa - qb) * m + d) % m == d % m) by {
            lemma_mod_multiples_vanish(qa - qb, d, m);
        }
        if d > 0 {
            lemma_small_mod(d as nat, m as nat);
        } else if d < 0 {
            lemma_mod_add_multiples_vanish(d, m);
            lemma_small_mod((d + m) as nat, m as nat);
        }
    }
}

/// Congruence is preserved under multiplication by any factor.
pub proof fn lemma_congruent_mul(a: int, b: int, c: int, m: int)
    requires
        m > 0,
        congruent(a, b, m),
    ensures
        congruent(a * c, b * c, m),
{
    lemma_mul_is_distributive_sub_other_way(c, a, b);
    lemma_mul_mod_noop_left(a - b, c, m);
    assert(((a - b) % m) * c == 0);
    lemma_small_mod(0, m as nat);
}

/// Congruence is transitive.
pub proof fn lemma_congruent_trans(a: int, b: int, c: int, m: int)
    requires
        m > 0,
        congruent(a, b, m),
        congruent(b, c, m),
    ensures
        congruent(a, c, m),
{
    lemma_congruent_iff_mod_eq(a, b, m);
    lemma_congruent_iff_mod_eq(b, c, m);
    lemma_congruent_iff_mod_eq(a, c, m);
}

/// Congruence is symmetric.
pub proof fn lemma_congruent_symm(a: int, b: int, m: int)
    requires
        m > 0,
        congruent(a, b, m),
    ensures
        congruent(b, a, m),
{
    lemma_congruent_iff_mod_eq(a, b, m);
    lemma_congruent_iff_mod_eq(b, a, m);
}

/// Every multiple of `m` is congruent to zero.
pub proof fn lemma_congruent_add_multiple(a: int, q: int, m: int)
    requires
        m > 0,
    ensures
        congruent(a + q * m, a, m),
{
    assert(a + q * m - a == q * m);
    lemma_mod_multiples_basic(q, m);
}

/// Congruences can be multiplied together.
pub proof fn lemma_congruent_mul_both(a1: int, b1: int, a2: int, b2: int, m: int)
    requires
        m > 0,
        congruent(a1, b1, m),
        congruent(a2, b2, m),
    ensures
        congruent(a1 * a2, b1 * b2, m),
{
    lemma_congruent_mul(a1, b1, a2, m);
    lemma_congruent_mul(a2, b2, b1, m);
    assert(a2 * b1 == b1 * a2) by (nonlinear_arith);
    assert(b2 * b1 == b1 * b2) by (nonlinear_arith);
    lemma_congruent_trans(a1 * a2, b1 * a2, b1 * b2, m);
}

/// Congruence is preserved by negation.
pub proof fn lemma_congruent_neg(a: int, b: int, m: int)
    requires
        m > 0,
        congruent(a, b, m),
    ensures
        congruent(-a, -b, m),
{
    lemma_congruent_mul(a, b, -1, m);
    assert(a * -1 == -a) by (nonlinear_arith);
    assert(b * -1 == -b) by (nonlinear_arith);
}

/// Congruences can be added.
pub proof fn lemma_congruent_add(a1: int, b1: int, a2: int, b2: int, m: int)
    requires
        m > 0,
        congruent(a1, b1, m),
        congruent(a2, b2, m),
    ensures
        congruent(a1 + a2, b1 + b2, m),
{
    lemma_fundamental_div_mod(a1 - b1, m);
    lemma_fundamental_div_mod(a2 - b2, m);
    let q1 = (a1 - b1) / m;
    let q2 = (a2 - b2) / m;
    assert((a1 + a2) - (b1 + b2) == (q1 + q2) * m) by (nonlinear_arith)
        requires
            a1 - b1 == m * q1 + 0,
            a2 - b2 == m * q2 + 0,
    ;
    lemma_mod_multiples_basic(q1 + q2, m);
}

/// Every value is congruent to its remainder.
pub proof fn lemma_congruent_mod(a: int, m: int)
    requires
        m > 0,
    ensures
        congruent(a % m, a, m),
{
    lemma_mod_twice(a, m);
    lemma_congruent_iff_mod_eq(a % m, a, m);
}

/// Square-and-multiply: `b^e = (b·b)^(e/2) · (b if e is odd else 1)`.
pub proof fn lemma_pow_square_step(b: int, e: nat)
    ensures
        pow(b, e) == pow(b * b, e / 2) * (if e % 2 == 1 { b } else { 1 }),
{
    let h = e / 2;
    let r = e % 2;
    assert(e == 2 * h + r);
    lemma_pow_adds(b, 2 * h, r);
    lemma_pow_multiplies(b, 2, h);
    lemma_square_is_pow2(b);
    if r == 1 {
        lemma_pow1(b);
    } else {
        lemma_pow0(b);
    }
    assert(pow(b, 2 * h + r) == pow(b, 2 * h) * pow(b, r));
}

/// Exponentiation respects congruence of the base.
pub proof fn lemma_congruent_pow(a: int, b: int, e: nat, m: int)
    requires
        m > 0,
        congruent(a, b, m),
    ensures
        congruent(pow(a, e), pow(b, e), m),
{
    lemma_congruent_iff_mod_eq(a, b, m);
    lemma_pow_mod_noop(a, e, m);
    lemma_pow_mod_noop(b, e, m);
    lemma_congruent_iff_mod_eq(pow(a, e), pow(b, e), m);
}

/// `2 · half_mod(m) ≡ 1 (mod m)`.
pub proof fn lemma_half_mod(m: int)
    requires
        is_odd_modulus(m),
    ensures
        2 * half_mod(m) == m + 1,
        congruent(2 * half_mod(m), 1, m),
{
    lemma_fundamental_div_mod(m, 2);
    lemma_mod_self_0(m);
    lemma_mod_multiples_basic(1, m);
}

/// `half_mod(m)^k · 2^k ≡ 1 (mod m)`.
pub proof fn lemma_half_pow_inverse(m: int, k: nat)
    requires
        is_odd_modulus(m),
    ensures
        congruent(pow(half_mod(m), k) * pow2(k), 1, m),
    decreases k,
{
    reveal(pow);
    reveal(pow2);
    let h = half_mod(m);
    if k == 0 {
        assert(pow(h, 0) * pow2(0) == 1);
        lemma_small_mod(0, m as nat);
    } else {
        let km1 = (k - 1) as nat;
        lemma_half_pow_inverse(m, km1);
        let x = pow(h, km1) * pow2(km1);
        assert(pow(h, k) * pow2(k) == (2 * h) * x) by {
            assert(pow(h, k) == h * pow(h, km1));
            lemma_pow2_unfold(k);
            assert((h * pow(h, km1)) * (2 * pow2(km1)) == (2 * h) * (pow(h, km1) * pow2(km1)))
                by (nonlinear_arith);
        }
        lemma_half_mod(m);
        // (m + 1) * x ≡ x ≡ 1
        assert((2 * h) * x == x + x * m) by (nonlinear_arith)
            requires
                2 * h == m + 1,
        ;
        lemma_congruent_add_multiple(x, x, m);
        lemma_congruent_trans((2 * h) * x, x, 1, m);
    }
}

/// Two is invertible modulo an odd `m`: `m | 2x` implies `m | x`.
pub proof fn lemma_cancel_two(x: int, m: int)
    requires
        is_odd_modulus(m),
        (2 * x) % m == 0,
    ensures
        x % m == 0,
{
    let h = half_mod(m);
    lemma_half_mod(m);
    // x * (m + 1) = (2x) * h
    assert(x * (m + 1) == (2 * x) * h) by (nonlinear_arith)
        requires
            2 * h == m + 1,
    ;
    lemma_mul_mod_noop_left(2 * x, h, m);
    assert(((2 * x) % m) * h == 0);
    lemma_small_mod(0, m as nat);
    assert((2 * x) * h % m == 0);
    assert(x * (m + 1) == x + x * m) by (nonlinear_arith);
    lemma_congruent_add_multiple(x, x, m);
    lemma_congruent_iff_mod_eq(x + x * m, x, m);
}

/// Powers of two are invertible modulo an odd `m`: `m | x·2^k` implies `m | x`.
pub proof fn lemma_cancel_pow2(x: int, k: nat, m: int)
    requires
        is_odd_modulus(m),
        (x * pow2(k)) % m == 0,
    ensures
        x % m == 0,
    decreases k,
{
    reveal(pow2);
    if k > 0 {
        let km1 = (k - 1) as nat;
        lemma_pow2_unfold(k);
        assert(x * pow2(k) == (2 * x) * pow2(km1)) by (nonlinear_arith)
            requires
                pow2(k) == 2 * pow2(km1),
        ;
        lemma_cancel_pow2(2 * x, km1, m);
        lemma_cancel_two(x, m);
    } else {
        lemma_pow0(2);
        assert(x * 1 == x);
    }
}

/// A common factor `2^k` can be cancelled from a congruence modulo an odd `m`.
pub proof fn lemma_congruent_cancel_pow2(a: int, b: int, k: nat, m: int)
    requires
        is_odd_modulus(m),
        congruent(a * pow2(k), b * pow2(k), m),
    ensures
        congruent(a, b, m),
{
    assert(a * pow2(k) - b * pow2(k) == (a - b) * pow2(k)) by (nonlinear_arith);
    lemma_cancel_pow2(a - b, k, m);
}

/// `div_pow2_mod(x, k, m)` is a residue `v` in `[0, m)` with `v · 2^k ≡ x (mod m)`.
pub proof fn lemma_div_pow2_mod(x: int, k: nat, m: int)
    requires
        is_odd_modulus(m),
    ensures
        0 <= div_pow2_mod(x, k, m) < m,
        congruent(div_pow2_mod(x, k, m) * pow2(k), x, m),
{
    let hk = pow(half_mod(m), k);
    let v = div_pow2_mod(x, k, m);
    lemma_mod_bound(x * hk, m);
    // v ≡ x * hk
    assert(congruent(v, x * hk, m)) by {
        lemma_mod_twice(x * hk, m);
        lemma_congruent_iff_mod_eq(v, x * hk, m);
    }
    lemma_congruent_mul(v, x * hk, pow2(k) as int, m);
    lemma_half_pow_inverse(m, k);
    lemma_congruent_mul(hk * pow2(k), 1, x, m);
    assert((x * hk) * pow2(k) == (hk * pow2(k)) * x) by (nonlinear_arith);
    lemma_congruent_trans(v * pow2(k), (x * hk) * pow2(k), x, m);
}

/// Any `w` with `w · 2^k ≡ x (mod m)` is congruent to `div_pow2_mod(x, k, m)`.
pub proof fn lemma_div_pow2_mod_unique(x: int, k: nat, m: int, w: int)
    requires
        is_odd_modulus(m),
        congruent(w * pow2(k), x, m),
    ensures
        w % m == div_pow2_mod(x, k, m),
{
    let v = div_pow2_mod(x, k, m);
    lemma_div_pow2_mod(x, k, m);
    lemma_congruent_symm(v * pow2(k), x, m);
    lemma_congruent_trans(w * pow2(k), x, v * pow2(k), m);
    assert(w * pow2(k) - v * pow2(k) == (w - v) * pow2(k)) by (nonlinear_arith);
    lemma_cancel_pow2(w - v, k, m);
    lemma_congruent_iff_mod_eq(w, v, m);
    lemma_small_mod(v as nat, m as nat);
}

} // verus!
