//! The arithmetic behind the word-level algorithms: Newton's iteration for an
//! inverse modulo a power of two, Plantard reduction and Montgomery reduction.
use vstd::prelude::*;
use vstd::arithmetic::div_mod::*;
use vstd::arithmetic::mul::*;
use vstd::arithmetic::power2::*;
use crate::modular::{
    congruent, is_odd_modulus, lemma_congruent_add_multiple, lemma_congruent_iff_mod_eq,
    lemma_congruent_mul, lemma_congruent_trans,
};

verus! {

/// Congruence modulo `n` implies congruence modulo every divisor of `n`.
pub proof fn lemma_congruent_divisor(a: int, b: int, n: int, d: int)
    requires
        d > 0,
        n > 0,
        n % d == 0,
        congruent(a, b, n),
    ensures
        congruent(a, b, d),
{
    lemma_fundamental_div_mod(a - b, n);
    lemma_fundamental_div_mod(n, d);
    let q = (a - b) / n;
    let c = n / d;
    assert(a - b == d * (c * q)) by (nonlinear_arith)
        requires
            a - b == n * q + 0,
            n == d * c + 0,
    ;
    lemma_mod_multiples_basic(c * q, d);
    lemma_mul_is_commutative(d, c * q);
}

/// `pow2(a) | pow2(b)` when `a <= b`.
pub proof fn lemma_pow2_divides(a: nat, b: nat)
    requires
        a <= b,
    ensures
        pow2(b) % pow2(a) == 0,
        pow2(b) == pow2(a) * pow2((b - a) as nat),
{
    lemma_pow2_adds(a, (b - a) as nat);
    lemma_pow2_pos(a);
    lemma_mod_multiples_basic(pow2((b - a) as nat) as int, pow2(a) as int);
    lemma_mul_is_commutative(pow2(a) as int, pow2((b - a) as nat) as int);
}

/// One step of Newton's iteration for the inverse of `m` modulo `2^w`, computed
/// with wrapping `w`-bit arithmetic, doubles the number of correct low bits.
pub proof fn lemma_newton_step(m: int, x: int, k: nat, w: nat)
    requires
        0 <= m,
        0 <= x,
        2 <= k <= w,
        (m * x) % (pow2(k) as int) == 1,
    ensures
        ({
            let n = pow2(w) as int;
            let e = (m * x) % n;
            let s = (2 - e) % n;
            let y = (x * s) % n;
            let kk: nat = if 2 * k < w { 2 * k } else { w };
            (m * y) % (pow2(kk) as int) == 1
        }),
{
    let n = pow2(w) as int;
    let e = (m * x) % n;
    let s = (2 - e) % n;
    let y = (x * s) % n;
    let kk: nat = if 2 * k < w { 2 * k } else { w };
    let big_k = pow2(k) as int;
    let kkp = pow2(kk) as int;
    lemma_pow2_pos(w);
    lemma_pow2_pos(k);
    lemma_pow2_pos(kk);
    lemma_pow2_divides(kk, w);
    lemma_pow2_divides(kk, 2 * k);
    lemma_pow2_adds(k, k);
    let mx = m * x;
    // mx = K t + 1
    lemma_fundamental_div_mod(mx, big_k);
    let t = mx / big_k;
    assert(mx == big_k * t + 1);
    // y ≡ x s, s ≡ 2 - mx (mod n)
    assert(congruent(y, x * s, n)) by {
        lemma_mod_twice(x * s, n);
        lemma_mod_bound(x * s, n);
        lemma_congruent_iff_mod_eq(y, x * s, n);
    }
    assert(congruent(e, mx, n)) by {
        lemma_mod_twice(mx, n);
        lemma_congruent_iff_mod_eq(e, mx, n);
    }
    assert(congruent(s, 2 - mx, n)) by {
        lemma_mod_twice(2 - e, n);
        lemma_congruent_iff_mod_eq(s, 2 - e, n);
        assert((2 - e) - (2 - mx) == -(e - mx));
        lemma_fundamental_div_mod(e - mx, n);
        let q = (e - mx) / n;
        assert((2 - e) - (2 - mx) == n * (-q)) by (nonlinear_arith)
            requires
                e - mx == n * q + 0,
        ;
        lemma_mod_multiples_basic(-q, n);
        lemma_mul_is_commutative(n, -q);
        lemma_congruent_trans(s, 2 - e, 2 - mx, n);
    }
    lemma_congruent_mul(y, x * s, m, n);
    lemma_congruent_mul(s, 2 - mx, mx, n);
    assert((x * s) * m == s * mx) by (nonlinear_arith)
        requires
            mx == m * x,
    ;
    assert(y * m == m * y) by (nonlinear_arith);
    lemma_congruent_trans(m * y, s * mx, (2 - mx) * mx, n);
    // (2 - mx) mx = 1 - t^2 K^2
    let c2 = pow2((2 * k - kk) as nat) as int;
    assert(big_k * big_k == kkp * c2);
    assert((2 - mx) * mx == 1 + (-(t * t * c2)) * kkp) by (nonlinear_arith)
        requires
            mx == big_k * t + 1,
            big_k * big_k == kkp * c2,
    ;
    lemma_congruent_divisor(m * y, (2 - mx) * mx, n, kkp);
    lemma_congruent_add_multiple(1, -(t * t * c2), kkp);
    lemma_congruent_trans(m * y, (2 - mx) * mx, 1, kkp);
    lemma_congruent_iff_mod_eq(m * y, 1, kkp);
    assert(kkp >= 4) by {
        lemma2_to64();
        if kk > 2 {
            lemma_pow2_strictly_increases(2, kk);
        }
    }
    lemma_small_mod(1, kkp as nat);
}

/// Plantard reduction: for `m` odd and below `2^31`, `r` the inverse of `m` modulo
/// `2^64` and `c + m·2^32 < 2^64`, the value `k = ((q + 1)·m) >> 32` with
/// `q = ((c·r) mod 2^64) >> 32` lies in `[0, m)` and satisfies `k·2^64 ≡ -c (mod m)`.
pub proof fn lemma_plantard_reduce(c: int, r: int, m: int)
    requires
        0 <= c,
        0 <= r,
        is_odd_modulus(m),
        (m * r) % (pow2(64) as int) == 1,
        c + m * pow2(32) < pow2(64),
    ensures
        ({
            let d = (c * r) % (pow2(64) as int);
            let q = d / (pow2(32) as int);
            let k = ((q + 1) * m) / (pow2(32) as int);
            &&& 0 <= q
            &&& q + 1 < pow2(32)
            &&& 0 <= k < m
            &&& congruent(k * pow2(64), -c, m)
        }),
{
    let n = pow2(64) as int;
    let w = pow2(32) as int;
    lemma_pow2_adds(32, 32);
    lemma_pow2_pos(32);
    assert(n == w * w);
    let d = (c * r) % n;
    let q = d / w;
    lemma_mod_bound(c * r, n);
    // Step 1: d m ≡ c (mod n)
    assert(congruent(d * m, c, n)) by {
        lemma_mod_twice(c * r, n);
        lemma_congruent_iff_mod_eq(d, c * r, n);
        lemma_congruent_mul(d, c * r, m, n);
        lemma_congruent_iff_mod_eq(m * r, 1, n);
        lemma_small_mod(1, n as nat);
        lemma_mod_twice(m * r, n);
        lemma_congruent_mul(m * r, 1, c, n);
        assert((c * r) * m == (m * r) * c) by (nonlinear_arith);
        lemma_congruent_trans(d * m, (c * r) * m, c, n);
    }
    // Step 2: d m = n k0 + c with 0 <= k0 < m
    lemma_congruent_iff_mod_eq(d * m, c, n);
    lemma_small_mod(c as nat, n as nat);
    lemma_fundamental_div_mod(d * m, n);
    let k0 = (d * m) / n;
    assert(d * m == n * k0 + c);
    assert(0 <= k0 < m) by (nonlinear_arith)
        requires
            d * m == n * k0 + c,
            0 <= d < n,
            0 <= c < n,
            m > 0,
            n > 0,
    ;
    // Step 3: d = w q + d0
    lemma_fundamental_div_mod(d, w);
    lemma_mod_bound(d, w);
    let d0 = d % w;
    assert(0 <= q < w) by (nonlinear_arith)
        requires
            d == w * q + d0,
            0 <= d0 < w,
            0 <= d < n,
            n == w * w,
    ;
    // Step 4/5: (q + 1) m = w k0 + e / w with 0 <= e / w < w
    let e = c + (w - d0) * m;
    assert(c < n) by (nonlinear_arith)
        requires
            c + m * w < n,
            m > 0,
            w > 0,
    ;
    assert((q + 1) * m * w == n * k0 + e) by (nonlinear_arith)
        requires
            d * m == n * k0 + c,
            d == w * q + d0,
            e == c + (w - d0) * m,
    ;
    let f = (q + 1) * m - w * k0;
    assert(e == w * f) by (nonlinear_arith)
        requires
            (q + 1) * m * w == n * k0 + e,
            n == w * w,
            f == (q + 1) * m - w * k0,
    ;
    assert(0 < e < n) by (nonlinear_arith)
        requires
            e == c + (w - d0) * m,
            0 <= d0 < w,
            m > 0,
            c >= 0,
            c + m * w < n,
    ;
    assert(0 <= f < w) by (nonlinear_arith)
        requires
            e == w * f,
            0 < e < n,
            n == w * w,
            w > 0,
    ;
    assert((q + 1) * m == w * k0 + f);
    lemma_fundamental_div_mod_converse((q + 1) * m, w, k0, f);
    let k = ((q + 1) * m) / w;
    assert(k == k0);
    // Step 6: q + 1 < w
    assert(q + 1 < w) by (nonlinear_arith)
        requires
            (q + 1) * m == w * k0 + f,
            0 <= f < w,
            k0 < m,
            m > 0,
    ;
    // Step 7: k n ≡ -c (mod m)
    assert(k * n - (-c) == d * m);
    lemma_mod_multiples_basic(d, m);
}

/// Montgomery reduction: for odd `m`, `r` the inverse of `m` modulo `2^32` and
/// `p < m·2^32`, write `p = hi·2^32 + lo` and `t = ((lo·r) mod 2^32)·m`; then
/// `t < m·2^32`, `t ≡ lo (mod 2^32)`, and `hi - (t >> 32)` lies in `(-m, m)` with
/// `(hi - (t >> 32))·2^32 ≡ p (mod m)`.
pub proof fn lemma_montgomery_reduce(p: int, r: int, m: int)
    requires
        0 <= p,
        0 <= r,
        is_odd_modulus(m),
        (m * r) % (pow2(32) as int) == 1,
        p < m * pow2(32),
    ensures
        ({
            let w = pow2(32) as int;
            let hi = p / w;
            let lo = p % w;
            let u = (lo * r) % w;
            let t = u * m;
            let diff = hi - t / w;
            &&& 0 <= u < w
            &&& 0 <= t < m * w
            &&& 0 <= hi < m
            &&& -m < diff < m
            &&& congruent(diff * w, p, m)
        }),
{
    let w = pow2(32) as int;
    lemma_pow2_pos(32);
    let hi = p / w;
    let lo = p % w;
    let u = (lo * r) % w;
    let t = u * m;
    lemma_fundamental_div_mod(p, w);
    lemma_mod_bound(p, w);
    lemma_mod_bound(lo * r, w);
    assert(0 <= hi < m) by (nonlinear_arith)
        requires
            p == w * hi + lo,
            0 <= lo < w,
            0 <= p < m * w,
    ;
    assert(0 <= t < m * w) by (nonlinear_arith)
        requires
            t == u * m,
            0 <= u < w,
            m > 0,
    ;
    // t ≡ lo (mod w)
    assert(congruent(t, lo, w)) by {
        lemma_mod_twice(lo * r, w);
        lemma_congruent_iff_mod_eq(u, lo * r, w);
        lemma_congruent_mul(u, lo * r, m, w);
        lemma_congruent_iff_mod_eq(m * r, 1, w);
        lemma_small_mod(1, w as nat);
        lemma_mod_twice(m * r, w);
        lemma_congruent_mul(m * r, 1, lo, w);
        assert((lo * r) * m == (m * r) * lo) by (nonlinear_arith);
        lemma_congruent_trans(u * m, (lo * r) * m, lo, w);
    }
    lemma_congruent_iff_mod_eq(t, lo, w);
    lemma_small_mod(lo as nat, w as nat);
    lemma_fundamental_div_mod(t, w);
    let th = t / w;
    assert(t == w * th + lo);
    let diff = hi - th;
    assert(diff * w == p - t) by (nonlinear_arith)
        requires
            p == w * hi + lo,
            t == w * th + lo,
            diff == hi - th,
    ;
    assert(-m < diff < m) by (nonlinear_arith)
        requires
            diff * w == p - t,
            0 <= p < m * w,
            0 <= t < m * w,
            w > 0,
    ;
    // p - t ≡ p (mod m) since t is a multiple of m
    assert(diff * w - p == (-u) * m) by (nonlinear_arith)
        requires
            diff * w == p - t,
            t == u * m,
    ;
    lemma_mod_multiples_basic(-u, m);
}

/// A value whose base-2 logarithm bounds pin `2^k` has logarithm `k`.
pub proof fn lemma_ilog2_pow2(r: u32, k: nat)
    requires
        pow2(r as nat) <= pow2(k) < pow2(r as nat + 1),
    ensures
        r == k,
{
    if r > k {
        lemma_pow2_strictly_increases(k, r as nat);
    }
    if r < k {
        if r + 1 < k {
            lemma_pow2_strictly_increases(r as nat + 1, k);
        }
    }
}

/// `a.wrapping_sub(e)` on `u64` is `(a - e) mod 2^64`.
pub proof fn lemma_wrapping_sub_u64(a: u64, e: u64)
    ensures
        vstd::wrapping::u64_specs::wrapping_sub(a, e) == (a - e) % (pow2(64) as int),
{
    lemma2_to64();
    let n = pow2(64) as int;
    if a - e < 0 {
        lemma_mod_add_multiples_vanish(a - e, n);
        lemma_small_mod((a - e + n) as nat, n as nat);
    } else {
        lemma_small_mod((a - e) as nat, n as nat);
    }
}

/// `a.wrapping_sub(e)` on `u32` is `(a - e) mod 2^32`.
pub proof fn lemma_wrapping_sub_u32(a: u32, e: u32)
    ensures
        vstd::wrapping::u32_specs::wrapping_sub(a, e) == (a - e) % (pow2(32) as int),
{
    lemma2_to64();
    let n = pow2(32) as int;
    if a - e < 0 {
        lemma_mod_add_multiples_vanish(a - e, n);
        lemma_small_mod((a - e + n) as nat, n as nat);
    } else {
        lemma_small_mod((a - e) as nat, n as nat);
    }
}

} // verus!
