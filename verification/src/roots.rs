//! Roots of unity of order `2^d` modulo `m`, integer powers of them, and the bit
//! reversal that orders the points of the transforms.
use vstd::prelude::*;
use vstd::arithmetic::div_mod::{
    lemma_fundamental_div_mod, lemma_mod_bound, lemma_small_mod, lemma_mul_mod_noop,
    lemma_mul_mod_noop_left, lemma_mul_mod_noop_right, lemma_mod_multiples_vanish,
};
use vstd::arithmetic::power::{
    pow, lemma_pow0, lemma_pow1, lemma_pow_adds, lemma_pow_multiplies, lemma1_pow,
};
use vstd::arithmetic::power2::{pow2, lemma_pow2_pos, lemma_pow2_unfold};
use crate::modular::{
    congruent, is_odd_modulus, lemma_congruent_add_multiple, lemma_congruent_iff_mod_eq,
    lemma_congruent_mul, lemma_congruent_pow, lemma_congruent_trans, lemma_congruent_symm,
    lemma_congruent_mod,
};

verus! {

/// `w` is a root of unity of order exactly `2^d` modulo `m`: `w^(2^(d-1)) ≡ -1`.
pub open spec fn is_principal_root(w: int, d: nat, m: int) -> bool {
    &&& is_odd_modulus(m)
    &&& m > 1
    &&& d >= 1
    &&& pow(w, pow2((d - 1) as nat)) % m == m - 1
}

/// `w^e (mod m)` for an integer exponent `e`, where the order of `w` divides `2^d`.
pub open spec fn rpow(w: int, d: nat, m: int, e: int) -> int {
    pow(w, (e % (pow2(d) as int)) as nat) % m
}

/// The order of a principal root of order `2^d` divides `2^d`.
pub proof fn lemma_root_order(w: int, d: nat, m: int)
    requires
        is_principal_root(w, d, m),
    ensures
        pow(w, pow2(d)) % m == 1,
{
    let h = pow2((d - 1) as nat);
    lemma_pow2_unfold(d);
    lemma_pow_multiplies(w, h, 2);
    assert(h * 2 == pow2(d));
    let x = pow(w, h);
    vstd::arithmetic::power::lemma_square_is_pow2(x);
    lemma_mul_mod_noop(x, x, m);
    assert((m - 1) * (m - 1) == m * (m - 2) + 1) by (nonlinear_arith);
    lemma_mod_multiples_vanish(m - 2, 1, m);
    lemma_small_mod(1, m as nat);
}

/// `w^0 = 1`.
pub proof fn lemma_rpow_zero(w: int, d: nat, m: int)
    requires
        m > 1,
    ensures
        rpow(w, d, m, 0) == 1,
{
    lemma_pow2_pos(d);
    lemma_small_mod(0, pow2(d));
    lemma_pow0(w);
    lemma_small_mod(1, m as nat);
}

/// Exponents congruent modulo `2^d` give the same power.
pub proof fn lemma_rpow_congruent(w: int, d: nat, m: int, e1: int, e2: int)
    requires
        congruent(e1, e2, pow2(d) as int),
    ensures
        rpow(w, d, m, e1) == rpow(w, d, m, e2),
{
    lemma_pow2_pos(d);
    lemma_congruent_iff_mod_eq(e1, e2, pow2(d) as int);
}

/// `w^e1 · w^e2 = w^(e1 + e2)`.
pub proof fn lemma_rpow_add(w: int, d: nat, m: int, e1: int, e2: int)
    requires
        is_principal_root(w, d, m),
    ensures
        (rpow(w, d, m, e1) * rpow(w, d, m, e2)) % m == rpow(w, d, m, e1 + e2),
{
    let n = pow2(d) as int;
    lemma_pow2_pos(d);
    let a = e1 % n;
    let b = e2 % n;
    let c = (e1 + e2) % n;
    lemma_mod_bound(e1, n);
    lemma_mod_bound(e2, n);
    lemma_mod_bound(e1 + e2, n);
    // a + b = c + q n with q in {0, 1}
    lemma_congruent_mod(e1, n);
    lemma_congruent_mod(e2, n);
    lemma_congruent_mod(e1 + e2, n);
    crate::modular::lemma_congruent_add(a, e1, b, e2, n);
    lemma_congruent_symm(c, e1 + e2, n);
    lemma_congruent_trans(a + b, e1 + e2, c, n);
    lemma_fundamental_div_mod(a + b - c, n);
    let q = (a + b - c) / n;
    assert(a + b - c == n * q);
    assert(q == 0 || q == 1) by (nonlinear_arith)
        requires
            a + b - c == n * q,
            0 <= a < n,
            0 <= b < n,
            0 <= c < n,
    ;
    lemma_pow_adds(w, a as nat, b as nat);
    lemma_root_order(w, d, m);
    if q == 1 {
        assert(n * q == n) by (nonlinear_arith)
            requires
                q == 1,
        ;
        assert(a + b == c + n);
        lemma_pow_adds(w, c as nat, n as nat);
        lemma_mul_mod_noop_right(pow(w, c as nat), pow(w, n as nat), m);
        lemma_small_mod(1, m as nat);
        assert(pow(w, c as nat) * 1 == pow(w, c as nat));
    } else {
        assert(n * q == 0) by (nonlinear_arith)
            requires
                q == 0,
        ;
        assert(a + b == c);
    }
    lemma_mul_mod_noop(pow(w, a as nat), pow(w, b as nat), m);
}

/// `w^(2^(d-1)) = -1`.
pub proof fn lemma_rpow_half(w: int, d: nat, m: int)
    requires
        is_principal_root(w, d, m),
    ensures
        rpow(w, d, m, pow2((d - 1) as nat) as int) == m - 1,
{
    lemma_pow2_unfold(d);
    lemma_pow2_pos((d - 1) as nat);
    lemma_small_mod(pow2((d - 1) as nat), pow2(d));
}

/// `(w^e)^j = w^(e·j)`.
pub proof fn lemma_rpow_pow(w: int, d: nat, m: int, e: int, j: nat)
    requires
        is_principal_root(w, d, m),
    ensures
        pow(rpow(w, d, m, e), j) % m == rpow(w, d, m, e * j),
    decreases j,
{
    let x = rpow(w, d, m, e);
    if j == 0 {
        lemma_pow0(x);
        assert(e * 0 == 0);
        lemma_rpow_zero(w, d, m);
        lemma_small_mod(1, m as nat);
    } else {
        let j1 = (j - 1) as nat;
        lemma_rpow_pow(w, d, m, e, j1);
        lemma_pow_adds(x, 1, j1);
        lemma_pow1(x);
        lemma_mul_mod_noop_right(x, pow(x, j1), m);
        lemma_rpow_add(w, d, m, e, e * j1);
        assert(e + e * j1 == e * j) by (nonlinear_arith)
            requires
                j == j1 + 1,
        ;
    }
}

/// The bit reversal of the low `b` bits of `x`.
pub open spec fn bit_rev(x: int, b: nat) -> int
    decreases b,
{
    if b == 0 {
        0
    } else {
        (x % 2) * pow2((b - 1) as nat) + bit_rev(x / 2, (b - 1) as nat)
    }
}

/// The reversal of zero is zero.
pub proof fn lemma_bit_rev_zero(b: nat)
    ensures
        bit_rev(0, b) == 0,
    decreases b,
{
    if b > 0 {
        lemma_bit_rev_zero((b - 1) as nat);
        assert((0int % 2) * pow2((b - 1) as nat) == 0);
    }
}

/// Reversing an even or odd index splits off its low bit as the top bit.
pub proof fn lemma_bit_rev_even_odd(i: int, b: nat)
    requires
        b >= 1,
    ensures
        bit_rev(2 * i, b) == bit_rev(i, (b - 1) as nat),
        bit_rev(2 * i + 1, b) == pow2((b - 1) as nat) + bit_rev(i, (b - 1) as nat),
{
    assert((2 * i) % 2 == 0 && (2 * i) / 2 == i);
    assert((2 * i + 1) % 2 == 1 && (2 * i + 1) / 2 == i);
}

/// Reversing over one more bit doubles the reversal of an index that fits.
pub proof fn lemma_bit_rev_double(x: int, b: nat)
    requires
        b >= 1,
        0 <= x < pow2((b - 1) as nat),
    ensures
        bit_rev(x, b) == 2 * bit_rev(x, (b - 1) as nat),
    decreases b,
{
    if b == 1 {
        vstd::arithmetic::power2::lemma2_to64();
        assert(x == 0);
        assert(bit_rev(0, 1) == (0int % 2) * pow2(0) + bit_rev(0int / 2, 0));
    } else {
        let b1 = (b - 1) as nat;
        lemma_pow2_unfold(b1);
        lemma_pow2_unfold(b);
        lemma_fundamental_div_mod(x, 2);
        assert(x / 2 < pow2((b1 - 1) as nat));
        lemma_bit_rev_double(x / 2, b1);
        assert((x % 2) * pow2(b1) == 2 * ((x % 2) * pow2((b1 - 1) as nat))) by (nonlinear_arith)
            requires
                pow2(b1) == 2 * pow2((b1 - 1) as nat),
        ;
    }
}

/// Reversing an index below `2^s` over `d >= s` bits shifts its `s`-bit reversal
/// up by `d - s` places.
pub proof fn lemma_bit_rev_shift(x: int, s: nat, d: nat)
    requires
        s <= d,
        0 <= x < pow2(s),
    ensures
        bit_rev(x, d) == pow2((d - s) as nat) * bit_rev(x, s),
    decreases d,
{
    if d == s {
        vstd::arithmetic::power2::lemma2_to64();
        assert(pow2(0) * bit_rev(x, s) == bit_rev(x, s));
    } else {
        let d1 = (d - 1) as nat;
        lemma_bit_rev_shift(x, s, d1);
        lemma_pow2_le(s, d1);
        lemma_bit_rev_double(x, d);
        lemma_pow2_unfold((d - s) as nat);
        assert((d - s - 1) as nat == (d1 - s) as nat);
        assert(2 * (pow2((d1 - s) as nat) * bit_rev(x, s)) == (2 * pow2((d1 - s) as nat)) * bit_rev(x, s))
            by (nonlinear_arith);
    }
}

/// Bit reversal is one-to-one on `[0, 2^s)`.
pub proof fn lemma_bit_rev_injective(k: int, l: int, s: nat)
    requires
        0 <= k < pow2(s),
        0 <= l < pow2(s),
        bit_rev(k, s) == bit_rev(l, s),
    ensures
        k == l,
    decreases s,
{
    vstd::arithmetic::power2::lemma2_to64();
    if s > 0 {
        let s1 = (s - 1) as nat;
        let h = pow2(s1) as int;
        lemma_pow2_unfold(s);
        lemma_bit_rev_range(k / 2, s1);
        lemma_bit_rev_range(l / 2, s1);
        lemma_fundamental_div_mod(k, 2);
        lemma_fundamental_div_mod(l, 2);
        lemma_mod_bound(k, 2);
        lemma_mod_bound(l, 2);
        if k % 2 != l % 2 {
            assert((k % 2) * h + bit_rev(k / 2, s1) != (l % 2) * h + bit_rev(l / 2, s1)) by (nonlinear_arith)
                requires
                    0 <= bit_rev(k / 2, s1) < h,
                    0 <= bit_rev(l / 2, s1) < h,
                    k % 2 == 0 || k % 2 == 1,
                    l % 2 == 0 || l % 2 == 1,
                    k % 2 != l % 2,
            ;
        }
        assert(k % 2 == l % 2);
        lemma_bit_rev_injective(k / 2, l / 2, s1);
    }
}

/// `2^a <= 2^b` for `a <= b`.
pub proof fn lemma_pow2_le(a: nat, b: nat)
    requires
        a <= b,
    ensures
        pow2(a) <= pow2(b),
{
    if a < b {
        vstd::arithmetic::power2::lemma_pow2_strictly_increases(a, b);
    }
}

/// The bit reversal of a natural number stays in `[0, 2^b)`.
pub proof fn lemma_bit_rev_range(x: int, b: nat)
    requires
        x >= 0,
    ensures
        0 <= bit_rev(x, b) < pow2(b),
    decreases b,
{
    vstd::arithmetic::power2::lemma2_to64();
    if b > 0 {
        lemma_bit_rev_range(x / 2, (b - 1) as nat);
        lemma_pow2_unfold(b);
        lemma_mod_bound(x, 2);
        if x % 2 == 0 {
            assert((x % 2) * pow2((b - 1) as nat) == 0);
        } else {
            assert(x % 2 == 1);
            assert((x % 2) * pow2((b - 1) as nat) == pow2((b - 1) as nat)) by (nonlinear_arith)
                requires
                    x % 2 == 1,
            ;
        }
    }
}

/// Bit reversal of `q·2^(t+1) + 2^t`: the single set bit `t` goes to `b - 1 - t`.
proof fn lemma_bit_rev_low_one(q: int, t: nat, b: nat)
    requires
        q >= 0,
        t + 1 <= b,
    ensures
        bit_rev(q * pow2(t + 1) + pow2(t), b) == pow2((b - 1 - t) as nat) + bit_rev(q, (b - t - 1) as nat),
    decreases t,
{
    lemma_pow2_unfold(t + 1);
    if t == 0 {
        vstd::arithmetic::power2::lemma2_to64();
        lemma_bit_rev_even_odd(q, b);
        assert(q * pow2(1) + pow2(0) == 2 * q + 1);
    } else {
        let t1 = (t - 1) as nat;
        lemma_pow2_unfold(t);
        lemma_bit_rev_low_one(q, t1, (b - 1) as nat);
        let y = q * pow2(t) + pow2(t1);
        assert(q * pow2(t + 1) + pow2(t) == 2 * y) by (nonlinear_arith)
            requires
                pow2(t + 1) == 2 * pow2(t),
                pow2(t) == 2 * pow2(t1),
                y == q * pow2(t) + pow2(t1),
        ;
        lemma_bit_rev_even_odd(y, b);
        assert(t1 + 1 == t);
    }
}

/// Bit reversal of `q·2^(t+1) + 2^t - 1`: the `t` low set bits go to the top.
proof fn lemma_bit_rev_low_ones(q: int, t: nat, b: nat)
    requires
        q >= 0,
        t + 1 <= b,
    ensures
        bit_rev(q * pow2(t + 1) + pow2(t) - 1, b) == pow2(b) - pow2((b - t) as nat) + bit_rev(q, (b - t - 1) as nat),
    decreases t,
{
    lemma_pow2_unfold(t + 1);
    if t == 0 {
        vstd::arithmetic::power2::lemma2_to64();
        lemma_bit_rev_even_odd(q, b);
        assert(q * pow2(1) + pow2(0) - 1 == 2 * q);
    } else {
        let t1 = (t - 1) as nat;
        lemma_pow2_unfold(t);
        lemma_pow2_unfold(b);
        lemma_pow2_unfold((b - t1) as nat);
        lemma_bit_rev_low_ones(q, t1, (b - 1) as nat);
        lemma_pow2_pos(t1);
        let y = q * pow2(t) + pow2(t1) - 1;
        assert(q * pow2(t + 1) + pow2(t) - 1 == 2 * y + 1) by (nonlinear_arith)
            requires
                pow2(t + 1) == 2 * pow2(t),
                pow2(t) == 2 * pow2(t1),
                y == q * pow2(t) + pow2(t1) - 1,
        ;
        assert(y >= 0) by (nonlinear_arith)
            requires
                y == q * pow2(t) + pow2(t1) - 1,
                q >= 0,
                pow2(t) >= 0,
                pow2(t1) >= 1,
        ;
        lemma_bit_rev_even_odd(y, b);
        assert((b - 1 - t1) as nat == (b - t) as nat);
    }
}

/// Incrementing an index with `t` trailing ones moves its bit reversal by
/// `3·2^(b-1-t) + 2^b` modulo `2^(b+1)`.
pub proof fn lemma_bit_rev_increment(q: int, t: nat, b: nat)
    requires
        q >= 0,
        t + 1 <= b,
    ensures
        bit_rev(q * pow2(t + 1) + pow2(t) - 1, b) + 3 * pow2((b - 1 - t) as nat) + pow2(b)
            == bit_rev(q * pow2(t + 1) + pow2(t), b) + pow2(b + 1),
{
    lemma_bit_rev_low_ones(q, t, b);
    lemma_bit_rev_low_one(q, t, b);
    lemma_pow2_unfold(b + 1);
    lemma_pow2_unfold((b - t) as nat);
    assert((b - t - 1) as nat == (b - 1 - t) as nat);
}

/// The points of a chunk descend from its twiddle: for `k = i·2^u + h` with
/// `h < 2^u`, `2^(u-1)·rev_d(k) ≡ rev_(d-1)(i) + [h ≥ 2^(u-1)]·2^(d-1) (mod 2^d)`.
pub proof fn lemma_bit_rev_descent(i: int, h: int, u: nat, d: nat)
    requires
        1 <= u <= d,
        i >= 0,
        0 <= h < pow2(u),
        i < pow2((d - u) as nat),
    ensures
        congruent(
            pow2((u - 1) as nat) * bit_rev(i * pow2(u) + h, d),
            bit_rev(i, (d - 1) as nat) + (if h >= pow2((u - 1) as nat) { pow2((d - 1) as nat) as int } else { 0 }),
            pow2(d) as int,
        ),
    decreases u,
{
    let n = pow2(d) as int;
    lemma_pow2_pos(d);
    lemma_pow2_unfold(u);
    if u == 1 {
        vstd::arithmetic::power2::lemma2_to64();
        lemma_bit_rev_even_odd(i, d);
        assert(h == 0 || h == 1);
        assert(i * pow2(1) + h == 2 * i + h) by (nonlinear_arith)
            requires
                pow2(1) == 2,
        ;
        lemma_small_mod(0, n as nat);
    } else {
        let u1 = (u - 1) as nat;
        let hb: int = if h >= pow2(u1) { 1 } else { 0 };
        let i1 = 2 * i + hb;
        let h1 = h - hb * pow2(u1);
        lemma_pow2_unfold(u1);
        lemma_pow2_unfold((d - u1) as nat);
        assert(i * pow2(u) + h == i1 * pow2(u1) + h1) by (nonlinear_arith)
            requires
                pow2(u) == 2 * pow2(u1),
                i1 == 2 * i + hb,
                h1 == h - hb * pow2(u1),
        ;
        assert(0 <= h1 < pow2(u1));
        assert(i1 < pow2((d - u1) as nat));
        lemma_bit_rev_descent(i1, h1, u1, d);
        let k = i * pow2(u) + h;
        let lhs = pow2((u1 - 1) as nat) * bit_rev(k, d);
        let extra: int = if h1 >= pow2((u1 - 1) as nat) { pow2((d - 1) as nat) as int } else { 0 };
        let rhs = bit_rev(i1, (d - 1) as nat) + extra;
        // double the congruence
        lemma_congruent_mul(lhs, rhs, 2, n);
        assert(lhs * 2 == pow2(u1) * bit_rev(k, d)) by (nonlinear_arith)
            requires
                lhs == pow2((u1 - 1) as nat) * bit_rev(k, d),
                pow2(u1) == 2 * pow2((u1 - 1) as nat),
        ;
        lemma_pow2_unfold(d);
        let extra_q: int = if h1 >= pow2((u1 - 1) as nat) { 1 } else { 0 };
        assert(rhs * 2 == 2 * bit_rev(i1, (d - 1) as nat) + extra_q * n);
        lemma_congruent_add_multiple(2 * bit_rev(i1, (d - 1) as nat), extra_q, n);
        lemma_congruent_trans(lhs * 2, rhs * 2, 2 * bit_rev(i1, (d - 1) as nat), n);
        // 2·rev_(d-1)(2i + hb) = hb·2^(d-1) + rev_(d-1)(i)
        lemma_bit_rev_even_odd(i, (d - 1) as nat);
        lemma_pow2_le((d - u) as nat, (d - 2) as nat);
        lemma_bit_rev_double(i, (d - 1) as nat);
        lemma_pow2_unfold((d - 1) as nat);
        assert(2 * bit_rev(i1, (d - 1) as nat) == bit_rev(i, (d - 1) as nat) + hb * pow2((d - 1) as nat));
    }
}

/// Powers of a principal root are never zero.
pub proof fn lemma_rpow_nonzero(w: int, d: nat, m: int, e: int)
    requires
        is_principal_root(w, d, m),
    ensures
        rpow(w, d, m, e) != 0,
{
    lemma_rpow_add(w, d, m, e, -e);
    lemma_rpow_zero(w, d, m);
    assert(e + -e == 0);
    lemma_small_mod(0, m as nat);
}

/// A natural power of `w` is its power with the exponent reduced modulo `2^d`.
pub proof fn lemma_rpow_nat(w: int, d: nat, m: int, e: nat)
    requires
        is_principal_root(w, d, m),
    ensures
        pow(w, e) % m == rpow(w, d, m, e as int),
{
    let n = pow2(d);
    lemma_pow2_pos(d);
    lemma_fundamental_div_mod(e as int, n as int);
    let q = (e / n) as nat;
    let r = (e % n) as nat;
    assert(e == n * q + r);
    lemma_pow_adds(w, n * q, r);
    lemma_pow_multiplies(w, n, q);
    lemma_root_order(w, d, m);
    // (w^n)^q ≡ 1
    lemma_small_mod(1, m as nat);
    lemma_congruent_iff_mod_eq(pow(w, n), 1, m);
    lemma_congruent_pow(pow(w, n), 1, q, m);
    lemma1_pow(q);
    lemma_congruent_iff_mod_eq(pow(pow(w, n), q), 1, m);
    assert(pow(w, n * q + r) == pow(w, n * q) * pow(w, r));
    lemma_mul_mod_noop_left(pow(w, n * q), pow(w, r), m);
    assert(1 * pow(w, r) == pow(w, r));
}

} // verus!
