//! Proth's primality criterion, and squaring chains that witness it for
//! concrete numbers.
use vstd::prelude::*;
use vstd::arithmetic::div_mod::{
    lemma_fundamental_div_mod, lemma_small_mod, lemma_mul_mod_noop, lemma_mod_multiples_basic,
};
use vstd::arithmetic::power::{
    pow, lemma0_pow, lemma1_pow, lemma_pow1, lemma_pow_adds, lemma_pow_mod_noop,
};
use vstd::arithmetic::power2::{pow2, lemma_pow2_pos, lemma_pow2_unfold};
use crate::fermat::{is_prime, lemma_euclid, lemma_fermat};
use crate::modular::{
    lemma_congruent_iff_mod_eq, lemma_congruent_mod, lemma_congruent_symm, lemma_congruent_trans,
};
use crate::reduction::lemma_congruent_divisor;
use crate::roots::{
    bit_rev, is_principal_root, rpow, lemma_bit_rev_range, lemma_rpow_nat, lemma_rpow_pow,
};
use crate::sums::{sum, lemma_sum_constant, lemma_sum_ext};
use crate::convolution::lemma_orthogonality;

verus! {

/// `c[j + 1] = c[j]² mod p` for every `j < n`.
pub open spec fn is_squaring_chain(c: Seq<int>, p: int, n: nat) -> bool
    decreases n,
{
    n == 0 || ((c[n - 1] * c[n - 1]) % p == c[n as int] && is_squaring_chain(c, p, (n - 1) as nat))
}

/// Entry `n` of a squaring chain is `c[0]^(2^n) mod p`.
pub proof fn lemma_squaring_chain(c: Seq<int>, p: int, n: nat)
    requires
        p > 0,
        0 <= c[0] < p,
        n < c.len(),
        is_squaring_chain(c, p, n),
    ensures
        c[n as int] == pow(c[0], pow2(n)) % p,
    decreases n,
{
    if n == 0 {
        vstd::arithmetic::power2::lemma2_to64();
        lemma_pow1(c[0]);
        lemma_small_mod(c[0] as nat, p as nat);
    } else {
        let n1 = (n - 1) as nat;
        lemma_squaring_chain(c, p, n1);
        let x = pow(c[0], pow2(n1));
        lemma_mul_mod_noop(x, x, p);
        lemma_pow_adds(c[0], pow2(n1), pow2(n1));
        lemma_pow2_unfold(n);
    }
}

/// No power of two is divisible by an odd prime.
proof fn lemma_pow2_not_divisible(k: nat, q: nat)
    requires
        is_prime(q),
        q > 2,
    ensures
        pow2(k) % q != 0,
    decreases k,
{
    if k == 0 {
        vstd::arithmetic::power2::lemma2_to64();
        lemma_small_mod(1, q);
    } else {
        lemma_pow2_not_divisible((k - 1) as nat, q);
        lemma_pow2_unfold(k);
        lemma_pow2_pos((k - 1) as nat);
        if pow2(k) % q == 0 {
            lemma_euclid(2, pow2((k - 1) as nat), q);
            lemma_small_mod(2, q);
        }
    }
}

/// An `h` with `h^(2^(k-1)) ≡ -1` modulo a prime `q` has order `2^k`, which
/// divides `q - 1`.
proof fn lemma_order_divides(h: int, k: nat, q: nat)
    requires
        is_prime(q),
        q > 2,
        k >= 1,
        pow(h, pow2((k - 1) as nat)) % (q as int) == q - 1,
    ensures
        (q - 1) % (pow2(k) as int) == 0,
{
    let m = q as int;
    let n = pow2(k);
    let e = (q - 1) as nat;
    assert(q % 2 != 0);
    assert(is_principal_root(h, k, m));
    lemma_pow2_pos(k);
    lemma_pow2_pos((k - 1) as nat);
    // q does not divide h, or the power would vanish
    if h % m == 0 {
        lemma_pow_mod_noop(h, pow2((k - 1) as nat), m);
        lemma0_pow(pow2((k - 1) as nat));
        lemma_small_mod(0, q);
    }
    lemma_fermat(h, q);
    lemma_rpow_nat(h, k, m, e);
    // every term w^(e·rev(j)) of the orthogonality sum is one
    let f = |j: int| rpow(h, k, m, e * bit_rev(j, k));
    assert forall|j: int| 0 <= j < n implies #[trigger] f(j) == 1 by {
        lemma_bit_rev_range(j, k);
        let r = bit_rev(j, k) as nat;
        lemma_rpow_pow(h, k, m, e as int, r);
        lemma1_pow(r);
        lemma_small_mod(1, q);
    }
    lemma_sum_ext(n, f, |j: int| 1);
    lemma_sum_constant(n, 1);
    lemma_orthogonality(k, e as int, h, k, m);
    if (e as int) % (n as int) != 0 {
        lemma_congruent_iff_mod_eq(n as int, 0, m);
        lemma_small_mod(0, q);
        lemma_pow2_not_divisible(k, q);
    }
}

/// Every divisor `d > 1` of a number that meets Proth's criterion exceeds `2^k`.
proof fn lemma_proth_divisor(p: nat, k: nat, h: int, d: nat)
    requires
        k >= 1,
        p > 1,
        p % pow2(k) == 1,
        pow(h, pow2((k - 1) as nat)) % (p as int) == p - 1,
        1 < d,
        p % d == 0,
    ensures
        d > pow2(k),
    decreases d,
{
    let n = pow2(k);
    let x = pow(h, pow2((k - 1) as nat));
    lemma_pow2_pos(k);
    if is_prime(d) {
        // p is odd, so d is an odd prime
        lemma_pow2_unfold(k);
        lemma_fundamental_div_mod(p as int, n as int);
        assert(p == 2 * (pow2((k - 1) as nat) * (p / n)) + 1) by (nonlinear_arith)
            requires
                p == n * (p / n) + 1,
                n == 2 * pow2((k - 1) as nat),
        ;
        if d == 2 {
            lemma_fundamental_div_mod(p as int, 2);
            assert(false) by (nonlinear_arith)
                requires
                    p == 2 * (pow2((k - 1) as nat) * (p / n)) + 1,
                    p == 2 * (p / 2) + 0,
            ;
        }
        // x ≡ -1 modulo p, hence modulo d
        lemma_congruent_mod(x, p as int);
        lemma_congruent_symm(x % (p as int), x, p as int);
        lemma_congruent_divisor(x, p - 1, p as int, d as int);
        lemma_fundamental_div_mod(p as int, d as int);
        let t = (p / d) as int;
        assert(p - 1 == (d - 1) + (t - 1) * d) by (nonlinear_arith)
            requires
                p == d * t + 0,
        ;
        crate::modular::lemma_congruent_add_multiple(d - 1, t - 1, d as int);
        lemma_congruent_trans(x, p - 1, d - 1, d as int);
        lemma_small_mod((d - 1) as nat, d);
        lemma_congruent_iff_mod_eq(x, d - 1, d as int);
        lemma_order_divides(h, k, d);
        lemma_fundamental_div_mod(d - 1, n as int);
        let q = (d - 1) / (n as int);
        assert(d - 1 >= n) by (nonlinear_arith)
            requires
                d - 1 == n * q + 0,
                d - 1 > 0,
                n > 0,
        ;
    } else {
        let e = choose|e: nat| 1 < e < d && #[trigger] (d % e) == 0;
        lemma_fundamental_div_mod(p as int, d as int);
        lemma_fundamental_div_mod(d as int, e as int);
        let s = (p / d) as int;
        let r = (d / e) as int;
        assert(p == e * (r * s)) by (nonlinear_arith)
            requires
                p == d * s + 0,
                d == e * r + 0,
        ;
        lemma_mod_multiples_basic(r * s, e as int);
        vstd::arithmetic::mul::lemma_mul_is_commutative(e as int, r * s);
        lemma_proth_divisor(p, k, h, e);
    }
}

/// Proth's criterion: `p = a·2^k + 1` with `a < 2^k` is prime when some `h` has
/// `h^(2^(k-1)) ≡ -1 (mod p)`.
pub proof fn lemma_proth(p: nat, k: nat, h: int)
    requires
        k >= 1,
        p > 1,
        p % pow2(k) == 1,
        p / pow2(k) < pow2(k),
        pow(h, pow2((k - 1) as nat)) % (p as int) == p - 1,
    ensures
        is_prime(p),
{
    let n = pow2(k);
    lemma_pow2_pos(k);
    lemma_fundamental_div_mod(p as int, n as int);
    let a = p / n;
    assert forall|d: nat| 1 < d < p implies #[trigger] (p % d) != 0 by {
        if p % d == 0 {
            lemma_proth_divisor(p, k, h, d);
            lemma_fundamental_div_mod(p as int, d as int);
            let e = p / d;
            assert(p == d * e);
            assert(1 < e) by (nonlinear_arith)
                requires
                    p == d * e,
                    1 < d < p,
            ;
            lemma_mod_multiples_basic(d as int, e as int);
            lemma_proth_divisor(p, k, h, e);
            assert(false) by (nonlinear_arith)
                requires
                    p == d * e,
                    d > n,
                    e > n,
                    p == n * a + 1,
                    a < n,
            ;
        }
    }
}

/// A squaring chain modulo `p = a·2^k + 1`, `a < 2^k`, that starts below `p` and
/// reaches `p - 1` after `k - 1` squarings proves `p` prime.
pub proof fn lemma_certified_prime(p: nat, k: nat, c: Seq<int>)
    requires
        k >= 1,
        p > 1,
        p % pow2(k) == 1,
        p / pow2(k) < pow2(k),
        c.len() == k,
        0 <= c[0] < p,
        is_squaring_chain(c, p as int, (k - 1) as nat),
        c[k - 1] == p - 1,
    ensures
        is_prime(p),
{
    lemma_squaring_chain(c, p as int, (k - 1) as nat);
    lemma_proth(p, k, c[0]);
}

} // verus!
