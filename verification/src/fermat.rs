//! Primes and Fermat's little theorem, which makes `x^(p-2)` the inverse of
//! `x` modulo a prime `p`.
use vstd::prelude::*;
use vstd::arithmetic::div_mod::{
    lemma_fundamental_div_mod, lemma_mod_bound, lemma_mod_multiples_basic, lemma_mul_mod_noop_left,
    lemma_small_mod,
};

use vstd::arithmetic::power::{
    pow, lemma_pow0, lemma_pow1, lemma_pow_adds, lemma_pow_mod_noop, lemma_pow_positive,
};
use crate::modular::{
    congruent, lemma_congruent_add, lemma_congruent_iff_mod_eq, lemma_congruent_trans,
};

verus! {

/// `p` is a prime number.
pub open spec fn is_prime(p: nat) -> bool {
    &&& p > 1
    &&& forall|d: nat| 1 < d < p ==> #[trigger] (p % d) != 0
}

/// Euclid's lemma for a factor already reduced below the prime.
proof fn lemma_euclid_reduced(a: nat, b: nat, p: nat)
    requires
        is_prime(p),
        0 < a < p,
        (a * b) % p == 0,
    ensures
        b % p == 0,
    decreases a,
{
    if a == 1 {
        assert(a * b == b) by (nonlinear_arith)
            requires
                a == 1,
        ;
    } else {
        let q = p / a;
        let r = p % a;
        lemma_fundamental_div_mod(p as int, a as int);
        lemma_mod_bound(p as int, a as int);
        assert(r != 0) by {
            assert(p % a != 0);
        }
        // r b = p b - q (a b) ≡ 0 (mod p)
        lemma_fundamental_div_mod((a * b) as int, p as int);
        let t = (a * b) / p;
        assert((r * b) as int == p * (b - q * t)) by (nonlinear_arith)
            requires
                p == a * q + r,
                a * b == p * t + 0,
        ;
        lemma_mod_multiples_basic(b - q * t, p as int);
        vstd::arithmetic::mul::lemma_mul_is_commutative(p as int, b - q * t);
        lemma_euclid_reduced(r, b, p);
    }
}

/// Euclid's lemma: a prime dividing a product divides one of the factors.
pub proof fn lemma_euclid(a: nat, b: nat, p: nat)
    requires
        is_prime(p),
        (a * b) % p == 0,
    ensures
        a % p == 0 || b % p == 0,
{
    if a % p != 0 {
        let a0 = a % p;
        lemma_mod_bound(a as int, p as int);
        lemma_mul_mod_noop_left(a as int, b as int, p as int);
        lemma_euclid_reduced(a0, b, p);
    }
}

/// The binomial coefficient `C(n, k)`, by Pascal's rule.
pub open spec fn binom(n: nat, k: nat) -> nat
    decreases n,
{
    if k == 0 {
        1
    } else if n == 0 {
        0
    } else {
        binom((n - 1) as nat, (k - 1) as nat) + binom((n - 1) as nat, k)
    }
}

/// `C(n, k) = 0` for `k > n`.
proof fn lemma_binom_above(n: nat, k: nat)
    requires
        k > n,
    ensures
        binom(n, k) == 0,
    decreases n,
{
    if n > 0 {
        lemma_binom_above((n - 1) as nat, (k - 1) as nat);
        lemma_binom_above((n - 1) as nat, k);
    }
}

/// `C(n, n) = 1`.
proof fn lemma_binom_diag(n: nat)
    ensures
        binom(n, n) == 1,
    decreases n,
{
    if n > 0 {
        lemma_binom_diag((n - 1) as nat);
        lemma_binom_above((n - 1) as nat, n);
    }
}

/// `C(n, 1) = n`.
proof fn lemma_binom_one(n: nat)
    ensures
        binom(n, 1) == n,
    decreases n,
{
    if n > 0 {
        lemma_binom_one((n - 1) as nat);
        assert(binom(n, 1) == binom((n - 1) as nat, 0) + binom((n - 1) as nat, 1));
    }
}

/// The absorption identity `k·C(n, k) = n·C(n-1, k-1)`.
proof fn lemma_binom_absorb(n: nat, k: nat)
    requires
        n >= 1,
        k >= 1,
    ensures
        k * binom(n, k) == n * binom((n - 1) as nat, (k - 1) as nat),
    decreases n,
{
    if k == 1 {
        lemma_binom_one(n);
        assert(binom((n - 1) as nat, 0) == 1);
        assert(1 * binom(n, 1) == n * 1);
    } else if n == 1 {
        lemma_binom_above(1, k);
        lemma_binom_above(0, (k - 1) as nat);
        assert(k * 0 == 1 * 0);
    } else {
        let n1 = (n - 1) as nat;
        let k1 = (k - 1) as nat;
        lemma_binom_absorb(n1, k1);
        lemma_binom_absorb(n1, k);
        assert(binom(n, k) == binom(n1, k1) + binom(n1, k));
        assert(binom(n1, k1) == binom((n1 - 1) as nat, (k1 - 1) as nat) + binom((n1 - 1) as nat, k1));
        assert(k * binom(n, k) == n * binom(n1, k1)) by (nonlinear_arith)
            requires
                binom(n, k) == binom(n1, k1) + binom(n1, k),
                binom(n1, k1) == binom((n1 - 1) as nat, (k1 - 1) as nat) + binom((n1 - 1) as nat, k1),
                k1 * binom(n1, k1) == n1 * binom((n1 - 1) as nat, (k1 - 1) as nat),
                k * binom(n1, k) == n1 * binom((n1 - 1) as nat, k1),
                k1 == k - 1,
                n1 == n - 1,
        ;
    }
}

/// A prime `p` divides `C(p, k)` for `0 < k < p`.
proof fn lemma_prime_divides_binom(p: nat, k: nat)
    requires
        is_prime(p),
        0 < k < p,
    ensures
        binom(p, k) % p == 0,
{
    lemma_binom_absorb(p, k);
    let c = binom((p - 1) as nat, (k - 1) as nat);
    lemma_mod_multiples_basic(c as int, p as int);
    vstd::arithmetic::mul::lemma_mul_is_commutative(p as int, c as int);
    lemma_euclid(k, binom(p, k), p);
    lemma_small_mod(k, p);
}

/// The partial binomial sum `Σ_{i<j} C(n, i)·x^i`.
pub open spec fn binom_sum(n: nat, x: int, j: nat) -> int
    decreases j,
{
    if j == 0 {
        0
    } else {
        binom_sum(n, x, (j - 1) as nat) + binom(n, (j - 1) as nat) * pow(x, (j - 1) as nat)
    }
}

/// Pascal's rule lifted to the partial sums.
proof fn lemma_binom_sum_pascal(n: nat, x: int, j: nat)
    requires
        j >= 1,
    ensures
        binom_sum(n + 1, x, j) == binom_sum(n, x, j) + x * binom_sum(n, x, (j - 1) as nat),
    decreases j,
{
    if j == 1 {
        assert(binom_sum(n + 1, x, 0) == 0);
        assert(binom_sum(n + 1, x, 1) == binom(n + 1, 0) * pow(x, 0));
        assert(binom_sum(n, x, 1) == binom_sum(n, x, 0) + binom(n, 0) * pow(x, 0));
        assert(binom_sum(n, x, 0) == 0);
        assert(x * 0 == 0);
    } else {
        let j1 = (j - 1) as nat;
        let j2 = (j - 2) as nat;
        lemma_binom_sum_pascal(n, x, j1);
        assert(binom(n + 1, j1) == binom(n, j2) + binom(n, j1));
        lemma_pow_adds(x, 1, j2);
        lemma_pow1(x);
        assert(pow(x, j1) == x * pow(x, j2));
        assert(binom_sum(n + 1, x, j) == binom_sum(n, x, j) + x * binom_sum(n, x, j1)) by (nonlinear_arith)
            requires
                binom_sum(n + 1, x, j) == binom_sum(n + 1, x, j1) + binom(n + 1, j1) * pow(x, j1),
                binom_sum(n + 1, x, j1) == binom_sum(n, x, j1) + x * binom_sum(n, x, j2),
                binom(n + 1, j1) == binom(n, j2) + binom(n, j1),
                binom_sum(n, x, j) == binom_sum(n, x, j1) + binom(n, j1) * pow(x, j1),
                binom_sum(n, x, j1) == binom_sum(n, x, j2) + binom(n, j2) * pow(x, j2),
                pow(x, j1) == x * pow(x, j2),
        ;
    }
}

/// The binomial theorem `(x + 1)^n = Σ_{i<=n} C(n, i)·x^i`.
proof fn lemma_binomial_theorem(n: nat, x: int)
    ensures
        binom_sum(n, x, n + 1) == pow(x + 1, n),
    decreases n,
{
    if n == 0 {
        lemma_pow0(x);
        lemma_pow0(x + 1);
        assert(binom_sum(0, x, 0) == 0);
        assert(binom_sum(0, x, 1) == binom(0, 0) * pow(x, 0));
    } else {
        let n1 = (n - 1) as nat;
        lemma_binomial_theorem(n1, x);
        lemma_binom_sum_pascal(n1, x, n + 1);
        lemma_binom_above(n1, n);
        assert(binom_sum(n1, x, n + 1) == binom_sum(n1, x, n) + binom(n1, n) * pow(x, n));
        lemma_pow_adds(x + 1, 1, n1);
        lemma_pow1(x + 1);
        assert(binom_sum(n, x, n + 1) == pow(x + 1, n)) by (nonlinear_arith)
            requires
                binom_sum(n, x, n + 1) == binom_sum(n1, x, n + 1) + x * binom_sum(n1, x, n),
                binom_sum(n1, x, n + 1) == binom_sum(n1, x, n) + 0 * pow(x, n),
                binom_sum(n1, x, n) == pow(x + 1, n1),
                pow(x + 1, n) == (x + 1) * pow(x + 1, n1),
                n1 + 1 == n,
        ;
    }
}

/// Modulo a prime `p`, the partial sums of `C(p, i)·x^i` below `j <= p` are `1`.
proof fn lemma_prime_binom_sum(p: nat, x: int, j: nat)
    requires
        is_prime(p),
        1 <= j <= p,
    ensures
        congruent(binom_sum(p, x, j), 1, p as int),
    decreases j,
{
    if j == 1 {
        lemma_pow0(x);
        assert(binom_sum(p, x, 0) == 0);
        assert(binom_sum(p, x, 1) == binom(p, 0) * pow(x, 0));
        assert(binom_sum(p, x, 1) == 1);
        lemma_small_mod(0, p);
    } else {
        let j1 = (j - 1) as nat;
        lemma_prime_binom_sum(p, x, j1);
        lemma_prime_divides_binom(p, j1);
        let t = binom(p, j1) * pow(x, j1);
        lemma_mul_mod_noop_left(binom(p, j1) as int, pow(x, j1), p as int);
        assert((binom(p, j1) % p) * pow(x, j1) == 0);
        lemma_small_mod(0, p);
        assert(congruent(t, 0, p as int));
        lemma_congruent_add(binom_sum(p, x, j1), 1, t, 0, p as int);
    }
}

/// The "freshman's dream" `(x + 1)^p ≡ x^p + 1 (mod p)` for a prime `p`.
proof fn lemma_freshman(p: nat, x: int)
    requires
        is_prime(p),
    ensures
        congruent(pow(x + 1, p), pow(x, p) + 1, p as int),
{
    lemma_binomial_theorem(p, x);
    lemma_binom_diag(p);
    assert(binom_sum(p, x, p + 1) == binom_sum(p, x, p) + binom(p, p) * pow(x, p));
    lemma_prime_binom_sum(p, x, p);
    assert(pow(x + 1, p) - (pow(x, p) + 1) == binom_sum(p, x, p) - 1);
}

/// `x^p ≡ x (mod p)` for a prime `p` and every natural `x`.
proof fn lemma_fermat_nat(p: nat, x: nat)
    requires
        is_prime(p),
    ensures
        congruent(pow(x as int, p), x as int, p as int),
    decreases x,
{
    if x == 0 {
        vstd::arithmetic::power::lemma0_pow(p);
        lemma_small_mod(0, p);
    } else {
        let x1 = (x - 1) as nat;
        lemma_fermat_nat(p, x1);
        lemma_freshman(p, x1 as int);
        lemma_small_mod(0, p);
        assert(congruent(1, 1, p as int));
        lemma_congruent_add(pow(x1 as int, p), x1 as int, 1, 1, p as int);
        lemma_congruent_trans(pow(x as int, p), pow(x1 as int, p) + 1, x as int, p as int);
    }
}

/// Fermat's little theorem: `x^(p-1) ≡ 1 (mod p)` for a prime `p` not dividing `x`.
pub proof fn lemma_fermat(x: int, p: nat)
    requires
        is_prime(p),
        x % (p as int) != 0,
    ensures
        pow(x, (p - 1) as nat) % (p as int) == 1,
{
    let a = (x % (p as int)) as nat;
    let e = (p - 1) as nat;
    lemma_mod_bound(x, p as int);
    lemma_fermat_nat(p, a);
    lemma_pow_positive(a as int, e);
    lemma_pow_adds(a as int, 1, e);
    lemma_pow1(a as int);
    // a·(a^e - 1) ≡ 0 (mod p)
    let b = (pow(a as int, e) - 1) as nat;
    assert(a * b == pow(a as int, p) - a) by (nonlinear_arith)
        requires
            b == pow(a as int, e) - 1,
            pow(a as int, p) == a * pow(a as int, e),
            p == e + 1,
    ;
    lemma_congruent_iff_mod_eq(pow(a as int, p), a as int, p as int);
    assert((a * b) % p == 0);
    lemma_euclid(a, b, p);
    lemma_small_mod(a, p);
    // a^e ≡ 1, and x^e ≡ a^e
    lemma_small_mod(0, p);
    lemma_congruent_add(b as int, 0, 1, 1, p as int);
    lemma_small_mod(1, p);
    lemma_congruent_iff_mod_eq(pow(a as int, e), 1, p as int);
    lemma_pow_mod_noop(x, e, p as int);
}

/// For a prime `p` not dividing `x`, `x · x^(p-2) ≡ 1 (mod p)`.
pub proof fn lemma_fermat_inverse(x: int, p: nat)
    requires
        is_prime(p),
        x % (p as int) != 0,
    ensures
        (x * pow(x, (p - 2) as nat)) % (p as int) == 1,
{
    lemma_fermat(x, p);
    lemma_pow_adds(x, 1, (p - 2) as nat);
    lemma_pow1(x);
}

} // verus!
