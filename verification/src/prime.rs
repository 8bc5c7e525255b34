//! NTT-friendly primes: primes `P = (A << D) + 1` with a primitive root.
use vstd::prelude::*;
use vstd::arithmetic::div_mod::{
    lemma_fundamental_div_mod, lemma_mul_mod_noop, lemma_mul_mod_noop_left,
};
use vstd::arithmetic::power::{pow, lemma_pow0};
use vstd::arithmetic::power2::{pow2, lemma2_to64};
use crate::fermat::is_prime;
use crate::modular::lemma_pow_square_step;
use crate::plantard::is_plantard_modulus;

verus! {

/// Marker type for a modulus `M` known to be an NTT-friendly prime.
pub struct Prime<const M: u32>;

pub trait NTTFriendlyPrime {
    const PRIMITIVE_ROOT: u32;
    /// `P = (A << D) + 1`
    const A: u32;
    /// `P = (A << D) + 1`
    const D: u32;
}

impl NTTFriendlyPrime for Prime<998_244_353> {
    const PRIMITIVE_ROOT: u32 = 3;
    const A: u32 = 998_244_353 >> Self::D;
    /// The number of trailing zeros of `998_244_353 - 1`.
    const D: u32 = 23;
}

/// NTT-friendly prime numbers of the form `a * 2^22 + 1`, where `a` is odd.
pub const PRIME_22: [u32; 52] = [
    104857601, 113246209, 138412033, 155189249, 163577857, 230686721, 415236097, 666894337,
    683671553, 918552577, 935329793, 943718401, 985661441, 1161822209, 1212153857, 1321205761,
    1438646273, 1572864001, 1790967809, 1866465281, 2025848833, 2151677953, 2168455169, 2319450113,
    2344615937, 2369781761, 2403336193, 2470445057, 2629828609, 2671771649, 2680160257, 2705326081,
    2722103297, 2747269121, 2780823553, 2805989377, 2998927361, 3074424833, 3175088129, 3208642561,
    3435134977, 3451912193, 3510632449, 3552575489, 3577741313, 3602907137, 3628072961, 3686793217,
    3837788161, 3938451457, 4013948929, 4106223617,
];

/// NTT-friendly prime numbers of the form `a * 2^23 + 1`, where `a` is odd.
pub const PRIME_23: [u32; 20] = [
    377487361, 595591169, 645922817, 880803841, 897581057, 998244353, 1300234241, 1484783617,
    2088763393, 2558525441, 2810183681, 2910846977, 2994733057, 3112173569, 3313500161, 3414163457,
    3615490049, 3665821697, 3749707777, 4253024257,
];

/// NTT-friendly prime numbers of the form `a * 2^24 + 1`, where `a` is odd.
pub const PRIME_24: [u32; 9] = [
    754974721, 1224736769, 2130706433, 2533359617, 2634022913, 2868903937, 3238002689, 3942645761,
    4076863489,
];

/// NTT-friendly prime numbers of the form `a * 2^25 + 1`, where `a` is odd.
pub const PRIME_25: [u32; 6] = [
    167772161, 1107296257, 1711276033, 2113929217, 2717908993, 4194304001,
];

/// NTT-friendly prime numbers of the form `a * 2^26 + 1`, where `a` is odd.
pub const PRIME_26: [u32; 4] = [469762049, 1811939329, 2483027969, 2885681153];

/// NTT-friendly prime numbers of the form `a * 2^27 + 1`, where `a` is odd.
pub const PRIME_27: [u32; 3] = [2013265921, 2281701377, 3892314113];

/// NTT-friendly prime numbers of the form `a * 2^28 + 1`, where `a` is odd.
pub const PRIME_28: u32 = 3489660929;

/// NTT-friendly prime numbers of the form `a * 2^30 + 1`, where `a` is odd.
pub const PRIME_30: u32 = 3221225473;

/// `p = a·2^k + 1` for an odd `a`: the form the tables above list their primes in.
pub open spec fn has_odd_cofactor(p: int, k: nat) -> bool {
    &&& p % (pow2(k) as int) == 1
    &&& (p / (pow2(k) as int)) % 2 == 1
}

/// The first `n` entries of `s` are of the form `a·2^k + 1` with `a` odd.
spec fn first_have_odd_cofactor(s: Seq<u32>, k: nat, n: nat) -> bool
    decreases n,
{
    n == 0 || (has_odd_cofactor(s[n - 1] as int, k) && first_have_odd_cofactor(s, k, (n - 1) as nat))
}

/// The first `n` entries have the form, one by one.
proof fn lemma_first_have_odd_cofactor(s: Seq<u32>, k: nat, n: nat)
    requires
        first_have_odd_cofactor(s, k, n),
    ensures
        forall|i: int| 0 <= i < n ==> has_odd_cofactor(#[trigger] s[i] as int, k),
    decreases n,
{
    if n > 0 {
        lemma_first_have_odd_cofactor(s, k, (n - 1) as nat);
    }
}

/// Every table entry has the form its table promises: the entries of `PRIME_k`
/// are `a·2^k + 1` with `a` odd.
pub proof fn lemma_prime_tables_form()
    ensures
        forall|i: int| 0 <= i < 52 ==> has_odd_cofactor(#[trigger] PRIME_22@[i] as int, 22),
        forall|i: int| 0 <= i < 20 ==> has_odd_cofactor(#[trigger] PRIME_23@[i] as int, 23),
        forall|i: int| 0 <= i < 9 ==> has_odd_cofactor(#[trigger] PRIME_24@[i] as int, 24),
        forall|i: int| 0 <= i < 6 ==> has_odd_cofactor(#[trigger] PRIME_25@[i] as int, 25),
        forall|i: int| 0 <= i < 4 ==> has_odd_cofactor(#[trigger] PRIME_26@[i] as int, 26),
        forall|i: int| 0 <= i < 3 ==> has_odd_cofactor(#[trigger] PRIME_27@[i] as int, 27),
        has_odd_cofactor(PRIME_28 as int, 28),
        has_odd_cofactor(PRIME_30 as int, 30),
{
    lemma2_to64();
    assert(first_have_odd_cofactor(PRIME_22@, 22, 52)) by {
        reveal_with_fuel(first_have_odd_cofactor, 53);
    }
    assert(first_have_odd_cofactor(PRIME_23@, 23, 20)) by {
        reveal_with_fuel(first_have_odd_cofactor, 21);
    }
    assert(first_have_odd_cofactor(PRIME_24@, 24, 9)) by {
        reveal_with_fuel(first_have_odd_cofactor, 10);
    }
    assert(first_have_odd_cofactor(PRIME_25@, 25, 6)) by {
        reveal_with_fuel(first_have_odd_cofactor, 7);
    }
    assert(first_have_odd_cofactor(PRIME_26@, 26, 4)) by {
        reveal_with_fuel(first_have_odd_cofactor, 5);
    }
    assert(first_have_odd_cofactor(PRIME_27@, 27, 3)) by {
        reveal_with_fuel(first_have_odd_cofactor, 4);
    }
    lemma_first_have_odd_cofactor(PRIME_22@, 22, 52);
    lemma_first_have_odd_cofactor(PRIME_23@, 23, 20);
    lemma_first_have_odd_cofactor(PRIME_24@, 24, 9);
    lemma_first_have_odd_cofactor(PRIME_25@, 25, 6);
    lemma_first_have_odd_cofactor(PRIME_26@, 26, 4);
    lemma_first_have_odd_cofactor(PRIME_27@, 27, 3);
}

/// What an NTT-friendly prime `m = a·2^d + 1` with root `root` provides: `m` is a
/// prime that the Plantard representation supports, `1 <= d < 32`, and `root`
/// is a quadratic non-residue (`root^((m-1)/2) ≡ -1`), so that `root^a` has
/// multiplicative order exactly `2^d`.
pub open spec fn is_ntt_friendly(m: int, root: int, a: int, d: int) -> bool {
    &&& is_prime(m as nat)
    &&& is_plantard_modulus(m)
    &&& 1 <= d < 32
    &&& a >= 1
    &&& m == a * pow2(d as nat) + 1
    &&& pow(root, (a * pow2((d - 1) as nat)) as nat) % m == m - 1
}

/// Exponentiation by squaring modulo `m`, as a specification that evaluates in
/// logarithmically many steps.
pub open spec fn pow_mod(b: int, e: nat, m: int) -> int
    decreases e,
{
    if e == 0 {
        1int % m
    } else {
        let h = pow_mod(b, e / 2, m);
        if e % 2 == 0 {
            (h * h) % m
        } else {
            (((h * h) % m) * b) % m
        }
    }
}

/// `pow_mod(b, e, m) == b^e mod m`.
pub proof fn lemma_pow_mod(b: int, e: nat, m: int)
    requires
        m > 0,
    ensures
        pow_mod(b, e, m) == pow(b, e) % m,
    decreases e,
{
    if e == 0 {
        lemma_pow0(b);
    } else {
        let h = e / 2;
        lemma_pow_mod(b, h, m);
        lemma_pow_square_step(b, e);
        vstd::arithmetic::power::lemma_pow_multiplies(b, 2, h);
        vstd::arithmetic::power::lemma_square_is_pow2(b);
        vstd::arithmetic::power::lemma_pow_distributes(b, b, h);
        lemma_mul_mod_noop(pow(b, h), pow(b, h), m);
        let ph = pow(b, h);
        assert(pow(b * b, h) == ph * ph);
        if e % 2 == 1 {
            lemma_mul_mod_noop_left(ph * ph, b, m);
        }
    }
}

/// Trial division up to a bound whose square exceeds `p` proves primality.
pub proof fn lemma_prime_by_trial_division(p: nat, bound: nat)
    requires
        p > 1,
        bound * bound > p,
        forall|d: nat| 1 < d < bound ==> #[trigger] (p % d) != 0,
    ensures
        is_prime(p),
{
    assert forall|d: nat| 1 < d < p implies #[trigger] (p % d) != 0 by {
        if p % d == 0 && d >= bound {
            lemma_fundamental_div_mod(p as int, d as int);
            let e = p / d;
            assert(p == d * e);
            assert(1 < e < bound) by (nonlinear_arith)
                requires
                    p == d * e,
                    1 < d < p,
                    d >= bound,
                    bound * bound > p,
            ;
            assert(p % e == 0) by {
                vstd::arithmetic::div_mod::lemma_mod_multiples_basic(d as int, e as int);
            }
        }
    }
}

/// The constants of `Prime<998_244_353>` are `PRIMITIVE_ROOT = 3`, `A = 119` and
/// `D = 23`, and describe an NTT-friendly prime.
pub proof fn lemma_prime_998244353()
    ensures
        is_ntt_friendly(
            998_244_353,
            <Prime<998_244_353> as NTTFriendlyPrime>::PRIMITIVE_ROOT as int,
            <Prime<998_244_353> as NTTFriendlyPrime>::A as int,
            <Prime<998_244_353> as NTTFriendlyPrime>::D as int,
        ),
        <Prime<998_244_353> as NTTFriendlyPrime>::PRIMITIVE_ROOT == 3,
        <Prime<998_244_353> as NTTFriendlyPrime>::A == 119,
        <Prime<998_244_353> as NTTFriendlyPrime>::D == 23,
{
    assert(998_244_353u32 >> 23u32 == 119) by (bit_vector);
    lemma_998244353_ntt_friendly();
}

/// `998244353 = 119·2^23 + 1` is an NTT-friendly prime with primitive root `3`.
pub proof fn lemma_998244353_ntt_friendly()
    ensures
        is_ntt_friendly(998_244_353, 3, 119, 23),
{
    let p: nat = 998_244_353;
    lemma2_to64();
    // primality by trial division up to 31596 > sqrt(p)
    assert(forall|d: u32| 1 < d < 31596 ==> #[trigger] (998_244_353u32 % d) != 0) by (bit_vector);
    assert forall|d: nat| 1 < d < 31596 implies #[trigger] (p % d) != 0 by {
        assert((998_244_353u32 % (d as u32)) != 0);
    }
    lemma_prime_by_trial_division(p, 31596);
    // 3 is a quadratic non-residue: 3^((p-1)/2) ≡ -1
    assert(119 * pow2(22) == 499122176);
    lemma_pow_mod(3, 499122176, 998_244_353);
    lemma_three_is_non_residue();
}

/// `3^((998244353 - 1) / 2) ≡ -1 (mod 998244353)`, by repeated squaring.
#[verifier::spinoff_prover]
proof fn lemma_three_is_non_residue()
    ensures
        pow_mod(3, 499122176, 998_244_353) == 998_244_352,
{
    assert(pow_mod(3, 0, 998244353) == 1);
    assert(pow_mod(3, 1, 998244353) == 3);
    assert(pow_mod(3, 3, 998244353) == 27);
    assert(pow_mod(3, 7, 998244353) == 2187);
    assert(pow_mod(3, 14, 998244353) == 4782969);
    assert(pow_mod(3, 29, 998244353) == 79851780);
    assert(pow_mod(3, 59, 998244353) == 3748461);
    assert(pow_mod(3, 119, 998244353) == 15311432);
    assert(pow_mod(3, 238, 998244353) == 267099868);
    assert(pow_mod(3, 476, 998244353) == 733596141);
    assert(pow_mod(3, 952, 998244353) == 565042129);
    assert(pow_mod(3, 1904, 998244353) == 363395222);
    assert(pow_mod(3, 3808, 998244353) == 996173970);
    assert(pow_mod(3, 7616, 998244353) == 24514907);
    assert(pow_mod(3, 15232, 998244353) == 629671588);
    assert(pow_mod(3, 30464, 998244353) == 968855178);
    assert(pow_mod(3, 60928, 998244353) == 666702199);
    assert(pow_mod(3, 121856, 998244353) == 350007156);
    assert(pow_mod(3, 243712, 998244353) == 63912897);
    assert(pow_mod(3, 487424, 998244353) == 584193783);
    assert(pow_mod(3, 974848, 998244353) == 258648936);
    assert(pow_mod(3, 1949696, 998244353) == 166035806);
    assert(pow_mod(3, 3899392, 998244353) == 476477967);
    assert(pow_mod(3, 7798784, 998244353) == 781712469);
    assert(pow_mod(3, 15597568, 998244353) == 922799308);
    assert(pow_mod(3, 31195136, 998244353) == 452798380);
    assert(pow_mod(3, 62390272, 998244353) == 929031873);
    assert(pow_mod(3, 124780544, 998244353) == 372528824);
    assert(pow_mod(3, 249561088, 998244353) == 911660635);
    assert(pow_mod(3, 499122176, 998244353) == 998244352);
}

} // verus!
