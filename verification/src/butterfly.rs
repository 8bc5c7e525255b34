//! In-place radix-2 number-theoretic transforms and circular convolution over an
//! NTT-friendly prime, on residues in Plantard representation.
use vstd::prelude::*;
use vstd::arithmetic::div_mod::{
    lemma_fundamental_div_mod, lemma_mod_bound, lemma_small_mod, lemma_mod_multiples_basic,
    lemma_add_mod_noop, lemma_sub_mod_noop, lemma_mul_mod_noop_left,
};
use vstd::arithmetic::power::{pow, lemma_pow_mod_noop, lemma_pow_multiplies};
use vstd::arithmetic::power2::{
    pow2, lemma2_to64, lemma_pow2_pos, lemma_pow2_unfold, lemma_pow2_adds,
};
use crate::modular::{
    congruent, half_mod, lemma_congruent_add_multiple, lemma_congruent_trans, lemma_half_pow_inverse,
};
use crate::plantard::Mint;
use crate::prime::{NTTFriendlyPrime, Prime, is_ntt_friendly};
use crate::roots::{
    bit_rev, is_principal_root, rpow, lemma_rpow_add, lemma_rpow_congruent, lemma_rpow_nonzero,
    lemma_rpow_pow, lemma_bit_rev_increment, lemma_bit_rev_zero, lemma_pow2_le,
};
use crate::ntt::{
    ntt_point, intt_point, op_invariant, op_layer, inv_invariant, inv_layer, twiddle, twiddle_inv,
    lemma_op_invariant_init, lemma_op_invariant_final, lemma_op_layer_step, lemma_op_layer_at,
    lemma_inv_invariant_init, lemma_inv_invariant_final, lemma_inv_layer_step, lemma_inv_layer_at,
};
use crate::bits::{lemma_trailing_ones_shape, lemma_trailing_zeros_pow2};
use crate::convolution::{
    cyclic_convolution, lemma_convolution, lemma_inverse_transform, lemma_forward_of_inverse,
};

verus! {

/// The LUT exponent `3·2^(l-2-t) + 2^(l-1)` of entry `t <= l - 2`; the other
/// entries hold `w^0`.
pub open spec fn lut_exp(t: int, l: nat) -> int {
    if 0 <= t <= l - 2 {
        (3 * pow2((l - 2 - t) as nat) + pow2((l - 1) as nat)) as int
    } else {
        0
    }
}

/// The exponent of LUT entry `t` before round `i` of its construction.
pub open spec fn lut_stage_exp(t: int, i: int, l: nat) -> int {
    if l + 1 - i <= t <= l - 2 {
        3 * pow2((l - 2 - t) as nat) - pow2((i - 2) as nat)
    } else {
        0
    }
}

/// The residues a sequence of `Mint`s stands for.
pub open spec fn values<const M: u32>(s: Seq<Mint<M>>) -> Seq<int> {
    s.map_values(|x: Mint<M>| x@)
}

/// In-place number-theoretic transforms modulo the NTT-friendly prime `M`.
pub struct Butterfly<const M: u32> where Prime<M>: NTTFriendlyPrime;

impl<const M: u32> Butterfly<M> where Prime<M>: NTTFriendlyPrime {
    /// The constants of `M` make it an NTT-friendly prime.
    pub open spec fn is_friendly() -> bool {
        is_ntt_friendly(
            M as int,
            <Prime<M> as NTTFriendlyPrime>::PRIMITIVE_ROOT as int,
            <Prime<M> as NTTFriendlyPrime>::A as int,
            <Prime<M> as NTTFriendlyPrime>::D as int,
        )
    }

    /// `log2` of the largest supported transform length.
    pub open spec fn depth() -> nat {
        <Prime<M> as NTTFriendlyPrime>::D as nat
    }

    /// The root of unity of order `2^D` the transforms use: `PRIMITIVE_ROOT^A mod M`.
    pub open spec fn root() -> int {
        pow(<Prime<M> as NTTFriendlyPrime>::PRIMITIVE_ROOT as int, <Prime<M> as NTTFriendlyPrime>::A as nat)
            % (M as int)
    }

    /// `w^e` for the transform root `w`.
    pub open spec fn root_pow(e: int) -> int {
        rpow(Self::root(), Self::depth(), M as int, e)
    }

    /// The transform root has order exactly `2^D`.
    pub proof fn lemma_root()
        requires
            Self::is_friendly(),
        ensures
            is_principal_root(Self::root(), Self::depth(), M as int),
            0 <= Self::root() < M,
            Self::depth() <= 30,
    {
        let g = <Prime<M> as NTTFriendlyPrime>::PRIMITIVE_ROOT as int;
        let a = <Prime<M> as NTTFriendlyPrime>::A as nat;
        let d = Self::depth();
        let m = M as int;
        lemma_pow_mod_noop(pow(g, a), pow2((d - 1) as nat), m);
        lemma_pow_multiplies(g, a, pow2((d - 1) as nat));
        lemma_mod_bound(pow(g, a), m);
        lemma2_to64();
        if d > 30 {
            lemma_pow2_le(31, d);
            assert(a * pow2(d) >= pow2(d)) by (nonlinear_arith)
                requires
                    a >= 1,
            ;
        }
    }

    /// `M - 2 ≡ -1 (mod 2^D)`, so that the power `M - 2` inverts powers of the root.
    proof fn lemma_inverse_exponent(e: int)
        requires
            Self::is_friendly(),
        ensures
            congruent(e * (M - 2), -e, pow2(Self::depth()) as int),
    {
        let a = <Prime<M> as NTTFriendlyPrime>::A as int;
        let n = pow2(Self::depth()) as int;
        assert(e * (M - 2) - (-e) == (e * a) * n) by (nonlinear_arith)
            requires
                M == a * n + 1,
        ;
        lemma_mod_multiples_basic(e * a, n);
    }

    /// `inv` undoes `op` up to the length: when `y` holds the forward transform of
    /// an input `x` of a supported length `n` (what `op` leaves), the inverse
    /// transform of `y` (what `inv` leaves) is `n·x[j] mod M` at every entry `j`.
    pub proof fn lemma_inv_undoes_op(x: Seq<Mint<M>>, y: Seq<Mint<M>>)
        requires
            Self::is_friendly(),
            exists|s: nat| s <= Self::depth() && x.len() == pow2(s),
            y.len() == x.len(),
            forall|k: int|
                0 <= k < x.len() ==> (#[trigger] y[k])@ == ntt_point(
                    values(x),
                    k,
                    Self::root(),
                    Self::depth(),
                    M as int,
                ),
        ensures
            forall|j: int|
                0 <= j < x.len() ==> #[trigger] intt_point(values(y), j, Self::root(), Self::depth(), M as int)
                    == (x.len() * x[j]@) % (M as int),
    {
        let s = choose|s: nat| s <= Self::depth() && x.len() == pow2(s);
        let m = M as int;
        Self::lemma_root();
        let xv = values(x);
        let yv = values(y);
        assert forall|k: int| 0 <= k < pow2(s) implies congruent(
            #[trigger] yv[k],
            ntt_point(xv, k, Self::root(), Self::depth(), m),
            m,
        ) by {
            assert(yv[k] == y[k]@);
            lemma_small_mod(0, m as nat);
        }
        lemma_inverse_transform(xv, yv, s, Self::root(), Self::depth(), m);
        assert forall|j: int| 0 <= j < x.len() implies #[trigger] intt_point(yv, j, Self::root(), Self::depth(), m)
            == (x.len() * x[j]@) % m by {
            assert(xv[j] == x[j]@);
        }
    }

    /// `op` undoes `inv` up to the length: when `z` holds the inverse transform of
    /// an input `y` of a supported length `n` (what `inv` leaves), the forward
    /// transform of `z` (what `op` leaves) is `n·y[k] mod M` at every entry `k`.
    pub proof fn lemma_op_undoes_inv(y: Seq<Mint<M>>, z: Seq<Mint<M>>)
        requires
            Self::is_friendly(),
            exists|s: nat| s <= Self::depth() && y.len() == pow2(s),
            z.len() == y.len(),
            forall|j: int|
                0 <= j < y.len() ==> (#[trigger] z[j])@ == intt_point(
                    values(y),
                    j,
                    Self::root(),
                    Self::depth(),
                    M as int,
                ),
        ensures
            forall|k: int|
                0 <= k < y.len() ==> #[trigger] ntt_point(values(z), k, Self::root(), Self::depth(), M as int)
                    == (y.len() * y[k]@) % (M as int),
    {
        let s = choose|s: nat| s <= Self::depth() && y.len() == pow2(s);
        let m = M as int;
        Self::lemma_root();
        let yv = values(y);
        let zv = values(z);
        assert forall|j: int| 0 <= j < pow2(s) implies congruent(
            #[trigger] zv[j],
            intt_point(yv, j, Self::root(), Self::depth(), m),
            m,
        ) by {
            assert(zv[j] == z[j]@);
            lemma_small_mod(0, m as nat);
        }
        lemma_forward_of_inverse(yv, zv, s, Self::root(), Self::depth(), m);
        assert forall|k: int| 0 <= k < y.len() implies #[trigger] ntt_point(zv, k, Self::root(), Self::depth(), m)
            == (y.len() * y[k]@) % m by {
            assert(yv[k] == y[k]@);
        }
    }

    /// The circular convolution does not depend on the order of its inputs: for
    /// inputs `x` and `y` of a supported length, the convolution of `x` with `y`
    /// (what `circular_convolution(x, y)` leaves in its first argument) equals the
    /// convolution of `y` with `x`.
    pub proof fn lemma_convolution_symmetric(x: Seq<Mint<M>>, y: Seq<Mint<M>>)
        requires
            Self::is_friendly(),
            exists|s: nat| s <= Self::depth() && x.len() == pow2(s),
            y.len() == x.len(),
        ensures
            forall|j: int|
                0 <= j < x.len() ==> #[trigger] cyclic_convolution(values(x), values(y), j, M as int)
                    == cyclic_convolution(values(y), values(x), j, M as int),
    {
        let s = choose|s: nat| s <= Self::depth() && x.len() == pow2(s);
        let m = M as int;
        let w = Self::root();
        let d = Self::depth();
        Self::lemma_root();
        let xv = values(x);
        let yv = values(y);
        let f = pow(half_mod(m), s);
        lemma_half_pow_inverse(m, s);
        assert(f * pow2(s) == pow(half_mod(m), s) * pow2(s));
        let z = Seq::new(pow2(s), |k: int| ntt_point(xv, k, w, d, m) * ntt_point(yv, k, w, d, m) * f);
        assert forall|k: int| 0 <= k < pow2(s) implies congruent(
            #[trigger] z[k],
            ntt_point(xv, k, w, d, m) * ntt_point(yv, k, w, d, m) * f,
            m,
        ) && congruent(z[k], ntt_point(yv, k, w, d, m) * ntt_point(xv, k, w, d, m) * f, m) by {
            let a = ntt_point(xv, k, w, d, m);
            let b = ntt_point(yv, k, w, d, m);
            assert(a * b * f == b * a * f) by (nonlinear_arith);
            lemma_small_mod(0, m as nat);
        }
        lemma_convolution(xv, yv, z, f, s, w, d, m);
        lemma_convolution(yv, xv, z, f, s, w, d, m);
        assert forall|j: int| 0 <= j < x.len() implies #[trigger] cyclic_convolution(xv, yv, j, m)
            == cyclic_convolution(yv, xv, j, m) by {
            assert(intt_point(z, j, w, d, m) == cyclic_convolution(xv, yv, j, m));
        }
    }

    /// `circular_convolution_avx2` and `circular_convolution` agree: when `(l1, r1)`
    /// is what the first leaves of `(lhs, rhs)` and `(l2, r2)` what the second
    /// leaves of the same inputs, both leave the same residues in both arguments.
    pub proof fn lemma_avx2_agrees(
        lhs: Seq<Mint<M>>,
        rhs: Seq<Mint<M>>,
        l1: Seq<Mint<M>>,
        r1: Seq<Mint<M>>,
        l2: Seq<Mint<M>>,
        r2: Seq<Mint<M>>,
    )
        requires
            l1.len() == lhs.len(),
            r1.len() == rhs.len(),
            forall|j: int|
                0 <= j < lhs.len() ==> (#[trigger] l1[j])@ == cyclic_convolution(
                    values(lhs),
                    values(rhs),
                    j,
                    M as int,
                ),
            forall|k: int|
                0 <= k < rhs.len() ==> (#[trigger] r1[k])@ == ntt_point(
                    values(rhs),
                    k,
                    Self::root(),
                    Self::depth(),
                    M as int,
                ),
            l2.len() == lhs.len(),
            r2.len() == rhs.len(),
            forall|j: int|
                0 <= j < lhs.len() ==> (#[trigger] l2[j])@ == cyclic_convolution(
                    values(lhs),
                    values(rhs),
                    j,
                    M as int,
                ),
            forall|k: int|
                0 <= k < rhs.len() ==> (#[trigger] r2[k])@ == ntt_point(
                    values(rhs),
                    k,
                    Self::root(),
                    Self::depth(),
                    M as int,
                ),
        ensures
            values(l1) == values(l2),
            values(r1) == values(r2),
    {
        assert(values(l1) =~= values(l2));
        assert(values(r1) =~= values(r2));
    }

    /// `lut[t] = w^lut_exp(t)`: the factor that advances the twiddle of a chunk
    /// whose index has `t` trailing ones to the next chunk.
    fn lut() -> (lut: [Mint<M>; 32])
        requires
            Self::is_friendly(),
        ensures
            forall|t: int| 0 <= t < 32 ==> (#[trigger] lut@[t])@ == Self::root_pow(lut_exp(t, Self::depth())),
    {
        let ghost w = Self::root();
        let ghost d = Self::depth();
        let ghost m = M as int;
        proof {
            Self::lemma_root();
            lemma2_to64();
            crate::roots::lemma_rpow_zero(w, d, m);
        }
        let one = Mint::<M>::new(1);
        proof {
            lemma_small_mod(1, M as nat);
        }
        let mut lut = [one; 32];
        let mut r = Mint::<M>::new(<Prime<M> as NTTFriendlyPrime>::PRIMITIVE_ROOT).pow(<Prime<M> as NTTFriendlyPrime>::A);
        proof {
            lemma_pow_mod_noop(<Prime<M> as NTTFriendlyPrime>::PRIMITIVE_ROOT as int, <Prime<M> as NTTFriendlyPrime>::A as nat, m);
            lemma_pow2_pos(d);
            lemma_small_mod(1, pow2(d));
            vstd::arithmetic::power::lemma_pow1(w);
            lemma_small_mod(w as nat, m as nat);
            assert(r@ == rpow(w, d, m, 1));
            lemma_rpow_nonzero(w, d, m, 1);
        }
        let mut ir = r.inv().expect("the root is nonzero");
        proof {
            lemma_rpow_pow(w, d, m, 1, (M - 2) as nat);
            Self::lemma_inverse_exponent(1);
            lemma_rpow_congruent(w, d, m, 1 * (M - 2), -1);
        }
        let mut i: usize = 2;
        let l = <Prime<M> as NTTFriendlyPrime>::D as usize;
        while i <= l
            invariant
                is_principal_root(w, d, m),
                w == Self::root(),
                d == Self::depth(),
                m == M as int,
                l == d,
                1 <= l < 32,
                2 <= i <= l + 1,
                r@ == rpow(w, d, m, pow2((i - 2) as nat) as int),
                ir@ == rpow(w, d, m, -(pow2((i - 2) as nat) as int)),
                forall|t: int| 0 <= t < 32 ==> (#[trigger] lut@[t])@ == rpow(w, d, m, lut_stage_exp(t, i as int, d)),
            decreases l + 1 - i,
        {
            lut[l - i] = r;
            proof {
                lemma_pow2_unfold((i - 1) as nat);
                assert(lut_stage_exp((l - i) as int, i + 1, d) == pow2((i - 2) as nat));
            }
            let mut j = l - i;
            while j + 2 < l
                invariant
                    is_principal_root(w, d, m),
                    m == M as int,
                    l == d,
                    1 <= l < 32,
                    2 <= i <= l,
                    l - i <= j <= l - 2,
                    ir@ == rpow(w, d, m, -(pow2((i - 2) as nat) as int)),
                    pow2((i - 1) as nat) == 2 * pow2((i - 2) as nat),
                    forall|t: int|
                        0 <= t < 32 ==> (#[trigger] lut@[t])@ == rpow(
                            w,
                            d,
                            m,
                            if l - i <= t <= j { lut_stage_exp(t, i + 1, d) } else { lut_stage_exp(t, i as int, d) },
                        ),
                decreases l - 2 - j,
            {
                j += 1;
                let v = lut[j].mul(ir);
                proof {
                    lemma_rpow_add(w, d, m, lut_stage_exp(j as int, i as int, d), -(pow2((i - 2) as nat) as int));
                    assert(lut_stage_exp(j as int, i as int, d) - pow2((i - 2) as nat) == lut_stage_exp(j as int, i + 1, d));
                }
                lut[j] = v;
            }
            proof {
                assert forall|t: int| 0 <= t < 32 implies (#[trigger] lut@[t])@ == rpow(w, d, m, lut_stage_exp(t, i + 1, d)) by {
                    if !(l - i <= t <= j) {
                        assert(lut_stage_exp(t, i as int, d) == lut_stage_exp(t, i + 1, d));
                    }
                }
                lemma_rpow_add(w, d, m, pow2((i - 2) as nat) as int, pow2((i - 2) as nat) as int);
                lemma_rpow_add(w, d, m, -(pow2((i - 2) as nat) as int), -(pow2((i - 2) as nat) as int));
            }
            r = r.mul(r);
            ir = ir.mul(ir);
            i += 1;
        }
        proof {
            assert forall|t: int| 0 <= t < 32 implies (#[trigger] lut@[t])@ == Self::root_pow(lut_exp(t, d)) by {
                if 0 <= t <= l - 2 {
                    lemma_pow2_unfold(d);
                    lemma_congruent_add_multiple(lut_stage_exp(t, i as int, d), 1, pow2(d) as int);
                    assert(lut_stage_exp(t, i as int, d) + 1 * pow2(d) == lut_exp(t, d));
                    crate::modular::lemma_congruent_symm(lut_stage_exp(t, i as int, d) + 1 * pow2(d), lut_stage_exp(t, i as int, d), pow2(d) as int);
                    lemma_rpow_congruent(w, d, m, lut_stage_exp(t, i as int, d), lut_exp(t, d));
                }
            }
        }
        lut
    }

    /// `lut_inv[t] = w^-lut_exp(t)`, the inverses of the entries of `lut`.
    fn lut_inv() -> (lut: [Mint<M>; 32])
        requires
            Self::is_friendly(),
        ensures
            forall|t: int| 0 <= t < 32 ==> (#[trigger] lut@[t])@ == Self::root_pow(-lut_exp(t, Self::depth())),
    {
        let ghost w = Self::root();
        let ghost d = Self::depth();
        let ghost m = M as int;
        proof {
            Self::lemma_root();
        }
        let mut lut = Self::lut();

        let mut i: usize = 0;
        while i < lut.len()
            invariant
                is_principal_root(w, d, m),
                w == Self::root(),
                d == Self::depth(),
                m == M as int,
                Self::is_friendly(),
                0 <= i <= 32,
                forall|t: int| 0 <= t < i ==> (#[trigger] lut@[t])@ == rpow(w, d, m, -lut_exp(t, d)),
                forall|t: int| i <= t < 32 ==> (#[trigger] lut@[t])@ == rpow(w, d, m, lut_exp(t, d)),
            decreases 32 - i,
        {
            // 0 -> 0
            proof {
                lemma_rpow_nonzero(w, d, m, lut_exp(i as int, d));
            }
            let v = lut[i].inv().unwrap();
            proof {
                let e = lut_exp(i as int, d);
                lemma_rpow_pow(w, d, m, e, (M - 2) as nat);
                Self::lemma_inverse_exponent(e);
                lemma_rpow_congruent(w, d, m, e * (M - 2), -e);
            }
            lut[i] = v;
            i += 1;
        }

        lut
    }
    /// Multiplying the twiddle of chunk `i` by the LUT entry for the trailing ones
    /// of `i` gives the twiddle of chunk `i + 1`.
    proof fn lemma_twiddle_advance(i: int, t: nat)
        requires
            Self::is_friendly(),
            0 <= i,
            i + 1 < pow2((Self::depth() - 1) as nat),
            i % (pow2(t + 1) as int) == pow2(t) - 1,
        ensures
            t + 2 <= Self::depth(),
            (twiddle(i, Self::root(), Self::depth(), M as int) * Self::root_pow(lut_exp(t as int, Self::depth())))
                % (M as int) == twiddle(i + 1, Self::root(), Self::depth(), M as int),
            (twiddle_inv(i, Self::root(), Self::depth(), M as int) * Self::root_pow(-lut_exp(t as int, Self::depth())))
                % (M as int) == twiddle_inv(i + 1, Self::root(), Self::depth(), M as int),
    {
        let w = Self::root();
        let d = Self::depth();
        let m = M as int;
        let b = (d - 1) as nat;
        Self::lemma_root();
        lemma_pow2_pos(t + 1);
        lemma_pow2_pos(t);
        lemma_fundamental_div_mod(i, pow2(t + 1) as int);
        let q = i / (pow2(t + 1) as int);
        vstd::arithmetic::div_mod::lemma_div_pos_is_pos(i, pow2(t + 1) as int);
        assert(i == q * pow2(t + 1) + pow2(t) - 1) by (nonlinear_arith)
            requires
                i == pow2(t + 1) * q + (pow2(t) - 1),
        ;
        // t < d - 1, since 2^t <= i + 1 < 2^(d-1)
        assert(pow2(t) <= i + 1) by (nonlinear_arith)
            requires
                i == q * pow2(t + 1) + pow2(t) - 1,
                q >= 0,
                pow2(t + 1) > 0,
        ;
        if t + 1 > b {
            lemma_pow2_le(b, t);
        }
        lemma_bit_rev_increment(q, t, b);
        assert(i + 1 == q * pow2(t + 1) + pow2(t));
        lemma_pow2_unfold(d);
        assert(b + 1 == d);
        let e0 = bit_rev(i, b);
        let e1 = bit_rev(i + 1, b);
        let l = lut_exp(t as int, d);
        assert(l == 3 * pow2((b - 1 - t) as nat) + pow2(b));
        assert(e0 + l == e1 + pow2(d));
        lemma_rpow_add(w, d, m, e0, l);
        lemma_congruent_add_multiple(e1, 1, pow2(d) as int);
        lemma_rpow_congruent(w, d, m, e0 + l, e1);
        lemma_rpow_add(w, d, m, -e0, -l);
        assert(-e0 + -l == -e1 + (-1) * pow2(d));
        lemma_congruent_add_multiple(-e1, -1, pow2(d) as int);
        lemma_rpow_congruent(w, d, m, -e0 + -l, -e1);
    }

    /// Performs in-place radix-2 Cooley–Tukey NTT with reduction.
    ///
    /// The input is in natural order, and the output is in bit-reversed order:
    /// entry `k` becomes `Σ_j seq[j]·w^(j·rev_D(k))` for the root `w` of order `2^D`.
    /// After completion, all elements satisfy `seq[i] < M`.
    ///
    /// # Preconditions
    ///
    /// - `seq.len().is_power_of_two()`
    /// - `seq.len() <= 1 << Modulus::<M>::D`
    ///
    /// # Time complexity
    ///
    /// Θ(N log N)
    pub fn op(seq: &mut [Mint<M>])
        requires
            Self::is_friendly(),
            exists|s: nat| s <= Self::depth() && old(seq)@.len() == pow2(s),
        ensures
            final(seq)@.len() == old(seq)@.len(),
            forall|k: int|
                0 <= k < old(seq)@.len() ==> (#[trigger] final(seq)@[k])@ == ntt_point(
                    values(old(seq)@),
                    k,
                    Self::root(),
                    Self::depth(),
                    M as int,
                ),
    {
        let ghost w = Self::root();
        let ghost d = Self::depth();
        let ghost m = M as int;
        let ghost x0 = values(seq@);
        let ghost s = choose|s: nat| s <= Self::depth() && seq@.len() == pow2(s);
        proof {
            Self::lemma_root();
            lemma2_to64();
            lemma_pow2_le(s, 31);
            lemma_trailing_zeros_pow2(seq@.len() as u64, s);
            vstd::bits::lemma_usize_shl_is_mul(1, s as usize);
            lemma_op_invariant_init(x0, s, w, d, m);
        }
        let n = seq.len();
        let size = (n as u64).trailing_zeros();
        let lut = Self::lut();

        let mut wd: usize = 1usize << size;
        let ghost mut u: nat = s;
        while wd >= 2
            invariant
                Self::is_friendly(),
                is_principal_root(w, d, m),
                w == Self::root(),
                d == Self::depth(),
                m == M as int,
                seq@.len() == n,
                x0.len() == n,
                n == pow2(s),
                s <= d,
                d < 32,
                u <= s,
                wd == pow2(u),
                op_invariant(values(seq@), x0, u, w, d, m),
                forall|t: int| 0 <= t < 32 ==> (#[trigger] lut@[t])@ == Self::root_pow(lut_exp(t, d)),
            decreases wd,
        {
            let ghost lv = values(seq@);
            let ghost nchunks = pow2((s - u) as nat) as int;
            proof {
                if u == 0 {
                    lemma2_to64();
                }
                lemma_pow2_unfold(u);
                lemma_pow2_adds(u, (s - u) as nat);
                lemma_pow2_le((s - u) as nat, (d - 1) as nat);
            }
            let half = wd / 2;
            let mut r = Mint::<M>::new(1);
            proof {
                lemma_small_mod(1, M as nat);
                lemma_bit_rev_zero((d - 1) as nat);
                crate::roots::lemma_rpow_zero(w, d, m);
            }
            let mut i: usize = 0;
            let mut base: usize = 0;
            while base < n
                invariant
                    Self::is_friendly(),
                    is_principal_root(w, d, m),
                    w == Self::root(),
                    d == Self::depth(),
                    m == M as int,
                    seq@.len() == n,
                    lv.len() == n,
                    n == pow2(s),
                    n == wd * nchunks,
                    wd >= 2,
                    nchunks <= pow2((d - 1) as nat),
                    d < 32,
                    1 <= u <= s,
                    wd == pow2(u),
                    half == pow2((u - 1) as nat),
                    wd == 2 * half,
                    base == i * wd,
                    i <= nchunks,
                    i < nchunks ==> r@ == twiddle(i as int, w, d, m),
                    forall|t: int| 0 <= t < 32 ==> (#[trigger] lut@[t])@ == Self::root_pow(lut_exp(t, d)),
                    forall|p: int|
                        0 <= p < n ==> (#[trigger] seq@[p])@ == (if p < base {
                            op_layer(lv, u, w, d, m)[p]
                        } else {
                            lv[p]
                        }),
                decreases nchunks - i,
            {
                proof {
                    assert(i < nchunks) by (nonlinear_arith)
                        requires
                            base == i * wd,
                            base < n,
                            n == wd * nchunks,
                            wd > 0,
                    ;
                    assert(base + wd <= n) by (nonlinear_arith)
                        requires
                            base == i * wd,
                            i < nchunks,
                            n == wd * nchunks,
                            wd > 0,
                    ;
                }
                let mut j: usize = 0;
                while j < half
                    invariant
                        is_principal_root(w, d, m),
                        m == M as int,
                        seq@.len() == n,
                        lv.len() == n,
                        1 <= u,
                        wd == pow2(u),
                        half == pow2((u - 1) as nat),
                        wd == 2 * half,
                        base == i * wd,
                        base + wd <= n,
                        r@ == twiddle(i as int, w, d, m),
                        j <= half,
                        forall|p: int|
                            0 <= p < n ==> (#[trigger] seq@[p])@ == (if p < base || (base <= p < base + j) || (
                            base + half <= p < base + half + j) {
                                op_layer(lv, u, w, d, m)[p]
                            } else {
                                lv[p]
                            }),
                    decreases half - j,
                {
                    let p = seq[base + j];
                    let s_ = seq[base + half + j];
                    let x = s_.mul(r);
                    seq[base + half + j] = p.sub(x);
                    seq[base + j] = p.add(x);
                    proof {
                        lemma_op_layer_at(lv, u, i as int, j as int, w, d, m);
                        let tw = r@;
                        lemma_add_mod_noop(p@, s_@ * tw, m);
                        lemma_sub_mod_noop(p@, s_@ * tw, m);
                        p.lemma_view_range();
                        lemma_small_mod(p@ as nat, m as nat);
                        assert(s_@ * tw == tw * s_@) by (nonlinear_arith);
                        lemma_mod_bound(s_@ * tw, m);
                        lemma_small_mod(((s_@ * tw) % m) as nat, m as nat);
                    }
                    j += 1;
                }
                // advance to the next twiddle factor.
                proof {
                    assert(i < 0x4000_0000) by {
                        lemma_pow2_le((d - 1) as nat, 30);
                        lemma2_to64();
                    }
                    lemma_trailing_ones_shape(i as u32);
                }
                let t = (i as u32).trailing_ones();
                r = r.mul(lut[t as usize]);
                proof {
                    if i + 1 < nchunks {
                        Self::lemma_twiddle_advance(i as int, t as nat);
                    }
                    assert((i + 1) * wd == i * wd + wd) by (nonlinear_arith);
                }
                i += 1;
                base += wd;
            }
            proof {
                assert(base == n) by (nonlinear_arith)
                    requires
                        base == i * wd,
                        i <= nchunks,
                        base >= n,
                        n == wd * nchunks,
                        wd > 0,
                ;
                assert(values(seq@) =~= op_layer(lv, u, w, d, m));
                lemma_op_layer_step(lv, x0, u, s, w, d, m);
            }
            let next = wd >> 1;
            assert(next == wd / 2) by (bit_vector)
                requires
                    next == wd >> 1,
            ;
            wd = next;
            proof {
                u = (u - 1) as nat;
            }
        }
        proof {
            assert(u == 0) by {
                if u > 0 {
                    lemma_pow2_unfold(u);
                    lemma_pow2_pos((u - 1) as nat);
                }
            }
            assert forall|k: int| 0 <= k < values(seq@).len() implies 0 <= #[trigger] values(seq@)[k] < m by {
                seq@[k].lemma_view_range();
            }
            lemma_op_invariant_final(values(seq@), x0, w, d, m);
        }
    }
    /// Performs in-place radix-2 Cooley–Tukey INTT.
    ///
    /// The input is in bit-reversed order, and the output is in natural order:
    /// entry `j` becomes `Σ_k seq[k]·w^(-j·rev_D(k))`, so that `inv(op(x)) = N·x`.
    /// After completion, all elements satisfy `seq[i] < M`.
    ///
    /// # Preconditions
    ///
    /// - `seq.len().is_power_of_two()`
    /// - `seq.len() <= 1 << Modulus::<M>::D`
    ///
    /// # Time complexity
    ///
    /// Θ(N log N)
    pub fn inv(seq: &mut [Mint<M>])
        requires
            Self::is_friendly(),
            exists|s: nat| s <= Self::depth() && old(seq)@.len() == pow2(s),
        ensures
            final(seq)@.len() == old(seq)@.len(),
            forall|j: int|
                0 <= j < old(seq)@.len() ==> (#[trigger] final(seq)@[j])@ == intt_point(
                    values(old(seq)@),
                    j,
                    Self::root(),
                    Self::depth(),
                    M as int,
                ),
    {
        let ghost w = Self::root();
        let ghost d = Self::depth();
        let ghost m = M as int;
        let ghost y0 = values(seq@);
        let ghost s = choose|s: nat| s <= Self::depth() && seq@.len() == pow2(s);
        proof {
            Self::lemma_root();
            lemma2_to64();
            lemma_pow2_le(s, 30);
            lemma_inv_invariant_init(y0, w, d, m);
        }
        let n = seq.len();
        let lut_inv = Self::lut_inv();

        let mut wd: usize = 2;
        let ghost mut u: nat = 1;
        while wd <= n
            invariant
                Self::is_friendly(),
                is_principal_root(w, d, m),
                w == Self::root(),
                d == Self::depth(),
                m == M as int,
                seq@.len() == n,
                y0.len() == n,
                n == pow2(s),
                n <= 0x4000_0000,
                s <= d,
                d <= 30,
                1 <= u <= s + 1,
                wd == pow2(u),
                inv_invariant(values(seq@), y0, (u - 1) as nat, w, d, m),
                forall|t: int| 0 <= t < 32 ==> (#[trigger] lut_inv@[t])@ == Self::root_pow(-lut_exp(t, d)),
            decreases 2 * n - wd,
        {
            let ghost lv = values(seq@);
            proof {
                if u > s {
                    lemma_pow2_le(s + 1, u);
                    lemma_pow2_unfold(s + 1);
                    lemma_pow2_pos(s);
                }
            }
            let ghost nchunks = pow2((s - u) as nat) as int;
            proof {
                lemma_pow2_unfold(u);
                lemma_pow2_adds(u, (s - u) as nat);
                lemma_pow2_le((s - u) as nat, (d - 1) as nat);
                lemma_pow2_pos((u - 1) as nat);
            }
            let half = wd / 2;
            let mut r = Mint::<M>::new(1);
            proof {
                lemma_small_mod(1, M as nat);
                lemma_bit_rev_zero((d - 1) as nat);
                crate::roots::lemma_rpow_zero(w, d, m);
                assert(-bit_rev(0, (d - 1) as nat) == 0);
            }
            let mut i: usize = 0;
            let mut base: usize = 0;
            while base < n
                invariant
                    Self::is_friendly(),
                    is_principal_root(w, d, m),
                    w == Self::root(),
                    d == Self::depth(),
                    m == M as int,
                    seq@.len() == n,
                    lv.len() == n,
                    n == pow2(s),
                    n == wd * nchunks,
                    wd >= 2,
                    nchunks <= pow2((d - 1) as nat),
                    d <= 30,
                    1 <= u <= s,
                    wd == pow2(u),
                    half == pow2((u - 1) as nat),
                    wd == 2 * half,
                    base == i * wd,
                    i <= nchunks,
                    i < nchunks ==> r@ == twiddle_inv(i as int, w, d, m),
                    forall|t: int| 0 <= t < 32 ==> (#[trigger] lut_inv@[t])@ == Self::root_pow(-lut_exp(t, d)),
                    forall|p: int|
                        0 <= p < n ==> (#[trigger] seq@[p])@ == (if p < base {
                            inv_layer(lv, u, w, d, m)[p]
                        } else {
                            lv[p]
                        }),
                decreases nchunks - i,
            {
                proof {
                    assert(i < nchunks) by (nonlinear_arith)
                        requires
                            base == i * wd,
                            base < n,
                            n == wd * nchunks,
                            wd > 0,
                    ;
                    assert(base + wd <= n) by (nonlinear_arith)
                        requires
                            base == i * wd,
                            i < nchunks,
                            n == wd * nchunks,
                            wd > 0,
                    ;
                }
                let mut j: usize = 0;
                while j < half
                    invariant
                        is_principal_root(w, d, m),
                        m == M as int,
                        seq@.len() == n,
                        lv.len() == n,
                        1 <= u,
                        wd == pow2(u),
                        half == pow2((u - 1) as nat),
                        wd == 2 * half,
                        base == i * wd,
                        base + wd <= n,
                        r@ == twiddle_inv(i as int, w, d, m),
                        j <= half,
                        forall|p: int|
                            0 <= p < n ==> (#[trigger] seq@[p])@ == (if p < base || (base <= p < base + j) || (
                            base + half <= p < base + half + j) {
                                inv_layer(lv, u, w, d, m)[p]
                            } else {
                                lv[p]
                            }),
                    decreases half - j,
                {
                    let p = seq[base + j];
                    let x = seq[base + half + j];
                    seq[base + half + j] = p.sub(x).mul(r);
                    seq[base + j] = p.add(x);
                    proof {
                        lemma_inv_layer_at(lv, u, i as int, j as int, w, d, m);
                        lemma_mul_mod_noop_left(p@ - x@, r@, m);
                    }
                    j += 1;
                }
                // advance to the next twiddle factor.
                proof {
                    assert(i < 0x4000_0000) by {
                        lemma_pow2_le((d - 1) as nat, 30);
                        lemma2_to64();
                    }
                    lemma_trailing_ones_shape(i as u32);
                }
                let t = (i as u32).trailing_ones();
                r = r.mul(lut_inv[t as usize]);
                proof {
                    if i + 1 < nchunks {
                        Self::lemma_twiddle_advance(i as int, t as nat);
                    }
                    assert((i + 1) * wd == i * wd + wd) by (nonlinear_arith);
                }
                i += 1;
                base += wd;
            }
            proof {
                assert(base == n) by (nonlinear_arith)
                    requires
                        base == i * wd,
                        i <= nchunks,
                        base >= n,
                        n == wd * nchunks,
                        wd > 0,
                ;
                assert(values(seq@) =~= inv_layer(lv, u, w, d, m));
                lemma_inv_layer_step(lv, y0, u, s, w, d, m);
            }
            let next = wd << 1;
            assert(next == wd * 2) by (bit_vector)
                requires
                    next == wd << 1,
                    wd <= 0x4000_0000,
            ;
            proof {
                lemma_pow2_unfold(u + 1);
            }
            wd = next;
            proof {
                u = u + 1;
            }
        }
        proof {
            assert(u == s + 1) by {
                if u <= s {
                    lemma_pow2_le(u, s);
                }
            }
            assert forall|k: int| 0 <= k < values(seq@).len() implies 0 <= #[trigger] values(seq@)[k] < m by {
                seq@[k].lemma_view_range();
            }
            assert((u - 1) as nat == s);
            lemma_inv_invariant_final(values(seq@), y0, s, w, d, m);
            assert forall|j: int| 0 <= j < n implies (#[trigger] seq@[j])@ == intt_point(y0, j, w, d, m) by {
                assert(values(seq@)[j] == seq@[j]@);
            }
        }
    }
    /// `lut[i] = 2^-i (mod M)` for `i < 32`.
    fn inverse_powers_of_two() -> (lut: [Mint<M>; 32])
        requires
            Self::is_friendly(),
        ensures
            forall|i: int| 0 <= i < 32 ==> (pow2(i as nat) * (#[trigger] lut@[i])@) % (M as int) == 1,
    {
        let ghost m = M as int;
        let zero = Mint::<M>::new(0);
        let mut lut = [zero; 32];

        let mut i: usize = 0;
        while i < lut.len()
            invariant
                Self::is_friendly(),
                m == M as int,
                0 <= i <= 32,
                forall|t: int| 0 <= t < i ==> (pow2(t as nat) * (#[trigger] lut@[t])@) % m == 1,
            decreases 32 - i,
        {
            let two = Mint::<M>::new(2);
            let p = two.pow(i as u32);
            proof {
                lemma_small_mod(2, M as nat);
                vstd::arithmetic::power2::lemma_pow2(i as nat);
                // 2^i is not a multiple of the odd M
                if p@ == 0 {
                    assert(1 * pow2(i as nat) == pow2(i as nat));
                    crate::modular::lemma_cancel_pow2(1, i as nat, m);
                    lemma_small_mod(1, M as nat);
                }
            }
            let v = p.inv().expect("must not `0`");
            proof {
                lemma_mul_mod_noop_left(pow2(i as nat) as int, v@, m);
            }
            lut[i] = v;
            i += 1;
        }

        lut
    }

    /// Performs in-place circular convolution.
    ///
    /// On return:
    ///
    /// - `lhs` contains the convolution result.
    /// - `rhs` contains the result of [`Butterfly::op(rhs)`](Self::op).
    ///
    /// # Preconditions
    ///
    /// - `seq` must be represented in Plantard form
    /// - `lhs.len() == rhs.len()`
    /// - `lhs` and `rhs` satisfy the preconditions of [`Butterfly::op`].
    ///
    /// # Time complexity
    ///
    /// Θ(N log N)
    pub fn circular_convolution(lhs: &mut [Mint<M>], rhs: &mut [Mint<M>])
        requires
            Self::is_friendly(),
            old(lhs)@.len() == old(rhs)@.len(),
            exists|s: nat| s <= Self::depth() && old(lhs)@.len() == pow2(s),
        ensures
            final(lhs)@.len() == old(lhs)@.len(),
            final(rhs)@.len() == old(rhs)@.len(),
            forall|j: int|
                0 <= j < old(lhs)@.len() ==> (#[trigger] final(lhs)@[j])@ == cyclic_convolution(
                    values(old(lhs)@),
                    values(old(rhs)@),
                    j,
                    M as int,
                ),
            forall|k: int|
                0 <= k < old(rhs)@.len() ==> (#[trigger] final(rhs)@[k])@ == ntt_point(
                    values(old(rhs)@),
                    k,
                    Self::root(),
                    Self::depth(),
                    M as int,
                ),
    {
        let ghost w = Self::root();
        let ghost d = Self::depth();
        let ghost m = M as int;
        let ghost x0 = values(lhs@);
        let ghost y0 = values(rhs@);
        let ghost s = choose|s: nat| s <= Self::depth() && lhs@.len() == pow2(s);
        proof {
            Self::lemma_root();
            lemma2_to64();
            lemma_pow2_le(s, 30);
            lemma_trailing_zeros_pow2(lhs@.len() as u64, s);
        }
        let frac_1_n = {
            // LUT of 2^{-i} (mod M) in Plantard representation.
            let lut = Self::inverse_powers_of_two();

            let exp = (lhs.len() as u64).trailing_zeros();
            lut[exp as usize % lut.len()]
        };
        proof {
            lemma_small_mod(s, 32);
            assert((pow2(s) * frac_1_n@) % m == 1);
            lemma_small_mod(1, M as nat);
            crate::modular::lemma_congruent_iff_mod_eq(frac_1_n@ * pow2(s), 1, m);
            assert(frac_1_n@ * pow2(s) == pow2(s) * frac_1_n@) by (nonlinear_arith);
        }

        Self::op(lhs);
        Self::op(rhs);
        let n = lhs.len();
        let ghost xs = values(lhs@);
        let mut k: usize = 0;
        while k < n
            invariant
                n == lhs@.len(),
                n == rhs@.len(),
                m == M as int,
                m > 2,
                forall|p: int| 0 <= p < n ==> (#[trigger] rhs@[p])@ == ntt_point(y0, p, w, d, m),
                forall|p: int| k <= p < n ==> (#[trigger] lhs@[p])@ == xs[p],
                forall|p: int| 0 <= p < n ==> xs[p] == ntt_point(x0, p, w, d, m),
                forall|p: int|
                    0 <= p < k ==> congruent(
                        (#[trigger] lhs@[p])@,
                        ntt_point(x0, p, w, d, m) * ntt_point(y0, p, w, d, m) * frac_1_n@,
                        m,
                    ),
            decreases n - k,
        {
            let v = lhs[k].mul(rhs[k]).mul(frac_1_n);
            proof {
                let a = ntt_point(x0, k as int, w, d, m);
                let b = ntt_point(y0, k as int, w, d, m);
                crate::modular::lemma_congruent_mod(a * b, m);
                crate::modular::lemma_congruent_mul((a * b) % m, a * b, frac_1_n@, m);
                crate::modular::lemma_congruent_mod(((a * b) % m) * frac_1_n@, m);
                lemma_congruent_trans(v@, ((a * b) % m) * frac_1_n@, a * b * frac_1_n@, m);
            }
            lhs[k] = v;
            k += 1;
        }
        let ghost z = values(lhs@);
        proof {
            assert forall|p: int| 0 <= p < pow2(s) implies congruent(
                #[trigger] z[p],
                ntt_point(x0, p, w, d, m) * ntt_point(y0, p, w, d, m) * frac_1_n@,
                m,
            ) by {
                assert(z[p] == lhs@[p]@);
            }
            lemma_convolution(x0, y0, z, frac_1_n@, s, w, d, m);
        }
        Self::inv(lhs);
        proof {
            assert forall|j: int| 0 <= j < n implies (#[trigger] lhs@[j])@ == cyclic_convolution(x0, y0, j, m) by {
                assert(intt_point(z, j, w, d, m) == cyclic_convolution(x0, y0, j, m));
            }
        }
    }

    /// The same circular convolution, offered for callers that dispatch on the
    /// `avx2` target feature.
    pub fn circular_convolution_avx2(lhs: &mut [Mint<M>], rhs: &mut [Mint<M>])
        requires
            Self::is_friendly(),
            old(lhs)@.len() == old(rhs)@.len(),
            exists|s: nat| s <= Self::depth() && old(lhs)@.len() == pow2(s),
        ensures
            final(lhs)@.len() == old(lhs)@.len(),
            final(rhs)@.len() == old(rhs)@.len(),
            forall|j: int|
                0 <= j < old(lhs)@.len() ==> (#[trigger] final(lhs)@[j])@ == cyclic_convolution(
                    values(old(lhs)@),
                    values(old(rhs)@),
                    j,
                    M as int,
                ),
            forall|k: int|
                0 <= k < old(rhs)@.len() ==> (#[trigger] final(rhs)@[k])@ == ntt_point(
                    values(old(rhs)@),
                    k,
                    Self::root(),
                    Self::depth(),
                    M as int,
                ),
    {
        Self::circular_convolution(lhs, rhs);
    }
}

} // verus!
