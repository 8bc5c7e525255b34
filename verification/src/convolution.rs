//! The convolution theorem for the transforms of `ntt`: pointwise products of
//! forward transforms, transformed back and scaled by `1/n`, are cyclic
//! convolutions.
use vstd::prelude::*;
use vstd::arithmetic::div_mod::{
    lemma_fundamental_div_mod, lemma_fundamental_div_mod_converse, lemma_mod_bound, lemma_small_mod,
};
use vstd::arithmetic::power2::{pow2, lemma2_to64, lemma_pow2_pos, lemma_pow2_unfold};
use crate::modular::{
    congruent, lemma_congruent_add, lemma_congruent_add_multiple, lemma_congruent_iff_mod_eq,
    lemma_congruent_mod, lemma_congruent_mul, lemma_congruent_mul_both, lemma_congruent_symm,
    lemma_congruent_trans,
};
use crate::roots::{
    bit_rev, is_principal_root, rpow, lemma_bit_rev_double, lemma_bit_rev_even_odd,
    lemma_bit_rev_zero, lemma_rpow_add, lemma_rpow_congruent, lemma_rpow_half, lemma_rpow_zero,
    lemma_pow2_le, lemma_bit_rev_shift, lemma_bit_rev_injective, lemma_bit_rev_range,
};
use crate::sums::{
    sum, lemma_sum_congruent, lemma_sum_even_odd, lemma_sum_ext, lemma_sum_scale, lemma_sum_zero,
    lemma_sum_swap, lemma_sum_single, lemma_sum_add, lemma_sum_split,
};
use crate::ntt::{ntt_point, intt_point, chunk_eval};

verus! {

/// Entry `j` of the cyclic convolution of `x` and `y`:
/// `Σ_a x[a]·y[(j - a) mod n] mod m`.
pub open spec fn cyclic_convolution(x: Seq<int>, y: Seq<int>, j: int, m: int) -> int {
    sum(x.len(), |a: int| x[a] * y[(j - a) % (x.len() as int)]) % m
}

/// Orthogonality of the transform points: `Σ_{k<2^s} w^(t·rev_d(k))` is `2^s` when
/// `2^s | t` and `0` otherwise.
pub proof fn lemma_orthogonality(s: nat, t: int, w: int, d: nat, m: int)
    requires
        is_principal_root(w, d, m),
        s <= d,
    ensures
        congruent(
            sum(pow2(s), |k: int| rpow(w, d, m, t * bit_rev(k, d))),
            if t % (pow2(s) as int) == 0 { pow2(s) as int } else { 0 },
            m,
        ),
    decreases s,
{
    let f = |k: int| rpow(w, d, m, t * bit_rev(k, d));
    lemma2_to64();
    if s == 0 {
        assert(sum(1, f) == sum(0, f) + f(0));
        lemma_bit_rev_zero(d);
        assert(t * 0 == 0);
        lemma_rpow_zero(w, d, m);
        lemma_small_mod(0, m as nat);
    } else {
        let h = pow2((s - 1) as nat);
        lemma_pow2_pos((s - 1) as nat);
        lemma_pow2_unfold(s);
        lemma_pow2_unfold(d);
        lemma_pow2_pos((d - 1) as nat);
        lemma_sum_even_odd(h, f);
        let half = pow2((d - 1) as nat) as int;
        let g = |i: int| f(2 * i) + f(2 * i + 1);
        let tp = t / 2;
        let f2 = |i: int| rpow(w, d, m, tp * bit_rev(i, d));
        lemma_fundamental_div_mod(t, 2);
        if t % 2 == 1 {
            // pairs cancel: w^(t·2^(d-1)) = -1
            assert forall|i: int| 0 <= i < h implies congruent(#[trigger] g(i), 0, m) by {
                lemma_bit_rev_even_odd(i, d);
                let e = t * bit_rev(i, (d - 1) as nat);
                assert(t * bit_rev(2 * i, d) == e);
                assert(t * bit_rev(2 * i + 1, d) == e + half + (tp * 2) * half) by (nonlinear_arith)
                    requires
                        bit_rev(2 * i + 1, d) == half + bit_rev(i, (d - 1) as nat),
                        e == t * bit_rev(i, (d - 1) as nat),
                        t == 2 * tp + 1,
                ;
                assert((tp * 2) * half == tp * pow2(d)) by (nonlinear_arith)
                    requires
                        pow2(d) == 2 * half,
                ;
                lemma_congruent_add_multiple(e + half, tp, pow2(d) as int);
                lemma_rpow_congruent(w, d, m, t * bit_rev(2 * i + 1, d), e + half);
                lemma_rpow_add(w, d, m, e, half);
                lemma_rpow_half(w, d, m);
                let r = rpow(w, d, m, e);
                // r + (r (m - 1)) mod m ≡ r + r (m-1) = r m ≡ 0
                crate::modular::lemma_congruent_mod(r * (m - 1), m);
                lemma_small_mod(0, m as nat);
                lemma_congruent_add(r, r, (r * (m - 1)) % m, r * (m - 1), m);
                assert(r + r * (m - 1) == 0 + r * m) by (nonlinear_arith);
                lemma_congruent_add_multiple(0, r, m);
                lemma_congruent_trans(g(i), r + r * (m - 1), 0, m);
            }
            lemma_sum_congruent(h, g, |i: int| 0, m);
            lemma_sum_zero(h, |i: int| 0);
            // t is odd, so 2^s does not divide it
            assert(t % (pow2(s) as int) != 0) by {
                lemma_fundamental_div_mod(t, pow2(s) as int);
                let q = t / (pow2(s) as int);
                if t % (pow2(s) as int) == 0 {
                    assert(t == 2 * (h * q)) by (nonlinear_arith)
                        requires
                            t == pow2(s) * q + 0,
                            pow2(s) == 2 * h,
                    ;
                }
            }
        } else {
            // pairs are equal: w^(t·2^(d-1)) = 1, and they fold into the half sum
            assert forall|i: int| 0 <= i < h implies #[trigger] g(i) == 2 * f2(i) by {
                lemma_bit_rev_even_odd(i, d);
                lemma_pow2_le((s - 1) as nat, (d - 1) as nat);
                lemma_bit_rev_double(i, d);
                let e = t * bit_rev(i, (d - 1) as nat);
                assert(t == 2 * tp);
                assert(e == tp * bit_rev(i, d)) by (nonlinear_arith)
                    requires
                        e == t * bit_rev(i, (d - 1) as nat),
                        bit_rev(i, d) == 2 * bit_rev(i, (d - 1) as nat),
                        t == 2 * tp,
                ;
                assert(t * bit_rev(2 * i, d) == e);
                assert(t * bit_rev(2 * i + 1, d) == e + tp * pow2(d)) by (nonlinear_arith)
                    requires
                        bit_rev(2 * i + 1, d) == half + bit_rev(i, (d - 1) as nat),
                        e == t * bit_rev(i, (d - 1) as nat),
                        t == 2 * tp,
                        pow2(d) == 2 * half,
                ;
                lemma_congruent_add_multiple(e, tp, pow2(d) as int);
                lemma_rpow_congruent(w, d, m, t * bit_rev(2 * i + 1, d), e);
            }
            lemma_sum_ext(h, g, |i: int| 2 * f2(i));
            lemma_sum_scale(h, f2, 2);
            lemma_orthogonality((s - 1) as nat, tp, w, d, m);
            let v: int = if tp % (h as int) == 0 { h as int } else { 0 };
            lemma_congruent_mul(sum(h, f2), v, 2, m);
            assert(sum(h, f2) * 2 == 2 * sum(h, f2));
            // 2^s | t exactly when 2^(s-1) | t/2
            lemma_fundamental_div_mod(tp, h as int);
            lemma_mod_bound(tp, h as int);
            assert(t == pow2(s) * (tp / (h as int)) + 2 * (tp % (h as int))) by (nonlinear_arith)
                requires
                    t == 2 * tp,
                    tp == h * (tp / (h as int)) + tp % (h as int),
                    pow2(s) == 2 * h,
            ;
            lemma_fundamental_div_mod_converse(t, pow2(s) as int, tp / (h as int), 2 * (tp % (h as int)));
        }
    }
}

/// A product of two sums is the double sum of the products.
pub proof fn lemma_sum_product(n: nat, f: spec_fn(int) -> int, g: spec_fn(int) -> int)
    ensures
        sum(n, f) * sum(n, g) == sum(n, |a: int| sum(n, |b: int| f(a) * g(b))),
{
    let sg = sum(n, g);
    lemma_sum_scale(n, f, sg);
    let p1 = |a: int| sg * f(a);
    let p2 = |a: int| sum(n, |b: int| f(a) * g(b));
    assert forall|a: int| 0 <= a < n implies #[trigger] p1(a) == p2(a) by {
        lemma_sum_scale(n, g, f(a));
        assert(sg * f(a) == f(a) * sg) by (nonlinear_arith);
    }
    lemma_sum_ext(n, p1, p2);
    assert(sum(n, f) * sg == sg * sum(n, f)) by (nonlinear_arith);
}

/// Congruence of a double sum from the congruence of its terms.
proof fn lemma_double_sum_congruent(n: nat, f: spec_fn(int, int) -> int, g: spec_fn(int, int) -> int, m: int)
    requires
        m > 0,
        forall|a: int, b: int| 0 <= a < n && 0 <= b < n ==> congruent(#[trigger] f(a, b), g(a, b), m),
    ensures
        congruent(sum(n, |a: int| sum(n, |b: int| f(a, b))), sum(n, |a: int| sum(n, |b: int| g(a, b))), m),
{
    let rf = |a: int| sum(n, |b: int| f(a, b));
    let rg = |a: int| sum(n, |b: int| g(a, b));
    assert forall|a: int| 0 <= a < n implies congruent(#[trigger] rf(a), rg(a), m) by {
        lemma_sum_congruent(n, |b: int| f(a, b), |b: int| g(a, b), m);
    }
    lemma_sum_congruent(n, rf, rg, m);
}

/// One point of the inverse transform of the scaled pointwise product, per
/// transform index `k`, as a double sum over the two inputs.
proof fn lemma_product_term(x: Seq<int>, y: Seq<int>, zk: int, f: int, k: int, j: int, s: nat, w: int, d: nat, m: int)
    requires
        is_principal_root(w, d, m),
        x.len() == pow2(s),
        y.len() == pow2(s),
        congruent(zk, ntt_point(x, k, w, d, m) * ntt_point(y, k, w, d, m) * f, m),
    ensures
        congruent(
            zk * rpow(w, d, m, -(j * bit_rev(k, d))),
            f * sum(pow2(s), |a: int| sum(pow2(s), |b: int| x[a] * y[b] * rpow(w, d, m, (a + b - j) * bit_rev(k, d)))),
            m,
        ),
{
    let n = pow2(s);
    let e = bit_rev(k, d);
    let fx = |a: int| x[a] * rpow(w, d, m, a * e);
    let fy = |b: int| y[b] * rpow(w, d, m, b * e);
    let c = rpow(w, d, m, -(j * e));
    lemma_sum_ext(n, |a: int| x[0 + a] * rpow(w, d, m, a * e), fx);
    lemma_sum_ext(n, |a: int| y[0 + a] * rpow(w, d, m, a * e), fy);
    let sx = sum(n, fx);
    let sy = sum(n, fy);
    assert(chunk_eval(x, 0, x.len(), e, w, d, m) == sx);
    assert(chunk_eval(y, 0, y.len(), e, w, d, m) == sy);
    // zk ≡ sx sy f
    lemma_congruent_mod(sx, m);
    lemma_congruent_mod(sy, m);
    lemma_congruent_mul_both(sx % m, sx, sy % m, sy, m);
    lemma_congruent_mul((sx % m) * (sy % m), sx * sy, f, m);
    lemma_congruent_trans(zk, (sx % m) * (sy % m) * f, sx * sy * f, m);
    // sx sy = Σ_a Σ_b fx(a) fy(b)
    lemma_sum_product(n, fx, fy);
    let ds = |a: int, b: int| fx(a) * fy(b);
    let dsc = |a: int, b: int| c * ds(a, b);
    // c · Σ_a Σ_b = Σ_a Σ_b c·
    let inner = |a: int| sum(n, |b: int| ds(a, b));
    let inner0 = |a: int| sum(n, |b: int| fx(a) * fy(b));
    assert forall|a: int| 0 <= a < n implies #[trigger] inner0(a) == inner(a) by {
        lemma_sum_ext(n, |b: int| fx(a) * fy(b), |b: int| ds(a, b));
    }
    lemma_sum_ext(n, inner0, inner);
    lemma_sum_scale(n, inner, c);
    let q1 = |a: int| c * inner(a);
    let q2 = |a: int| sum(n, |b: int| dsc(a, b));
    assert forall|a: int| 0 <= a < n implies #[trigger] q1(a) == q2(a) by {
        let row = |b: int| ds(a, b);
        lemma_sum_scale(n, row, c);
        lemma_sum_ext(n, |b: int| c * row(b), |b: int| dsc(a, b));
    }
    lemma_sum_ext(n, q1, q2);
    // each term: c·x_a w^(a e)·y_b w^(b e) ≡ x_a y_b w^((a + b - j) e)
    let target = |a: int, b: int| x[a] * y[b] * rpow(w, d, m, (a + b - j) * e);
    assert forall|a: int, b: int| 0 <= a < n && 0 <= b < n implies congruent(#[trigger] dsc(a, b), target(a, b), m) by {
        let ra = rpow(w, d, m, a * e);
        let rb = rpow(w, d, m, b * e);
        lemma_rpow_add(w, d, m, a * e, b * e);
        lemma_rpow_add(w, d, m, a * e + b * e, -(j * e));
        assert(a * e + b * e + -(j * e) == (a + b - j) * e) by (nonlinear_arith);
        let rab = rpow(w, d, m, a * e + b * e);
        // w^((a+b-j) e) = (rab c) mod m ≡ rab c = ((ra rb) mod m) c ≡ (ra rb) c
        assert(rab == (ra * rb) % m);
        assert(rpow(w, d, m, (a + b - j) * e) == (rab * c) % m);
        lemma_congruent_mod(rab * c, m);
        lemma_congruent_mod(ra * rb, m);
        lemma_congruent_mul(rab, ra * rb, c, m);
        lemma_congruent_trans(rpow(w, d, m, (a + b - j) * e), rab * c, (ra * rb) * c, m);
        lemma_congruent_mul(rpow(w, d, m, (a + b - j) * e), (ra * rb) * c, x[a] * y[b], m);
        assert(dsc(a, b) == ((ra * rb) * c) * (x[a] * y[b])) by (nonlinear_arith)
            requires
                dsc(a, b) == c * ((x[a] * ra) * (y[b] * rb)),
        ;
        let rr = rpow(w, d, m, (a + b - j) * e);
        assert(x[a] * y[b] * rr == rr * (x[a] * y[b])) by (nonlinear_arith);
        assert(target(a, b) == rr * (x[a] * y[b]));
        lemma_congruent_symm(rpow(w, d, m, (a + b - j) * e) * (x[a] * y[b]), ((ra * rb) * c) * (x[a] * y[b]), m);
    }
    lemma_double_sum_congruent(n, dsc, target, m);
    // zk c ≡ f (sx sy c) ≡ f Σ Σ target
    lemma_congruent_mul(zk, sx * sy * f, c, m);
    let big = sum(n, |a: int| sum(n, |b: int| dsc(a, b)));
    let tgt = sum(n, |a: int| sum(n, |b: int| target(a, b)));
    assert(sx * sy * f * c == f * (c * (sx * sy))) by (nonlinear_arith);
    assert(c * (sx * sy) == big);
    lemma_congruent_mul(big, tgt, f, m);
    assert(big * f == f * big) by (nonlinear_arith);
    assert(tgt * f == f * tgt) by (nonlinear_arith);
    lemma_congruent_trans(zk * c, f * big, f * tgt, m);
    let t0 = |a: int| sum(n, |b: int| target(a, b));
    let t1 = |a: int| sum(n, |b: int| x[a] * y[b] * rpow(w, d, m, (a + b - j) * bit_rev(k, d)));
    assert forall|a: int| 0 <= a < n implies #[trigger] t0(a) == t1(a) by {
        lemma_sum_ext(n, |b: int| target(a, b), |b: int| x[a] * y[b] * rpow(w, d, m, (a + b - j) * bit_rev(k, d)));
    }
    lemma_sum_ext(n, t0, t1);
}

/// For fixed `a`, summing the kernel over the transform index and over `b` keeps
/// only `b = (j - a) mod n`.
proof fn lemma_kernel_row(x: Seq<int>, y: Seq<int>, a: int, j: int, s: nat, w: int, d: nat, m: int)
    requires
        is_principal_root(w, d, m),
        s <= d,
        x.len() == pow2(s),
        y.len() == pow2(s),
        0 <= a < pow2(s),
    ensures
        congruent(
            sum(pow2(s), |b: int| sum(pow2(s), |k: int| x[a] * y[b] * rpow(w, d, m, (a + b - j) * bit_rev(k, d)))),
            pow2(s) * (x[a] * y[(j - a) % (pow2(s) as int)]),
            m,
        ),
{
    let n = pow2(s);
    let ni = n as int;
    let bs = (j - a) % ni;
    lemma_pow2_pos(s);
    lemma_mod_bound(j - a, ni);
    let col = |b: int| sum(n, |k: int| x[a] * y[b] * rpow(w, d, m, (a + b - j) * bit_rev(k, d)));
    let ind = |b: int| if b == bs { ni * (x[a] * y[b]) } else { 0 };
    assert forall|b: int| 0 <= b < n implies congruent(#[trigger] col(b), ind(b), m) by {
        let t = a + b - j;
        let orth = |k: int| rpow(w, d, m, t * bit_rev(k, d));
        lemma_sum_scale(n, orth, x[a] * y[b]);
        lemma_sum_ext(n, |k: int| (x[a] * y[b]) * orth(k), |k: int| x[a] * y[b] * rpow(w, d, m, (a + b - j) * bit_rev(k, d)));
        lemma_orthogonality(s, t, w, d, m);
        let o: int = if t % ni == 0 { ni } else { 0 };
        lemma_congruent_mul(sum(n, orth), o, x[a] * y[b], m);
        assert(sum(n, orth) * (x[a] * y[b]) == (x[a] * y[b]) * sum(n, orth)) by (nonlinear_arith);
        // t ≡ 0 (mod n) exactly when b = bs
        lemma_congruent_iff_mod_eq(b, j - a, ni);
        lemma_small_mod(b as nat, n);
        assert(t - 0 == b - (j - a));
        lemma_small_mod(0, n);
        if b == bs {
            assert(t % ni == 0);
            assert(o * (x[a] * y[b]) == ind(b)) by (nonlinear_arith)
                requires
                    o == ni,
                    ind(b) == ni * (x[a] * y[b]),
            ;
        } else {
            assert(t % ni != 0);
            assert(o * (x[a] * y[b]) == 0);
        }
    }
    lemma_sum_congruent(n, col, ind, m);
    lemma_sum_single(n, ind, bs);
    let c0 = |b: int| sum(n, |k: int| x[a] * y[b] * rpow(w, d, m, (a + b - j) * bit_rev(k, d)));
    lemma_sum_ext(n, c0, col);
}

/// The convolution theorem at one entry.
proof fn lemma_convolution_point(x: Seq<int>, y: Seq<int>, z: Seq<int>, f: int, j: int, s: nat, w: int, d: nat, m: int)
    requires
        is_principal_root(w, d, m),
        s <= d,
        x.len() == pow2(s),
        y.len() == pow2(s),
        z.len() == pow2(s),
        0 <= j < pow2(s),
        congruent(f * pow2(s), 1, m),
        forall|k: int|
            0 <= k < pow2(s) ==> congruent(
                #[trigger] z[k],
                ntt_point(x, k, w, d, m) * ntt_point(y, k, w, d, m) * f,
                m,
            ),
    ensures
        intt_point(z, j, w, d, m) == cyclic_convolution(x, y, j, m),
{
    let n = pow2(s);
    let ni = n as int;
    lemma_pow2_pos(s);
    let g = |k: int, a: int, b: int| x[a] * y[b] * rpow(w, d, m, (a + b - j) * bit_rev(k, d));
    let tk = |k: int| z[k] * rpow(w, d, m, -(j * bit_rev(k, d)));
    let dsk = |k: int| sum(n, |a: int| sum(n, |b: int| g(k, a, b)));
    // Σ_k T(k) ≡ f·Σ_k DS(k)
    assert forall|k: int| 0 <= k < n implies congruent(#[trigger] tk(k), f * dsk(k), m) by {
        lemma_product_term(x, y, z[k], f, k, j, s, w, d, m);
        let d0 = |a: int| sum(n, |b: int| x[a] * y[b] * rpow(w, d, m, (a + b - j) * bit_rev(k, d)));
        let d1 = |a: int| sum(n, |b: int| g(k, a, b));
        assert forall|a: int| 0 <= a < n implies #[trigger] d0(a) == d1(a) by {
            lemma_sum_ext(n, |b: int| x[a] * y[b] * rpow(w, d, m, (a + b - j) * bit_rev(k, d)), |b: int| g(k, a, b));
        }
        lemma_sum_ext(n, d0, d1);
    }
    lemma_sum_congruent(n, tk, |k: int| f * dsk(k), m);
    lemma_sum_scale(n, dsk, f);
    // swap the sums: Σ_k Σ_a Σ_b = Σ_a Σ_b Σ_k
    let h = |k: int, a: int| sum(n, |b: int| g(k, a, b));
    lemma_sum_swap(n, n, h);
    let dsh = |k: int| sum(n, |a: int| h(k, a));
    assert forall|k: int| 0 <= k < n implies #[trigger] dsk(k) == dsh(k) by {
        lemma_sum_ext(n, |a: int| sum(n, |b: int| g(k, a, b)), |a: int| h(k, a));
    }
    lemma_sum_ext(n, dsk, dsh);
    let rowa = |a: int| sum(n, |k: int| h(k, a));
    let rowb = |a: int| sum(n, |b: int| sum(n, |k: int| g(k, a, b)));
    assert forall|a: int| 0 <= a < n implies #[trigger] rowa(a) == rowb(a) by {
        lemma_sum_swap(n, n, |k: int, b: int| g(k, a, b));
        lemma_sum_ext(n, |k: int| h(k, a), |k: int| sum(n, |b: int| g(k, a, b)));
        let gab = |k: int, b: int| g(k, a, b);
        let e0 = |b: int| sum(n, |k: int| gab(k, b));
        let e1 = |b: int| sum(n, |k: int| g(k, a, b));
        assert forall|b: int| 0 <= b < n implies #[trigger] e0(b) == e1(b) by {
            lemma_sum_ext(n, |k: int| gab(k, b), |k: int| g(k, a, b));
        }
        lemma_sum_ext(n, e0, e1);
        let f0 = |k: int| sum(n, |b: int| gab(k, b));
        let f1 = |k: int| sum(n, |b: int| g(k, a, b));
        assert forall|k: int| 0 <= k < n implies #[trigger] f0(k) == f1(k) by {
            lemma_sum_ext(n, |b: int| gab(k, b), |b: int| g(k, a, b));
        }
        lemma_sum_ext(n, f0, f1);
    }
    lemma_sum_ext(n, rowa, rowb);
    lemma_sum_ext(n, |a: int| sum(n, |k: int| h(k, a)), rowa);
    // each row keeps one term
    let conv = |a: int| x[a] * y[(j - a) % ni];
    assert forall|a: int| 0 <= a < n implies congruent(#[trigger] rowb(a), ni * conv(a), m) by {
        lemma_kernel_row(x, y, a, j, s, w, d, m);
        let r0 = |b: int| sum(n, |k: int| x[a] * y[b] * rpow(w, d, m, (a + b - j) * bit_rev(k, d)));
        let r1 = |b: int| sum(n, |k: int| g(k, a, b));
        assert forall|b: int| 0 <= b < n implies #[trigger] r0(b) == r1(b) by {
            lemma_sum_ext(n, |k: int| x[a] * y[b] * rpow(w, d, m, (a + b - j) * bit_rev(k, d)), |k: int| g(k, a, b));
        }
        lemma_sum_ext(n, r0, r1);
    }
    lemma_sum_congruent(n, rowb, |a: int| ni * conv(a), m);
    lemma_sum_scale(n, conv, ni);
    let cs = sum(n, conv);
    let ds = sum(n, dsk);
    // Σ_k T ≡ f·ds ≡ f·(n·cs) ≡ cs
    lemma_congruent_mul(ds, ni * cs, f, m);
    assert(ds * f == f * ds) by (nonlinear_arith);
    assert((ni * cs) * f == (f * ni) * cs) by (nonlinear_arith);
    lemma_congruent_mul(f * ni, 1, cs, m);
    assert(1 * cs == cs);
    lemma_congruent_trans(sum(n, tk), f * ds, (f * ni) * cs, m);
    lemma_congruent_trans(sum(n, tk), (f * ni) * cs, cs, m);
    lemma_congruent_iff_mod_eq(sum(n, tk), cs, m);
}

/// The convolution theorem: transforming back the pointwise product of two
/// forward transforms, scaled by the inverse `f` of the length, gives the cyclic
/// convolution.
pub proof fn lemma_convolution(x: Seq<int>, y: Seq<int>, z: Seq<int>, f: int, s: nat, w: int, d: nat, m: int)
    requires
        is_principal_root(w, d, m),
        s <= d,
        x.len() == pow2(s),
        y.len() == pow2(s),
        z.len() == pow2(s),
        congruent(f * pow2(s), 1, m),
        forall|k: int|
            0 <= k < pow2(s) ==> congruent(
                #[trigger] z[k],
                ntt_point(x, k, w, d, m) * ntt_point(y, k, w, d, m) * f,
                m,
            ),
    ensures
        forall|j: int| 0 <= j < pow2(s) ==> #[trigger] intt_point(z, j, w, d, m) == cyclic_convolution(x, y, j, m),
{
    assert forall|j: int| 0 <= j < pow2(s) implies #[trigger] intt_point(z, j, w, d, m) == cyclic_convolution(x, y, j, m) by {
        lemma_convolution_point(x, y, z, f, j, s, w, d, m);
    }
}

/// One forward-transform point, multiplied by the inverse kernel of entry `j`,
/// as a sum over the input.
proof fn lemma_inverse_term(x: Seq<int>, zk: int, k: int, j: int, s: nat, w: int, d: nat, m: int)
    requires
        is_principal_root(w, d, m),
        x.len() == pow2(s),
        congruent(zk, ntt_point(x, k, w, d, m), m),
    ensures
        congruent(
            zk * rpow(w, d, m, -(j * bit_rev(k, d))),
            sum(pow2(s), |a: int| x[a] * rpow(w, d, m, (a - j) * bit_rev(k, d))),
            m,
        ),
{
    let n = pow2(s);
    let e = bit_rev(k, d);
    let fx = |a: int| x[a] * rpow(w, d, m, a * e);
    let c = rpow(w, d, m, -(j * e));
    lemma_sum_ext(n, |a: int| x[0 + a] * rpow(w, d, m, a * e), fx);
    let sx = sum(n, fx);
    assert(chunk_eval(x, 0, x.len(), e, w, d, m) == sx);
    // zk ≡ sx
    lemma_congruent_mod(sx, m);
    lemma_congruent_trans(zk, sx % m, sx, m);
    lemma_congruent_mul(zk, sx, c, m);
    // sx·c = Σ_a c·fx(a)
    lemma_sum_scale(n, fx, c);
    assert(sx * c == c * sx) by (nonlinear_arith);
    let cf = |a: int| c * fx(a);
    let target = |a: int| x[a] * rpow(w, d, m, (a - j) * e);
    assert forall|a: int| 0 <= a < n implies congruent(#[trigger] cf(a), target(a), m) by {
        let ra = rpow(w, d, m, a * e);
        lemma_rpow_add(w, d, m, a * e, -(j * e));
        assert(a * e + -(j * e) == (a - j) * e) by (nonlinear_arith);
        let r = rpow(w, d, m, (a - j) * e);
        assert(r == (ra * c) % m);
        lemma_congruent_mod(ra * c, m);
        lemma_congruent_mul(r, ra * c, x[a], m);
        assert(cf(a) == (ra * c) * x[a]) by (nonlinear_arith)
            requires
                cf(a) == c * (x[a] * ra),
        ;
        assert(target(a) == r * x[a]) by (nonlinear_arith)
            requires
                target(a) == x[a] * r,
        ;
        lemma_congruent_symm(r * x[a], (ra * c) * x[a], m);
    }
    lemma_sum_congruent(n, cf, target, m);
    lemma_congruent_trans(zk * c, sx * c, sum(n, target), m);
    lemma_sum_ext(n, target, |a: int| x[a] * rpow(w, d, m, (a - j) * bit_rev(k, d)));
}

/// For fixed `a`, summing `x[a]·w^((a - j)·rev_d(k))` over the transform index
/// keeps `n·x[a]` when `a = j` and vanishes otherwise.
proof fn lemma_inverse_row(x: Seq<int>, a: int, j: int, s: nat, w: int, d: nat, m: int)
    requires
        is_principal_root(w, d, m),
        s <= d,
        x.len() == pow2(s),
        0 <= a < pow2(s),
        0 <= j < pow2(s),
    ensures
        congruent(
            sum(pow2(s), |k: int| x[a] * rpow(w, d, m, (a - j) * bit_rev(k, d))),
            if a == j { pow2(s) * x[a] } else { 0 },
            m,
        ),
{
    let n = pow2(s);
    let ni = n as int;
    let t = a - j;
    lemma_pow2_pos(s);
    let orth = |k: int| rpow(w, d, m, t * bit_rev(k, d));
    lemma_sum_scale(n, orth, x[a]);
    lemma_sum_ext(n, |k: int| x[a] * orth(k), |k: int| x[a] * rpow(w, d, m, (a - j) * bit_rev(k, d)));
    lemma_orthogonality(s, t, w, d, m);
    let o: int = if t % ni == 0 { ni } else { 0 };
    lemma_congruent_mul(sum(n, orth), o, x[a], m);
    assert(sum(n, orth) * x[a] == x[a] * sum(n, orth)) by (nonlinear_arith);
    if a == j {
        lemma_small_mod(0, n);
        assert(o * x[a] == ni * x[a]);
    } else {
        lemma_fundamental_div_mod(t, ni);
        if t % ni == 0 {
            let q = t / ni;
            assert(false) by (nonlinear_arith)
                requires
                    t == ni * q + 0,
                    -ni < t < ni,
                    t != 0,
            ;
        }
        assert(o * x[a] == 0);
    }
}

/// Inversion at one entry.
proof fn lemma_inverse_point(x: Seq<int>, z: Seq<int>, j: int, s: nat, w: int, d: nat, m: int)
    requires
        is_principal_root(w, d, m),
        s <= d,
        x.len() == pow2(s),
        z.len() == pow2(s),
        0 <= j < pow2(s),
        forall|k: int| 0 <= k < pow2(s) ==> congruent(#[trigger] z[k], ntt_point(x, k, w, d, m), m),
    ensures
        intt_point(z, j, w, d, m) == (pow2(s) * x[j]) % m,
{
    let n = pow2(s);
    let ni = n as int;
    lemma_pow2_pos(s);
    let g = |k: int, a: int| x[a] * rpow(w, d, m, (a - j) * bit_rev(k, d));
    let tk = |k: int| z[k] * rpow(w, d, m, -(j * bit_rev(k, d)));
    let row = |k: int| sum(n, |a: int| g(k, a));
    assert forall|k: int| 0 <= k < n implies congruent(#[trigger] tk(k), row(k), m) by {
        lemma_inverse_term(x, z[k], k, j, s, w, d, m);
        lemma_sum_ext(n, |a: int| x[a] * rpow(w, d, m, (a - j) * bit_rev(k, d)), |a: int| g(k, a));
    }
    lemma_sum_congruent(n, tk, row, m);
    lemma_sum_swap(n, n, g);
    let col = |a: int| sum(n, |k: int| g(k, a));
    let ind = |a: int| if a == j { ni * x[a] } else { 0 };
    assert forall|a: int| 0 <= a < n implies congruent(#[trigger] col(a), ind(a), m) by {
        lemma_inverse_row(x, a, j, s, w, d, m);
        lemma_sum_ext(n, |k: int| x[a] * rpow(w, d, m, (a - j) * bit_rev(k, d)), |k: int| g(k, a));
    }
    lemma_sum_congruent(n, col, ind, m);
    lemma_sum_single(n, ind, j);
    lemma_congruent_trans(sum(n, tk), sum(n, col), ni * x[j], m);
    lemma_congruent_iff_mod_eq(sum(n, tk), ni * x[j], m);
}

/// Inversion: transforming back a forward transform gives the input multiplied
/// by its length `n`.
pub proof fn lemma_inverse_transform(x: Seq<int>, z: Seq<int>, s: nat, w: int, d: nat, m: int)
    requires
        is_principal_root(w, d, m),
        s <= d,
        x.len() == pow2(s),
        z.len() == pow2(s),
        forall|k: int| 0 <= k < pow2(s) ==> congruent(#[trigger] z[k], ntt_point(x, k, w, d, m), m),
    ensures
        forall|j: int| 0 <= j < pow2(s) ==> #[trigger] intt_point(z, j, w, d, m) == (pow2(s) * x[j]) % m,
{
    assert forall|j: int| 0 <= j < pow2(s) implies #[trigger] intt_point(z, j, w, d, m) == (pow2(s) * x[j]) % m by {
        lemma_inverse_point(x, z, j, s, w, d, m);
    }
}

/// Summing over bit-reversed indices sums the same terms: bit reversal permutes
/// `[0, 2^s)`.
pub proof fn lemma_sum_bit_rev(s: nat, f: spec_fn(int) -> int)
    ensures
        sum(pow2(s), |k: int| f(bit_rev(k, s))) == sum(pow2(s), f),
    decreases s,
{
    let g = |k: int| f(bit_rev(k, s));
    lemma2_to64();
    if s == 0 {
        assert(sum(1, g) == sum(0, g) + g(0));
        assert(sum(1, f) == sum(0, f) + f(0));
        assert(bit_rev(0, 0) == 0);
    } else {
        let s1 = (s - 1) as nat;
        let h = pow2(s1);
        lemma_pow2_unfold(s);
        lemma_sum_even_odd(h, g);
        let f2 = |x: int| f(h + x);
        let a1 = |i: int| f(bit_rev(i, s1));
        let a2 = |i: int| f2(bit_rev(i, s1));
        let pairs = |i: int| g(2 * i) + g(2 * i + 1);
        assert forall|i: int| 0 <= i < h implies #[trigger] pairs(i) == a1(i) + a2(i) by {
            lemma_bit_rev_even_odd(i, s);
        }
        lemma_sum_ext(h, pairs, |i: int| a1(i) + a2(i));
        lemma_sum_add(h, a1, a2);
        lemma_sum_bit_rev(s1, f);
        lemma_sum_bit_rev(s1, f2);
        lemma_sum_ext(h, |k: int| f(bit_rev(k, s1)), a1);
        lemma_sum_ext(h, |k: int| f2(bit_rev(k, s1)), a2);
        lemma_sum_split(h, h, f);
        lemma_sum_ext(h, |i: int| f(h + i), f2);
        assert(h + h == pow2(s));
    }
}

/// Orthogonality over consecutive exponents: `Σ_{j<2^s} w^(t·2^(d-s)·j)` is `2^s`
/// when `2^s | t` and `0` otherwise.
pub proof fn lemma_orthogonality_linear(s: nat, t: int, w: int, d: nat, m: int)
    requires
        is_principal_root(w, d, m),
        s <= d,
    ensures
        congruent(
            sum(pow2(s), |j: int| rpow(w, d, m, (t * pow2((d - s) as nat)) * j)),
            if t % (pow2(s) as int) == 0 { pow2(s) as int } else { 0 },
            m,
        ),
{
    let p = pow2((d - s) as nat) as int;
    let lin = |x: int| rpow(w, d, m, (t * p) * x);
    let rev = |k: int| rpow(w, d, m, t * bit_rev(k, d));
    assert forall|k: int| 0 <= k < pow2(s) implies #[trigger] rev(k) == lin(bit_rev(k, s)) by {
        lemma_bit_rev_shift(k, s, d);
        assert(t * (p * bit_rev(k, s)) == (t * p) * bit_rev(k, s)) by (nonlinear_arith);
    }
    lemma_sum_ext(pow2(s), rev, |k: int| lin(bit_rev(k, s)));
    lemma_sum_bit_rev(s, lin);
    lemma_orthogonality(s, t, w, d, m);
    lemma_sum_ext(pow2(s), lin, |j: int| rpow(w, d, m, (t * pow2((d - s) as nat)) * j));
}

/// One point of the inverse transform, multiplied by the forward kernel of entry
/// `k`, as a sum over the transformed sequence.
proof fn lemma_forward_term(y: Seq<int>, zj: int, j: int, k: int, s: nat, w: int, d: nat, m: int)
    requires
        is_principal_root(w, d, m),
        s <= d,
        y.len() == pow2(s),
        0 <= k < pow2(s),
        congruent(zj, intt_point(y, j, w, d, m), m),
    ensures
        congruent(
            zj * rpow(w, d, m, j * bit_rev(k, d)),
            sum(pow2(s), |l: int| y[l] * rpow(w, d, m, ((bit_rev(k, s) - bit_rev(l, s)) * pow2((d - s) as nat)) * j)),
            m,
        ),
{
    let n = pow2(s);
    let p = pow2((d - s) as nat) as int;
    let ek = bit_rev(k, d);
    let c = rpow(w, d, m, j * ek);
    let fl = |l: int| y[l] * rpow(w, d, m, -(j * bit_rev(l, d)));
    let sy = sum(n, fl);
    // zj ≡ sy
    lemma_congruent_mod(sy, m);
    lemma_congruent_trans(zj, sy % m, sy, m);
    lemma_congruent_mul(zj, sy, c, m);
    lemma_sum_scale(n, fl, c);
    assert(sy * c == c * sy) by (nonlinear_arith);
    lemma_bit_rev_shift(k, s, d);
    let cf = |l: int| c * fl(l);
    let target = |l: int| y[l] * rpow(w, d, m, ((bit_rev(k, s) - bit_rev(l, s)) * p) * j);
    assert forall|l: int| 0 <= l < n implies congruent(#[trigger] cf(l), target(l), m) by {
        lemma_bit_rev_shift(l, s, d);
        let el = bit_rev(l, d);
        let rl = rpow(w, d, m, -(j * el));
        lemma_rpow_add(w, d, m, j * ek, -(j * el));
        assert(j * ek + -(j * el) == ((bit_rev(k, s) - bit_rev(l, s)) * p) * j) by (nonlinear_arith)
            requires
                ek == p * bit_rev(k, s),
                el == p * bit_rev(l, s),
        ;
        let r = rpow(w, d, m, ((bit_rev(k, s) - bit_rev(l, s)) * p) * j);
        assert(r == (c * rl) % m);
        lemma_congruent_mod(c * rl, m);
        lemma_congruent_mul(r, c * rl, y[l], m);
        assert(cf(l) == (c * rl) * y[l]) by (nonlinear_arith)
            requires
                cf(l) == c * (y[l] * rl),
        ;
        assert(target(l) == r * y[l]) by (nonlinear_arith)
            requires
                target(l) == y[l] * r,
        ;
        lemma_congruent_symm(r * y[l], (c * rl) * y[l], m);
    }
    lemma_sum_congruent(n, cf, target, m);
    lemma_congruent_trans(zj * c, sy * c, sum(n, target), m);
    lemma_sum_ext(n, target, |l: int| y[l] * rpow(w, d, m, ((bit_rev(k, s) - bit_rev(l, s)) * pow2((d - s) as nat)) * j));
}

/// Forward transform of an inverse transform at one entry.
proof fn lemma_forward_point(y: Seq<int>, z: Seq<int>, k: int, s: nat, w: int, d: nat, m: int)
    requires
        is_principal_root(w, d, m),
        s <= d,
        y.len() == pow2(s),
        z.len() == pow2(s),
        0 <= k < pow2(s),
        forall|j: int| 0 <= j < pow2(s) ==> congruent(#[trigger] z[j], intt_point(y, j, w, d, m), m),
    ensures
        ntt_point(z, k, w, d, m) == (pow2(s) * y[k]) % m,
{
    let n = pow2(s);
    let ni = n as int;
    let p = pow2((d - s) as nat) as int;
    lemma_pow2_pos(s);
    let ek = bit_rev(k, d);
    let g = |j: int, l: int| y[l] * rpow(w, d, m, ((bit_rev(k, s) - bit_rev(l, s)) * p) * j);
    let tj = |j: int| z[j] * rpow(w, d, m, j * ek);
    lemma_sum_ext(n, |j: int| z[0 + j] * rpow(w, d, m, j * ek), tj);
    assert(chunk_eval(z, 0, z.len(), ek, w, d, m) == sum(n, tj));
    let row = |j: int| sum(n, |l: int| g(j, l));
    assert forall|j: int| 0 <= j < n implies congruent(#[trigger] tj(j), row(j), m) by {
        lemma_forward_term(y, z[j], j, k, s, w, d, m);
        lemma_sum_ext(
            n,
            |l: int| y[l] * rpow(w, d, m, ((bit_rev(k, s) - bit_rev(l, s)) * pow2((d - s) as nat)) * j),
            |l: int| g(j, l),
        );
    }
    lemma_sum_congruent(n, tj, row, m);
    lemma_sum_swap(n, n, g);
    let col = |l: int| sum(n, |j: int| g(j, l));
    let ind = |l: int| if l == k { ni * y[l] } else { 0 };
    lemma_bit_rev_range(k, s);
    assert forall|l: int| 0 <= l < n implies congruent(#[trigger] col(l), ind(l), m) by {
        let t = bit_rev(k, s) - bit_rev(l, s);
        let orth = |j: int| rpow(w, d, m, (t * pow2((d - s) as nat)) * j);
        lemma_orthogonality_linear(s, t, w, d, m);
        lemma_sum_scale(n, orth, y[l]);
        lemma_sum_ext(n, |j: int| y[l] * orth(j), |j: int| g(j, l));
        let o: int = if t % ni == 0 { ni } else { 0 };
        lemma_congruent_mul(sum(n, orth), o, y[l], m);
        assert(sum(n, orth) * y[l] == y[l] * sum(n, orth)) by (nonlinear_arith);
        lemma_bit_rev_range(l, s);
        if l == k {
            lemma_small_mod(0, n);
            assert(o * y[l] == ni * y[l]);
        } else {
            if t % ni == 0 {
                lemma_fundamental_div_mod(t, ni);
                let q = t / ni;
                if t == 0 {
                    lemma_bit_rev_injective(k, l, s);
                }
                assert(false) by (nonlinear_arith)
                    requires
                        t == ni * q + 0,
                        -ni < t < ni,
                        t != 0,
                ;
            }
            assert(o * y[l] == 0);
        }
    }
    lemma_sum_congruent(n, col, ind, m);
    lemma_sum_single(n, ind, k);
    lemma_congruent_trans(sum(n, tj), sum(n, col), ni * y[k], m);
    lemma_congruent_iff_mod_eq(sum(n, tj), ni * y[k], m);
}

/// The forward transform undoes the inverse transform up to the length: the
/// forward transform of the inverse transform of `y` is `y` multiplied by `n`.
pub proof fn lemma_forward_of_inverse(y: Seq<int>, z: Seq<int>, s: nat, w: int, d: nat, m: int)
    requires
        is_principal_root(w, d, m),
        s <= d,
        y.len() == pow2(s),
        z.len() == pow2(s),
        forall|j: int| 0 <= j < pow2(s) ==> congruent(#[trigger] z[j], intt_point(y, j, w, d, m), m),
    ensures
        forall|k: int| 0 <= k < pow2(s) ==> #[trigger] ntt_point(z, k, w, d, m) == (pow2(s) * y[k]) % m,
{
    assert forall|k: int| 0 <= k < pow2(s) implies #[trigger] ntt_point(z, k, w, d, m) == (pow2(s) * y[k]) % m by {
        lemma_forward_point(y, z, k, s, w, d, m);
    }
}

} // verus!
