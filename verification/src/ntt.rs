//! The number-theoretic transform as mathematics: the points a transform of a
//! sequence takes, the butterfly layers that compute it in place, and the
//! invariants that connect the two.
use vstd::prelude::*;
use vstd::arithmetic::div_mod::{
    lemma_fundamental_div_mod, lemma_fundamental_div_mod_converse, lemma_mod_bound, lemma_small_mod,
};
use vstd::arithmetic::power2::{pow2, lemma_pow2_pos, lemma_pow2_unfold};
use crate::modular::{
    congruent, lemma_congruent_add, lemma_congruent_add_multiple, lemma_congruent_iff_mod_eq,
    lemma_congruent_mod, lemma_congruent_mul, lemma_congruent_neg, lemma_congruent_symm,
    lemma_congruent_trans,
};
use crate::roots::{
    bit_rev, is_principal_root, rpow, lemma_bit_rev_descent, lemma_rpow_add, lemma_rpow_congruent,
    lemma_rpow_half,
};
use crate::sums::{sum, lemma_sum_congruent, lemma_sum_ext, lemma_sum_split, lemma_sum_add};

verus! {

/// `Σ_{j<len} a[off + j]·w^(j·e)`: the chunk `a[off..off + len]` as a polynomial,
/// evaluated at `w^e`.
pub open spec fn chunk_eval(a: Seq<int>, off: int, len: nat, e: int, w: int, d: nat, m: int) -> int {
    sum(len, |j: int| a[off + j] * rpow(w, d, m, j * e))
}

/// The twiddle of chunk `i`: `w^rev_(d-1)(i)`.
pub open spec fn twiddle(i: int, w: int, d: nat, m: int) -> int {
    rpow(w, d, m, bit_rev(i, (d - 1) as nat))
}

/// The inverse twiddle of chunk `i`: `w^-rev_(d-1)(i)`.
pub open spec fn twiddle_inv(i: int, w: int, d: nat, m: int) -> int {
    rpow(w, d, m, -bit_rev(i, (d - 1) as nat))
}

/// Point `k` of the forward transform of `a`: `Σ_j a[j]·w^(j·rev_d(k)) mod m`.
pub open spec fn ntt_point(a: Seq<int>, k: int, w: int, d: nat, m: int) -> int {
    chunk_eval(a, 0, a.len(), bit_rev(k, d), w, d, m) % m
}

/// Point `j` of the inverse transform of `a` (without the division by the
/// length): `Σ_k a[k]·w^(-j·rev_d(k)) mod m`.
pub open spec fn intt_point(a: Seq<int>, j: int, w: int, d: nat, m: int) -> int {
    sum(a.len(), |k: int| a[k] * rpow(w, d, m, -(j * bit_rev(k, d)))) % m
}

/// One forward butterfly layer on chunks of width `2^u`.
pub open spec fn op_layer(a: Seq<int>, u: nat, w: int, d: nat, m: int) -> Seq<int> {
    let wd = pow2(u) as int;
    let hw = pow2((u - 1) as nat) as int;
    Seq::new(
        a.len(),
        |x: int|
            {
                let tw = twiddle(x / wd, w, d, m);
                if x % wd < hw {
                    (a[x] + tw * a[x + hw]) % m
                } else {
                    (a[x - hw] - tw * a[x]) % m
                }
            },
    )
}

/// One inverse butterfly layer merging chunks into width `2^u`.
pub open spec fn inv_layer(a: Seq<int>, u: nat, w: int, d: nat, m: int) -> Seq<int> {
    let wd = pow2(u) as int;
    let hw = pow2((u - 1) as nat) as int;
    Seq::new(
        a.len(),
        |x: int|
            {
                let tw = twiddle_inv(x / wd, w, d, m);
                if x % wd < hw {
                    (a[x] + a[x + hw]) % m
                } else {
                    ((a[x - hw] - a[x]) * tw) % m
                }
            },
    )
}

/// Before the forward layers of width `<= 2^u` run, each point `k` of the transform
/// of `x` is the evaluation of the chunk of width `2^u` holding `k`.
pub open spec fn op_invariant(a: Seq<int>, x: Seq<int>, u: nat, w: int, d: nat, m: int) -> bool {
    &&& a.len() == x.len()
    &&& forall|k: int|
        0 <= k < x.len() ==> congruent(
            #[trigger] chunk_eval(x, 0, x.len(), bit_rev(k, d), w, d, m),
            chunk_eval(a, (k / pow2(u) as int) * pow2(u), pow2(u), bit_rev(k, d), w, d, m),
            m,
        )
}

/// `Σ_{h<len} y[base + h]·w^(-jj·rev_d(base + h))`: the inverse transform of the
/// chunk `y[base..base + len]` at offset `jj`.
pub open spec fn chunk_ieval(y: Seq<int>, base: int, len: nat, jj: int, w: int, d: nat, m: int) -> int {
    sum(len, |h: int| y[base + h] * rpow(w, d, m, -(jj * bit_rev(base + h, d))))
}

/// After the inverse layers of width `<= 2^u` ran, entry `x` of a chunk of width
/// `2^u` is the inverse transform of that chunk of `y` at the entry's offset.
pub open spec fn inv_invariant(a: Seq<int>, y: Seq<int>, u: nat, w: int, d: nat, m: int) -> bool {
    &&& a.len() == y.len()
    &&& forall|x: int|
        0 <= x < y.len() ==> congruent(
            #[trigger] a[x],
            chunk_ieval(y, (x / pow2(u) as int) * pow2(u), pow2(u), x % pow2(u) as int, w, d, m),
            m,
        )
}

/// For `k = i·2^u + h`, the power `w^(2^(u-1)·rev_d(k))` is `± twiddle(i)`, negative
/// in the upper half of the chunk.
pub proof fn lemma_half_power(i: int, h: int, u: nat, s: nat, w: int, d: nat, m: int)
    requires
        is_principal_root(w, d, m),
        1 <= u <= s <= d,
        i >= 0,
        0 <= h < pow2(u),
        i * pow2(u) + h < pow2(s),
    ensures
        ({
            let hw = pow2((u - 1) as nat) as int;
            let e = bit_rev(i * pow2(u) + h, d);
            let tw = twiddle(i, w, d, m);
            let twi = twiddle_inv(i, w, d, m);
            &&& rpow(w, d, m, hw * e) == (if h >= hw { (tw * (m - 1)) % m } else { tw })
            &&& rpow(w, d, m, -(hw * e)) == (if h >= hw { (twi * (m - 1)) % m } else { twi })
        }),
{
    let hw = pow2((u - 1) as nat) as int;
    let k = i * pow2(u) + h;
    let e = bit_rev(k, d);
    let n = pow2(d) as int;
    let r = bit_rev(i, (d - 1) as nat);
    let half = pow2((d - 1) as nat) as int;
    lemma_pow2_pos(u);
    lemma_pow2_pos(d);
    // i < 2^(d-u)
    assert(i < pow2((d - u) as nat)) by {
        vstd::arithmetic::power2::lemma_pow2_adds(u, (s - u) as nat);
        crate::roots::lemma_pow2_le((s - u) as nat, (d - u) as nat);
        let pu = pow2(u) as int;
        let q = pow2((s - u) as nat) as int;
        assert(i < q) by (nonlinear_arith)
            requires
                i * pu + h < pu * q,
                h >= 0,
                pu > 0,
        ;
    }
    lemma_bit_rev_descent(i, h, u, d);
    let extra: int = if h >= hw { half } else { 0 };
    lemma_rpow_congruent(w, d, m, hw * e, r + extra);
    // -(hw e) ≡ -(r + extra), and -(r + half) ≡ -r + half as 2·half ≡ 0
    lemma_congruent_neg(hw * e, r + extra, n);
    lemma_pow2_unfold(d);
    if h >= hw {
        lemma_congruent_add_multiple(-(r + half), 1, n);
        assert(-(r + half) + 1 * n == -r + half);
        lemma_congruent_symm(-(r + half) + 1 * n, -(r + half), n);
        lemma_congruent_trans(-(hw * e), -(r + half), -r + half, n);
        lemma_rpow_congruent(w, d, m, -(hw * e), -r + half);
        lemma_rpow_add(w, d, m, r, half);
        lemma_rpow_add(w, d, m, -r, half);
        lemma_rpow_half(w, d, m);
    } else {
        assert(r + extra == r);
        lemma_rpow_congruent(w, d, m, -(hw * e), -r);
    }
}

/// `(x mod m)·y ≡ x·y (mod m)`.
pub proof fn lemma_mod_factor(x: int, y: int, m: int)
    requires
        m > 0,
    ensures
        congruent((x % m) * y, x * y, m),
{
    lemma_congruent_mod(x, m);
    lemma_congruent_mul(x % m, x, y, m);
}

/// Division facts for an index `k` inside a chunk of width `2^u`.
pub proof fn lemma_chunk_index(k: int, u: nat)
    requires
        u >= 1,
        k >= 0,
    ensures
        ({
            let wd = pow2(u) as int;
            let hw = pow2((u - 1) as nat) as int;
            let base = (k / wd) * wd;
            &&& wd == 2 * hw
            &&& hw > 0
            &&& 0 <= base <= k < base + wd
            &&& k % wd == k - base
            &&& (k / hw) * hw == (if k - base >= hw { base + hw } else { base })
            &&& k % hw == (if k - base >= hw { k - base - hw } else { k - base })
        }),
{
    let wd = pow2(u) as int;
    let hw = pow2((u - 1) as nat) as int;
    lemma_pow2_unfold(u);
    lemma_pow2_pos((u - 1) as nat);
    lemma_fundamental_div_mod(k, wd);
    lemma_mod_bound(k, wd);
    let i = k / wd;
    let h = k % wd;
    assert(i * wd == wd * i) by (nonlinear_arith);
    assert(i >= 0) by (nonlinear_arith)
        requires
            k == wd * i + h,
            k >= 0,
            h < wd,
            wd > 0,
    ;
    if h >= hw {
        assert(k == hw * (2 * i + 1) + (h - hw)) by (nonlinear_arith)
            requires
                k == wd * i + h,
                wd == 2 * hw,
        ;
        lemma_fundamental_div_mod_converse(k, hw, 2 * i + 1, h - hw);
        assert((2 * i + 1) * hw == i * wd + hw) by (nonlinear_arith)
            requires
                wd == 2 * hw,
        ;
    } else {
        assert(k == hw * (2 * i) + h) by (nonlinear_arith)
            requires
                k == wd * i + h,
                wd == 2 * hw,
        ;
        lemma_fundamental_div_mod_converse(k, hw, 2 * i, h);
        assert((2 * i) * hw == i * wd) by (nonlinear_arith)
            requires
                wd == 2 * hw,
        ;
    }
}

/// A chunk of width `2^u <= 2^s` holding `k < 2^s` ends within `2^s`.
pub proof fn lemma_chunk_end(k: int, u: nat, s: nat)
    requires
        u <= s,
        0 <= k < pow2(s),
    ensures
        (k / pow2(u) as int) * pow2(u) + pow2(u) <= pow2(s),
        0 <= (k / pow2(u) as int) * pow2(u) <= k,
{
    let wd = pow2(u) as int;
    let q = pow2((s - u) as nat) as int;
    lemma_pow2_pos(u);
    vstd::arithmetic::power2::lemma_pow2_adds(u, (s - u) as nat);
    lemma_fundamental_div_mod(k, wd);
    lemma_mod_bound(k, wd);
    let i = k / wd;
    assert(0 <= i < q) by (nonlinear_arith)
        requires
            k == wd * i + k % wd,
            0 <= k % wd < wd,
            0 <= k < wd * q,
            wd > 0,
    ;
    assert(i * wd + wd <= wd * q) by (nonlinear_arith)
        requires
            i < q,
            wd > 0,
    ;
    assert(i * wd <= k) by (nonlinear_arith)
        requires
            k == wd * i + k % wd,
            0 <= k % wd,
    ;
    assert(0 <= i * wd) by (nonlinear_arith)
        requires
            0 <= i,
            wd > 0,
    ;
}

/// Position `base + j` (or `base + hw + j`) of a chunk of width `2^u` at `base`.
pub proof fn lemma_in_chunk(base: int, off: int, u: nat)
    requires
        u >= 1,
        base >= 0,
        base % (pow2(u) as int) == 0,
        0 <= off < pow2(u),
    ensures
        (base + off) / (pow2(u) as int) == base / (pow2(u) as int),
        (base + off) % (pow2(u) as int) == off,
{
    let wd = pow2(u) as int;
    lemma_pow2_pos(u);
    lemma_fundamental_div_mod(base, wd);
    assert(base + off == (base / wd) * wd + off) by (nonlinear_arith)
        requires
            base == wd * (base / wd) + 0,
    ;
    lemma_fundamental_div_mod_converse(base + off, wd, base / wd, off);
}

/// One term pair of a forward layer: the two halves of a chunk evaluated at a
/// point of one half combine into the entry the layer writes.
proof fn lemma_op_term(a: Seq<int>, u: nat, s: nat, k: int, j: int, w: int, d: nat, m: int)
    requires
        is_principal_root(w, d, m),
        1 <= u <= s <= d,
        a.len() == pow2(s),
        0 <= k < pow2(s),
        0 <= j < pow2((u - 1) as nat),
    ensures
        ({
            let wd = pow2(u) as int;
            let hw = pow2((u - 1) as nat) as int;
            let base = (k / wd) * wd;
            let e = bit_rev(k, d);
            let b = op_layer(a, u, w, d, m);
            congruent(
                a[base + j] * rpow(w, d, m, j * e) + a[base + (hw + j)] * rpow(w, d, m, (hw + j) * e),
                b[(k / hw) * hw + j] * rpow(w, d, m, j * e),
                m,
            )
        }),
{
    let wd = pow2(u) as int;
    let hw = pow2((u - 1) as nat) as int;
    let i = k / wd;
    let base = i * wd;
    let h = k - base;
    let e = bit_rev(k, d);
    let b = op_layer(a, u, w, d, m);
    lemma_chunk_index(k, u);
    lemma_chunk_end(k, u, s);
    lemma_pow2_pos(d);
    let a1 = a[base + j];
    let a2 = a[base + (hw + j)];
    let r = rpow(w, d, m, j * e);
    let hh = rpow(w, d, m, hw * e);
    let tw = twiddle(i, w, d, m);
    // rpow((hw + j) e) = hh·r mod m
    assert((hw + j) * e == hw * e + j * e) by (nonlinear_arith);
    lemma_rpow_add(w, d, m, hw * e, j * e);
    lemma_mod_factor(hh * r, a2, m);
    assert(congruent(a2 * rpow(w, d, m, (hw + j) * e), (hh * r) * a2, m)) by {
        assert(rpow(w, d, m, (hw + j) * e) == (hh * r) % m);
        assert(a2 * ((hh * r) % m) == ((hh * r) % m) * a2) by (nonlinear_arith);
        lemma_congruent_symm(((hh * r) % m) * a2, (hh * r) * a2, m);
    }
    // i * 2^u + h = k, and the twiddle sign
    assert(i * pow2(u) + h == k);
    assert(i >= 0) by (nonlinear_arith)
        requires
            base == i * wd,
            0 <= base,
            wd > 0,
    ;
    lemma_half_power(i, h, u, s, w, d, m);
    let x = (k / hw) * hw + j;
    assert(base % wd == 0) by {
        vstd::arithmetic::div_mod::lemma_mod_multiples_basic(i, wd);
    }
    assert(b[x] == (if h >= hw { (a[x - hw] - tw * a[x]) % m } else { (a[x] + tw * a[x + hw]) % m })) by {
        if h >= hw {
            lemma_in_chunk(base, hw + j, u);
            assert(x == base + (hw + j));
        } else {
            lemma_in_chunk(base, j, u);
            assert(x == base + j);
        }
        lemma_fundamental_div_mod_converse(base, wd, i, 0);
        assert(x / wd == i);
    }
    let c: int = if h >= hw { -tw } else { tw };
    // hh ≡ c
    assert(congruent(hh, c, m)) by {
        if h >= hw {
            assert(hh == (tw * (m - 1)) % m);
            lemma_congruent_mod(tw * (m - 1), m);
            assert(tw * (m - 1) == -tw + tw * m) by (nonlinear_arith);
            lemma_congruent_add_multiple(-tw, tw, m);
            lemma_congruent_trans(hh, tw * (m - 1), -tw, m);
        } else {
            lemma_small_mod(0, m as nat);
        }
    }
    // a1 r + a2 hh r ≡ (a1 + c a2) r ≡ b[x] r
    lemma_congruent_mul(hh, c, r * a2, m);
    assert(hh * (r * a2) == (hh * r) * a2) by (nonlinear_arith);
    lemma_congruent_trans(a2 * rpow(w, d, m, (hw + j) * e), (hh * r) * a2, c * (r * a2), m);
    lemma_small_mod(0, m as nat);
    assert(congruent(a1 * r, a1 * r, m));
    lemma_congruent_add(a1 * r, a1 * r, a2 * rpow(w, d, m, (hw + j) * e), c * (r * a2), m);
    assert(a1 * r + c * (r * a2) == (a1 + c * a2) * r) by (nonlinear_arith);
    if h >= hw {
        assert(b[x] == (a1 - tw * a2) % m);
        assert(a1 + c * a2 == a1 - tw * a2) by (nonlinear_arith)
            requires
                c == -tw,
        ;
    } else {
        assert(b[x] == (a1 + tw * a2) % m);
    }
    lemma_mod_factor(a1 + c * a2, r, m);
    lemma_congruent_symm((b[x]) * r, (a1 + c * a2) * r, m);
    lemma_congruent_trans(
        a1 * r + a2 * rpow(w, d, m, (hw + j) * e),
        (a1 + c * a2) * r,
        b[x] * r,
        m,
    );
}

/// A forward layer turns the evaluation of a chunk of width `2^u` at a point of
/// the chunk into the evaluation of the half chunk that holds the point.
proof fn lemma_op_layer_point(a: Seq<int>, u: nat, s: nat, k: int, w: int, d: nat, m: int)
    requires
        is_principal_root(w, d, m),
        1 <= u <= s <= d,
        a.len() == pow2(s),
        0 <= k < pow2(s),
    ensures
        congruent(
            chunk_eval(a, (k / pow2(u) as int) * pow2(u), pow2(u), bit_rev(k, d), w, d, m),
            chunk_eval(
                op_layer(a, u, w, d, m),
                (k / pow2((u - 1) as nat) as int) * pow2((u - 1) as nat),
                pow2((u - 1) as nat),
                bit_rev(k, d),
                w,
                d,
                m,
            ),
            m,
        ),
{
    let wd = pow2(u) as int;
    let hw = pow2((u - 1) as nat);
    let base = (k / wd) * wd;
    let base2 = (k / hw as int) * hw;
    let e = bit_rev(k, d);
    let b = op_layer(a, u, w, d, m);
    lemma_chunk_index(k, u);
    let f = |j: int| a[base + j] * rpow(w, d, m, j * e);
    let g = |j: int| f(hw + j);
    let fg = |j: int| f(j) + g(j);
    let h = |j: int| b[base2 + j] * rpow(w, d, m, j * e);
    assert(pow2(u) == hw + hw);
    lemma_sum_split(hw, hw, f);
    lemma_sum_add(hw, f, g);
    assert forall|j: int| 0 <= j < hw implies congruent(#[trigger] fg(j), h(j), m) by {
        lemma_op_term(a, u, s, k, j, w, d, m);
    }
    lemma_sum_congruent(hw, fg, h, m);
}

/// A forward layer on chunks of width `2^u` carries the invariant down to `2^(u-1)`.
pub proof fn lemma_op_layer_step(a: Seq<int>, x: Seq<int>, u: nat, s: nat, w: int, d: nat, m: int)
    requires
        is_principal_root(w, d, m),
        1 <= u <= s <= d,
        x.len() == pow2(s),
        op_invariant(a, x, u, w, d, m),
    ensures
        op_invariant(op_layer(a, u, w, d, m), x, (u - 1) as nat, w, d, m),
{
    let b = op_layer(a, u, w, d, m);
    assert forall|k: int| 0 <= k < x.len() implies congruent(
        #[trigger] chunk_eval(x, 0, x.len(), bit_rev(k, d), w, d, m),
        chunk_eval(b, (k / pow2((u - 1) as nat) as int) * pow2((u - 1) as nat), pow2((u - 1) as nat), bit_rev(k, d), w, d, m),
        m,
    ) by {
        lemma_op_layer_point(a, u, s, k, w, d, m);
        lemma_congruent_trans(
            chunk_eval(x, 0, x.len(), bit_rev(k, d), w, d, m),
            chunk_eval(a, (k / pow2(u) as int) * pow2(u), pow2(u), bit_rev(k, d), w, d, m),
            chunk_eval(b, (k / pow2((u - 1) as nat) as int) * pow2((u - 1) as nat), pow2((u - 1) as nat), bit_rev(k, d), w, d, m),
            m,
        );
    }
}

/// Before any layer, the whole sequence is one chunk.
pub proof fn lemma_op_invariant_init(x: Seq<int>, s: nat, w: int, d: nat, m: int)
    requires
        m > 0,
        x.len() == pow2(s),
    ensures
        op_invariant(x, x, s, w, d, m),
{
    assert forall|k: int| 0 <= k < x.len() implies congruent(
        #[trigger] chunk_eval(x, 0, x.len(), bit_rev(k, d), w, d, m),
        chunk_eval(x, (k / pow2(s) as int) * pow2(s), pow2(s), bit_rev(k, d), w, d, m),
        m,
    ) by {
        lemma_pow2_pos(s);
        vstd::arithmetic::div_mod::lemma_basic_div(k, pow2(s) as int);
        lemma_small_mod(0, m as nat);
    }
}

/// After all layers, each entry is the transform at its position.
pub proof fn lemma_op_invariant_final(a: Seq<int>, x: Seq<int>, w: int, d: nat, m: int)
    requires
        is_principal_root(w, d, m),
        op_invariant(a, x, 0, w, d, m),
        forall|k: int| 0 <= k < a.len() ==> 0 <= #[trigger] a[k] < m,
    ensures
        forall|k: int| 0 <= k < a.len() ==> #[trigger] a[k] == ntt_point(x, k, w, d, m),
{
    vstd::arithmetic::power2::lemma2_to64();
    assert forall|k: int| 0 <= k < a.len() implies #[trigger] a[k] == ntt_point(x, k, w, d, m) by {
        let e = bit_rev(k, d);
        assert(k / 1 == k);
        let f = |j: int| a[k + j] * rpow(w, d, m, j * e);
        assert(sum(1, f) == sum(0, f) + f(0));
        assert(chunk_eval(a, k, 1, e, w, d, m) == a[k + 0] * rpow(w, d, m, 0 * e));
        crate::roots::lemma_rpow_zero(w, d, m);
        assert(0 * e == 0);
        assert(a[k] * 1 == a[k]);
        lemma_congruent_iff_mod_eq(chunk_eval(x, 0, x.len(), e, w, d, m), a[k], m);
        lemma_small_mod(a[k] as nat, m as nat);
    }
}

/// One term of an inverse layer: moving the offset up by half a chunk multiplies
/// the term by `± twiddle_inv(i)`.
proof fn lemma_inv_term(y: Seq<int>, u: nat, s: nat, i: int, h: int, jj: int, w: int, d: nat, m: int)
    requires
        is_principal_root(w, d, m),
        1 <= u <= s <= d,
        i >= 0,
        0 <= h < pow2(u),
        i * pow2(u) + h < pow2(s),
    ensures
        ({
            let hw = pow2((u - 1) as nat) as int;
            let k = i * pow2(u) + h;
            let twi = twiddle_inv(i, w, d, m);
            let c: int = if h >= hw { -twi } else { twi };
            congruent(
                y[k] * rpow(w, d, m, -((hw + jj) * bit_rev(k, d))),
                c * (y[k] * rpow(w, d, m, -(jj * bit_rev(k, d)))),
                m,
            )
        }),
{
    let hw = pow2((u - 1) as nat) as int;
    let k = i * pow2(u) + h;
    let e = bit_rev(k, d);
    let twi = twiddle_inv(i, w, d, m);
    let c: int = if h >= hw { -twi } else { twi };
    let r = rpow(w, d, m, -(jj * e));
    let hh = rpow(w, d, m, -(hw * e));
    lemma_half_power(i, h, u, s, w, d, m);
    assert(-((hw + jj) * e) == -(hw * e) + -(jj * e)) by (nonlinear_arith);
    lemma_rpow_add(w, d, m, -(hw * e), -(jj * e));
    // hh ≡ c
    assert(congruent(hh, c, m)) by {
        if h >= hw {
            lemma_congruent_mod(twi * (m - 1), m);
            assert(twi * (m - 1) == -twi + twi * m) by (nonlinear_arith);
            lemma_congruent_add_multiple(-twi, twi, m);
            lemma_congruent_trans(hh, twi * (m - 1), -twi, m);
        } else {
            lemma_small_mod(0, m as nat);
        }
    }
    // y[k]·((hh r) mod m) ≡ y[k]·hh·r ≡ c·(y[k] r)
    lemma_mod_factor(hh * r, y[k], m);
    assert(y[k] * ((hh * r) % m) == ((hh * r) % m) * y[k]) by (nonlinear_arith);
    lemma_congruent_mul(hh, c, r * y[k], m);
    assert(hh * (r * y[k]) == (hh * r) * y[k]) by (nonlinear_arith);
    assert(c * (r * y[k]) == c * (y[k] * r)) by (nonlinear_arith);
    lemma_congruent_trans(((hh * r) % m) * y[k], (hh * r) * y[k], c * (y[k] * r), m);
}

/// An inverse layer merging into chunks of width `2^u` carries the invariant up
/// from `2^(u-1)`.
pub proof fn lemma_inv_layer_step(a: Seq<int>, y: Seq<int>, u: nat, s: nat, w: int, d: nat, m: int)
    requires
        is_principal_root(w, d, m),
        1 <= u <= s <= d,
        y.len() == pow2(s),
        inv_invariant(a, y, (u - 1) as nat, w, d, m),
    ensures
        inv_invariant(inv_layer(a, u, w, d, m), y, u, w, d, m),
{
    let b = inv_layer(a, u, w, d, m);
    let wd = pow2(u) as int;
    let hw = pow2((u - 1) as nat) as int;
    assert forall|x: int| 0 <= x < y.len() implies congruent(
        #[trigger] b[x],
        chunk_ieval(y, (x / wd) * wd, pow2(u), x % wd, w, d, m),
        m,
    ) by {
        lemma_inv_layer_point(a, y, u, s, x, w, d, m);
    }
}

/// An inverse layer at one entry.
proof fn lemma_inv_layer_point(a: Seq<int>, y: Seq<int>, u: nat, s: nat, x: int, w: int, d: nat, m: int)
    requires
        is_principal_root(w, d, m),
        1 <= u <= s <= d,
        y.len() == pow2(s),
        inv_invariant(a, y, (u - 1) as nat, w, d, m),
        0 <= x < pow2(s),
    ensures
        ({
            let wd = pow2(u) as int;
            congruent(
                inv_layer(a, u, w, d, m)[x],
                chunk_ieval(y, (x / wd) * wd, pow2(u), x % wd, w, d, m),
                m,
            )
        }),
{
    let b = inv_layer(a, u, w, d, m);
    let wd = pow2(u) as int;
    let hwn = pow2((u - 1) as nat);
    let hw = hwn as int;
    let i = x / wd;
    let base = i * wd;
    let jx = x - base;
    lemma_chunk_index(x, u);
    lemma_chunk_end(x, u, s);
    assert(x % wd == jx);
    vstd::arithmetic::div_mod::lemma_mod_multiples_basic(i, wd);
    vstd::arithmetic::mul::lemma_mul_is_commutative(i, wd);
    assert(i >= 0) by (nonlinear_arith)
        requires
            base == i * wd,
            0 <= base,
            wd > 0,
    ;
    let twi = twiddle_inv(i, w, d, m);
    // the full chunk splits into its halves
    let big = |h: int| y[base + h] * rpow(w, d, m, -(jx * bit_rev(base + h, d)));
    lemma_sum_split(hwn, hwn, big);
    assert(pow2(u) == hwn + hwn);
    assert(chunk_ieval(y, base, pow2(u), jx, w, d, m) == sum(hwn, big) + sum(hwn, |h: int| big(hw + h)));
    if jx < hw {
        // b[x] = a[x] + a[x + hw]
        vstd::arithmetic::div_mod::lemma_mod_multiples_basic(i, wd);
        lemma_in_chunk(base, jx, u);
        assert(b[x] == (a[x] + a[x + hw]) % m);
        // a[x] and a[x + hw] by the invariant at width hw
        assert(congruent(a[x], chunk_ieval(y, base, hwn, jx, w, d, m), m));
        let x2 = x + hw;
        lemma_chunk_index(x2, u);
        assert(x2 / wd == i) by {
            lemma_in_chunk(base, jx + hw, u);
        }
        assert(congruent(a[x2], chunk_ieval(y, base + hw, hwn, jx, w, d, m), m));
        lemma_sum_ext(
            hwn,
            |h: int| big(hw + h),
            |h: int| y[(base + hw) + h] * rpow(w, d, m, -(jx * bit_rev((base + hw) + h, d))),
        );
        lemma_congruent_add(
            a[x],
            chunk_ieval(y, base, hwn, jx, w, d, m),
            a[x2],
            chunk_ieval(y, base + hw, hwn, jx, w, d, m),
            m,
        );
        lemma_congruent_mod(a[x] + a[x2], m);
        lemma_congruent_trans(b[x], a[x] + a[x2], chunk_ieval(y, base, pow2(u), jx, w, d, m), m);
    } else {
        let j = jx - hw;
        vstd::arithmetic::div_mod::lemma_mod_multiples_basic(i, wd);
        lemma_in_chunk(base, jx, u);
        assert(b[x] == ((a[x - hw] - a[x]) * twi) % m);
        let x1 = x - hw;
        lemma_chunk_index(x1, u);
        assert(x1 / wd == i) by {
            lemma_in_chunk(base, j, u);
        }
        let sl = chunk_ieval(y, base, hwn, j, w, d, m);
        let sr = chunk_ieval(y, base + hw, hwn, j, w, d, m);
        assert(congruent(a[x1], sl, m));
        assert(congruent(a[x], sr, m));
        let left = |h: int| y[base + h] * rpow(w, d, m, -(j * bit_rev(base + h, d)));
        let right = |h: int| y[(base + hw) + h] * rpow(w, d, m, -(j * bit_rev((base + hw) + h, d)));
        // termwise: big(h) ≡ twi·left(h), big(hw + h) ≡ -twi·right(h)
        assert forall|h: int| 0 <= h < hwn implies congruent(#[trigger] big(h), twi * left(h), m) by {
            assert(i * pow2(u) + h == base + h);
            lemma_inv_term(y, u, s, i, h, j, w, d, m);
            assert(jx == hw + j);
        }
        assert forall|h: int| 0 <= h < hwn implies congruent(#[trigger] big(hw + h), (-twi) * right(h), m) by {
            assert(i * pow2(u) + (hw + h) == (base + hw) + h);
            assert(base + (hw + h) == (base + hw) + h);
            lemma_inv_term(y, u, s, i, hw + h, j, w, d, m);
            assert(jx == hw + j);
        }
        lemma_sum_congruent(hwn, big, |h: int| twi * left(h), m);
        lemma_sum_congruent(hwn, |h: int| big(hw + h), |h: int| (-twi) * right(h), m);
        crate::sums::lemma_sum_scale(hwn, left, twi);
        crate::sums::lemma_sum_scale(hwn, right, -twi);
        lemma_congruent_add(
            sum(hwn, big),
            twi * sl,
            sum(hwn, |h: int| big(hw + h)),
            (-twi) * sr,
            m,
        );
        // b[x] ≡ (a[x1] - a[x])·twi ≡ (sl - sr)·twi
        lemma_congruent_neg(a[x], sr, m);
        lemma_congruent_add(a[x1], sl, -a[x], -sr, m);
        lemma_congruent_mul(a[x1] + -a[x], sl + -sr, twi, m);
        assert((sl + -sr) * twi == twi * sl + (-twi) * sr) by (nonlinear_arith);
        assert(a[x1] + -a[x] == a[x1] - a[x]);
        lemma_congruent_mod((a[x1] - a[x]) * twi, m);
        lemma_congruent_trans(b[x], (a[x1] - a[x]) * twi, twi * sl + (-twi) * sr, m);
        lemma_congruent_symm(
            sum(hwn, big) + sum(hwn, |h: int| big(hw + h)),
            twi * sl + (-twi) * sr,
            m,
        );
        lemma_congruent_trans(
            b[x],
            twi * sl + (-twi) * sr,
            sum(hwn, big) + sum(hwn, |h: int| big(hw + h)),
            m,
        );
    }
}

/// Before any inverse layer, every entry is a chunk of width one.
pub proof fn lemma_inv_invariant_init(y: Seq<int>, w: int, d: nat, m: int)
    requires
        m > 1,
    ensures
        inv_invariant(y, y, 0, w, d, m),
{
    vstd::arithmetic::power2::lemma2_to64();
    assert forall|x: int| 0 <= x < y.len() implies congruent(
        #[trigger] y[x],
        chunk_ieval(y, (x / pow2(0) as int) * pow2(0), pow2(0), x % pow2(0) as int, w, d, m),
        m,
    ) by {
        let f = |h: int| y[x + h] * rpow(w, d, m, -(0 * bit_rev(x + h, d)));
        assert(sum(1, f) == sum(0, f) + f(0));
        assert(-(0 * bit_rev(x, d)) == 0);
        crate::roots::lemma_rpow_zero(w, d, m);
        assert(y[x] * 1 == y[x]);
        lemma_small_mod(0, m as nat);
    }
}

/// After the inverse layers up to the full width, each entry is the inverse
/// transform at its position.
pub proof fn lemma_inv_invariant_final(a: Seq<int>, y: Seq<int>, s: nat, w: int, d: nat, m: int)
    requires
        m > 0,
        y.len() == pow2(s),
        inv_invariant(a, y, s, w, d, m),
        forall|x: int| 0 <= x < a.len() ==> 0 <= #[trigger] a[x] < m,
    ensures
        forall|x: int| 0 <= x < a.len() ==> #[trigger] a[x] == intt_point(y, x, w, d, m),
{
    assert forall|x: int| 0 <= x < a.len() implies #[trigger] a[x] == intt_point(y, x, w, d, m) by {
        lemma_pow2_pos(s);
        vstd::arithmetic::div_mod::lemma_basic_div(x, pow2(s) as int);
        lemma_small_mod(x as nat, pow2(s));
        lemma_sum_ext(
            pow2(s),
            |h: int| y[0 + h] * rpow(w, d, m, -(x * bit_rev(0 + h, d))),
            |k: int| y[k] * rpow(w, d, m, -(x * bit_rev(k, d))),
        );
        lemma_congruent_iff_mod_eq(a[x], sum(y.len(), |k: int| y[k] * rpow(w, d, m, -(x * bit_rev(k, d)))), m);
        lemma_small_mod(a[x] as nat, m as nat);
    }
}

/// The two entries a forward layer writes for offset `j` of chunk `i`.
pub proof fn lemma_op_layer_at(a: Seq<int>, u: nat, i: int, j: int, w: int, d: nat, m: int)
    requires
        u >= 1,
        i >= 0,
        0 <= j < pow2((u - 1) as nat),
        i * pow2(u) + pow2(u) <= a.len(),
    ensures
        ({
            let wd = pow2(u) as int;
            let hw = pow2((u - 1) as nat) as int;
            let base = i * wd;
            let tw = twiddle(i, w, d, m);
            &&& op_layer(a, u, w, d, m)[base + j] == (a[base + j] + tw * a[base + hw + j]) % m
            &&& op_layer(a, u, w, d, m)[base + hw + j] == (a[base + j] - tw * a[base + hw + j]) % m
        }),
{
    let wd = pow2(u) as int;
    let hw = pow2((u - 1) as nat) as int;
    let base = i * wd;
    lemma_pow2_unfold(u);
    lemma_pow2_pos(u);
    assert(base >= 0) by (nonlinear_arith)
        requires
            base == i * wd,
            i >= 0,
            wd > 0,
    ;
    vstd::arithmetic::div_mod::lemma_mod_multiples_basic(i, wd);
    lemma_fundamental_div_mod_converse(base, wd, i, 0);
    lemma_in_chunk(base, j, u);
    lemma_in_chunk(base, hw + j, u);
    assert(base + (hw + j) == base + hw + j);
}

/// The two entries an inverse layer writes for offset `j` of chunk `i`.
pub proof fn lemma_inv_layer_at(a: Seq<int>, u: nat, i: int, j: int, w: int, d: nat, m: int)
    requires
        u >= 1,
        i >= 0,
        0 <= j < pow2((u - 1) as nat),
        i * pow2(u) + pow2(u) <= a.len(),
    ensures
        ({
            let wd = pow2(u) as int;
            let hw = pow2((u - 1) as nat) as int;
            let base = i * wd;
            let tw = twiddle_inv(i, w, d, m);
            &&& inv_layer(a, u, w, d, m)[base + j] == (a[base + j] + a[base + hw + j]) % m
            &&& inv_layer(a, u, w, d, m)[base + hw + j] == ((a[base + j] - a[base + hw + j]) * tw) % m
        }),
{
    let wd = pow2(u) as int;
    let hw = pow2((u - 1) as nat) as int;
    let base = i * wd;
    lemma_pow2_unfold(u);
    lemma_pow2_pos(u);
    assert(base >= 0) by (nonlinear_arith)
        requires
            base == i * wd,
            i >= 0,
            wd > 0,
    ;
    vstd::arithmetic::div_mod::lemma_mod_multiples_basic(i, wd);
    lemma_fundamental_div_mod_converse(base, wd, i, 0);
    lemma_in_chunk(base, j, u);
    lemma_in_chunk(base, hw + j, u);
    assert(base + (hw + j) == base + hw + j);
}

} // verus!
