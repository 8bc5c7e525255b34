//! Finite sums `Σ_{i<n} f(i)` and the rearrangements the transforms rely on.
use vstd::prelude::*;
use vstd::arithmetic::mul::{lemma_mul_is_distributive_add, lemma_mul_basics};
use crate::modular::{congruent, lemma_congruent_add};

verus! {

/// `Σ_{i<n} f(i)`.
pub open spec fn sum(n: nat, f: spec_fn(int) -> int) -> int
    decreases n,
{
    if n == 0 {
        0
    } else {
        sum((n - 1) as nat, f) + f(n - 1)
    }
}

/// Sums of functions that agree below `n` are equal.
pub proof fn lemma_sum_ext(n: nat, f: spec_fn(int) -> int, g: spec_fn(int) -> int)
    requires
        forall|i: int| 0 <= i < n ==> #[trigger] f(i) == g(i),
    ensures
        sum(n, f) == sum(n, g),
    decreases n,
{
    if n > 0 {
        lemma_sum_ext((n - 1) as nat, f, g);
    }
}

/// Sums of termwise congruent functions are congruent.
pub proof fn lemma_sum_congruent(n: nat, f: spec_fn(int) -> int, g: spec_fn(int) -> int, m: int)
    requires
        m > 0,
        forall|i: int| 0 <= i < n ==> congruent(#[trigger] f(i), g(i), m),
    ensures
        congruent(sum(n, f), sum(n, g), m),
    decreases n,
{
    if n == 0 {
        vstd::arithmetic::div_mod::lemma_small_mod(0, m as nat);
    } else {
        lemma_sum_congruent((n - 1) as nat, f, g, m);
        lemma_congruent_add(sum((n - 1) as nat, f), sum((n - 1) as nat, g), f(n - 1), g(n - 1), m);
    }
}

/// `Σ (f + g) = Σ f + Σ g`.
pub proof fn lemma_sum_add(n: nat, f: spec_fn(int) -> int, g: spec_fn(int) -> int)
    ensures
        sum(n, |i: int| f(i) + g(i)) == sum(n, f) + sum(n, g),
    decreases n,
{
    if n > 0 {
        lemma_sum_add((n - 1) as nat, f, g);
    }
}

/// `Σ c·f = c·Σ f`.
pub proof fn lemma_sum_scale(n: nat, f: spec_fn(int) -> int, c: int)
    ensures
        sum(n, |i: int| c * f(i)) == c * sum(n, f),
    decreases n,
{
    if n > 0 {
        lemma_sum_scale((n - 1) as nat, f, c);
        lemma_mul_is_distributive_add(c, sum((n - 1) as nat, f), f(n - 1));
    } else {
        lemma_mul_basics(c);
    }
}

/// A sum over `n1 + n2` terms splits into the first `n1` and the remaining `n2`.
pub proof fn lemma_sum_split(n1: nat, n2: nat, f: spec_fn(int) -> int)
    ensures
        sum(n1 + n2, f) == sum(n1, f) + sum(n2, |i: int| f(n1 + i)),
    decreases n2,
{
    if n2 > 0 {
        lemma_sum_split(n1, (n2 - 1) as nat, f);
        assert(sum(n1 + n2, f) == sum((n1 + n2 - 1) as nat, f) + f(n1 + n2 - 1));
    }
}

/// A sum over `2h` terms pairs the even and odd indices.
pub proof fn lemma_sum_even_odd(h: nat, f: spec_fn(int) -> int)
    ensures
        sum(2 * h, f) == sum(h, |i: int| f(2 * i) + f(2 * i + 1)),
    decreases h,
{
    if h > 0 {
        lemma_sum_even_odd((h - 1) as nat, f);
        let g = |i: int| f(2 * i) + f(2 * i + 1);
        assert(sum(2 * h, f) == sum((2 * h - 1) as nat, f) + f(2 * h - 1));
        assert(sum((2 * h - 1) as nat, f) == sum((2 * h - 2) as nat, f) + f(2 * h - 2));
        assert((2 * (h - 1)) as nat == (2 * h - 2) as nat);
        assert(sum(h, g) == sum((h - 1) as nat, g) + g(h - 1));
    }
}

/// Double sums may be taken in either order.
pub proof fn lemma_sum_swap(n1: nat, n2: nat, f: spec_fn(int, int) -> int)
    ensures
        sum(n1, |i: int| sum(n2, |j: int| f(i, j))) == sum(n2, |j: int| sum(n1, |i: int| f(i, j))),
    decreases n1,
{
    let rows = |i: int| sum(n2, |j: int| f(i, j));
    let cols = |j: int| sum(n1, |i: int| f(i, j));
    if n1 > 0 {
        let n0 = (n1 - 1) as nat;
        lemma_sum_swap(n0, n2, f);
        let inner = |j: int| sum(n0, |i: int| f(i, j));
        let last = |j: int| f(n0 as int, j);
        assert(sum(n1, rows) == sum(n0, rows) + rows(n0 as int));
        assert(sum(n0, rows) == sum(n2, inner));
        assert(rows(n0 as int) == sum(n2, last)) by {
            lemma_sum_ext(n2, |j: int| f(n0 as int, j), last);
        }
        lemma_sum_add(n2, inner, last);
        assert forall|j: int| 0 <= j < n2 implies #[trigger] cols(j) == inner(j) + last(j) by {
            assert(sum(n1, |i: int| f(i, j)) == sum(n0, |i: int| f(i, j)) + f(n0 as int, j));
        }
        lemma_sum_ext(n2, |j: int| inner(j) + last(j), cols);
        assert(sum(n1, rows) == sum(n2, cols));
    } else {
        lemma_sum_zero(n2, cols);
    }
}

/// A sum whose terms vanish except at index `t` equals that term.
pub proof fn lemma_sum_single(n: nat, f: spec_fn(int) -> int, t: int)
    requires
        0 <= t < n,
        forall|i: int| 0 <= i < n && i != t ==> #[trigger] f(i) == 0,
    ensures
        sum(n, f) == f(t),
    decreases n,
{
    if n - 1 == t {
        lemma_sum_zero((n - 1) as nat, f);
    } else {
        lemma_sum_single((n - 1) as nat, f, t);
    }
}

/// A sum of `n` copies of `c` is `n·c`.
pub proof fn lemma_sum_constant(n: nat, c: int)
    ensures
        sum(n, |i: int| c) == n * c,
    decreases n,
{
    let f = |i: int| c;
    if n > 0 {
        lemma_sum_constant((n - 1) as nat, c);
        assert(sum(n, f) == sum((n - 1) as nat, f) + f(n - 1));
        assert(sum((n - 1) as nat, f) == (n - 1) * c);
        assert((n - 1) * c + c == n * c) by (nonlinear_arith);
    } else {
        assert(0 * c == 0);
    }
}

/// A sum of zeros is zero.
pub proof fn lemma_sum_zero(n: nat, f: spec_fn(int) -> int)
    requires
        forall|i: int| 0 <= i < n ==> #[trigger] f(i) == 0,
    ensures
        sum(n, f) == 0,
    decreases n,
{
    if n > 0 {
        lemma_sum_zero((n - 1) as nat, f);
    }
}

} // verus!
