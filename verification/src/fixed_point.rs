//! Float-free fixed-point approximations: the Theorem B scaling function
//! `f(xi) = 1 - exp(-xi)`, an integer natural logarithm and the F2
//! Johnson-Lindenstrauss lower bound built on it.  All three are monotone.

use vstd::prelude::*;
use crate::exp_doubling::{
    EXACT_DENOM_LIMIT, doubling_max, doubling_max_small, doubling_value, lemma_doubling_max_monotone,
    lemma_doubling_max_least, lemma_doubling_max_at_zero, lemma_bucket_max,
};
use vstd::arithmetic::power2::{pow2, lemma_pow2_unfold, lemma_pow2_strictly_increases, lemma2_to64};
use vstd::arithmetic::div_mod::{
    lemma_div_is_ordered, lemma_div_is_ordered_by_denominator, lemma_fundamental_div_mod,
    lemma_div_multiples_vanish,
};

verus! {

/// `xi = n * w / p` in fixed point with unit `one`, rounded down.
pub open spec fn xi_fixed(n: nat, w: nat, p: nat, one: nat) -> nat {
    (n * w * one) / p
}

/// The working scale of the exponential: the computation runs in the unit
/// `64 * one` when that unit fits in a `u64` (six extra bits of precision
/// for the reduced argument), and in the unit `one` otherwise.
pub open spec fn work_scale(one: nat) -> nat {
    if 64 * one <= u64::MAX {
        64
    } else {
        1
    }
}

/// The `j`-th Taylor term of `v * exp(xi / 64)`, `xi = xq / one`, in
/// fixed point with unit `v`: `t_0 = v`,
/// `t_j = floor(t_{j-1} * xq / (64 * one * j))`.
pub open spec fn exp_term(xq: nat, one: nat, v: nat, j: nat) -> nat
    decreases j,
{
    if j == 0 {
        v
    } else {
        exp_term(xq, one, v, (j - 1) as nat) * xq / (64 * one * j)
    }
}

/// Sum of the first `j` terms `t_0 + ... + t_{j-1}`.
pub open spec fn exp_sum(xq: nat, one: nat, v: nat, j: nat) -> nat
    decreases j,
{
    if j == 0 {
        0
    } else {
        exp_sum(xq, one, v, (j - 1) as nat) + exp_term(xq, one, v, (j - 1) as nat)
    }
}

/// `v * exp(-xi / 64)` in fixed point with unit `v`: `v^2` over the
/// 40-term series for `v * exp(xi / 64)`, rounded down.
pub open spec fn exp_neg_unit(xq: nat, one: nat, v: nat) -> nat {
    (v * v) / exp_sum(xq, one, v, 40)
}

/// `e` squared `k` times in fixed point: `e_{i+1} = floor(e_i^2 / one)`.
pub open spec fn squared(e: nat, one: nat, k: nat) -> nat
    decreases k,
{
    if k == 0 {
        e
    } else {
        let s = squared(e, one, (k - 1) as nat);
        s * s / one
    }
}

/// Fixed-point `exp(-xi)` for `xi = xq / one < 64`, by the doubling
/// reduction `exp(-xi) = exp(-xi / 64)^64`: the reduced argument is kept
/// exactly, the value is computed in the unit `work_scale(one) * one`,
/// squared six times and brought back to unit `one`.
pub open spec fn exp_neg_fixed(xq: nat, one: nat) -> nat {
    let s = work_scale(one);
    let v = s * one;
    squared(exp_neg_unit(xq, one, v), v, 6) / s
}

/// Theorem B closed form `f(xi) = 1 - exp(-xi)`, `xi = n * w / p`, in
/// fixed point with denominator `denom`; exactly `denom` once
/// `xi >= 40`.  Up to [`EXACT_DENOM_LIMIT`] it is the running maximum of
/// the doubling form over the `xi` grid; above, where that maximum would
/// cost time linear in `denom`, it is `1` less the reciprocal-series
/// `exp(-xi)`, which is monotone in itself.
pub open spec fn f_two_term_spec(n: nat, w: nat, p: nat, denom: nat) -> nat {
    let xq = xi_fixed(n, w, p, denom);
    if xq >= 40 * denom {
        denom
    } else if denom <= EXACT_DENOM_LIMIT {
        doubling_max(xq, denom)
    } else {
        let e = exp_neg_fixed(xq, denom);
        if e <= denom {
            (denom - e) as nat
        } else {
            0
        }
    }
}

/// `q = floor(t * x / (u * j))` satisfies `q * j <= t` when `x <= u`.
pub(crate) proof fn lemma_term_shrinks(t: nat, x: nat, u: nat, j: nat)
    requires
        x <= u,
        u > 0,
        j >= 1,
    ensures
        (t * x / (u * j)) * j <= t,
{
    let d = u * j;
    assert(d > 0) by (nonlinear_arith)
        requires
            d == u * j,
            u > 0,
            j >= 1,
    ;
    let q = t * x / d;
    lemma_fundamental_div_mod((t * x) as int, d as int);
    assert(q * j <= t) by (nonlinear_arith)
        requires
            q * d <= t * x,
            d == u * j,
            x <= u,
            u > 0,
            q >= 0,
    ;
}

proof fn lemma_exp_term_monotone(x1: nat, x2: nat, one: nat, v: nat, j: nat)
    requires
        x1 <= x2,
        one > 0,
    ensures
        exp_term(x1, one, v, j) <= exp_term(x2, one, v, j),
    decreases j,
{
    if j > 0 {
        lemma_exp_term_monotone(x1, x2, one, v, (j - 1) as nat);
        let a1 = exp_term(x1, one, v, (j - 1) as nat);
        let a2 = exp_term(x2, one, v, (j - 1) as nat);
        assert(a1 * x1 <= a2 * x2) by (nonlinear_arith)
            requires
                a1 <= a2,
                x1 <= x2,
        ;
        assert(64 * one * j > 0) by (nonlinear_arith)
            requires
                one > 0,
                j >= 1,
        ;
        lemma_div_is_ordered((a1 * x1) as int, (a2 * x2) as int, (64 * one * j) as int);
    }
}

proof fn lemma_exp_sum_monotone(x1: nat, x2: nat, one: nat, v: nat, j: nat)
    requires
        x1 <= x2,
        one > 0,
    ensures
        exp_sum(x1, one, v, j) <= exp_sum(x2, one, v, j),
    decreases j,
{
    if j > 0 {
        lemma_exp_sum_monotone(x1, x2, one, v, (j - 1) as nat);
        lemma_exp_term_monotone(x1, x2, one, v, (j - 1) as nat);
    }
}

proof fn lemma_exp_sum_ge_unit(xq: nat, one: nat, v: nat, j: nat)
    requires
        j >= 1,
    ensures
        exp_sum(xq, one, v, j) >= v,
    decreases j,
{
    if j > 1 {
        lemma_exp_sum_ge_unit(xq, one, v, (j - 1) as nat);
    }
}

/// Once a term vanishes, every later term vanishes and the sum stops.
proof fn lemma_exp_terms_vanish(xq: nat, one: nat, v: nat, j: nat, m: nat)
    requires
        one > 0,
        exp_term(xq, one, v, j) == 0,
        j <= m,
    ensures
        exp_term(xq, one, v, m) == 0,
        exp_sum(xq, one, v, m + 1) == exp_sum(xq, one, v, j),
    decreases m - j,
{
    if j < m {
        lemma_exp_terms_vanish(xq, one, v, j, (m - 1) as nat);
        assert(64 * one * m > 0) by (nonlinear_arith)
            requires
                one > 0,
                m >= 1,
        ;
        vstd::arithmetic::div_mod::lemma_div_of0((64 * one * m) as int);
        assert(exp_term(xq, one, v, m) == 0);
    }
    assert(exp_sum(xq, one, v, m + 1) == exp_sum(xq, one, v, m));
}

pub(crate) proof fn lemma_square_step(s: nat, one: nat)
    requires
        s <= one,
        one > 0,
    ensures
        s * s / one <= s,
{
    assert(s * s <= s * one) by (nonlinear_arith)
        requires
            s <= one,
    ;
    lemma_div_is_ordered((s * s) as int, (s * one) as int, one as int);
    lemma_div_multiples_vanish(s as int, one as int);
    assert(s * one == one * s) by (nonlinear_arith);
}

pub(crate) proof fn lemma_squared_bound(e: nat, one: nat, k: nat)
    requires
        e <= one,
        one > 0,
    ensures
        squared(e, one, k) <= e,
    decreases k,
{
    if k > 0 {
        lemma_squared_bound(e, one, (k - 1) as nat);
        lemma_square_step(squared(e, one, (k - 1) as nat), one);
    }
}

pub(crate) proof fn lemma_squared_monotone(e1: nat, e2: nat, one: nat, k: nat)
    requires
        e1 <= e2,
        one > 0,
    ensures
        squared(e1, one, k) <= squared(e2, one, k),
    decreases k,
{
    if k > 0 {
        lemma_squared_monotone(e1, e2, one, (k - 1) as nat);
        let s1 = squared(e1, one, (k - 1) as nat);
        let s2 = squared(e2, one, (k - 1) as nat);
        assert(s1 * s1 <= s2 * s2) by (nonlinear_arith)
            requires
                s1 <= s2,
        ;
        lemma_div_is_ordered((s1 * s1) as int, (s2 * s2) as int, one as int);
    }
}

proof fn lemma_squared_fixed_point(u: nat, k: nat)
    requires
        u > 0,
    ensures
        squared(u, u, k) == u,
    decreases k,
{
    if k > 0 {
        lemma_squared_fixed_point(u, (k - 1) as nat);
        lemma_div_multiples_vanish(u as int, u as int);
    }
}

/// The fixed-point `exp(-xi)` lies in `[0, one]` and never increases as
/// `xi` grows.
pub proof fn lemma_exp_neg_fixed_bounds(xq1: nat, xq2: nat, one: nat)
    requires
        one > 0,
        xq1 <= xq2,
    ensures
        exp_neg_fixed(xq1, one) <= one,
        exp_neg_fixed(xq2, one) <= exp_neg_fixed(xq1, one),
{
    let s = work_scale(one);
    let v = s * one;
    assert(v > 0 && v / s == one) by (nonlinear_arith)
        requires
            v == s * one,
            s == 64 || s == 1,
            one > 0,
    ;
    lemma_exp_sum_ge_unit(xq1, one, v, 40);
    lemma_exp_sum_ge_unit(xq2, one, v, 40);
    lemma_exp_sum_monotone(xq1, xq2, one, v, 40);
    let s1 = exp_sum(xq1, one, v, 40);
    let s2 = exp_sum(xq2, one, v, 40);
    lemma_div_is_ordered_by_denominator((v * v) as int, v as int, s1 as int);
    lemma_div_is_ordered_by_denominator((v * v) as int, s1 as int, s2 as int);
    lemma_div_multiples_vanish(v as int, v as int);
    let e1 = exp_neg_unit(xq1, one, v);
    let e2 = exp_neg_unit(xq2, one, v);
    assert(e1 <= v);
    lemma_squared_bound(e1, v, 6);
    lemma_squared_monotone(e2, e1, v, 6);
    lemma_div_is_ordered(squared(e2, v, 6) as int, squared(e1, v, 6) as int, s as int);
    lemma_div_is_ordered(squared(e1, v, 6) as int, v as int, s as int);
}

/// Theorem B's prediction never decreases as the load `n * w` grows at a
/// fixed plane width: `f` is monotone non-decreasing in `xi`.
pub proof fn lemma_f_two_term_monotone(n1: nat, w1: nat, n2: nat, w2: nat, p: nat, denom: nat)
    requires
        n1 * w1 <= n2 * w2,
        p > 0,
        denom > 0,
    ensures
        f_two_term_spec(n1, w1, p, denom) <= f_two_term_spec(n2, w2, p, denom),
        f_two_term_spec(n2, w2, p, denom) <= denom,
{
    assert(n1 * w1 * denom <= n2 * w2 * denom) by (nonlinear_arith)
        requires
            n1 * w1 <= n2 * w2,
    ;
    lemma_div_is_ordered((n1 * w1 * denom) as int, (n2 * w2 * denom) as int, p as int);
    let xq1 = xi_fixed(n1, w1, p, denom);
    let xq2 = xi_fixed(n2, w2, p, denom);
    lemma_exp_neg_fixed_bounds(xq1, xq2, denom);
    lemma_exp_neg_fixed_bounds(xq2, xq2, denom);
    lemma_doubling_max_monotone(xq1, xq2, denom);
    lemma_bucket_max(xq1, denom);
    lemma_bucket_max(xq2, denom);
}

/// `f(0) = 0`: with no documents or no bit weight there is no collision.
pub proof fn lemma_f_two_term_at_zero(n: nat, w: nat, p: nat, denom: nat)
    requires
        n * w == 0,
        p > 0,
        denom > 0,
    ensures
        f_two_term_spec(n, w, p, denom) == 0,
{
    assert(xi_fixed(n, w, p, denom) == 0) by (nonlinear_arith)
        requires
            n * w == 0,
            p > 0,
    ;
    lemma_doubling_max_at_zero(denom);
    let s = work_scale(denom);
    let v = s * denom;
    assert(v > 0 && v / s == denom && 64 * denom * 1 > 0) by (nonlinear_arith)
        requires
            v == s * denom,
            s == 64 || s == 1,
            denom > 0,
    ;
    vstd::arithmetic::div_mod::lemma_div_of0((64 * denom * 1) as int);
    assert(exp_term(0, denom, v, 1) == 0);
    lemma_exp_terms_vanish(0, denom, v, 1, 39);
    reveal_with_fuel(exp_sum, 2);
    lemma_div_multiples_vanish(v as int, v as int);
    assert(exp_neg_unit(0, denom, v) == v);
    lemma_squared_fixed_point(v, 6);
}

/// Up to [`EXACT_DENOM_LIMIT`] the prediction is never below the doubling
/// form at the same `xi`, and equals it wherever the doubling form has not
/// dipped below an earlier value.
pub proof fn lemma_f_two_term_follows_doubling(n: nat, w: nat, p: nat, denom: nat)
    requires
        p > 0,
        1 <= denom <= EXACT_DENOM_LIMIT,
        xi_fixed(n, w, p, denom) < 40 * denom,
    ensures
        doubling_value(xi_fixed(n, w, p, denom), denom) <= f_two_term_spec(n, w, p, denom),
        (forall|z: nat|
            z <= xi_fixed(n, w, p, denom) ==> #[trigger] doubling_value(z, denom) <= doubling_value(
                xi_fixed(n, w, p, denom),
                denom,
            )) ==> f_two_term_spec(n, w, p, denom) == doubling_value(xi_fixed(n, w, p, denom), denom),
{
    let xq = xi_fixed(n, w, p, denom);
    lemma_doubling_max_least(xq, denom, doubling_value(xq, denom));
}

/// One series step computed without forming `t * xq`: with
/// `xq = 64 a + b`, `floor(t * xq / (64 d)) = floor((t a + floor(t b / 64)) / d)`.
proof fn lemma_split_step(t: nat, xq: nat, one: nat, j: nat)
    requires
        one > 0,
        j >= 1,
    ensures
        (t * (xq / 64) + (t * (xq % 64)) / 64) / (one * j) == t * xq / (64 * one * j),
{
    let a = xq / 64;
    let b = xq % 64;
    lemma_fundamental_div_mod(xq as int, 64);
    let r = (t * b) % 64;
    lemma_fundamental_div_mod((t * b) as int, 64);
    vstd::arithmetic::div_mod::lemma_mod_bound((t * b) as int, 64);
    assert(t * xq == 64 * (t * a + (t * b) / 64) + r) by (nonlinear_arith)
        requires
            xq == 64 * a + b,
            t * b == 64 * ((t * b) / 64) + r,
    ;
    vstd::arithmetic::div_mod::lemma_fundamental_div_mod_converse(
        (t * xq) as int,
        64,
        (t * a + (t * b) / 64) as int,
        r as int,
    );
    assert(one * j > 0) by (nonlinear_arith)
        requires
            one > 0,
            j >= 1,
    ;
    vstd::arithmetic::div_mod::lemma_div_denominator((t * xq) as int, 64, (one * j) as int);
    assert(64 * (one * j) == 64 * one * j) by (nonlinear_arith);
}

/// Theorem B closed-form scaling `f(xi) = 1 - exp(-xi)` with
/// `xi = n * w / p`, as a fixed-point integer with denominator `denom`.
///
/// Up to [`EXACT_DENOM_LIMIT`]: the doubling reduction
/// `exp(-xi) = exp(-xi / 2^k)^(2^k)` halves the argument into `[0, 1]`,
/// where the alternating Taylor series (terms rounded toward zero) is
/// summed and then squared back `k` times.  Rounding makes that value dip
/// in places as `xi` grows, so the result is its running maximum over the
/// `xi` grid, which leaves it unchanged wherever it has not dipped.
///
/// Above the limit, where the running maximum would cost time linear in
/// `denom`: `exp(-xi) = exp(-xi / 64)^64`, with the reduced argument kept
/// exactly, the positive Taylor series of `exp(+xi / 64)` and a
/// reciprocal in the unit `64 * denom` (or `denom` when that does not fit
/// a `u64`), squared six times.  Every step is monotone.
///
/// Either way `f` is monotone in `xi`.
pub fn f_two_term(n: usize, w: usize, p: usize, denom: u64) -> (r: u64)
    requires
        p > 0,
        denom > 0,
        n * w * denom <= u128::MAX,
    ensures
        r == f_two_term_spec(n as nat, w as nat, p as nat, denom as nat),
        r <= denom,
        xi_fixed(n as nat, w as nat, p as nat, denom as nat) >= 40 * denom ==> r == denom,
{
    let one: u128 = denom as u128;
    assert((n as int) * (w as int) <= 0xffff_ffff_ffff_ffff * 0xffff_ffff_ffff_ffff)
        by (nonlinear_arith)
        requires
            n <= 0xffff_ffff_ffff_ffffu64,
            w <= 0xffff_ffff_ffff_ffffu64,
    ;
    let xi_q: u128 = ((n as u128) * (w as u128) * one) / (p as u128);
    assert(xi_q == xi_fixed(n as nat, w as nat, p as nat, denom as nat));
    if xi_q >= 40 * one {
        return denom;
    }
    if denom <= EXACT_DENOM_LIMIT {
        return doubling_max_small(xi_q as u64, denom);
    }
    let scale: u128 = if 64 * one <= u64::MAX as u128 {
        64
    } else {
        1
    };
    let v: u128 = scale * one;
    assert(scale == work_scale(denom as nat));
    assert(0 < v <= u64::MAX && v / scale == one) by (nonlinear_arith)
        requires
            v == scale * one,
            scale == 64 ==> 64 * one <= u64::MAX,
            scale == 64 || scale == 1,
            0 < one <= u64::MAX,
    ;
    assert(v * v <= u128::MAX) by (nonlinear_arith)
        requires
            v <= u64::MAX,
    ;
    let a = xi_q / 64;
    let b = xi_q % 64;
    assert(a + 1 <= one && b < 64) by (nonlinear_arith)
        requires
            a == xi_q / 64,
            b == xi_q % 64,
            xi_q < 40 * one,
            one > 0,
    {
        lemma_fundamental_div_mod(xi_q as int, 64);
    }
    assert(v * (a + 1) <= u128::MAX) by (nonlinear_arith)
        requires
            v <= u64::MAX,
            a + 1 <= one,
            one <= u64::MAX,
    ;
    // Taylor series of v * exp(xi / 64): all terms are non-negative.
    let mut term: u128 = v;
    let mut sum: u128 = v;
    let mut j: u128 = 1;
    let ghost xq = xi_q as nat;
    assert(exp_sum(xq, denom as nat, v as nat, 0) == 0);
    assert(exp_sum(xq, denom as nat, v as nat, 1) == v);
    while j < 40
        invariant_except_break
            1 <= j <= 40,
            term == exp_term(xq, denom as nat, v as nat, (j - 1) as nat),
            sum == exp_sum(xq, denom as nat, v as nat, j as nat),
            j == 1 ==> term == v && sum == v,
        invariant
            one == denom,
            one > 0,
            xq == xi_q,
            xi_q < 40 * one,
            a == xi_q / 64,
            b == xi_q % 64,
            b < 64,
            v <= u64::MAX,
            v * (a + 1) <= u128::MAX,
            term <= v,
            sum + term <= 3 * v,
        ensures
            sum == exp_sum(xq, denom as nat, v as nat, 40),
            sum <= 3 * v,
        decreases 40 - j,
    {
        assert(term * a + term <= u128::MAX && term * b <= 64 * term) by (nonlinear_arith)
            requires
                term <= v,
                v * (a + 1) <= u128::MAX,
                b < 64,
        ;
        assert(0 < one * j <= 40 * one) by (nonlinear_arith)
            requires
                one > 0,
                1 <= j <= 40,
        ;
        proof {
            vstd::arithmetic::div_mod::lemma_div_is_ordered((term * b) as int, (64 * term) as int, 64);
            lemma_div_multiples_vanish(term as int, 64);
        }
        let next = (term * a + (term * b) / 64) / (one * j);
        proof {
            lemma_split_step(term as nat, xq, one as nat, j as nat);
            lemma_term_shrinks(term as nat, xq, (64 * one) as nat, j as nat);
            assert(64 * one * j == (64 * one) * j);
        }
        assert(next <= term && (j >= 2 ==> 2 * next <= term)) by (nonlinear_arith)
            requires
                next * j <= term,
                j >= 1,
                next >= 0,
        ;
        if next == 0 {
            proof {
                lemma_exp_terms_vanish(xq, one as nat, v as nat, j as nat, 39);
            }
            break;
        }
        sum = sum + next;
        term = next;
        j = j + 1;
    }
    proof {
        lemma_exp_sum_ge_unit(xq, one as nat, v as nat, 40);
        lemma_div_is_ordered_by_denominator((v * v) as int, v as int, sum as int);
        lemma_div_multiples_vanish(v as int, v as int);
    }
    let mut e: u128 = (v * v) / sum;
    assert(e == exp_neg_unit(xq, one as nat, v as nat));
    let ghost e0 = e as nat;
    proof {
        lemma_squared_bound(e0, v as nat, 6);
    }
    let mut i: u32 = 0;
    while i < 6
        invariant
            i <= 6,
            e == squared(e0, v as nat, i as nat),
            e <= v,
            v > 0,
            v * v <= u128::MAX,
        decreases 6 - i,
    {
        assert(e * e <= v * v) by (nonlinear_arith)
            requires
                e <= v,
        ;
        proof {
            lemma_square_step(e as nat, v as nat);
        }
        e = (e * e) / v;
        i = i + 1;
    }
    let e_neg = e / scale;
    proof {
        vstd::arithmetic::div_mod::lemma_div_is_ordered(e as int, v as int, scale as int);
    }
    (one - e_neg) as u64
}

/// `x` halved (rounding down) while it is at least 2000.
pub open spec fn ln_reduce(x: nat) -> nat
    decreases x,
{
    if x < 2000 {
        x
    } else {
        ln_reduce(x / 2)
    }
}

/// The number of halvings `ln_reduce` performs.
pub open spec fn ln_doublings(x: nat) -> nat
    decreases x,
{
    if x < 2000 {
        0
    } else {
        ln_doublings(x / 2) + 1
    }
}

/// Five-term Taylor approximation of `1000 * ln(1 + y / 1000)`,
/// `y - y^2/2m + y^3/3m^2 - y^4/4m^3 + y^5/5m^4` with `m = 1000`, each
/// term rounded down separately.
pub open spec fn ln_taylor(y: nat) -> int {
    let t1 = y;
    let t2 = (y * y) / 2000;
    let t3 = (y * y * y) / 3_000_000;
    let t4 = (y * y * y * y) / 4_000_000_000;
    let t5 = (y * y * y * y * y) / 5_000_000_000_000;
    t1 + t3 + t5 - t2 - t4
}

/// Largest `ln_taylor(z)` over `z <= y`: the rounded series made
/// non-decreasing.
pub open spec fn ln_taylor_max(y: nat) -> int
    decreases y,
{
    if y == 0 {
        ln_taylor(0)
    } else {
        let prev = ln_taylor_max((y - 1) as nat);
        let v = ln_taylor(y);
        if v > prev {
            v
        } else {
            prev
        }
    }
}

/// `1000 * ln(1 + y / 1000)` for `y` in `[0, 1000)`: the rounded Taylor
/// series, raised to its running maximum where rounding makes it dip, and
/// capped at `693` (`1000 * ln 2`, the value at the next power of two).
pub open spec fn ln_frac(y: nat) -> int {
    let v = ln_taylor_max(y);
    if v > 693 {
        693
    } else {
        v
    }
}

/// Integer `1000 * ln(x / 1000)`: 0 for `x <= 1000`; otherwise
/// `x = 2^k * r` with `r` in `[1000, 2000)` and the result is
/// `693 * k + ln_frac(r - 1000)`.
pub open spec fn ln_milli_spec(x: nat) -> int {
    if x <= 1000 {
        0
    } else {
        693 * ln_doublings(x) + ln_frac((ln_reduce(x) - 1000) as nat)
    }
}

proof fn lemma_ln_reduce(x: nat)
    requires
        x >= 1000,
    ensures
        1000 <= ln_reduce(x) < 2000,
        pow2(ln_doublings(x)) * ln_reduce(x) <= x,
    decreases x,
{
    if x >= 2000 {
        lemma_ln_reduce(x / 2);
        let k = ln_doublings(x / 2);
        lemma_pow2_unfold(k + 1);
        assert(pow2(k + 1) * ln_reduce(x / 2) <= x) by (nonlinear_arith)
            requires
                pow2(k + 1) == 2 * pow2(k),
                pow2(k) * ln_reduce(x / 2) <= x / 2,
                x >= 0,
        {
            vstd::arithmetic::div_mod::lemma_fundamental_div_mod(x as int, 2);
        }
        assert(ln_doublings(x) == k + 1);
        assert(ln_reduce(x) == ln_reduce(x / 2));
    } else {
        lemma2_to64();
        assert(ln_doublings(x) == 0);
    }
}

/// The separately rounded terms of `ln_taylor`: the subtracted ones never
/// exceed `y`, so the value lies in `[0, 2000)`.
proof fn lemma_ln_taylor_bounds(y: nat)
    requires
        y < 1000,
    ensures
        (y * y) / 2000 + (y * y * y * y) / 4_000_000_000 <= y,
        (y * y * y) / 3_000_000 <= y,
        (y * y * y * y * y) / 5_000_000_000_000 <= y,
        0 <= ln_taylor(y) < 3000,
{
    assert(y * y <= y * 1000) by (nonlinear_arith)
        requires
            y < 1000,
    ;
    lemma_div_is_ordered((y * y) as int, (y * 1000) as int, 2000);
    assert((y * 1000) / 2000 == y / 2) by (nonlinear_arith);
    assert(y * y * y * y <= y * 1_000_000_000) by (nonlinear_arith)
        requires
            y < 1000,
    ;
    lemma_div_is_ordered((y * y * y * y) as int, (y * 1_000_000_000) as int, 4_000_000_000);
    assert((y * 1_000_000_000) / 4_000_000_000 == y / 4) by (nonlinear_arith);
    assert(y * y * y <= y * 1_000_000) by (nonlinear_arith)
        requires
            y < 1000,
    ;
    lemma_div_is_ordered((y * y * y) as int, (y * 1_000_000) as int, 3_000_000);
    assert((y * 1_000_000) / 3_000_000 == y / 3) by (nonlinear_arith);
    assert(y * y * y * y * y <= y * 1_000_000_000_000) by (nonlinear_arith)
        requires
            y < 1000,
    ;
    lemma_div_is_ordered(
        (y * y * y * y * y) as int,
        (y * 1_000_000_000_000) as int,
        5_000_000_000_000,
    );
    assert((y * 1_000_000_000_000) / 5_000_000_000_000 == y / 5) by (nonlinear_arith);
}

proof fn lemma_ln_taylor_zero()
    ensures
        ln_taylor(0) == 0,
        ln_taylor_max(0) == 0,
        ln_frac(0) == 0,
{
    assert(0nat * 0 == 0 && 0nat * 0 * 0 == 0 && 0nat * 0 * 0 * 0 == 0 && 0nat * 0 * 0 * 0 * 0
        == 0) by (nonlinear_arith);
}

/// The running maximum is non-negative and non-decreasing.
pub proof fn lemma_ln_taylor_max_monotone(y1: nat, y2: nat)
    requires
        y1 <= y2,
    ensures
        0 <= ln_taylor_max(y1) <= ln_taylor_max(y2),
    decreases y2,
{
    if y2 == 0 {
        lemma_ln_taylor_zero();
    } else if y1 == y2 {
        lemma_ln_taylor_max_monotone((y2 - 1) as nat, (y2 - 1) as nat);
    } else {
        lemma_ln_taylor_max_monotone(y1, (y2 - 1) as nat);
    }
}

proof fn lemma_ln_frac_bounds(y: nat)
    requires
        y < 1000,
    ensures
        0 <= ln_frac(y) <= 693,
{
    lemma_ln_taylor_max_monotone(y, y);
}

/// `ln_taylor(y)` for `y < 1000`, with each term rounded down.
fn ln_taylor_at(y: u64) -> (r: u64)
    requires
        y < 1000,
    ensures
        r == ln_taylor(y as nat),
{
    let y = y as u128;
    proof {
        lemma_ln_taylor_bounds(y as nat);
    }
    assert(y * y <= 1_000_000 && y * y * y <= 1_000_000_000 && y * y * y * y
        <= 1_000_000_000_000 && y * y * y * y * y <= 1_000_000_000_000_000) by (nonlinear_arith)
        requires
            y < 1000,
    ;
    let m: u128 = 1000;
    let t1 = y;
    let t2 = (y * y) / (2u128 * m);
    let t3 = (y * y * y) / (3u128 * m * m);
    let t4 = (y * y * y * y) / (4u128 * m * m * m);
    let t5 = (y * y * y * y * y) / (5u128 * m * m * m * m);
    let frac = t1 + t3 + t5 - t2 - t4;
    frac as u64
}

/// `1000 * ln(x / 1000)` for `x >= 1`, integer-only and monotone: write
/// `x = 2^k * r` with `r` in `[1000, 2000)`, then
/// `ln(x) = k * ln 2 + ln(r)` with a five-term Taylor series for `ln(r)`
/// (each term rounded down), raised to its running maximum where rounding
/// makes it dip and capped at `ln 2`.
pub fn ln_milli(x_milli: u64) -> (r: u64)
    ensures
        r == ln_milli_spec(x_milli as nat),
        r <= 64 * 693 + 693,
{
    if x_milli <= 1000 {
        return 0;
    }
    let mut x = x_milli;
    let mut k: u64 = 0;
    proof {
        lemma_ln_reduce(x_milli as nat);
        lemma2_to64();
        if ln_doublings(x_milli as nat) >= 64 {
            if ln_doublings(x_milli as nat) > 64 {
                lemma_pow2_strictly_increases(64, ln_doublings(x_milli as nat));
            }
            assert(pow2(ln_doublings(x_milli as nat)) * ln_reduce(x_milli as nat) >= pow2(64)
                * 1000) by (nonlinear_arith)
                requires
                    pow2(ln_doublings(x_milli as nat)) >= pow2(64),
                    ln_reduce(x_milli as nat) >= 1000,
            ;
        }
    }
    while x >= 2000
        invariant
            ln_reduce(x as nat) == ln_reduce(x_milli as nat),
            ln_doublings(x_milli as nat) == ln_doublings(x as nat) + k,
            ln_doublings(x_milli as nat) < 64,
            x >= 1000,
        decreases x,
    {
        x = x / 2;
        k = k + 1;
    }
    let y: u64 = x - 1000;
    proof {
        lemma_ln_frac_bounds(y as nat);
        lemma_ln_taylor_zero();
    }
    let mut best: u64 = 0;
    let mut z: u64 = 1;
    while z <= y
        invariant
            1 <= z <= y + 1,
            y < 1000,
            best == ln_taylor_max((z - 1) as nat),
        decreases y + 1 - z,
    {
        proof {
            lemma_ln_taylor_bounds(z as nat);
        }
        let v = ln_taylor_at(z);
        if v > best {
            best = v;
        }
        z = z + 1;
    }
    let frac: u64 = if best > 693 {
        693
    } else {
        best
    };
    k * 693 + frac
}

proof fn lemma_ln_step(x: nat)
    requires
        x >= 2000,
    ensures
        ln_milli_spec(x) == 693 + ln_milli_spec(x / 2),
{
    assert(ln_doublings(x) == ln_doublings(x / 2) + 1);
    assert(ln_reduce(x) == ln_reduce(x / 2));
    if x / 2 == 1000 {
        assert(ln_doublings(1000) == 0);
        assert(ln_reduce(1000) == 1000);
        lemma_ln_taylor_zero();
    }
}

proof fn lemma_ln_small(x: nat)
    requires
        1000 <= x < 2000,
    ensures
        ln_milli_spec(x) == ln_frac((x - 1000) as nat),
        0 <= ln_milli_spec(x) <= 693,
{
    lemma_ln_frac_bounds((x - 1000) as nat);
    if x == 1000 {
        lemma_ln_taylor_zero();
    }
}

proof fn lemma_ln_nonneg(x: nat)
    ensures
        ln_milli_spec(x) >= 0,
    decreases x,
{
    if x >= 2000 {
        lemma_ln_step(x);
        lemma_ln_nonneg(x / 2);
    } else if x > 1000 {
        lemma_ln_small(x);
    }
}

/// The integer logarithm is monotone non-decreasing.
pub proof fn lemma_ln_milli_monotone(x1: nat, x2: nat)
    requires
        x1 <= x2,
    ensures
        ln_milli_spec(x1) <= ln_milli_spec(x2),
    decreases x2,
{
    lemma_ln_nonneg(x2);
    if x1 <= 1000 {
    } else if x1 >= 2000 {
        lemma_ln_step(x1);
        lemma_ln_step(x2);
        lemma_ln_milli_monotone(x1 / 2, x2 / 2);
    } else if x2 >= 2000 {
        lemma_ln_small(x1);
        lemma_ln_step(x2);
        lemma_ln_nonneg(x2 / 2);
    } else {
        lemma_ln_small(x1);
        lemma_ln_small(x2);
        lemma_ln_taylor_max_monotone((x1 - 1000) as nat, (x2 - 1000) as nat);
    }
}

/// The F2 Johnson-Lindenstrauss lower bound on the projection dimension,
/// `ceil((ln n + ln(1 / delta)) / eps^2)` with every quantity in
/// thousandths; `u64::MAX` when `eps^2` rounds to zero thousandths.
pub open spec fn jl_bound_spec(n: nat, eps_milli: nat, delta_milli: nat) -> int {
    let num = ln_milli_spec(n * 1000) + ln_milli_spec(1_000_000nat / delta_milli);
    let den = (eps_milli * eps_milli) / 1000;
    if den == 0 {
        u64::MAX as int
    } else {
        (num + den - 1) / (den as int)
    }
}

/// F2 Johnson-Lindenstrauss lower bound: the minimum projection dimension
/// preserving pairwise AND-popcount distances within `1 +- eps` for `n`
/// items with failure probability `delta`.  `eps` and `delta` are given
/// in thousandths.
pub fn jl_bound_f2(n: usize, eps_milli: u64, delta_milli: u64) -> (r: u64)
    requires
        n > 1,
        eps_milli > 0,
        0 < delta_milli < 1000,
        n * 1000 <= u64::MAX,
        eps_milli * eps_milli <= u64::MAX,
    ensures
        r == jl_bound_spec(n as nat, eps_milli as nat, delta_milli as nat),
{
    let log_n_milli = ln_milli(n as u64 * 1000);
    let log_inv_delta_milli = ln_milli((1000 * 1000) / delta_milli);
    let combined = log_n_milli + log_inv_delta_milli;
    let num = combined;
    let den_milli = (eps_milli * eps_milli) / 1000;
    if den_milli == 0 {
        return u64::MAX;
    }
    assert(den_milli <= u64::MAX / 1000) by (nonlinear_arith)
        requires
            den_milli == (eps_milli * eps_milli) / 1000,
            eps_milli * eps_milli <= u64::MAX,
    ;
    (num + den_milli - 1) / den_milli
}

/// The JL bound never decreases as the number of items grows.
pub proof fn lemma_jl_bound_monotone_in_n(n1: nat, n2: nat, eps_milli: nat, delta_milli: nat)
    requires
        n1 <= n2,
    ensures
        jl_bound_spec(n1, eps_milli, delta_milli) <= jl_bound_spec(n2, eps_milli, delta_milli),
{
    assert(n1 * 1000 <= n2 * 1000);
    lemma_ln_milli_monotone(n1 * 1000, n2 * 1000);
    lemma_ln_nonneg(n1 * 1000);
    lemma_ln_nonneg(1_000_000nat / delta_milli);
    let den = (eps_milli * eps_milli) / 1000;
    if den != 0 {
        let c = ln_milli_spec(1_000_000nat / delta_milli) + den - 1;
        lemma_div_is_ordered(
            ln_milli_spec(n1 * 1000) + c,
            ln_milli_spec(n2 * 1000) + c,
            den as int,
        );
    }
}

/// The JL bound grows as the failure probability shrinks: a smaller
/// `delta` never asks for fewer dimensions.
pub proof fn lemma_jl_bound_antitone_in_delta(n: nat, eps_milli: nat, delta1: nat, delta2: nat)
    requires
        0 < delta1 <= delta2,
    ensures
        jl_bound_spec(n, eps_milli, delta2) <= jl_bound_spec(n, eps_milli, delta1),
{
    lemma_div_is_ordered_by_denominator(1_000_000int, delta1 as int, delta2 as int);
    let x1 = 1_000_000nat / delta1;
    let x2 = 1_000_000nat / delta2;
    lemma_ln_milli_monotone(x2, x1);
    lemma_ln_nonneg(n * 1000);
    lemma_ln_nonneg(x2);
    let den = (eps_milli * eps_milli) / 1000;
    if den != 0 {
        let c = ln_milli_spec(n * 1000) + den - 1;
        lemma_div_is_ordered(
            ln_milli_spec(x2) + c,
            ln_milli_spec(x1) + c,
            den as int,
        );
    }
}

/// The JL bound is the ceiling of `(ln n + ln(1 / delta)) / eps^2` with
/// the integer `ln` in thousandths: the smallest `d` with
/// `d * eps^2 >= ln_milli(1000 n) + ln_milli(10^6 / delta)`; and
/// `u64::MAX` when `eps^2` rounds to zero thousandths.
pub proof fn lemma_jl_bound_is_ceiling(n: nat, eps_milli: nat, delta_milli: nat)
    requires
        delta_milli > 0,
    ensures
        (eps_milli * eps_milli) / 1000 == 0 ==> jl_bound_spec(n, eps_milli, delta_milli) == u64::MAX,
        (eps_milli * eps_milli) / 1000 > 0 ==> ({
            let r = jl_bound_spec(n, eps_milli, delta_milli);
            let den = (eps_milli * eps_milli) / 1000;
            let num = ln_milli_spec(n * 1000) + ln_milli_spec(1_000_000nat / delta_milli);
            &&& r >= 0
            &&& r * den >= num
            &&& (r - 1) * den < num
        }),
{
    let den = (eps_milli * eps_milli) / 1000;
    lemma_ln_nonneg(n * 1000);
    lemma_ln_nonneg(1_000_000nat / delta_milli);
    if den > 0 {
        let num = ln_milli_spec(n * 1000) + ln_milli_spec(1_000_000nat / delta_milli);
        let r = (num + den - 1) / (den as int);
        vstd::arithmetic::div_mod::lemma_fundamental_div_mod(num + den - 1, den as int);
        vstd::arithmetic::div_mod::lemma_mod_bound(num + den - 1, den as int);
        assert(r >= 0 && r * den >= num && (r - 1) * den < num) by (nonlinear_arith)
            requires
                num >= 0,
                den > 0,
                num + den - 1 == den * r + (num + den - 1) % (den as int),
                0 <= (num + den - 1) % (den as int) < den,
        ;
    }
}

} // verus!
