//! The doubling form of `exp(-xi)` in fixed point: halve the argument
//! into `[0, 1]`, sum the alternating Taylor series there with every term
//! rounded toward zero, and square the result back once per halving.
//! Rounding makes this value dip in places as `xi` grows, so the scaling
//! function takes its running maximum over the `xi` grid, which this
//! module computes bucket by bucket in one pass over the reduced
//! arguments.

use vstd::prelude::*;
use crate::fixed_point::{
    squared, lemma_squared_bound, lemma_squared_monotone, lemma_square_step, lemma_term_shrinks,
};

verus! {

/// Largest denominator for which the running maximum is computed; the
/// pass over the reduced arguments costs time linear in the denominator.
pub const EXACT_DENOM_LIMIT: u64 = 1048576;

/// The larger of two naturals.
pub open spec fn nat_max(a: nat, b: nat) -> nat {
    if a >= b {
        a
    } else {
        b
    }
}

/// The smaller of two naturals.
pub open spec fn nat_min(a: nat, b: nat) -> nat {
    if a <= b {
        a
    } else {
        b
    }
}

/// `one - e`, or `0` when `e > one`.
pub open spec fn one_minus(one: nat, e: nat) -> nat {
    if e <= one {
        (one - e) as nat
    } else {
        0
    }
}

/// Magnitude of the `j`-th Taylor term of `exp(-x / one)` in unit `one`:
/// `a_0 = one`, `a_j = floor(a_{j-1} * x / (one * j))`.
pub open spec fn neg_term(x: nat, one: nat, j: nat) -> nat
    decreases j,
{
    if j == 0 {
        one
    } else {
        neg_term(x, one, (j - 1) as nat) * x / (one * j)
    }
}

/// Alternating sum of the first `j` terms, `a_0 - a_1 + a_2 - ...`.
pub open spec fn neg_sum(x: nat, one: nat, j: nat) -> int
    decreases j,
{
    if j == 0 {
        0
    } else if (j - 1) % 2 == 0 {
        neg_sum(x, one, (j - 1) as nat) + neg_term(x, one, (j - 1) as nat)
    } else {
        neg_sum(x, one, (j - 1) as nat) - neg_term(x, one, (j - 1) as nat)
    }
}

/// The 40-term series for `exp(-x / one)` in unit `one`, clamped at `0`.
pub open spec fn taylor_exp_neg(x: nat, one: nat) -> nat {
    let s = neg_sum(x, one, 40);
    if s > 0 {
        s as nat
    } else {
        0
    }
}

/// How many times `xq` is halved (rounding down) before it is at most `one`.
pub open spec fn halvings(xq: nat, one: nat) -> nat
    decreases xq,
{
    if xq > one {
        1 + halvings(xq / 2, one)
    } else {
        0
    }
}

/// `xq` halved (rounding down) until it is at most `one`.
pub open spec fn halved(xq: nat, one: nat) -> nat
    decreases xq,
{
    if xq > one {
        halved(xq / 2, one)
    } else {
        xq
    }
}

/// `1 - exp(-xi)` by the doubling form, `xi = xq / one`, in unit `one`:
/// the series at the halved argument, squared once per halving; exactly
/// `one` once `xi >= 40`.
pub open spec fn doubling_value(xq: nat, one: nat) -> nat {
    if xq >= 40 * one {
        one
    } else {
        one_minus(one, squared(taylor_exp_neg(halved(xq, one), one), one, halvings(xq, one)))
    }
}

/// Running maximum of [`doubling_value`] over `0, 1, ..., xq`.
pub open spec fn doubling_max(xq: nat, one: nat) -> nat
    decreases xq,
{
    if xq == 0 {
        doubling_value(0, one)
    } else {
        nat_max(doubling_max((xq - 1) as nat, one), doubling_value(xq, one))
    }
}

/// Smallest series value over the reduced arguments `lo ..= x`.
pub open spec fn series_min(lo: nat, x: nat, one: nat) -> nat
    decreases x,
{
    if x <= lo {
        taylor_exp_neg(lo, one)
    } else {
        nat_min(series_min(lo, (x - 1) as nat, one), taylor_exp_neg(x, one))
    }
}

/// Largest value over the buckets `1 .. k` (halved `j` times), each at its
/// smallest series value `m`.
pub open spec fn upper_buckets(m: nat, one: nat, k: nat) -> nat
    decreases k,
{
    if k <= 1 {
        0
    } else {
        nat_max(upper_buckets(m, one, (k - 1) as nat), one_minus(one, squared(m, one, (k - 1) as nat)))
    }
}

/// Bottom of the reduced range once the argument has been halved.
pub open spec fn half_unit(one: nat) -> nat {
    (one + 1) / 2
}

/// [`doubling_max`] bucket by bucket: the unhalved bucket in full, the
/// buckets halved fewer times than `xq` in full, and `xq`'s own bucket up
/// to its reduced argument.
pub open spec fn bucket_max(xq: nat, one: nat) -> nat {
    if xq >= 40 * one {
        one
    } else {
        let k = halvings(xq, one);
        let x = halved(xq, one);
        if k == 0 {
            one_minus(one, series_min(0, x, one))
        } else {
            let lo = half_unit(one);
            nat_max(
                nat_max(
                    one_minus(one, series_min(0, one, one)),
                    upper_buckets(series_min(lo, one, one), one, k),
                ),
                one_minus(one, squared(series_min(lo, x, one), one, k)),
            )
        }
    }
}

/// Halving two neighbouring arguments keeps them in one bucket with
/// neighbouring reduced arguments, or moves the larger one to the next
/// bucket exactly when the smaller one reduces to `one`.
proof fn lemma_halving_step(a: nat, b: nat, one: nat)
    requires
        one >= 1,
        a <= b <= a + 1,
    ensures
        (halvings(b, one) == halvings(a, one) && halved(a, one) <= halved(b, one) <= halved(a, one) + 1)
            || (halvings(b, one) == halvings(a, one) + 1 && halved(a, one) == one && halved(b, one)
            == half_unit(one)),
    decreases a,
{
    if b <= one {
    } else if a <= one {
        assert(a == one && b == one + 1);
        assert(b / 2 <= one);
        assert(halvings(b / 2, one) == 0);
        assert(halved(b / 2, one) == b / 2);
        assert(halved(b, one) == half_unit(one));
        assert(halvings(b, one) == 1);
    } else {
        assert(a / 2 <= b / 2 <= a / 2 + 1);
        lemma_halving_step(a / 2, b / 2, one);
        assert(halvings(a, one) == 1 + halvings(a / 2, one));
        assert(halvings(b, one) == 1 + halvings(b / 2, one));
        assert(halved(a, one) == halved(a / 2, one));
        assert(halved(b, one) == halved(b / 2, one));
    }
}

/// The reduced argument lies in `[0, one]`, and in `[half_unit, one]` once
/// the argument has been halved at least once.
proof fn lemma_halved_range(xq: nat, one: nat)
    requires
        one >= 1,
    ensures
        halved(xq, one) <= one,
        halvings(xq, one) == 0 ==> halved(xq, one) == xq,
        halvings(xq, one) >= 1 ==> half_unit(one) <= halved(xq, one),
    decreases xq,
{
    if xq > one {
        lemma_halved_range(xq / 2, one);
    }
}

proof fn lemma_one_minus_antitone(one: nat, e1: nat, e2: nat)
    requires
        e1 <= e2,
    ensures
        one_minus(one, e2) <= one_minus(one, e1),
{
}

proof fn lemma_one_minus_min(one: nat, e1: nat, e2: nat)
    ensures
        one_minus(one, nat_min(e1, e2)) == nat_max(one_minus(one, e1), one_minus(one, e2)),
{
}

/// Squaring commutes with the minimum.
proof fn lemma_squared_min(e1: nat, e2: nat, one: nat, k: nat)
    requires
        one > 0,
    ensures
        squared(nat_min(e1, e2), one, k) == nat_min(squared(e1, one, k), squared(e2, one, k)),
{
    if e1 <= e2 {
        lemma_squared_monotone(e1, e2, one, k);
    } else {
        lemma_squared_monotone(e2, e1, one, k);
    }
}

/// The running minimum is at most the series at every argument it covers.
proof fn lemma_series_min_le(lo: nat, x: nat, z: nat, one: nat)
    requires
        lo <= z <= x,
    ensures
        series_min(lo, x, one) <= taylor_exp_neg(z, one),
    decreases x,
{
    if x > lo && z < x {
        lemma_series_min_le(lo, (x - 1) as nat, z, one);
    }
}

/// The bucket form equals the running maximum.
pub proof fn lemma_bucket_max(xq: nat, one: nat)
    requires
        one >= 1,
    ensures
        bucket_max(xq, one) == doubling_max(xq, one),
        doubling_max(xq, one) <= one,
    decreases xq,
{
    if xq == 0 {
        assert(halvings(0, one) == 0);
        assert(halved(0, one) == 0);
        assert(squared(taylor_exp_neg(0, one), one, 0) == taylor_exp_neg(0, one));
    } else {
        let a = (xq - 1) as nat;
        lemma_bucket_max(a, one);
        if xq >= 40 * one {
        } else {
            lemma_halving_step(a, xq, one);
            lemma_halved_range(a, one);
            lemma_halved_range(xq, one);
            let ka = halvings(a, one);
            let kb = halvings(xq, one);
            let xa = halved(a, one);
            let xb = halved(xq, one);
            let lo = half_unit(one);
            let t = taylor_exp_neg(xb, one);
            if kb == ka {
                if kb == 0 {
                    assert(xb == xa + 1);
                    lemma_one_minus_min(one, series_min(0, xa, one), t);
                    assert(squared(t, one, 0) == t);
                } else {
                    if xb == xa {
                        let m = series_min(lo, xa, one);
                        lemma_series_min_le(lo, xa, xa, one);
                        lemma_squared_monotone(m, t, one, kb);
                        lemma_one_minus_antitone(one, squared(m, one, kb), squared(t, one, kb));
                    } else {
                        assert(xb == xa + 1);
                        assert(xb > lo);
                        let m = series_min(lo, xa, one);
                        lemma_squared_min(m, t, one, kb);
                        let sm = squared(m, one, kb);
                        let st = squared(t, one, kb);
                        lemma_one_minus_min(one, sm, st);
                    }
                }
            } else {
                assert(xb == lo);
                assert(series_min(lo, lo, one) == taylor_exp_neg(lo, one));
                if ka == 0 {
                    assert(upper_buckets(series_min(lo, one, one), one, 1) == 0);
                } else {
                    assert(upper_buckets(series_min(lo, one, one), one, kb) == nat_max(
                        upper_buckets(series_min(lo, one, one), one, ka),
                        one_minus(one, squared(series_min(lo, one, one), one, ka)),
                    ));
                }
            }
        }
    }
}

/// The running maximum never decreases.
pub proof fn lemma_doubling_max_monotone(x1: nat, x2: nat, one: nat)
    requires
        x1 <= x2,
    ensures
        doubling_max(x1, one) <= doubling_max(x2, one),
    decreases x2,
{
    if x1 < x2 {
        lemma_doubling_max_monotone(x1, (x2 - 1) as nat, one);
    }
}

/// The running maximum is the smallest bound on the doubling values up
/// to `xq`: it is at least the value at `xq`, and it stays at or below
/// any `c` that bounds every value up to `xq`.
pub proof fn lemma_doubling_max_least(xq: nat, one: nat, c: nat)
    ensures
        doubling_value(xq, one) <= doubling_max(xq, one),
        (forall|z: nat| z <= xq ==> #[trigger] doubling_value(z, one) <= c) ==> doubling_max(xq, one) <= c,
    decreases xq,
{
    if xq > 0 {
        lemma_doubling_max_least((xq - 1) as nat, one, c);
        if forall|z: nat| z <= xq ==> #[trigger] doubling_value(z, one) <= c {
            assert(forall|z: nat| z <= (xq - 1) as nat ==> #[trigger] doubling_value(z, one) <= c);
            assert(doubling_value(xq, one) <= c);
        }
    } else {
        if forall|z: nat| z <= xq ==> #[trigger] doubling_value(z, one) <= c {
            assert(doubling_value(0, one) <= c);
        }
    }
}

/// At `xi = 0` the series is exactly `one`, so the value is `0`.
pub proof fn lemma_doubling_max_at_zero(one: nat)
    requires
        one >= 1,
    ensures
        doubling_max(0, one) == 0,
{
    assert(neg_term(0, one, 0) == one);
    vstd::arithmetic::div_mod::lemma_div_of0((one * 1) as int);
    assert(one * 1 > 0);
    assert(neg_term(0, one, 1) == 0);
    lemma_neg_terms_vanish(0, one, 1, 39);
    assert(neg_sum(0, one, 0) == 0);
    assert(neg_sum(0, one, 1) == one);
    assert(taylor_exp_neg(0, one) == one);
    assert(halvings(0, one) == 0);
    assert(halved(0, one) == 0);
    assert(squared(one, one, 0) == one);
}

/// Once a term vanishes, every later term vanishes and the sum stops.
proof fn lemma_neg_terms_vanish(x: nat, one: nat, j: nat, m: nat)
    requires
        one > 0,
        neg_term(x, one, j) == 0,
        j <= m,
    ensures
        neg_term(x, one, m) == 0,
        neg_sum(x, one, m + 1) == neg_sum(x, one, j),
    decreases m - j,
{
    if j < m {
        lemma_neg_terms_vanish(x, one, j, (m - 1) as nat);
        assert(one * m > 0) by (nonlinear_arith)
            requires
                one > 0,
                m >= 1,
        ;
        vstd::arithmetic::div_mod::lemma_div_of0((one * m) as int);
        assert(neg_term(x, one, m) == 0);
    }
    assert(neg_sum(x, one, m + 1) == neg_sum(x, one, m));
}

/// Splitting the range of a running minimum.
proof fn lemma_series_min_split(a: nat, b: nat, c: nat, one: nat)
    requires
        a <= b < c,
    ensures
        series_min(a, c, one) == nat_min(series_min(a, b, one), series_min(b + 1, c, one)),
    decreases c,
{
    if c > b + 1 {
        lemma_series_min_split(a, b, (c - 1) as nat, one);
    }
}

/// The series for `exp(-x / one)` at one reduced argument `x <= one`.
/// Every term is at most the one before it, so the alternating partial
/// sums stay in `[0, one]`.
fn taylor_exp_neg_at(x: u64, one: u64) -> (r: u64)
    requires
        1 <= one <= EXACT_DENOM_LIMIT,
        x <= one,
    ensures
        r == taylor_exp_neg(x as nat, one as nat),
        r <= one,
{
    let mut term: u64 = one;
    let mut sum: u64 = one;
    let mut j: u64 = 1;
    assert(neg_sum(x as nat, one as nat, 0) == 0);
    assert(neg_sum(x as nat, one as nat, 1) == one);
    while j < 40
        invariant_except_break
            1 <= j <= 40,
            term == neg_term(x as nat, one as nat, (j - 1) as nat),
            sum == neg_sum(x as nat, one as nat, j as nat),
        invariant
            1 <= one <= EXACT_DENOM_LIMIT,
            x <= one,
            term <= one,
            sum <= one,
            j % 2 == 1 ==> term <= sum,
            j % 2 == 0 ==> sum + term <= one,
        ensures
            sum == neg_sum(x as nat, one as nat, 40),
            sum <= one,
        decreases 40 - j,
    {
        assert(term * x <= 1099511627776 && 0 < one * j <= 41943040) by (nonlinear_arith)
            requires
                term <= one,
                x <= one,
                1 <= one <= 1048576,
                1 <= j <= 40,
        ;
        let next = term * x / (one * j);
        proof {
            lemma_term_shrinks(term as nat, x as nat, one as nat, j as nat);
        }
        assert(next <= term) by (nonlinear_arith)
            requires
                next * j <= term,
                j >= 1,
                next >= 0,
        ;
        if next == 0 {
            proof {
                lemma_neg_terms_vanish(x as nat, one as nat, j as nat, 39);
            }
            break;
        }
        if j % 2 == 1 {
            sum = sum - next;
        } else {
            sum = sum + next;
        }
        term = next;
        j = j + 1;
    }
    sum
}

/// Extends a running minimum `cur` over `lo ..= z0` to `lo ..= hi`.
fn extend_series_min(lo: u64, z0: u64, cur0: u64, hi: u64, one: u64) -> (r: u64)
    requires
        1 <= one <= EXACT_DENOM_LIMIT,
        lo <= z0 <= hi <= one,
        cur0 == series_min(lo as nat, z0 as nat, one as nat),
        cur0 <= one,
    ensures
        r == series_min(lo as nat, hi as nat, one as nat),
        r <= one,
{
    let mut z = z0;
    let mut cur = cur0;
    while z < hi
        invariant
            1 <= one <= EXACT_DENOM_LIMIT,
            lo <= z <= hi <= one,
            cur == series_min(lo as nat, z as nat, one as nat),
            cur <= one,
        decreases hi - z,
    {
        z = z + 1;
        let t = taylor_exp_neg_at(z, one);
        if t < cur {
            cur = t;
        }
    }
    cur
}

/// [`doubling_max`] for a denominator up to [`EXACT_DENOM_LIMIT`]: one
/// pass over the reduced arguments gives the smallest series value of
/// each bucket up to `xq`.
pub fn doubling_max_small(xq: u64, one: u64) -> (r: u64)
    requires
        1 <= one <= EXACT_DENOM_LIMIT,
        xq < 40 * one,
    ensures
        r == doubling_max(xq as nat, one as nat),
        r <= one,
{
    let mut x = xq;
    let mut k: u64 = 0;
    while x > one
        invariant
            1 <= one,
            k + x <= xq,
            halvings(xq as nat, one as nat) == k + halvings(x as nat, one as nat),
            halved(xq as nat, one as nat) == halved(x as nat, one as nat),
        decreases x,
    {
        x = x / 2;
        k = k + 1;
    }
    proof {
        lemma_halved_range(xq as nat, one as nat);
        lemma_bucket_max(xq as nat, one as nat);
    }
    let t0 = taylor_exp_neg_at(0, one);
    if k == 0 {
        let m = extend_series_min(0, 0, t0, x, one);
        return one - m;
    }
    let lo = (one + 1) / 2;
    let m_low = extend_series_min(0, 0, t0, lo - 1, one);
    let t_lo = taylor_exp_neg_at(lo, one);
    let mk = extend_series_min(lo, lo, t_lo, x, one);
    let m1 = extend_series_min(lo, x, mk, one, one);
    let m0 = if m_low < m1 {
        m_low
    } else {
        m1
    };
    proof {
        lemma_series_min_split(0, (lo - 1) as nat, one as nat, one as nat);
        assert(series_min(lo as nat, lo as nat, one as nat) == taylor_exp_neg(lo as nat, one as nat));
    }
    // Buckets halved 1 .. k - 1 times, in full.
    let mut up: u64 = 0;
    let mut s: u64 = m1;
    let mut i: u64 = 1;
    proof {
        lemma_squared_bound(m1 as nat, one as nat, 0);
    }
    while i < k
        invariant
            1 <= one <= EXACT_DENOM_LIMIT,
            1 <= i <= k,
            m1 <= one,
            s == squared(m1 as nat, one as nat, (i - 1) as nat),
            s <= one,
            up == upper_buckets(m1 as nat, one as nat, i as nat),
            up <= one,
        decreases k - i,
    {
        assert(s * s <= 1099511627776) by (nonlinear_arith)
            requires
                s <= one,
                one <= 1048576,
        ;
        proof {
            lemma_square_step(s as nat, one as nat);
        }
        s = s * s / one;
        let cand = one - s;
        if cand > up {
            up = cand;
        }
        i = i + 1;
    }
    // The bucket of `xq`, up to its reduced argument.
    let mut e: u64 = mk;
    let mut i: u64 = 0;
    while i < k
        invariant
            1 <= one <= EXACT_DENOM_LIMIT,
            i <= k,
            mk <= one,
            e == squared(mk as nat, one as nat, i as nat),
            e <= one,
        decreases k - i,
    {
        assert(e * e <= 1099511627776) by (nonlinear_arith)
            requires
                e <= one,
                one <= 1048576,
        ;
        proof {
            lemma_square_step(e as nat, one as nat);
        }
        e = e * e / one;
        i = i + 1;
    }
    let mut best = one - m0;
    if up > best {
        best = up;
    }
    if one - e > best {
        best = one - e;
    }
    best
}

} // verus!
