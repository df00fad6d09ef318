//! Tropical rank bound (Lemma T5) and (max, +) rank-k reconstruction.

use vstd::prelude::*;

verus! {

/// Lemma T5 structural rank upper bound `floor(p / max(xi, 1)) + 1` with
/// `xi = n * w / p`, evaluated exactly: `p + 1` when `n * w < p`, and
/// `floor(p * p / (n * w)) + 1` otherwise.
pub open spec fn k_max_spec(n: u64, w: u64, p: u64) -> int {
    let nw = n as int * w as int;
    if nw < p as int {
        p as int + 1
    } else {
        (p as int * p as int) / nw + 1
    }
}

/// Lemma T5 structural rank upper bound.
pub fn k_max(n: u64, w: u64, p: u64) -> (r: u64)
    requires
        p > 0,
        k_max_spec(n, w, p) <= u64::MAX,
    ensures
        r == k_max_spec(n, w, p),
        1 <= r <= p as int + 1,
{
    assert((n as int) * (w as int) <= 0xffff_ffff_ffff_ffff * 0xffff_ffff_ffff_ffff)
        by (nonlinear_arith)
        requires
            n <= 0xffff_ffff_ffff_ffffu64,
            w <= 0xffff_ffff_ffff_ffffu64,
    ;
    assert((p as int) * (p as int) <= 0xffff_ffff_ffff_ffff * 0xffff_ffff_ffff_ffff)
        by (nonlinear_arith)
        requires
            p <= 0xffff_ffff_ffff_ffffu64,
    ;
    let nw: u128 = (n as u128) * (w as u128);
    if nw < p as u128 {
        p + 1
    } else {
        let pp: u128 = (p as u128) * (p as u128);
        let q: u128 = pp / nw;
        assert(q <= p) by (nonlinear_arith)
            requires
                q == pp / nw,
                pp == p * p,
                nw >= p,
                p > 0,
        {
            vstd::arithmetic::div_mod::lemma_div_is_ordered_by_denominator(pp as int, p as int, nw as int);
            vstd::arithmetic::div_mod::lemma_div_multiples_vanish(p as int, p as int);
        }
        assert(q + 1 <= u64::MAX);
        (q as u64) + 1
    }
}

/// The rank bound never decreases when the plane width grows.
pub proof fn lemma_k_max_monotone_in_p(n: u64, w: u64, p1: u64, p2: u64)
    requires
        0 < p1 <= p2,
    ensures
        k_max_spec(n, w, p1) <= k_max_spec(n, w, p2),
{
    let nw = n as int * w as int;
    if nw >= p2 as int {
        assert(p1 as int * p1 as int <= p2 as int * p2 as int) by (nonlinear_arith)
            requires
                0 < p1 <= p2,
        ;
        vstd::arithmetic::div_mod::lemma_div_is_ordered(p1 as int * p1 as int, p2 as int * p2 as int, nw);
    } else if nw >= p1 as int {
        vstd::arithmetic::div_mod::lemma_div_is_ordered_by_denominator(p1 as int * p1 as int, p1 as int, nw);
        vstd::arithmetic::div_mod::lemma_div_multiples_vanish(p1 as int, p1 as int);
    }
}

/// Saturating `i64` addition.
pub open spec fn sat_add(a: i64, b: i64) -> i64 {
    if a + b > i64::MAX {
        i64::MAX
    } else if a + b < i64::MIN {
        i64::MIN
    } else {
        (a + b) as i64
    }
}

/// Maximum of `i64::MIN` and the candidates `U[i][l] + V[j][l]` (saturating)
/// for `l < bound`, with `U` and `V` row-major with `k` columns.
pub open spec fn trop_best(u: Seq<i64>, v: Seq<i64>, k: nat, i: nat, j: nat, bound: nat) -> i64
    decreases bound,
{
    if bound == 0 {
        i64::MIN
    } else {
        let l = (bound - 1) as nat;
        let prev = trop_best(u, v, k, i, j, l);
        let c = sat_add(u[(i * k + l) as int], v[(j * k + l) as int]);
        if c > prev {
            c
        } else {
            prev
        }
    }
}

/// The row-major `m x n` matrix `S_ij = max_l (U_il + V_jl)`.
pub open spec fn trop_matrix(u: Seq<i64>, v: Seq<i64>, m: nat, n: nat, k: nat) -> Seq<i64> {
    Seq::new(m * n, |idx: int| trop_best(u, v, k, (idx / n as int) as nat, (idx % n as int) as nat, k))
}

fn saturating_add_i64(a: i64, b: i64) -> (r: i64)
    ensures
        r == sat_add(a, b),
{
    match a.checked_add(b) {
        Some(c) => c,
        None => if b > 0 {
            i64::MAX
        } else {
            i64::MIN
        },
    }
}

proof fn lemma_row_major(i: int, j: int, n: int)
    requires
        0 <= i,
        0 <= j < n,
    ensures
        (i * n + j) / n == i,
        (i * n + j) % n == j,
{
    vstd::arithmetic::div_mod::lemma_fundamental_div_mod_converse(i * n + j, n, i, j);
}

proof fn lemma_index_bound(i: int, l: int, k: int, m: int)
    requires
        0 <= i < m,
        0 <= l < k,
    ensures
        i * k + l < m * k,
{
    assert(i * k + l < m * k) by (nonlinear_arith)
        requires
            0 <= i < m,
            0 <= l < k,
    ;
}

/// Reconstruct an `m x n` matrix from a rank-`k` (max, +) factorisation
/// `S_ij = max_l (U_il + V_jl)` (saturating sums; `i64::MIN` when `k == 0`).
/// `u` is row-major `m x k`, `v` is row-major `n x k`; the result is
/// row-major `m x n`.
pub fn tropical_reconstruct(u: &[i64], v: &[i64], m: usize, n: usize, k: usize) -> (s: Vec<i64>)
    requires
        u.len() == m * k,
        v.len() == n * k,
        m * n <= usize::MAX,
    ensures
        s@ == trop_matrix(u@, v@, m as nat, n as nat, k as nat),
{
    let mut s: Vec<i64> = Vec::new();
    let mut i: usize = 0;
    while i < m
        invariant
            i <= m,
            u.len() == m * k,
            v.len() == n * k,
            m * n <= usize::MAX,
            s.len() == i * n,
            forall|idx: int|
                0 <= idx < s.len() ==> s@[idx] == trop_best(
                    u@,
                    v@,
                    k as nat,
                    (idx / n as int) as nat,
                    (idx % n as int) as nat,
                    k as nat,
                ),
        decreases m - i,
    {
        let mut j: usize = 0;
        while j < n
            invariant
                i < m,
                j <= n,
                u.len() == m * k,
                v.len() == n * k,
                m * n <= usize::MAX,
                s.len() == i * n + j,
                forall|idx: int|
                    0 <= idx < s.len() ==> s@[idx] == trop_best(
                        u@,
                        v@,
                        k as nat,
                        (idx / n as int) as nat,
                        (idx % n as int) as nat,
                        k as nat,
                    ),
            decreases n - j,
        {
            let mut best: i64 = i64::MIN;
            let mut l: usize = 0;
            while l < k
                invariant
                    i < m,
                    j < n,
                    l <= k,
                    u.len() == m * k,
                    v.len() == n * k,
                    best == trop_best(u@, v@, k as nat, i as nat, j as nat, l as nat),
                decreases k - l,
            {
                proof {
                    lemma_index_bound(i as int, l as int, k as int, m as int);
                    lemma_index_bound(j as int, l as int, k as int, n as int);
                }
                let cand = saturating_add_i64(u[i * k + l], v[j * k + l]);
                if cand > best {
                    best = cand;
                }
                l = l + 1;
            }
            proof {
                lemma_row_major(i as int, j as int, n as int);
                assert(i * n + j < m * n) by (nonlinear_arith)
                    requires
                        i < m,
                        j < n,
                ;
            }
            s.push(best);
            j = j + 1;
        }
        proof {
            assert(i * n + n == (i + 1) * n) by (nonlinear_arith);
        }
        i = i + 1;
    }
    assert(s@ =~= trop_matrix(u@, v@, m as nat, n as nat, k as nat));
    s
}

proof fn lemma_trop_best_shift(
    u: Seq<i64>,
    u2: Seq<i64>,
    v: Seq<i64>,
    m: nat,
    n: nat,
    k: nat,
    i: nat,
    j: nat,
    bound: nat,
    c: int,
)
    requires
        1 <= bound <= k,
        i < m,
        j < n,
        u.len() == m * k,
        v.len() == n * k,
        u2.len() == u.len(),
        forall|x: int| 0 <= x < u.len() ==> #[trigger] u2[x] == u[x] + c,
        forall|i: int, j: int, l: int|
            #![trigger u[i * k + l], v[j * k + l]]
            0 <= i < m && 0 <= j < n && 0 <= l < k ==> i64::MIN <= u[i * k + l] + v[j * k + l]
                <= i64::MAX && i64::MIN <= u2[i * k + l] + v[j * k + l] <= i64::MAX,
    ensures
        trop_best(u2, v, k, i, j, bound) == trop_best(u, v, k, i, j, bound) + c,
    decreases bound,
{
    let l = (bound - 1) as nat;
    lemma_index_bound(i as int, l as int, k as int, m as int);
    lemma_index_bound(j as int, l as int, k as int, n as int);
    let x = (i * k + l) as int;
    let y = (j * k + l) as int;
    let (ii, jj, ll, kk) = (i as int, j as int, l as int, k as int);
    assert(i64::MIN <= u[ii * kk + ll] + v[jj * kk + ll] <= i64::MAX);
    assert(i64::MIN <= u[x] + v[y] <= i64::MAX);
    assert(u2[x] == u[x] + c);
    if bound > 1 {
        lemma_trop_best_shift(u, u2, v, m, n, k, i, j, l, c);
    }
}

/// Adding a constant `c` to every entry of the left factor shifts every
/// entry of the (max, +) product by `c`, as long as none of the sums
/// `U[i][l] + V[j][l]` the product forms saturates.
pub proof fn lemma_reconstruct_shift(
    u: Seq<i64>,
    u2: Seq<i64>,
    v: Seq<i64>,
    m: nat,
    n: nat,
    k: nat,
    c: int,
)
    requires
        k > 0,
        u.len() == m * k,
        v.len() == n * k,
        u2.len() == u.len(),
        forall|x: int| 0 <= x < u.len() ==> #[trigger] u2[x] == u[x] + c,
        forall|i: int, j: int, l: int|
            #![trigger u[i * k + l], v[j * k + l]]
            0 <= i < m && 0 <= j < n && 0 <= l < k ==> i64::MIN <= u[i * k + l] + v[j * k + l]
                <= i64::MAX && i64::MIN <= u2[i * k + l] + v[j * k + l] <= i64::MAX,
    ensures
        forall|idx: int|
            0 <= idx < m * n ==> #[trigger] trop_matrix(u2, v, m, n, k)[idx] == trop_matrix(
                u,
                v,
                m,
                n,
                k,
            )[idx] + c,
{
    assert forall|idx: int| 0 <= idx < m * n implies #[trigger] trop_matrix(u2, v, m, n, k)[idx]
        == trop_matrix(u, v, m, n, k)[idx] + c by {
        assert(n > 0) by (nonlinear_arith)
            requires
                0 <= idx < m * n,
        ;
        let i = idx / n as int;
        let j = idx % n as int;
        vstd::arithmetic::div_mod::lemma_fundamental_div_mod(idx, n as int);
        vstd::arithmetic::div_mod::lemma_mod_bound(idx, n as int);
        vstd::arithmetic::div_mod::lemma_div_pos_is_pos(idx, n as int);
        assert(i < m) by (nonlinear_arith)
            requires
                idx == n * i + j,
                0 <= j,
                idx < m * n,
                n > 0,
        ;
        lemma_trop_best_shift(u, u2, v, m, n, k, i as nat, j as nat, k, c);
    }
}

/// `|a - b|` as an integer.
pub open spec fn abs_diff(a: i64, b: i64) -> int {
    if a >= b {
        a - b
    } else {
        b - a
    }
}

/// Largest `|x[i] - y[i]|` over `i < len`, or 0 when `len == 0`.
pub open spec fn max_abs_diff(x: Seq<i64>, y: Seq<i64>, len: nat) -> int
    decreases len,
{
    if len == 0 {
        0
    } else {
        let prev = max_abs_diff(x, y, (len - 1) as nat);
        let d = abs_diff(x[len - 1], y[len - 1]);
        if d > prev {
            d
        } else {
            prev
        }
    }
}

/// The sup-norm residual is zero exactly when the two sequences agree on
/// every compared entry.
pub proof fn lemma_residual_zero_iff_equal(x: Seq<i64>, y: Seq<i64>, len: nat)
    ensures
        max_abs_diff(x, y, len) >= 0,
        max_abs_diff(x, y, len) == 0 <==> forall|i: int| 0 <= i < len ==> x[i] == y[i],
    decreases len,
{
    if len > 0 {
        lemma_residual_zero_iff_equal(x, y, (len - 1) as nat);
        if max_abs_diff(x, y, len) == 0 {
            assert forall|i: int| 0 <= i < len implies x[i] == y[i] by {
                if i < len - 1 {
                } else {
                }
            }
        }
    }
}

/// Every compared entry differs by at most the residual.
pub proof fn lemma_residual_bounds_entries(x: Seq<i64>, y: Seq<i64>, len: nat, i: int)
    requires
        0 <= i < len,
    ensures
        abs_diff(x[i], y[i]) <= max_abs_diff(x, y, len),
    decreases len,
{
    if i < len - 1 {
        lemma_residual_bounds_entries(x, y, (len - 1) as nat, i);
    }
}

/// A matrix reconstructed from a factorisation has zero residual against
/// that same factorisation.
pub proof fn lemma_reconstruction_residual_zero(u: Seq<i64>, v: Seq<i64>, m: nat, n: nat, k: nat)
    ensures
        max_abs_diff(trop_matrix(u, v, m, n, k), trop_matrix(u, v, m, n, k), m * n) == 0,
{
    lemma_residual_zero_iff_equal(trop_matrix(u, v, m, n, k), trop_matrix(u, v, m, n, k), m * n);
}

/// Sup-norm residual between `s` and the reconstruction of the rank-`k`
/// (max, +) factorisation `(u, v)`, over the entries both have; 0 when `s`
/// agrees with the reconstruction there (or there is nothing to compare).
pub fn tropical_residual(s: &[i64], u: &[i64], v: &[i64], m: usize, n: usize, k: usize) -> (r: i64)
    requires
        u.len() == m * k,
        v.len() == n * k,
        m * n <= usize::MAX,
        forall|idx: int|
            0 <= idx < s.len() && idx < m * n ==> abs_diff(
                s[idx],
                #[trigger] trop_matrix(u@, v@, m as nat, n as nat, k as nat)[idx],
            ) <= i64::MAX,
    ensures
        r == max_abs_diff(
            s@,
            trop_matrix(u@, v@, m as nat, n as nat, k as nat),
            if s.len() < m * n {
                s.len() as nat
            } else {
                (m * n) as nat
            },
        ),
{
    let recon = tropical_reconstruct(u, v, m, n, k);
    let len = if s.len() < recon.len() {
        s.len()
    } else {
        recon.len()
    };
    let mut best: i64 = 0;
    let mut idx: usize = 0;
    while idx < len
        invariant
            idx <= len,
            len <= s.len(),
            len <= recon.len(),
            recon@ == trop_matrix(u@, v@, m as nat, n as nat, k as nat),
            recon.len() == m * n,
            forall|idx: int|
                0 <= idx < s.len() && idx < m * n ==> abs_diff(
                    s[idx],
                    #[trigger] trop_matrix(u@, v@, m as nat, n as nat, k as nat)[idx],
                ) <= i64::MAX,
            best == max_abs_diff(s@, recon@, idx as nat),
        decreases len - idx,
    {
        let a = s[idx];
        let b = recon[idx];
        assert(abs_diff(a, b) <= i64::MAX);
        let d: i64 = if a >= b {
            a - b
        } else {
            b - a
        };
        if d > best {
            best = d;
        }
        idx = idx + 1;
    }
    best
}

} // verus!
