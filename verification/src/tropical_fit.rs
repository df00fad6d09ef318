//! Rank-1 tropical (max, +) fit of AND-popcount Gram blocks (Lemma T5).

use vstd::prelude::*;
use crate::synth::Corpus;

verus! {

/// Row maximum `u_r = max_{c < n} G(r, c)` (for `n >= 1`).
pub open spec fn row_max(g: spec_fn(int, int) -> int, r: int, n: nat) -> int
    decreases n,
{
    if n <= 1 {
        g(r, 0)
    } else {
        let prev = row_max(g, r, (n - 1) as nat);
        let x = g(r, n - 1);
        if x > prev {
            x
        } else {
            prev
        }
    }
}

/// Column fit `v_c = max_{r < m} (G(r, c) - u_r)` (for `m >= 1`), with the
/// row maxima taken over `n` columns.
pub open spec fn col_fit(g: spec_fn(int, int) -> int, c: int, m: nat, n: nat) -> int
    decreases m,
{
    if m <= 1 {
        g(0, c) - row_max(g, 0, n)
    } else {
        let prev = col_fit(g, c, (m - 1) as nat, n);
        let x = g(m - 1, c) - row_max(g, m - 1, n);
        if x > prev {
            x
        } else {
            prev
        }
    }
}

/// `|G(r, c) - (u_r + v_c)|` for the rank-1 fit of an `m x n` block.
pub open spec fn fit_error(g: spec_fn(int, int) -> int, m: nat, n: nat, r: int, c: int) -> int {
    let d = g(r, c) - (row_max(g, r, n) + col_fit(g, c, m, n));
    if d >= 0 {
        d
    } else {
        -d
    }
}

/// Largest fit error over the first `len` entries in row-major order
/// (0 for none).
pub open spec fn fit_residual_upto(g: spec_fn(int, int) -> int, m: nat, n: nat, len: nat) -> int
    decreases len,
{
    if len == 0 {
        0
    } else {
        let prev = fit_residual_upto(g, m, n, (len - 1) as nat);
        let e = fit_error(g, m, n, (len - 1) / n as int, (len - 1) % n as int);
        if e > prev {
            e
        } else {
            prev
        }
    }
}

/// Maximum absolute residual `max_{r,c} |G(r, c) - (u_r + v_c)|` of the
/// rank-1 tropical fit of an `m x n` block.
pub open spec fn rank1_residual(g: spec_fn(int, int) -> int, m: nat, n: nat) -> int {
    fit_residual_upto(g, m, n, m * n)
}

/// The AND-popcount Gram block of `corpus` on the given rows and columns.
pub open spec fn gram_block(corpus: Corpus, rows: Seq<usize>, cols: Seq<usize>) -> spec_fn(
    int,
    int,
) -> int {
    |r: int, c: int| corpus.gram(rows[r] as int, cols[c] as int) as int
}

pub proof fn lemma_row_max_bounds(g: spec_fn(int, int) -> int, r: int, n: nat, lo: int, hi: int)
    requires
        n >= 1,
        forall|c: int| 0 <= c < n ==> lo <= #[trigger] g(r, c) <= hi,
    ensures
        lo <= row_max(g, r, n) <= hi,
        forall|c: int| 0 <= c < n ==> #[trigger] g(r, c) <= row_max(g, r, n),
    decreases n,
{
    if n > 1 {
        lemma_row_max_bounds(g, r, (n - 1) as nat, lo, hi);
    }
}

pub proof fn lemma_col_fit_bounds(g: spec_fn(int, int) -> int, c: int, m: nat, n: nat, lo: int)
    requires
        m >= 1,
        forall|r: int| 0 <= r < m ==> #[trigger] g(r, c) <= row_max(g, r, n),
        forall|r: int| 0 <= r < m ==> lo <= #[trigger] g(r, c) - row_max(g, r, n),
    ensures
        lo <= col_fit(g, c, m, n) <= 0,
        forall|r: int| 0 <= r < m ==> #[trigger] g(r, c) - row_max(g, r, n) <= col_fit(g, c, m, n),
    decreases m,
{
    if m > 1 {
        lemma_col_fit_bounds(g, c, (m - 1) as nat, n, lo);
    }
}

/// Largest `b(c)` over `c < n` (for `n >= 1`).
pub open spec fn max_upto(b: spec_fn(int) -> int, n: nat) -> int
    decreases n,
{
    if n <= 1 {
        b(0)
    } else {
        let prev = max_upto(b, (n - 1) as nat);
        if b(n - 1) > prev {
            b(n - 1)
        } else {
            prev
        }
    }
}

proof fn lemma_row_max_rank1(
    g: spec_fn(int, int) -> int,
    a: spec_fn(int) -> int,
    b: spec_fn(int) -> int,
    r: int,
    n: nat,
)
    requires
        n >= 1,
        forall|c: int| 0 <= c < n ==> #[trigger] g(r, c) == a(r) + b(c),
    ensures
        row_max(g, r, n) == a(r) + max_upto(b, n),
    decreases n,
{
    if n > 1 {
        lemma_row_max_rank1(g, a, b, r, (n - 1) as nat);
    }
}

proof fn lemma_col_fit_rank1(
    g: spec_fn(int, int) -> int,
    a: spec_fn(int) -> int,
    b: spec_fn(int) -> int,
    c: int,
    m: nat,
    n: nat,
)
    requires
        m >= 1,
        n >= 1,
        0 <= c < n,
        forall|r: int, c2: int| 0 <= r < m && 0 <= c2 < n ==> #[trigger] g(r, c2) == a(r) + b(c2),
    ensures
        col_fit(g, c, m, n) == b(c) - max_upto(b, n),
    decreases m,
{
    lemma_row_max_rank1(g, a, b, m - 1, n);
    if m > 1 {
        lemma_col_fit_rank1(g, a, b, c, (m - 1) as nat, n);
    } else {
        lemma_row_max_rank1(g, a, b, 0, n);
    }
}

proof fn lemma_rank1_residual_upto_zero(
    g: spec_fn(int, int) -> int,
    a: spec_fn(int) -> int,
    b: spec_fn(int) -> int,
    m: nat,
    n: nat,
    len: nat,
)
    requires
        m >= 1,
        n >= 1,
        len <= m * n,
        forall|r: int, c: int| 0 <= r < m && 0 <= c < n ==> #[trigger] g(r, c) == a(r) + b(c),
    ensures
        fit_residual_upto(g, m, n, len) == 0,
    decreases len,
{
    if len > 0 {
        lemma_rank1_residual_upto_zero(g, a, b, m, n, (len - 1) as nat);
        let idx = len - 1;
        let r = idx / n as int;
        let c = idx % n as int;
        vstd::arithmetic::div_mod::lemma_fundamental_div_mod(idx, n as int);
        vstd::arithmetic::div_mod::lemma_mod_bound(idx, n as int);
        vstd::arithmetic::div_mod::lemma_div_pos_is_pos(idx, n as int);
        assert(r < m) by (nonlinear_arith)
            requires
                idx == n * r + c,
                0 <= c,
                idx < m * n,
                n >= 1,
        ;
        lemma_row_max_rank1(g, a, b, r, n);
        lemma_col_fit_rank1(g, a, b, c, m, n);
    }
}

/// A block that is exactly tropical rank 1, `G(r, c) = a(r) + b(c)`, is
/// fitted with zero residual: the fit recovers `u_r = a(r) + max b` and
/// `v_c = b(c) - max b`.  In particular a constant block has residual 0.
pub proof fn lemma_rank1_block_zero_residual(
    g: spec_fn(int, int) -> int,
    a: spec_fn(int) -> int,
    b: spec_fn(int) -> int,
    m: nat,
    n: nat,
)
    requires
        m >= 1,
        n >= 1,
        forall|r: int, c: int| 0 <= r < m && 0 <= c < n ==> #[trigger] g(r, c) == a(r) + b(c),
    ensures
        rank1_residual(g, m, n) == 0,
{
    lemma_rank1_residual_upto_zero(g, a, b, m, n, m * n);
}

proof fn lemma_row_major(r: int, c: int, n: int)
    requires
        0 <= r,
        0 <= c < n,
    ensures
        (r * n + c) / n == r,
        (r * n + c) % n == c,
{
    vstd::arithmetic::div_mod::lemma_fundamental_div_mod_converse(r * n + c, n, r, c);
}

proof fn lemma_row_major_bound(r: int, c: int, m: int, n: int)
    requires
        0 <= r < m,
        0 <= c < n,
    ensures
        0 <= r * n + c < m * n,
        r * n + c + 1 == r * n + (c + 1),
        r * n + n == (r + 1) * n,
{
    assert(0 <= r * n + c < m * n && r * n + n == (r + 1) * n) by (nonlinear_arith)
        requires
            0 <= r < m,
            0 <= c < n,
    ;
}

/// Tropical (max, +) rank-1 reconstruction error of the AND-popcount Gram
/// block `G_{r,c} = popcount(doc[rows[r]] & doc[cols[c]])`: fit
/// `u_r = max_c G_{r,c}` and `v_c = max_r (G_{r,c} - u_r)`, then return
/// `max_{r,c} |G_{r,c} - (u_r + v_c)|`.
pub fn tropical_svd_rank1(corpus: &Corpus, rows: &[usize], cols: &[usize]) -> (res: u32)
    requires
        corpus.well_formed(),
        rows.len() > 0,
        cols.len() > 0,
        rows.len() * cols.len() <= usize::MAX,
        forall|r: int| 0 <= r < rows.len() ==> #[trigger] rows[r] < corpus.n,
        forall|c: int| 0 <= c < cols.len() ==> #[trigger] cols[c] < corpus.n,
        forall|r: int, c: int|
            0 <= r < rows.len() && 0 <= c < cols.len() ==> #[trigger] corpus.gram(
                rows[r] as int,
                cols[c] as int,
            ) <= u32::MAX,
    ensures
        res == rank1_residual(gram_block(*corpus, rows@, cols@), rows.len() as nat, cols.len() as nat),
{
    let m = rows.len();
    let n = cols.len();
    let ghost gf = gram_block(*corpus, rows@, cols@);
    // Gram block, row-major.
    let mut g: Vec<u32> = Vec::new();
    let mut r: usize = 0;
    while r < m
        invariant
            m == rows.len(),
            n == cols.len(),
            n > 0,
            m * n <= usize::MAX,
            r <= m,
            corpus.well_formed(),
            forall|r: int| 0 <= r < rows.len() ==> #[trigger] rows[r] < corpus.n,
            forall|c: int| 0 <= c < cols.len() ==> #[trigger] cols[c] < corpus.n,
            forall|r: int, c: int|
                0 <= r < rows.len() && 0 <= c < cols.len() ==> #[trigger] corpus.gram(
                    rows[r] as int,
                    cols[c] as int,
                ) <= u32::MAX,
            gf == gram_block(*corpus, rows@, cols@),
            g.len() == r * n,
            forall|idx: int| 0 <= idx < g.len() ==> g@[idx] == gf(idx / n as int, idx % n as int),
        decreases m - r,
    {
        let mut c: usize = 0;
        while c < n
            invariant
                m == rows.len(),
                n == cols.len(),
                m * n <= usize::MAX,
                r < m,
                c <= n,
                corpus.well_formed(),
                forall|r: int| 0 <= r < rows.len() ==> #[trigger] rows[r] < corpus.n,
                forall|c: int| 0 <= c < cols.len() ==> #[trigger] cols[c] < corpus.n,
                forall|r: int, c: int|
                    0 <= r < rows.len() && 0 <= c < cols.len() ==> #[trigger] corpus.gram(
                        rows[r] as int,
                        cols[c] as int,
                    ) <= u32::MAX,
                gf == gram_block(*corpus, rows@, cols@),
                g.len() == r * n + c,
                forall|idx: int|
                    0 <= idx < g.len() ==> g@[idx] == gf(idx / n as int, idx % n as int),
            decreases n - c,
        {
            proof {
                lemma_row_major(r as int, c as int, n as int);
                lemma_row_major_bound(r as int, c as int, m as int, n as int);
                assert(corpus.gram(rows[r as int] as int, cols[c as int] as int) <= u32::MAX);
            }
            let x = corpus.and_popcount(rows[r], cols[c]);
            g.push(x);
            c = c + 1;
        }
        proof {
            lemma_row_major_bound(r as int, 0, m as int, n as int);
        }
        r = r + 1;
    }
    proof {
        assert forall|r: int, c: int| 0 <= r < m && 0 <= c < n implies 0 <= #[trigger] gf(r, c)
            <= u32::MAX && gf(r, c) == g@[r * n + c] by {
            lemma_row_major(r, c, n as int);
            lemma_row_major_bound(r, c, m as int, n as int);
        }
    }
    // Row maxima.
    let mut u: Vec<u32> = Vec::new();
    let mut r: usize = 0;
    while r < m
        invariant
            m == rows.len(),
            n == cols.len(),
            n > 0,
            m * n <= usize::MAX,
            r <= m,
            g.len() == m * n,
            forall|r: int, c: int|
                0 <= r < m && 0 <= c < n ==> 0 <= #[trigger] gf(r, c) <= u32::MAX && gf(r, c)
                    == g@[r * n + c],
            u.len() == r,
            forall|i: int| 0 <= i < r ==> u@[i] == row_max(gf, i, n as nat),
        decreases m - r,
    {
        proof {
            lemma_row_major_bound(r as int, 0, m as int, n as int);
        }
        let mut best: u32 = g[r * n];
        let mut c: usize = 1;
        while c < n
            invariant
                m == rows.len(),
                n == cols.len(),
                m * n <= usize::MAX,
                r < m,
                1 <= c <= n,
                g.len() == m * n,
                forall|r: int, c: int|
                    0 <= r < m && 0 <= c < n ==> 0 <= #[trigger] gf(r, c) <= u32::MAX && gf(r, c)
                        == g@[r * n + c],
                best == row_max(gf, r as int, c as nat),
            decreases n - c,
        {
            proof {
                lemma_row_major_bound(r as int, c as int, m as int, n as int);
                assert(gf(r as int, c as int) == g@[r * n + c]);
            }
            let x = g[r * n + c];
            if x > best {
                best = x;
            }
            c = c + 1;
        }
        u.push(best);
        r = r + 1;
    }
    proof {
        assert forall|r: int| 0 <= r < m implies 0 <= #[trigger] row_max(gf, r, n as nat)
            <= u32::MAX && (forall|c: int| 0 <= c < n ==> #[trigger] gf(r, c) <= row_max(
            gf,
            r,
            n as nat,
        )) by {
            lemma_row_max_bounds(gf, r, n as nat, 0, u32::MAX as int);
        }
    }
    // Column fits.
    let mut v: Vec<i64> = Vec::new();
    let mut c: usize = 0;
    while c < n
        invariant
            m == rows.len(),
            n == cols.len(),
            m > 0,
            n > 0,
            m * n <= usize::MAX,
            c <= n,
            g.len() == m * n,
            u.len() == m,
            forall|r: int, c: int|
                0 <= r < m && 0 <= c < n ==> 0 <= #[trigger] gf(r, c) <= u32::MAX && gf(r, c)
                    == g@[r * n + c],
            forall|i: int| 0 <= i < m ==> u@[i] == row_max(gf, i, n as nat),
            forall|r: int|
                0 <= r < m ==> 0 <= #[trigger] row_max(gf, r, n as nat) <= u32::MAX && (forall|
                    c: int,
                | 0 <= c < n ==> #[trigger] gf(r, c) <= row_max(gf, r, n as nat)),
            v.len() == c,
            forall|j: int| 0 <= j < c ==> v@[j] == col_fit(gf, j, m as nat, n as nat),
        decreases n - c,
    {
        proof {
            lemma_row_major_bound(0, c as int, m as int, n as int);
        }
        let mut best: i64 = g[c] as i64 - u[0] as i64;
        let mut r: usize = 1;
        while r < m
            invariant
                m == rows.len(),
                n == cols.len(),
                m * n <= usize::MAX,
                c < n,
                1 <= r <= m,
                g.len() == m * n,
                u.len() == m,
                forall|r: int, c: int|
                    0 <= r < m && 0 <= c < n ==> 0 <= #[trigger] gf(r, c) <= u32::MAX && gf(r, c)
                        == g@[r * n + c],
                forall|i: int| 0 <= i < m ==> u@[i] == row_max(gf, i, n as nat),
                best == col_fit(gf, c as int, r as nat, n as nat),
            decreases m - r,
        {
            proof {
                lemma_row_major_bound(r as int, c as int, m as int, n as int);
                assert(gf(r as int, c as int) == g@[r * n + c]);
            }
            let x = g[r * n + c] as i64 - u[r] as i64;
            if x > best {
                best = x;
            }
            r = r + 1;
        }
        v.push(best);
        c = c + 1;
    }
    proof {
        assert forall|c: int| 0 <= c < n implies -(u32::MAX as int) <= #[trigger] col_fit(
            gf,
            c,
            m as nat,
            n as nat,
        ) <= 0 && (forall|r: int| 0 <= r < m ==> #[trigger] gf(r, c) - row_max(gf, r, n as nat)
            <= col_fit(gf, c, m as nat, n as nat)) by {
            assert forall|r: int| 0 <= r < m implies -(u32::MAX as int) <= #[trigger] gf(r, c)
                - row_max(gf, r, n as nat) by {
                assert(0 <= row_max(gf, r, n as nat) <= u32::MAX);
                assert(0 <= gf(r, c));
            }
            lemma_col_fit_bounds(gf, c, m as nat, n as nat, -(u32::MAX as int));
        }
    }
    // Residual.
    let mut res: i64 = 0;
    let mut r: usize = 0;
    while r < m
        invariant
            m == rows.len(),
            n == cols.len(),
            m > 0,
            n > 0,
            m * n <= usize::MAX,
            r <= m,
            g.len() == m * n,
            u.len() == m,
            v.len() == n,
            forall|r: int, c: int|
                0 <= r < m && 0 <= c < n ==> 0 <= #[trigger] gf(r, c) <= u32::MAX && gf(r, c)
                    == g@[r * n + c],
            forall|i: int| 0 <= i < m ==> u@[i] == row_max(gf, i, n as nat),
            forall|j: int| 0 <= j < n ==> v@[j] == col_fit(gf, j, m as nat, n as nat),
            forall|r: int|
                0 <= r < m ==> 0 <= #[trigger] row_max(gf, r, n as nat) <= u32::MAX && (forall|
                    c: int,
                | 0 <= c < n ==> #[trigger] gf(r, c) <= row_max(gf, r, n as nat)),
            forall|c: int|
                0 <= c < n ==> -(u32::MAX as int) <= #[trigger] col_fit(gf, c, m as nat, n as nat)
                    <= 0 && (forall|r: int|
                    0 <= r < m ==> #[trigger] gf(r, c) - row_max(gf, r, n as nat) <= col_fit(
                        gf,
                        c,
                        m as nat,
                        n as nat,
                    )),
            res == fit_residual_upto(gf, m as nat, n as nat, (r * n) as nat),
            0 <= res <= u32::MAX,
        decreases m - r,
    {
        let mut c: usize = 0;
        while c < n
            invariant
                m == rows.len(),
                n == cols.len(),
                m * n <= usize::MAX,
                r < m,
                c <= n,
                g.len() == m * n,
                u.len() == m,
                v.len() == n,
                forall|r: int, c: int|
                    0 <= r < m && 0 <= c < n ==> 0 <= #[trigger] gf(r, c) <= u32::MAX && gf(r, c)
                        == g@[r * n + c],
                forall|i: int| 0 <= i < m ==> u@[i] == row_max(gf, i, n as nat),
                forall|j: int| 0 <= j < n ==> v@[j] == col_fit(gf, j, m as nat, n as nat),
                forall|r: int|
                    0 <= r < m ==> 0 <= #[trigger] row_max(gf, r, n as nat) <= u32::MAX && (forall|
                        c: int,
                    | 0 <= c < n ==> #[trigger] gf(r, c) <= row_max(gf, r, n as nat)),
                forall|c: int|
                    0 <= c < n ==> -(u32::MAX as int) <= #[trigger] col_fit(
                        gf,
                        c,
                        m as nat,
                        n as nat,
                    ) <= 0 && (forall|r: int|
                        0 <= r < m ==> #[trigger] gf(r, c) - row_max(gf, r, n as nat) <= col_fit(
                            gf,
                            c,
                            m as nat,
                            n as nat,
                        )),
                res == fit_residual_upto(gf, m as nat, n as nat, (r * n + c) as nat),
                0 <= res <= u32::MAX,
            decreases n - c,
        {
            proof {
                lemma_row_major(r as int, c as int, n as int);
                lemma_row_major_bound(r as int, c as int, m as int, n as int);
                assert(gf(r as int, c as int) == g@[r * n + c]);
                assert(0 <= row_max(gf, r as int, n as nat) <= u32::MAX);
                assert(gf(r as int, c as int) <= row_max(gf, r as int, n as nat));
                assert(-(u32::MAX as int) <= col_fit(gf, c as int, m as nat, n as nat) <= 0);
                assert(gf(r as int, c as int) - row_max(gf, r as int, n as nat) <= col_fit(
                    gf,
                    c as int,
                    m as nat,
                    n as nat,
                ));
            }
            let approx = u[r] as i64 + v[c];
            let d = g[r * n + c] as i64 - approx;
            let diff = if d < 0 {
                -d
            } else {
                d
            };
            if diff > res {
                res = diff;
            }
            c = c + 1;
        }
        proof {
            lemma_row_major_bound(r as int, 0, m as int, n as int);
        }
        r = r + 1;
    }
    res as u32
}

} // verus!
