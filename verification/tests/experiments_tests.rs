use bitrag_theorems::cross_corpus::{run, Setting};
use bitrag_theorems::failure_cases::{correlated_corpus, duplicate_first_doc, empirical_recall};
use bitrag_theorems::fixed_point::{f_two_term, jl_bound_f2, ln_milli};
use bitrag_theorems::synth::{recall_at_k, Corpus};
use bitrag_theorems::tropical_fit::tropical_svd_rank1;

#[test]
fn corpus_density_matches_p_over_w_within_5pct() {
    let n = 64;
    let w = 1024;
    let p = 32;
    let c = Corpus::new(n, w, p, 0xDEADBEEF);
    let total_bits: u64 = c.docs.iter().map(|w| w.count_ones() as u64).sum();
    let expected = (n * p) as u64;
    let lo = expected * 95 / 100;
    let hi = expected * 105 / 100;
    assert!(
        (lo..=hi).contains(&total_bits),
        "density {total_bits} outside [{lo},{hi}] for n={n} w={w} p={p}"
    );
}

#[test]
fn f_two_term_monotone_in_xi() {
    let denom = 1_000_000;
    let mut prev = 0;
    for n in [1, 4, 16, 64, 256, 1024usize] {
        let r = f_two_term(n, 64, 8, denom);
        assert!(r >= prev, "f must be monotone non-decreasing in N");
        prev = r;
    }
}

#[test]
fn f_two_term_saturates_at_one() {
    let denom = 1_000_000;
    let r = f_two_term(1_000_000, 1024, 1, denom);
    assert_eq!(r, denom);
}

#[test]
fn f_two_term_known_values() {
    let denom = 1_000_000;
    // xi = 0: no collisions.
    assert_eq!(f_two_term(0, 64, 8, denom), 0);
    // xi = 1: 1 - 1/e = 0.632121 (within the fixed-point rounding).
    let r = f_two_term(1, 64, 64, denom);
    assert_eq!(r, 632_121);
    // The largest denominators work in unit `denom` itself.
    let big = f_two_term(1, 1, 1, u64::MAX);
    let want = (u64::MAX as f64) * (1.0 - (-1.0f64).exp());
    assert!(((big as f64) - want).abs() / want < 1e-12, "got {big}");
    assert!(f_two_term(1, 1, 2, u64::MAX) <= big);
    assert!(big <= f_two_term(3, 1, 2, u64::MAX));
    // xi = 40 saturates exactly.
    assert_eq!(f_two_term(40, 1, 1, denom), denom);
    // xi = 4: 1 - exp(-4) = 0.981684.
    let r4 = f_two_term(1, 64, 16, denom);
    assert_eq!(r4, 981_685);
    // xi = 2/13 at denominator 100: the doubling form gives 14.
    assert_eq!(f_two_term(2, 1, 13, 100), 14);
    // A small load: 1 - f(64 * 4 / 8192) in fixed point.
    assert_eq!(f_two_term(64, 4, 8_192, denom), 30_767);
}

#[test]
fn f_two_term_running_maximum_over_dips() {
    // The doubling form gives 329, 330, 329, 330 at xi = 0.398 .. 0.401;
    // the running maximum holds 330 across the dip and nowhere else differs.
    assert_eq!(f_two_term(398, 1, 1000, 1000), 329);
    assert_eq!(f_two_term(399, 1, 1000, 1000), 330);
    assert_eq!(f_two_term(400, 1, 1000, 1000), 330);
    assert_eq!(f_two_term(401, 1, 1000, 1000), 330);
    // Denominator 100: 63 at xi = 0.99, the dip to 62 at xi = 1 is held,
    // 64 at xi = 1.01 (the first halved bucket).
    assert_eq!(f_two_term(99, 1, 100, 100), 63);
    assert_eq!(f_two_term(100, 1, 100, 100), 63);
    assert_eq!(f_two_term(101, 1, 100, 100), 64);
    assert_eq!(f_two_term(200, 1, 100, 100), 87);
    assert_eq!(f_two_term(202, 1, 100, 100), 88);
    // Bucket boundaries at denominator 1000.
    assert_eq!(f_two_term(1000, 1, 1000, 1000), 632);
    assert_eq!(f_two_term(1001, 1, 1000, 1000), 632);
    assert_eq!(f_two_term(2000, 1, 1000, 1000), 865);
    assert_eq!(f_two_term(2001, 1, 1000, 1000), 865);
}

#[test]
fn recall_at_k_finds_self_query_at_k_eq_1() {
    let c = Corpus::new(32, 256, 16, 7);
    let q = c.doc(5).to_vec();
    assert!(recall_at_k(&c, &q, 5, 1) || recall_at_k(&c, &q, 5, 4));
}

#[test]
fn recall_at_k_self_query_within_index_bound() {
    let c = Corpus::new(16, 128, 8, 21);
    for t in 0..16 {
        let q = c.doc(t).to_vec();
        assert!(recall_at_k(&c, &q, t, t + 1));
    }
    let q0 = c.doc(0).to_vec();
    assert!(recall_at_k(&c, &q0, 0, 1));
    // Out-of-range targets are never found.
    assert!(!recall_at_k(&c, &q0, 16, 100));
    // k = 0 finds nothing.
    assert!(!recall_at_k(&c, &q0, 0, 0));
}

#[test]
fn recall_at_k_ties_break_by_lower_index() {
    let mut c = Corpus::new(4, 64, 64, 1); // every bit set in every document
    assert_eq!(c.and_popcount(0, 3), 64);
    let q = c.doc(2).to_vec();
    // All documents tie; document 2 has two predecessors.
    assert!(!recall_at_k(&c, &q, 2, 2));
    assert!(recall_at_k(&c, &q, 2, 3));
    // A document with a strictly higher score comes first.
    c.docs[3] = 0;
    let q3 = vec![u64::MAX];
    assert!(!recall_at_k(&c, &q3, 3, 3));
}

#[test]
fn corpus_padding_bits_stay_clear() {
    let c = Corpus::new(5, 70, 70, 3);
    assert_eq!(c.words, 2);
    assert_eq!(c.docs.len(), 10);
    for d in 0..5 {
        let doc = c.doc(d);
        assert_eq!(doc.len(), 2);
        assert_eq!(doc[1] >> 6, 0);
    }
}

#[test]
fn tropical_svd_rank1_zero_on_constant_block() {
    let c = Corpus::new(8, 64, 64, 1);
    let res = tropical_svd_rank1(&c, &[0, 1, 2, 3], &[4, 5, 6, 7]);
    assert_eq!(res, 0, "constant Gram block must have zero residual");
}

#[test]
fn tropical_svd_rank1_matches_direct_fit() {
    let c = Corpus::new(12, 192, 40, 77);
    let rows = [0usize, 3, 5, 7];
    let cols = [1usize, 2, 9];
    let g: Vec<Vec<i64>> = rows
        .iter()
        .map(|&i| cols.iter().map(|&j| c.and_popcount(i, j) as i64).collect())
        .collect();
    let u: Vec<i64> = g.iter().map(|row| *row.iter().max().unwrap()).collect();
    let v: Vec<i64> = (0..cols.len())
        .map(|cc| (0..rows.len()).map(|r| g[r][cc] - u[r]).max().unwrap())
        .collect();
    let mut want = 0i64;
    for r in 0..rows.len() {
        for cc in 0..cols.len() {
            want = want.max((g[r][cc] - (u[r] + v[cc])).abs());
        }
    }
    assert_eq!(tropical_svd_rank1(&c, &rows, &cols) as i64, want);
}

#[test]
fn jl_bound_f2_grows_with_n() {
    let lo = jl_bound_f2(100, 100, 100);
    let hi = jl_bound_f2(10_000, 100, 100);
    assert!(hi > lo, "JL bound must grow with n");
}

#[test]
fn jl_bound_f2_exact_and_degenerate() {
    // eps^2 = 961 rounds to 0 thousandths: no bound.
    assert_eq!(jl_bound_f2(100, 31, 100), u64::MAX);
    // n = 2, delta = 0.5: (ln 2 + ln 2) / eps^2 = 1.386 / 1.0 -> 2.
    assert_eq!(jl_bound_f2(2, 1000, 500), 2);
    // Same numerator over eps^2 = 0.01: ceil(1386 / 10) = 139.
    assert_eq!(jl_bound_f2(2, 100, 500), 139);
}

#[test]
fn ln_milli_monotone() {
    let mut prev = 0;
    for x in [1000u64, 1500, 2000, 5000, 10_000, 100_000, 1_000_000] {
        let v = ln_milli(x);
        assert!(v >= prev, "ln must be monotone non-decreasing");
        prev = v;
    }
}

#[test]
fn ln_milli_known_values() {
    assert_eq!(ln_milli(0), 0);
    assert_eq!(ln_milli(1000), 0);
    assert_eq!(ln_milli(2000), 693);
    assert_eq!(ln_milli(4000), 1386);
    // 1500: y = 500 -> 500 - 125 + 41 - 15 + 6 = 407.
    assert_eq!(ln_milli(1500), 407);
    // Just below a power of two the series is capped at ln 2.
    assert_eq!(ln_milli(1999), 693);
    assert!(ln_milli(1999) <= ln_milli(2000));
    assert_eq!(ln_milli(10_000), 2303);
    assert_eq!(ln_milli(1001), 1);
    // Where the separately rounded series dips, the running maximum holds.
    assert_eq!(ln_milli(1376), 320);
    assert_eq!(ln_milli(1377), 320);
    assert_eq!(ln_milli(1378), 321);
}

#[test]
fn correlated_corpus_extremes() {
    let base = Corpus::new(6, 130, 20, 0xFA11A);
    let same = correlated_corpus(6, 130, 20, 0, 0xFA11A);
    assert_eq!(base.docs, same.docs);
    let full = correlated_corpus(6, 130, 20, 1000, 0xFA11A);
    for d in 0..6 {
        let doc = full.doc(d);
        let first = doc[0] & 1;
        for b in 0..130 {
            assert_eq!((doc[b / 64] >> (b % 64)) & 1, first, "doc {d} bit {b}");
        }
        assert_eq!(doc[2] >> 2, 0);
    }
}

#[test]
fn duplicate_first_doc_copies_template() {
    let mut c = Corpus::new(8, 256, 16, 0xDEAD);
    let before = c.docs.clone();
    duplicate_first_doc(&mut c, 4);
    for d in 0..8 {
        let want: Vec<u64> = if d >= 4 {
            before[0..4].to_vec()
        } else {
            before[d * 4..d * 4 + 4].to_vec()
        };
        assert_eq!(c.doc(d).to_vec(), want);
    }
}

#[test]
fn empirical_recall_is_deterministic_fraction() {
    let c = Corpus::new(64, 256, 16, 0xC4001);
    let a = empirical_recall(&c, 32, 99);
    let b = empirical_recall(&c, 32, 99);
    assert_eq!(a, b);
    assert!(a <= 1_000_000);
    assert_eq!(a % (1_000_000 / 32), 0);
}

#[test]
fn run_reports_measurement_and_prediction() {
    let s = Setting {
        name: "tiny",
        n: 32,
        w: 128,
        p: 8,
        seed: 0xC4001,
    };
    let (emp, pred) = run(s, 16);
    let c = Corpus::new(32, 128, 8, 0xC4001);
    assert_eq!(emp, empirical_recall(&c, 16, 0xC4001u64.wrapping_add(0xCAFE)));
    assert_eq!(pred, f_two_term(32, 128, 16, 1_000_000));
    assert_eq!(s.name, "tiny");
}

#[test]
fn fixed_point_approximations_are_monotone() {
    assert!(f_two_term(399, 1, 1000, 1000) <= f_two_term(400, 1, 1000, 1000));
    let mut prev = 0;
    for n in 0..4_500usize {
        let r = f_two_term(n, 1, 100, 100);
        assert!(r >= prev, "f dips at n={n}");
        assert!(r <= 100);
        prev = r;
    }
    let mut prev = 0;
    for n in (0..45_000usize).step_by(7) {
        let r = f_two_term(n, 1, 1000, 1000);
        assert!(r >= prev, "f dips at n={n}");
        assert!(r <= 1000);
        prev = r;
    }
    let mut prev = 0;
    for n in [1usize, 2, 3, 5, 8, 13, 21, 34, 55, 89] {
        let r = f_two_term(n, 1, 8, (1u64 << 20) + 1);
        assert!(r >= prev, "f dips at n={n} above the exact limit");
        prev = r;
    }
    let mut prev = 0;
    for x in 0..20_000u64 {
        let v = ln_milli(x);
        assert!(v >= prev, "ln_milli dips at x={x}");
        prev = v;
    }
    assert!(jl_bound_f2(31, 100, 100) <= jl_bound_f2(32, 100, 100));
    let mut prev = 0;
    for n in 2..5000usize {
        let v = jl_bound_f2(n, 100, 100);
        assert!(v >= prev, "jl bound dips at n={n}");
        prev = v;
    }
}
