use bitrag_theorems::corpus::{measure_recall_counts, sample_doc, BitVec};
use bitrag_theorems::fixed_point::f_two_term;
use bitrag_theorems::prng::XorShift64;

#[test]
fn empty_corpus_recall_is_one() {
    // A 1-doc corpus with the same query -> recall = 1.
    let (hits, queries) = measure_recall_counts(1, 16, 64, 1, 1, 0, 7);
    let r = hits as f64 / queries as f64;
    assert_eq!(r, 1.0);
}

#[test]
fn deterministic_across_runs() {
    let a = measure_recall_counts(64, 8, 128, 32, 3, 2, 12345);
    let b = measure_recall_counts(64, 8, 128, 32, 3, 2, 12345);
    assert_eq!(a, b);
    let ra = a.0 as f64 / a.1 as f64;
    let rb = b.0 as f64 / b.1 as f64;
    assert_eq!(ra, rb);
}

#[test]
fn andpopcount_zero_for_zero_bv() {
    let a = BitVec::zeros(128);
    let b = BitVec::zeros(128);
    assert_eq!(a.and_popcount(&b), 0);
}

#[test]
fn andpopcount_reflexive() {
    let mut bv = BitVec::zeros(128);
    for &i in &[3_usize, 17, 64, 100, 127] {
        bv.set(i);
    }
    assert_eq!(bv.and_popcount(&bv), 5);
}

#[test]
fn bitvec_set_get_roundtrip() {
    let mut bv = BitVec::zeros(192);
    assert_eq!(bv.len(), 192);
    assert!(bv.is_empty());
    bv.set(0);
    bv.set(63);
    bv.set(64);
    bv.set(191);
    for i in 0..192 {
        assert_eq!(bv.get(i), i == 0 || i == 63 || i == 64 || i == 191, "bit {i}");
    }
    assert!(!bv.is_empty());
    // Setting a bit twice changes nothing.
    bv.set(63);
    assert_eq!(bv.and_popcount(&bv), 4);
}

#[test]
fn bitvec_and_popcount_counts_common_bits() {
    let mut a = BitVec::zeros(128);
    let mut b = BitVec::zeros(128);
    for &i in &[1_usize, 5, 70, 90, 127] {
        a.set(i);
    }
    for &i in &[5_usize, 6, 90, 127] {
        b.set(i);
    }
    assert_eq!(a.and_popcount(&b), 3);
    assert_eq!(b.and_popcount(&a), 3);
}

#[test]
fn bitvec_or_assign_is_union() {
    let mut a = BitVec::zeros(128);
    let mut b = BitVec::zeros(128);
    a.set(2);
    a.set(100);
    b.set(100);
    b.set(65);
    a.or_assign(&b);
    for i in 0..128 {
        assert_eq!(a.get(i), i == 2 || i == 65 || i == 100);
    }
    assert!(b.get(65) && !b.get(2));
}

#[test]
fn sample_doc_zero_weight_is_empty() {
    let mut rng = XorShift64::new(99);
    let bv = sample_doc(&mut rng, 256, 0);
    assert!(bv.is_empty());
    // The generator still advanced by p steps.
    let mut check = XorShift64::new(99);
    for _ in 0..256 {
        check.next_u64();
    }
    assert_eq!(rng.next_u64(), check.next_u64());
}

#[test]
fn sample_doc_bits_follow_the_stream() {
    let p = 128usize;
    let w = 16u64;
    let mut rng = XorShift64::new(4242);
    let bv = sample_doc(&mut rng, p, w);
    let threshold = (((w as u128) << 64) / (p as u128)) as u64;
    let mut replay = XorShift64::new(4242);
    for i in 0..p {
        assert_eq!(bv.get(i), replay.next_u64() < threshold, "bit {i}");
    }
}

#[test]
fn sample_doc_full_weight_sets_almost_everything() {
    // w == p gives threshold u64::MAX: every output below it sets its bit.
    let mut rng = XorShift64::new(5);
    let bv = sample_doc(&mut rng, 64, 64);
    let mut replay = XorShift64::new(5);
    for i in 0..64 {
        assert_eq!(bv.get(i), replay.next_u64() < u64::MAX);
    }
}

#[test]
fn measure_recall_query_limit_is_min_of_n_and_queries() {
    let (hits, queries) = measure_recall_counts(8, 4, 64, 100, 8, 1, 3);
    assert_eq!(queries, 8);
    // With k = n every relevant document is in the top k.
    assert_eq!(hits, 8);
    let (hits0, _) = measure_recall_counts(8, 4, 64, 4, 0, 1, 3);
    assert_eq!(hits0, 0);
}

#[test]
fn smaller_xi_gives_higher_measured_recall() {
    let p: u64 = 8_192;
    let (small_hits, small_q) = measure_recall_counts(64, 4, p, 64, 1, 0, 4_2026);
    let (large_hits, large_q) = measure_recall_counts(64, 64, p, 64, 1, 0, 4_2026);
    let small_xi_recall = small_hits as f64 / small_q as f64;
    let large_xi_recall = large_hits as f64 / large_q as f64;
    assert!(
        small_xi_recall >= large_xi_recall - 1e-12,
        "small-xi measured = {small_xi_recall}, large-xi measured = {large_xi_recall}"
    );
}

#[test]
fn corpus_5_synthetic_recall_high() {
    let n: u64 = 64;
    let w: u64 = 4;
    let p: u64 = 8_192;
    let xi_small = n as f64 * w as f64 / p as f64;
    assert!(xi_small < 0.1, "xi too large to be 'small': {xi_small}");

    // The float prediction exp(-xi) lives outside the library; its integer
    // counterpart is 1 - f(xi) in fixed point.
    let predicted = 1_000_000 - f_two_term(n as usize, w as usize, p as usize, 1_000_000);
    assert!(
        predicted > 950_000,
        "predicted R_1 should be >0.95, got {predicted} / 10^6"
    );

    let (hits, queries) = measure_recall_counts(n, w, p, 64, 1, 0, 5_2026);
    let measured = hits as f64 / queries as f64;
    assert!(measured >= 0.90, "synthetic R_1 = {measured}");
}

#[test]
fn measure_recall_counts_empty_corpus_and_k_growth() {
    // No documents: no queries, whatever the width.
    assert_eq!(measure_recall_counts(0, 4, 7, 10, 1, 0, 1), (0, 0));
    let mut prev = 0;
    for k in 0..10u32 {
        let (hits, queries) = measure_recall_counts(8, 16, 64, 8, k, 8, 77);
        assert!(hits >= prev);
        if k == 0 {
            assert_eq!(hits, 0);
        }
        if k >= 8 {
            assert_eq!(hits, queries);
        }
        prev = hits;
    }
}
