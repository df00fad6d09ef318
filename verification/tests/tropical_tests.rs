use bitrag_theorems::tropical::{k_max, tropical_reconstruct, tropical_residual};

#[test]
fn k_max_corpus_1() {
    assert_eq!(k_max(32_768, 96, 4_194_304), 4_194_305);
}

#[test]
fn k_max_small_xi_clamps_to_p_plus_1() {
    assert_eq!(k_max(1, 1, 1024), 1024 + 1);
}

#[test]
fn k_max_grows_with_p() {
    let a = k_max(1_000, 100, 1_024);
    let b = k_max(1_000, 100, 4_096);
    assert!(b >= a);
}

#[test]
fn k_max_exact_values() {
    // xi >= 1: floor(p^2 / (n w)) + 1.
    assert_eq!(k_max(1_000, 100, 1_024), 11);
    assert_eq!(k_max(1_000, 100, 4_096), 168);
    // xi == 1 exactly: p + 1.
    assert_eq!(k_max(4, 16, 64), 65);
    // No weight at all.
    assert_eq!(k_max(0, 7, 10), 11);
    for p in 1..300u64 {
        assert!(k_max(37, 5, p) <= k_max(37, 5, p + 1));
        assert!(k_max(37, 5, p) >= 1 && k_max(37, 5, p) <= p + 1);
    }
}

#[test]
fn tropical_reconstruct_roundtrip() {
    let u: Vec<i64> = vec![1, 0, 2, 3, 0, 1];
    let v: Vec<i64> = vec![0, 1, 4, 0];
    let s = tropical_reconstruct(&u, &v, 3, 2, 2);
    assert_eq!(s, vec![1, 5, 4, 6, 2, 4]);
    assert_eq!(tropical_residual(&s, &u, &v, 3, 2, 2), 0);
}

#[test]
fn tropical_reconstruct_saturates_and_empty_rank() {
    let u: Vec<i64> = vec![i64::MAX, i64::MIN];
    let v: Vec<i64> = vec![5, -5];
    let s = tropical_reconstruct(&u, &v, 1, 1, 2);
    assert_eq!(s, vec![i64::MAX]);
    let s0 = tropical_reconstruct(&[], &[], 2, 2, 0);
    assert_eq!(s0, vec![i64::MIN; 4]);
}

#[test]
fn tropical_residual_is_sup_norm_over_common_prefix() {
    let u: Vec<i64> = vec![1, 0, 2, 3, 0, 1];
    let v: Vec<i64> = vec![0, 1, 4, 0];
    let s = vec![1, 2, 4, 9, 2, 4];
    assert_eq!(tropical_residual(&s, &u, &v, 3, 2, 2), 3);
    // Only the common prefix is compared.
    assert_eq!(tropical_residual(&[1, 5, 4], &u, &v, 3, 2, 2), 0);
    assert_eq!(tropical_residual(&[], &u, &v, 3, 2, 2), 0);
    assert_eq!(tropical_residual(&[-7, 5, 4, 6, 2, 4, 100], &u, &v, 3, 2, 2), 8);
}

#[test]
fn k_max_at_the_top_of_the_range() {
    assert_eq!(k_max(u64::MAX, 2, u64::MAX), u64::MAX / 2 + 1);
    assert_eq!(k_max(1, 1, u64::MAX - 1), u64::MAX);
}

#[test]
fn tropical_reconstruct_shifts_with_factor() {
    let u: Vec<i64> = vec![1, 0, 2, 3, 0, 1];
    let u2: Vec<i64> = u.iter().map(|x| x + 7).collect();
    let v: Vec<i64> = vec![0, 1, 4, 0];
    let s = tropical_reconstruct(&u, &v, 3, 2, 2);
    let s2 = tropical_reconstruct(&u2, &v, 3, 2, 2);
    for idx in 0..6 {
        assert_eq!(s2[idx], s[idx] + 7);
    }
}
