use bitrag_theorems::corpus::{sample_doc, BitVec};
use bitrag_theorems::prng::XorShift64;

fn heavy_token_corpus(n: u64, w: u64, p: usize, seed: u64) -> Vec<BitVec> {
    let mut rng = XorShift64::new(seed);
    (0..n)
        .map(|_| {
            let mut bv = sample_doc(&mut rng, p, w.saturating_sub(1));
            bv.set(0);
            bv
        })
        .collect()
}

#[test]
fn family_8a_heavy_token_breaks_assumption_a1() {
    let n: u64 = 256;
    let w: u64 = 16;
    let p: u64 = 512;

    let corpus = heavy_token_corpus(n, w, p as usize, 0xa);

    let bit0_count = corpus.iter().filter(|d| d.get(0)).count();
    assert_eq!(bit0_count, corpus.len(), "heavy bit not actually heavy");

    let baseline = w as f64 / p as f64;
    let deviation = 1.0 - baseline;
    let sigma = (baseline * (1.0 - baseline) / n as f64).sqrt();
    assert!(
        deviation > 50.0 * sigma,
        "deviation {deviation} not >> {sigma}; (A1) violation not visible"
    );
}

#[test]
fn family_8b_planted_pair_breaks_assumption_a2() {
    let n: u64 = 64;
    let w: u64 = 4;
    let p: u64 = 256;

    let mut corpus: Vec<BitVec> = Vec::with_capacity(n as usize);
    let mut rng = XorShift64::new(0xc);
    let pairs = (n as usize) / 2;
    for i in 0..pairs {
        let mut a = sample_doc(&mut rng, p as usize, w.saturating_sub(1));
        a.set(i);
        let mut b = sample_doc(&mut rng, p as usize, w.saturating_sub(1));
        b.set(i);
        corpus.push(a);
        corpus.push(b);
    }

    for i in 0..pairs {
        let overlap = corpus[2 * i].and_popcount(&corpus[2 * i + 1]);
        assert!(
            overlap >= 1,
            "pair {i} has overlap {overlap}; planted bit missing"
        );
    }

    let mut total: u64 = 0;
    for i in 0..pairs {
        total += corpus[2 * i].and_popcount(&corpus[2 * i + 1]) as u64;
    }
    let mean_overlap = total as f64 / pairs as f64;
    let iid_expected = (w as f64) * (w as f64) / p as f64;
    assert!(
        mean_overlap >= 10.0 * iid_expected,
        "mean planted-pair overlap {mean_overlap} not >> i.i.d. baseline {iid_expected}"
    );
}
