//! Corpora that deliberately violate the IID assumption (A1), and the
//! empirical recall@1 measurement used to compare them with Theorem B.

use vstd::prelude::*;
use crate::bits::{bit_of, limb_bit, and_count_below};
use crate::corpus::lemma_word_zero_iff;
use crate::splitmix::{SplitMix64, splitmix_state, splitmix_output, lemma_splitmix_state_next};
use crate::synth::{
    Corpus, doc_bit, generated_bit, recall_at_k, lemma_update_doc_bit, lemma_limb_of_bit,
    lemma_slot_bound,
};

verus! {

/// Fixed-point denominator of the recall measurements.
pub const DENOM: u64 = 1_000_000;

/// Seed offset of the column-copy stream of [`correlated_corpus`].
pub const CORRELATION_SALT: u64 = 0xC0FFEE;

/// Coin of column `b >= 1` of document `d`: output `d * (w - 1) + b` of
/// the `splitmix64` stream seeded with `seed ^ CORRELATION_SALT`, modulo
/// 1000, is below `gamma_milli`.
pub open spec fn correlated_coin(seed: u64, w: nat, gamma_milli: u64, d: nat, b: nat) -> bool {
    (splitmix_output(seed ^ CORRELATION_SALT, d * ((w - 1) as nat) + b) % 1000) < gamma_milli
}

/// Bit `b < w` of document `d` after the column copies: bit 0 is the
/// generated bit; bit `b` is a copy of (the final) bit `b - 1` when its
/// coin comes up, and the generated bit otherwise.
pub open spec fn correlated_bit(seed: u64, w: nat, p: nat, gamma_milli: u64, d: nat, b: nat) -> bool
    decreases b,
{
    if b == 0 {
        generated_bit(seed, w, p, d, 0)
    } else if correlated_coin(seed, w, gamma_milli, d, b) {
        correlated_bit(seed, w, p, gamma_milli, d, (b - 1) as nat)
    } else {
        generated_bit(seed, w, p, d, b)
    }
}

/// With `gamma_milli == 0` no column is ever copied: the corpus is the
/// one [`Corpus::new`] generates.
pub proof fn lemma_correlated_without_copies(seed: u64, w: nat, p: nat, d: nat, b: nat)
    ensures
        correlated_bit(seed, w, p, 0, d, b) == generated_bit(seed, w, p, d, b),
{
}

/// With `gamma_milli >= 1000` every column is copied from its left
/// neighbour: each document is constant, equal to its generated bit 0.
pub proof fn lemma_correlated_all_copies(seed: u64, w: nat, p: nat, gamma_milli: u64, d: nat, b: nat)
    requires
        gamma_milli >= 1000,
    ensures
        correlated_bit(seed, w, p, gamma_milli, d, b) == generated_bit(seed, w, p, d, 0),
    decreases b,
{
    if b > 0 {
        lemma_correlated_all_copies(seed, w, p, gamma_milli, d, (b - 1) as nat);
    }
}

proof fn lemma_words_equal_by_bits(x: u64, y: u64)
    requires
        forall|t: int| 0 <= t < 64 ==> bit_of(x, t) == bit_of(y, t),
    ensures
        x == y,
{
    let z = x ^ y;
    assert forall|t: int| 0 <= t < 64 implies !bit_of(z, t) by {
        let tt = t as u64;
        assert(((x ^ y) >> tt) & 1u64 == 1u64 <==> (((x >> tt) & 1u64 == 1u64) != ((y >> tt)
            & 1u64 == 1u64))) by (bit_vector)
            requires
                tt < 64,
        ;
        assert(bit_of(x, t) == bit_of(y, t));
        assert(bit_of(x, t) == ((x >> tt) & 1u64 == 1u64));
        assert(bit_of(y, t) == ((y >> tt) & 1u64 == 1u64));
        assert(bit_of(z, t) == (((x ^ y) >> tt) & 1u64 == 1u64));
    }
    lemma_word_zero_iff(z);
    assert(x ^ y == 0 ==> x == y) by (bit_vector);
}

/// Two corpora of the same shape whose bits agree have the same limbs.
pub proof fn lemma_bits_determine_docs(c1: Corpus, c2: Corpus)
    requires
        c1.well_formed(),
        c2.well_formed(),
        c1.n == c2.n,
        c1.words == c2.words,
        forall|d: int, b: int|
            0 <= d < c1.n && 0 <= b < 64 * c1.words ==> c1.bit(d, b) == c2.bit(d, b),
    ensures
        c1.docs@ == c2.docs@,
{
    let words = c1.words as int;
    assert forall|idx: int| 0 <= idx < c1.docs.len() implies c1.docs@[idx] == c2.docs@[idx] by {
        assert(words > 0) by (nonlinear_arith)
            requires
                0 <= idx < c1.n * words,
        ;
        let d = idx / words;
        let q = idx % words;
        vstd::arithmetic::div_mod::lemma_fundamental_div_mod(idx, words);
        vstd::arithmetic::div_mod::lemma_mod_bound(idx, words);
        vstd::arithmetic::div_mod::lemma_div_pos_is_pos(idx, words);
        assert(d < c1.n) by (nonlinear_arith)
            requires
                idx == words * d + q,
                0 <= q,
                idx < c1.n * words,
                words > 0,
        ;
        assert(d * words + q == idx) by (nonlinear_arith)
            requires
                idx == words * d + q,
        ;
        assert forall|t: int| 0 <= t < 64 implies bit_of(c1.docs@[idx], t) == bit_of(
            c2.docs@[idx],
            t,
        ) by {
            let b = 64 * q + t;
            vstd::arithmetic::div_mod::lemma_fundamental_div_mod_converse(b, 64, q, t);
            assert(b < 64 * words);
            assert(c1.bit(d, b) == c2.bit(d, b));
        }
        lemma_words_equal_by_bits(c1.docs@[idx], c2.docs@[idx]);
    }
    assert(c1.docs@ =~= c2.docs@);
}

/// With `gamma_milli == 0` the correlated corpus has exactly the limbs of
/// the corpus [`Corpus::new`] generates from the same seed.
pub proof fn lemma_correlated_without_copies_docs(seed: u64, c_gen: Corpus, c_cor: Corpus)
    requires
        c_gen.well_formed(),
        c_cor.well_formed(),
        c_gen.n == c_cor.n,
        c_gen.w == c_cor.w,
        c_gen.p == c_cor.p,
        forall|d: int, b: int|
            0 <= d < c_gen.n && 0 <= b < 64 * c_gen.words ==> c_gen.bit(d, b) == generated_bit(
                seed,
                c_gen.w as nat,
                c_gen.p as nat,
                d as nat,
                b as nat,
            ),
        forall|d: int, b: int|
            0 <= d < c_cor.n && 0 <= b < 64 * c_cor.words ==> c_cor.bit(d, b) == if b < c_cor.w {
                correlated_bit(seed, c_cor.w as nat, c_cor.p as nat, 0, d as nat, b as nat)
            } else {
                false
            },
    ensures
        c_gen.docs@ == c_cor.docs@,
{
    assert forall|d: int, b: int|
        0 <= d < c_gen.n && 0 <= b < 64 * c_gen.words implies c_gen.bit(d, b) == c_cor.bit(
        d,
        b,
    ) by {
        lemma_correlated_without_copies(seed, c_gen.w as nat, c_gen.p as nat, d as nat, b as nat);
    }
    lemma_bits_determine_docs(c_gen, c_cor);
}

proof fn lemma_mask_test(x: u64, o: u64)
    requires
        o < 64,
    ensures
        ((x & (1u64 << o)) != 0) == bit_of(x, o as int),
{
    assert(((x & (1u64 << o)) != 0) == ((x >> o) & 1u64 == 1u64)) by (bit_vector)
        requires
            o < 64,
    ;
}

/// Every bit of `c` before position `(d, bit)` in document-major order
/// holds its correlated value, every later bit its generated value.
#[verifier::opaque]
pub open spec fn copy_progress(
    c: Corpus,
    seed: u64,
    gamma_milli: u64,
    d: int,
    bit: int,
) -> bool {
    forall|d2: int, b2: int|
        0 <= d2 < c.n && 0 <= b2 < 64 * c.words ==> #[trigger] c.bit(d2, b2) == if (d2 < d || (d2
            == d && b2 < bit)) && b2 < c.w {
            correlated_bit(seed, c.w as nat, c.p as nat, gamma_milli, d2 as nat, b2 as nat)
        } else {
            generated_bit(seed, c.w as nat, c.p as nat, d2 as nat, b2 as nat)
        }
}

proof fn lemma_progress_read(c: Corpus, seed: u64, gamma_milli: u64, d: int, bit: int, d2: int, b2: int)
    requires
        copy_progress(c, seed, gamma_milli, d, bit),
        0 <= d2 < c.n,
        0 <= b2 < 64 * c.words,
    ensures
        c.bit(d2, b2) == if (d2 < d || (d2 == d && b2 < bit)) && b2 < c.w {
            correlated_bit(seed, c.w as nat, c.p as nat, gamma_milli, d2 as nat, b2 as nat)
        } else {
            generated_bit(seed, c.w as nat, c.p as nat, d2 as nat, b2 as nat)
        },
{
    reveal(copy_progress);
}

proof fn lemma_progress_next_row(c: Corpus, seed: u64, gamma_milli: u64, d: int)
    requires
        copy_progress(c, seed, gamma_milli, d, c.w as int),
        c.w <= 64 * c.words,
    ensures
        copy_progress(c, seed, gamma_milli, d + 1, 1),
{
    reveal(copy_progress);
    assert forall|d2: int, b2: int|
        0 <= d2 < c.n && 0 <= b2 < 64 * c.words implies #[trigger] c.bit(d2, b2) == if (d2 < d + 1
        || (d2 == d + 1 && b2 < 1)) && b2 < c.w {
        correlated_bit(seed, c.w as nat, c.p as nat, gamma_milli, d2 as nat, b2 as nat)
    } else {
        generated_bit(seed, c.w as nat, c.p as nat, d2 as nat, b2 as nat)
    } by {
        if d2 == d + 1 && b2 == 0 {
            assert(correlated_bit(seed, c.w as nat, c.p as nat, gamma_milli, d2 as nat, 0)
                == generated_bit(seed, c.w as nat, c.p as nat, d2 as nat, 0));
        }
    }
}

proof fn lemma_progress_step(
    before: Corpus,
    after: Corpus,
    seed: u64,
    gamma_milli: u64,
    d: int,
    bit: int,
    coin: bool,
    src_set: bool,
)
    requires
        before.well_formed(),
        after.n == before.n,
        after.w == before.w,
        after.p == before.p,
        after.words == before.words,
        0 <= d < before.n,
        1 <= bit < before.w,
        before.w <= 64 * before.words,
        copy_progress(before, seed, gamma_milli, d, bit),
        coin == correlated_coin(seed, before.w as nat, gamma_milli, d as nat, bit as nat),
        coin ==> src_set == before.bit(d, bit - 1),
        coin ==> after.docs@ == before.docs@.update(
            d * before.words + bit / 64,
            if src_set {
                before.docs@[d * before.words + bit / 64] | (1u64 << ((bit % 64) as u64))
            } else {
                before.docs@[d * before.words + bit / 64] & !(1u64 << ((bit % 64) as u64))
            },
        ),
        !coin ==> after.docs@ == before.docs@,
    ensures
        copy_progress(after, seed, gamma_milli, d, bit + 1),
{
    let w = before.w as nat;
    let p = before.p as nat;
    lemma_progress_read(before, seed, gamma_milli, d, bit, d, bit - 1);
    lemma_progress_read(before, seed, gamma_milli, d, bit, d, bit);
    if coin {
        lemma_update_doc_bit(
            before.docs@,
            after.docs@,
            before.words as nat,
            before.n as nat,
            d,
            bit,
            src_set,
        );
    }
    assert(correlated_bit(seed, w, p, gamma_milli, d as nat, bit as nat) == if coin {
        correlated_bit(seed, w, p, gamma_milli, d as nat, (bit - 1) as nat)
    } else {
        generated_bit(seed, w, p, d as nat, bit as nat)
    });
    reveal(copy_progress);
    assert forall|d2: int, b2: int|
        0 <= d2 < after.n && 0 <= b2 < 64 * after.words implies #[trigger] after.bit(d2, b2)
        == if (d2 < d || (d2 == d && b2 < bit + 1)) && b2 < after.w {
        correlated_bit(seed, w, p, gamma_milli, d2 as nat, b2 as nat)
    } else {
        generated_bit(seed, w, p, d2 as nat, b2 as nat)
    } by {
        lemma_progress_read(before, seed, gamma_milli, d, bit, d2, b2);
    }
}

/// A corpus with correlated columns: starting from [`Corpus::new`], for
/// every document and every column `b` in `1..w`, with probability
/// `gamma_milli / 1000` column `b` becomes a copy of column `b - 1`.
pub fn correlated_corpus(n: usize, w: usize, p: usize, gamma_milli: u64, seed: u64) -> (c: Corpus)
    requires
        w > 0,
        n > 0,
        w + 63 <= usize::MAX,
        n * ((w + 63) / 64) <= usize::MAX,
    ensures
        c.well_formed(),
        c.n == n,
        c.w == w,
        c.p == p,
        forall|d: int, b: int|
            0 <= d < n && 0 <= b < 64 * c.words ==> c.bit(d, b) == if b < w {
                correlated_bit(seed, w as nat, p as nat, gamma_milli, d as nat, b as nat)
            } else {
                false
            },
{
    let mut c = Corpus::new(n, w, p, seed);
    let words = c.words;
    let mut rng = SplitMix64::new(seed ^ CORRELATION_SALT);
    let ghost s2 = seed ^ CORRELATION_SALT;
    proof {
        assert(w <= 64 * words) by (nonlinear_arith)
            requires
                words == (w + 63) / 64,
                w > 0,
        {
            vstd::arithmetic::div_mod::lemma_fundamental_div_mod(w + 63, 64);
        }
        reveal(copy_progress);
        assert(copy_progress(c, seed, gamma_milli, 0, 1));
    }
    let mut d: usize = 0;
    while d < n
        invariant
            d <= n,
            c.well_formed(),
            c.n == n,
            c.w == w,
            c.p == p,
            c.words == words,
            words > 0,
            w <= 64 * words,
            rng.state() == splitmix_state(s2, (d * (w - 1)) as nat),
            s2 == seed ^ CORRELATION_SALT,
            copy_progress(c, seed, gamma_milli, d as int, 1),
        decreases n - d,
    {
        proof {
            lemma_slot_bound(d as int, 0, words as int, n as int);
        }
        let row_off = d * words;
        let mut bit: usize = 1;
        while bit < w
            invariant
                d < n,
                1 <= bit <= w,
                c.well_formed(),
                c.n == n,
                c.w == w,
                c.p == p,
                c.words == words,
                words > 0,
                w <= 64 * words,
                row_off == d * words,
                rng.state() == splitmix_state(s2, (d * (w - 1) + bit - 1) as nat),
                s2 == seed ^ CORRELATION_SALT,
                copy_progress(c, seed, gamma_milli, d as int, bit as int),
            decreases w - bit,
        {
            proof {
                lemma_splitmix_state_next(s2, (d * (w - 1) + bit - 1) as nat);
                lemma_limb_of_bit(bit as int, words as int);
                lemma_limb_of_bit(bit - 1, words as int);
                lemma_slot_bound(d as int, bit as int / 64, words as int, n as int);
                lemma_slot_bound(d as int, (bit - 1) as int / 64, words as int, n as int);
            }
            let ghost before = c;
            let coin = rng.bernoulli(gamma_milli, 1000);
            proof {
                let idx = (d * (w - 1) + bit - 1) as nat;
                assert(idx + 1 == d as nat * ((w - 1) as nat) + bit as nat);
                assert(rng.state() == splitmix_state(s2, idx + 1));
                assert(s2 == seed ^ CORRELATION_SALT);
            }
            assert(coin == correlated_coin(seed, w as nat, gamma_milli, d as nat, bit as nat));
            let mut src_set = false;
            if coin {
                let src_word = (bit - 1) / 64;
                let src_mask = 1u64 << (((bit - 1) % 64) as u64);
                src_set = (c.docs[row_off + src_word] & src_mask) != 0;
                proof {
                    lemma_mask_test(c.docs@[row_off + src_word], ((bit - 1) % 64) as u64);
                }
                let dst_word = bit / 64;
                let dst_mask = 1u64 << ((bit % 64) as u64);
                if src_set {
                    let x = c.docs[row_off + dst_word] | dst_mask;
                    c.docs.set(row_off + dst_word, x);
                } else {
                    let x = c.docs[row_off + dst_word] & !dst_mask;
                    c.docs.set(row_off + dst_word, x);
                }
            }
            proof {
                lemma_progress_step(before, c, seed, gamma_milli, d as int, bit as int, coin, src_set);
            }
            bit = bit + 1;
        }
        proof {
            assert(d * (w - 1) + (w - 1) == (d + 1) * (w - 1)) by (nonlinear_arith);
            lemma_progress_next_row(c, seed, gamma_milli, d as int);
        }
        d = d + 1;
    }
    proof {
        assert forall|d2: int, b2: int| 0 <= d2 < n && 0 <= b2 < 64 * c.words implies c.bit(d2, b2)
            == if b2 < w {
            correlated_bit(seed, w as nat, p as nat, gamma_milli, d2 as nat, b2 as nat)
        } else {
            false
        } by {
            lemma_progress_read(c, seed, gamma_milli, n as int, 1, d2, b2);
        }
    }
    c
}

/// The stream position just before query `t`: each query draws one word
/// for the target document and one mask word per limb.
pub open spec fn query_base(words: nat, t: nat) -> nat {
    t * (1 + words)
}

/// Target document of query `t`.
pub open spec fn query_truth(c: Corpus, seed: u64, t: nat) -> int {
    ((splitmix_output(seed, query_base(c.words as nat, t) + 1) as usize) % c.n) as int
}

/// Query `t`: the target document with every limb AND-ed with a fresh
/// random mask (keeping about half of its bits).
pub open spec fn masked_query(c: Corpus, seed: u64, t: nat) -> Seq<u64> {
    let truth = query_truth(c, seed, t);
    Seq::new(
        c.words as nat,
        |j: int| c.doc_limbs(truth)[j] & splitmix_output(seed, query_base(c.words as nat, t) + 2 + j as nat),
    )
}

/// Number of the first `m` queries whose target ranks first.
pub open spec fn masked_hits(c: Corpus, seed: u64, m: nat) -> nat
    decreases m,
{
    if m == 0 {
        0
    } else {
        let t = (m - 1) as nat;
        masked_hits(c, seed, t) + if c.in_top_k(masked_query(c, seed, t), query_truth(c, seed, t), 1) {
            1nat
        } else {
            0nat
        }
    }
}

/// Every pairwise AND-popcount of the corpus fits in a `u32`.
pub open spec fn gram_fits_u32(c: Corpus) -> bool {
    forall|i: int, j: int| 0 <= i < c.n && 0 <= j < c.n ==> #[trigger] c.gram(i, j) <= u32::MAX
}

proof fn lemma_and_count_subset(a: Seq<u64>, b1: Seq<u64>, b2: Seq<u64>, n: nat)
    requires
        forall|i: int| 0 <= i < n && limb_bit(b1, i) ==> limb_bit(b2, i),
    ensures
        and_count_below(a, b1, n) <= and_count_below(a, b2, n),
    decreases n,
{
    if n > 0 {
        lemma_and_count_subset(a, b1, b2, (n - 1) as nat);
    }
}

/// Every query `t < m` scores within `u32` against every document: the
/// condition under which the recall measurement cannot overflow.
pub open spec fn masked_scores_fit(c: Corpus, seed: u64, m: nat) -> bool {
    forall|t: nat, i: int|
        t < m && 0 <= i < c.n ==> #[trigger] c.score(masked_query(c, seed, t), i) <= u32::MAX
}

/// A masked query keeps a subset of its target's bits, so it never scores
/// above the target's own AND-popcount with a document.
pub proof fn lemma_masked_query_score(c: Corpus, seed: u64, t: nat, i: int)
    requires
        c.well_formed(),
        0 <= i < c.n,
    ensures
        c.score(masked_query(c, seed, t), i) <= c.gram(i, query_truth(c, seed, t)),
{
    let truth = query_truth(c, seed, t);
    let base = query_base(c.words as nat, t);
    let q = masked_query(c, seed, t);
    assert forall|b: int| 0 <= b < 64 * c.words && limb_bit(q, b) implies limb_bit(
        c.doc_limbs(truth),
        b,
    ) by {
        lemma_limb_of_bit(b, c.words as int);
        let x = c.doc_limbs(truth)[b / 64];
        let y = splitmix_output(seed, base + 2 + (b / 64) as nat);
        let o = (b % 64) as u64;
        assert(((x & y) >> o) & 1u64 == 1u64 ==> (x >> o) & 1u64 == 1u64) by (bit_vector);
    }
    lemma_and_count_subset(c.doc_limbs(i), q, c.doc_limbs(truth), 64 * c.words as nat);
}

/// When every pairwise AND-popcount fits in a `u32`, so does every masked
/// query's score.
pub proof fn lemma_gram_bound_covers_queries(c: Corpus, seed: u64, m: nat)
    requires
        c.well_formed(),
        gram_fits_u32(c),
    ensures
        masked_scores_fit(c, seed, m),
{
    assert forall|t: nat, i: int| t < m && 0 <= i < c.n implies #[trigger] c.score(
        masked_query(c, seed, t),
        i,
    ) <= u32::MAX by {
        lemma_masked_query_score(c, seed, t, i);
        assert(c.gram(i, query_truth(c, seed, t)) <= u32::MAX);
    }
}

/// At most `m` of the first `m` queries hit.
pub proof fn lemma_masked_hits_bound(c: Corpus, seed: u64, m: nat)
    ensures
        masked_hits(c, seed, m) <= m,
    decreases m,
{
    if m > 0 {
        lemma_masked_hits_bound(c, seed, (m - 1) as nat);
    }
}

/// Empirical recall@1 in fixed point (denominator [`DENOM`]) over
/// `queries` queries, each a randomly masked copy of a random target
/// document, all drawn from the `splitmix64` stream seeded with `seed`.
pub fn empirical_recall(c: &Corpus, queries: usize, seed: u64) -> (r: u64)
    requires
        c.well_formed(),
        masked_scores_fit(*c, seed, queries as nat),
        queries > 0,
        masked_hits(*c, seed, queries as nat) * DENOM <= u64::MAX,
    ensures
        r == masked_hits(*c, seed, queries as nat) * DENOM / (queries as int),
{
    let mut rng = SplitMix64::new(seed);
    let mut hits: u64 = 0;
    let mut t: usize = 0;
    while t < queries
        invariant
            c.well_formed(),
            masked_scores_fit(*c, seed, queries as nat),
            masked_hits(*c, seed, queries as nat) * DENOM <= u64::MAX,
            t <= queries,
            rng.state() == splitmix_state(seed, query_base(c.words as nat, t as nat)),
            hits == masked_hits(*c, seed, t as nat),
            hits <= t,
        decreases queries - t,
    {
        let ghost base = query_base(c.words as nat, t as nat);
        proof {
            lemma_splitmix_state_next(seed, base);
        }
        let truth = (rng.next_u64() as usize) % c.n;
        let doc = c.doc(truth);
        let mut q: Vec<u64> = Vec::new();
        let mut j: usize = 0;
        while j < c.words
            invariant
                c.well_formed(),
                truth < c.n,
                truth == query_truth(*c, seed, t as nat),
                doc@ == c.doc_limbs(truth as int),
                doc@.len() == c.words,
                j <= c.words,
                q.len() == j,
                rng.state() == splitmix_state(seed, (base + 1 + j) as nat),
                base == query_base(c.words as nat, t as nat),
                forall|i: int| 0 <= i < j ==> q@[i] == masked_query(*c, seed, t as nat)[i],
            decreases c.words - j,
        {
            proof {
                lemma_splitmix_state_next(seed, (base + 1 + j) as nat);
            }
            let mask = rng.next_u64();
            q.push(doc[j] & mask);
            j = j + 1;
        }
        proof {
            assert(q@ =~= masked_query(*c, seed, t as nat));
            assert(base + 1 + c.words == query_base(c.words as nat, (t + 1) as nat)) by (nonlinear_arith)
                requires
                    base == t * (1 + c.words),
            ;
            assert forall|i: int| 0 <= i < c.n implies #[trigger] c.score(q@, i) <= u32::MAX by {
                assert(c.score(masked_query(*c, seed, t as nat), i) <= u32::MAX);
            }
        }
        if recall_at_k(c, q.as_slice(), truth, 1) {
            hits = hits + 1;
        }
        t = t + 1;
    }
    (hits * DENOM) / queries as u64
}

/// Overwrite documents `start..n` with copies of document 0, making that
/// part of the corpus zero-entropy duplicates.
pub fn duplicate_first_doc(c: &mut Corpus, start: usize)
    requires
        old(c).well_formed(),
    ensures
        final(c).well_formed(),
        final(c).n == old(c).n,
        final(c).w == old(c).w,
        final(c).p == old(c).p,
        final(c).words == old(c).words,
        forall|d: int|
            0 <= d < old(c).n ==> #[trigger] final(c).doc_limbs(d) == if d >= start {
                old(c).doc_limbs(0)
            } else {
                old(c).doc_limbs(d)
            },
{
    let words = c.words;
    let n = c.n;
    let ghost c0 = *c;
    let mut template: Vec<u64> = Vec::new();
    let mut j: usize = 0;
    proof {
        c0.lemma_doc_limbs_len(0);
    }
    while j < words
        invariant
            words == c.words,
            n == c.n,
            c0 == *c,
            c.well_formed(),
            j <= words,
            template.len() == j,
            forall|i: int| 0 <= i < j ==> template@[i] == c0.doc_limbs(0)[i],
            c0.doc_limbs(0).len() == words,
            words <= c.docs.len(),
            forall|q: int| 0 <= q < words ==> #[trigger] c0.doc_limbs(0)[q] == c0.docs@[0 * words + q],
        decreases words - j,
    {
        assert(0 * words + j == j);
        assert(c0.doc_limbs(0)[j as int] == c0.docs@[0 * words + j]);
        template.push(c.docs[j]);
        j = j + 1;
    }
    let mut d: usize = start;
    while d < n
        invariant
            words == c.words,
            n == c.n,
            c.well_formed(),
            c.w == c0.w,
            c.p == c0.p,
            c0.well_formed(),
            c0.n == n,
            c0.words == words,
            template@ == c0.doc_limbs(0),
            template.len() == words,
            d >= start,
            forall|d2: int|
                0 <= d2 < n ==> #[trigger] c.doc_limbs(d2) == if start <= d2 < d {
                    c0.doc_limbs(0)
                } else {
                    c0.doc_limbs(d2)
                },
        decreases n - d,
    {
        proof {
            lemma_slot_bound(d as int, 0, words as int, n as int);
        }
        let row_off = d * words;
        let mut k: usize = 0;
        while k < words
            invariant
                words == c.words,
                n == c.n,
                c.well_formed(),
                c.w == c0.w,
                c.p == c0.p,
                start <= d < n,
                row_off == d * words,
                template.len() == words,
                k <= words,
                forall|d2: int|
                    0 <= d2 < n && d2 != d ==> #[trigger] c.doc_limbs(d2) == if start <= d2 < d {
                        c0.doc_limbs(0)
                    } else {
                        c0.doc_limbs(d2)
                    },
                forall|q: int| 0 <= q < k ==> #[trigger] c.doc_limbs(d as int)[q] == template@[q],
            decreases words - k,
        {
            let ghost before = *c;
            proof {
                before.lemma_doc_limbs_len(d as int);
                lemma_slot_bound(d as int, k as int, words as int, n as int);
            }
            c.docs.set(row_off + k, template[k]);
            proof {
                c.lemma_doc_limbs_len(d as int);
                assert forall|d2: int| 0 <= d2 < n && d2 != d implies #[trigger] c.doc_limbs(d2)
                    == before.doc_limbs(d2) by {
                    before.lemma_doc_limbs_len(d2);
                    c.lemma_doc_limbs_len(d2);
                    assert forall|q: int| 0 <= q < words implies c.doc_limbs(d2)[q]
                        == before.doc_limbs(d2)[q] by {
                        lemma_slot_bound(d2, q, words as int, n as int);
                        if d2 * words + q == d * words + k {
                            crate::synth::lemma_slot_unique(d2, q, d as int, k as int, words as int);
                        }
                    }
                    assert(c.doc_limbs(d2) =~= before.doc_limbs(d2));
                }
                assert forall|q: int| 0 <= q < k + 1 implies #[trigger] c.doc_limbs(d as int)[q]
                    == template@[q] by {
                    lemma_slot_bound(d as int, q, words as int, n as int);
                    if q < k {
                        assert(before.doc_limbs(d as int)[q] == template@[q]);
                        assert(before.doc_limbs(d as int)[q] == before.docs@[d * words + q]);
                    }
                    assert(c.doc_limbs(d as int)[q] == c.docs@[d * words + q]);
                }
            }
            k = k + 1;
        }
        proof {
            c.lemma_doc_limbs_len(d as int);
            assert(c.doc_limbs(d as int) =~= template@);
        }
        d = d + 1;
    }
}

} // verus!
