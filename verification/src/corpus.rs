//! Bit-vectors with AND-popcount scoring, synthetic document sampling
//! and the integer part of the empirical recall@k measurement.

use vstd::prelude::*;
use crate::bits::{bit_of, limb_bit, count_both, limbs_and_popcount, lemma_count_both_limbs};
use crate::prng::{XorShift64, xorshift_iter};

verus! {

proof fn lemma_zero_bits(t: u64)
    requires
        t < 64,
    ensures
        !bit_of(0u64, t as int),
{
    assert((0u64 >> t) & 1u64 != 1u64) by (bit_vector);
}

proof fn lemma_or_set_bit(x: u64, off: u64, t: u64)
    requires
        off < 64,
        t < 64,
    ensures
        bit_of(x | (1u64 << off), t as int) == (t == off || bit_of(x, t as int)),
{
    assert(((x | (1u64 << off)) >> t) & 1u64 == 1u64 <==> (t == off || (x >> t) & 1u64 == 1u64))
        by (bit_vector)
        requires
            off < 64,
            t < 64,
    ;
}

proof fn lemma_or_bits(x: u64, y: u64, t: u64)
    requires
        t < 64,
    ensures
        bit_of(x | y, t as int) == (bit_of(x, t as int) || bit_of(y, t as int)),
{
    assert(((x | y) >> t) & 1u64 == 1u64 <==> ((x >> t) & 1u64 == 1u64 || (y >> t) & 1u64
        == 1u64)) by (bit_vector)
        requires
            t < 64,
    ;
}

/// A word all of whose bits at positions `s..64` are clear, shifted right
/// by `s`, is zero.
proof fn lemma_high_bits_clear(x: u64, s: u64)
    requires
        s <= 64,
        forall|t: int| s <= t < 64 ==> !bit_of(x, t),
    ensures
        s < 64 ==> x >> s == 0,
    decreases 64 - s,
{
    if s < 64 {
        lemma_high_bits_clear(x, (s + 1) as u64);
        assert(!bit_of(x, s as int));
        let s1 = (s + 1) as u64;
        assert(s < 64 && (s1 == 64 || x >> s1 == 0) && s1 == s + 1 && (x >> s) & 1u64 != 1u64
            ==> x >> s == 0) by (bit_vector);
    }
}

/// A word is zero exactly when none of its 64 bits is set.
pub proof fn lemma_word_zero_iff(x: u64)
    ensures
        x == 0 <==> forall|t: int| 0 <= t < 64 ==> !bit_of(x, t),
{
    if x == 0 {
        assert forall|t: int| 0 <= t < 64 implies !bit_of(x, t) by {
            lemma_zero_bits(t as u64);
        }
    }
    if forall|t: int| 0 <= t < 64 ==> !bit_of(x, t) {
        lemma_high_bits_clear(x, 0);
        assert(x >> 0u64 == 0 ==> x == 0) by (bit_vector);
    }
}

proof fn lemma_index_in_limb(i: int, p: int)
    requires
        0 <= i < p,
        p % 64 == 0,
    ensures
        0 <= i / 64 < p / 64,
        0 <= i % 64 < 64,
{
    vstd::arithmetic::div_mod::lemma_div_is_ordered(i, p - 1, 64);
    vstd::arithmetic::div_mod::lemma_fundamental_div_mod(p, 64);
    vstd::arithmetic::div_mod::lemma_fundamental_div_mod(i, 64);
    vstd::arithmetic::div_mod::lemma_mod_bound(i, 64);
    assert(i / 64 < p / 64) by (nonlinear_arith)
        requires
            i < p,
            p == 64 * (p / 64),
            i == 64 * (i / 64) + i % 64,
            0 <= i % 64,
    ;
}

/// A bit-vector of `p` bits (`p` a positive multiple of 64), stored as
/// `p / 64` limbs of 64 bits.
#[derive(Clone, Debug)]
pub struct BitVec {
    p: usize,
    limbs: Vec<u64>,
}

impl View for BitVec {
    type V = Seq<bool>;

    /// Bit `i` of the vector, for `i < p`.
    closed spec fn view(&self) -> Seq<bool> {
        Seq::new(self.p as nat, |i: int| limb_bit(self.limbs@, i))
    }
}

impl BitVec {
    /// The limb count matches the width, which is a positive multiple of 64.
    pub closed spec fn well_formed(&self) -> bool {
        &&& self.p > 0
        &&& self.p % 64 == 0
        &&& self.limbs.len() == self.p / 64
    }

    /// Allocate an all-zero bit-vector of length `p`.
    pub fn zeros(p: usize) -> (r: Self)
        requires
            p > 0,
            p % 64 == 0,
        ensures
            r.well_formed(),
            r@ == Seq::new(p as nat, |i: int| false),
    {
        let mut limbs: Vec<u64> = Vec::new();
        let nl = p / 64;
        let mut k: usize = 0;
        while k < nl
            invariant
                k <= nl,
                limbs.len() == k,
                forall|j: int| 0 <= j < k ==> limbs@[j] == 0u64,
            decreases nl - k,
        {
            limbs.push(0u64);
            k = k + 1;
        }
        let r = BitVec { p, limbs };
        proof {
            assert forall|i: int| 0 <= i < p implies !limb_bit(r.limbs@, i) by {
                lemma_index_in_limb(i, p as int);
                lemma_zero_bits((i % 64) as u64);
            }
        }
        assert(r@ =~= Seq::new(p as nat, |i: int| false));
        r
    }

    /// Set bit `bit_idx` to 1.
    pub fn set(&mut self, bit_idx: usize)
        requires
            old(self).well_formed(),
            bit_idx < old(self)@.len(),
        ensures
            final(self).well_formed(),
            final(self)@ == old(self)@.update(bit_idx as int, true),
    {
        proof {
            lemma_index_in_limb(bit_idx as int, self.p as int);
        }
        let ghost old_limbs = self.limbs@;
        let limb = bit_idx / 64;
        let off = bit_idx % 64;
        let x = self.limbs[limb] | (1u64 << (off as u64));
        self.limbs.set(limb, x);
        proof {
            assert forall|i: int| 0 <= i < self.p implies limb_bit(self.limbs@, i) == (if i
                == bit_idx {
                true
            } else {
                limb_bit(old_limbs, i)
            }) by {
                lemma_index_in_limb(i, self.p as int);
                if i / 64 == limb as int {
                    lemma_or_set_bit(old_limbs[limb as int], off as u64, (i % 64) as u64);
                    vstd::arithmetic::div_mod::lemma_fundamental_div_mod(i, 64);
                    vstd::arithmetic::div_mod::lemma_fundamental_div_mod(bit_idx as int, 64);
                }
            }
        }
        assert(self@ =~= old(self)@.update(bit_idx as int, true));
    }

    /// Read bit `bit_idx`.
    pub fn get(&self, bit_idx: usize) -> (b: bool)
        requires
            self.well_formed(),
            bit_idx < self@.len(),
        ensures
            b == self@[bit_idx as int],
    {
        proof {
            lemma_index_in_limb(bit_idx as int, self.p as int);
        }
        let limb = bit_idx / 64;
        let off = bit_idx % 64;
        (self.limbs[limb] >> (off as u64)) & 1 == 1
    }

    /// `popcount(self & other)`: the number of positions at which both
    /// vectors have a set bit.
    pub fn and_popcount(&self, other: &BitVec) -> (r: u32)
        requires
            self.well_formed(),
            other.well_formed(),
            self@.len() == other@.len(),
            count_both(self@, other@, self@.len()) <= u32::MAX,
        ensures
            r == count_both(self@, other@, self@.len()),
    {
        proof {
            lemma_count_both_limbs(self@, other@, self.limbs@, other.limbs@, self.p as nat);
            vstd::arithmetic::div_mod::lemma_fundamental_div_mod(self.p as int, 64);
        }
        limbs_and_popcount(self.limbs.as_slice(), other.limbs.as_slice())
    }

    /// In-place bit-wise OR (`self |= other`).
    pub fn or_assign(&mut self, other: &BitVec)
        requires
            old(self).well_formed(),
            other.well_formed(),
            old(self)@.len() == other@.len(),
        ensures
            final(self).well_formed(),
            final(self)@ == Seq::new(old(self)@.len(), |i: int| old(self)@[i] || other@[i]),
    {
        let ghost old_limbs = self.limbs@;
        let n = self.limbs.len();
        let mut k: usize = 0;
        while k < n
            invariant
                n == self.limbs.len(),
                n == other.limbs.len(),
                n == old_limbs.len(),
                self.p == old(self).p,
                self.p > 0,
                self.p % 64 == 0,
                n == self.p / 64,
                k <= n,
                forall|j: int| 0 <= j < k ==> self.limbs@[j] == old_limbs[j] | other.limbs@[j],
                forall|j: int| k <= j < n ==> self.limbs@[j] == old_limbs[j],
            decreases n - k,
        {
            let x = self.limbs[k] | other.limbs[k];
            self.limbs.set(k, x);
            k = k + 1;
        }
        proof {
            assert forall|i: int| 0 <= i < self.p implies limb_bit(self.limbs@, i) == (limb_bit(
                old_limbs,
                i,
            ) || limb_bit(other.limbs@, i)) by {
                lemma_index_in_limb(i, self.p as int);
                lemma_or_bits(old_limbs[i / 64], other.limbs@[i / 64], (i % 64) as u64);
            }
        }
        assert(self@ =~= Seq::new(old(self)@.len(), |i: int| old(self)@[i] || other@[i]));
    }

    /// Plane width in bits.
    pub fn len(&self) -> (r: usize)
        requires
            self.well_formed(),
        ensures
            r == self@.len(),
            r > 0,
            r % 64 == 0,
    {
        self.p
    }

    /// `true` if every bit is zero.
    pub fn is_empty(&self) -> (b: bool)
        requires
            self.well_formed(),
        ensures
            b == (forall|i: int| 0 <= i < self@.len() ==> !self@[i]),
    {
        let n = self.limbs.len();
        let mut k: usize = 0;
        while k < n
            invariant
                n == self.limbs.len(),
                n == self.p / 64,
                self.p % 64 == 0,
                k <= n,
                forall|j: int| 0 <= j < k ==> self.limbs@[j] == 0u64,
            decreases n - k,
        {
            if self.limbs[k] != 0 {
                proof {
                    lemma_word_zero_iff(self.limbs@[k as int]);
                    let t = choose|t: int| 0 <= t < 64 && bit_of(self.limbs@[k as int], t);
                    let i = 64 * k + t;
                    vstd::arithmetic::div_mod::lemma_fundamental_div_mod_converse(
                        i,
                        64,
                        k as int,
                        t,
                    );
                    vstd::arithmetic::div_mod::lemma_fundamental_div_mod(self.p as int, 64);
                    assert(0 <= i < self@.len());
                    assert(self@[i]);
                }
                return false;
            }
            k = k + 1;
        }
        proof {
            assert forall|i: int| 0 <= i < self@.len() implies !self@[i] by {
                lemma_index_in_limb(i, self.p as int);
                lemma_zero_bits((i % 64) as u64);
            }
        }
        true
    }
}


/// Threshold against which each PRNG output is compared when sampling a
/// document of expected weight `w` over `p` bits: `floor(w * 2^64 / p)`,
/// capped at `u64::MAX`.
pub open spec fn sample_threshold(p: nat, w: u64) -> u64 {
    let t = (w as int * 0x1_0000_0000_0000_0000int) / (p as int);
    if t > u64::MAX as int {
        u64::MAX
    } else {
        t as u64
    }
}

/// The document sampled from generator state `state`: bit `i` is set
/// exactly when the `(i + 1)`-th output is below the threshold.
pub open spec fn sampled_bits(state: u64, p: nat, w: u64) -> Seq<bool> {
    Seq::new(p, |i: int| xorshift_iter(state, (i + 1) as nat) < sample_threshold(p, w))
}

/// Sample a random F2-encoded document of plane width `p` and expected
/// weight `w`: each bit is set independently with probability `w / p`,
/// driven by `p` consecutive outputs of `rng`.
pub fn sample_doc(rng: &mut XorShift64, p: usize, w: u64) -> (bv: BitVec)
    requires
        p > 0,
        p % 64 == 0,
    ensures
        bv.well_formed(),
        bv@ == sampled_bits(old(rng).state(), p as nat, w),
        final(rng).state() == xorshift_iter(old(rng).state(), p as nat),
{
    let ghost s0 = rng.state();
    let mut bv = BitVec::zeros(p);
    assert(((w as u128) << 64u128) == (w as u128) * 0x1_0000_0000_0000_0000u128) by (bit_vector);
    let t: u128 = ((w as u128) << 64u128) / (p as u128);
    let threshold: u64 = if t > u64::MAX as u128 {
        u64::MAX
    } else {
        t as u64
    };
    assert(threshold == sample_threshold(p as nat, w));
    let mut i: usize = 0;
    while i < p
        invariant
            i <= p,
            bv.well_formed(),
            bv@.len() == p,
            threshold == sample_threshold(p as nat, w),
            rng.state() == xorshift_iter(s0, i as nat),
            forall|j: int| 0 <= j < i ==> bv@[j] == sampled_bits(s0, p as nat, w)[j],
            forall|j: int| i <= j < p ==> !bv@[j],
        decreases p - i,
    {
        let x = rng.next_u64();
        if x < threshold {
            bv.set(i);
        }
        i = i + 1;
    }
    assert(bv@ =~= sampled_bits(s0, p as nat, w));
    bv
}

/// Document `d` of the synthetic corpus drawn from `seed`: documents are
/// sampled one after the other, each consuming `p` outputs.
pub open spec fn corpus_doc(seed: u64, p: nat, w: u64, d: nat) -> Seq<bool> {
    sampled_bits(xorshift_iter(seed, d * p), p, w)
}

/// Query `q`: corpus document `q` OR-ed with a noise document of weight
/// `noise_w`, sampled after the `n` corpus documents and the `q` earlier
/// noise documents.
pub open spec fn query_doc(seed: u64, n: nat, p: nat, w: u64, noise_w: u64, q: nat) -> Seq<bool> {
    let doc = corpus_doc(seed, p, w, q);
    let noise = sampled_bits(xorshift_iter(seed, (n + q) * p), p, noise_w);
    Seq::new(p, |i: int| doc[i] || noise[i])
}

/// AND-popcount score of query `q` against corpus document `d`.
pub open spec fn query_score(seed: u64, n: nat, p: nat, w: u64, noise_w: u64, q: nat, d: nat) -> nat {
    count_both(query_doc(seed, n, p, w, noise_w, q), corpus_doc(seed, p, w, d), p)
}

/// Number of documents `j < m`, other than `q`, whose score against query
/// `q` is strictly above that of document `q`.
pub open spec fn beaten_count(
    seed: u64,
    n: nat,
    p: nat,
    w: u64,
    noise_w: u64,
    q: nat,
    m: nat,
) -> nat
    decreases m,
{
    if m == 0 {
        0
    } else {
        let j = (m - 1) as nat;
        beaten_count(seed, n, p, w, noise_w, q, j) + if j != q && query_score(
            seed,
            n,
            p,
            w,
            noise_w,
            q,
            j,
        ) > query_score(seed, n, p, w, noise_w, q, q) {
            1nat
        } else {
            0nat
        }
    }
}

/// Number of queries `q < m` whose relevant document is beaten by fewer
/// than `k` other documents, i.e. appears in the top `k`.
pub open spec fn recall_hits(
    seed: u64,
    n: nat,
    p: nat,
    w: u64,
    noise_w: u64,
    k: nat,
    m: nat,
) -> nat
    decreases m,
{
    if m == 0 {
        0
    } else {
        let q = (m - 1) as nat;
        recall_hits(seed, n, p, w, noise_w, k, q) + if beaten_count(seed, n, p, w, noise_w, q, n)
            < k {
            1nat
        } else {
            0nat
        }
    }
}

proof fn lemma_beaten_monotone(
    seed: u64,
    n: nat,
    p: nat,
    w: u64,
    noise_w: u64,
    q: nat,
    a: nat,
    b: nat,
)
    requires
        a <= b,
    ensures
        beaten_count(seed, n, p, w, noise_w, q, a) <= beaten_count(seed, n, p, w, noise_w, q, b),
        beaten_count(seed, n, p, w, noise_w, q, b) <= b,
    decreases b,
{
    if b > 0 {
        lemma_beaten_monotone(seed, n, p, w, noise_w, q, if a == b {
            (b - 1) as nat
        } else {
            a
        }, (b - 1) as nat);
    }
}

/// Asking for a larger `k` never loses a hit; `k = 0` hits nothing; with
/// `k >= n` every query hits.
pub proof fn lemma_recall_hits_in_k(
    seed: u64,
    n: nat,
    p: nat,
    w: u64,
    noise_w: u64,
    k1: nat,
    k2: nat,
    m: nat,
)
    requires
        k1 <= k2,
    ensures
        recall_hits(seed, n, p, w, noise_w, k1, m) <= recall_hits(seed, n, p, w, noise_w, k2, m),
        recall_hits(seed, n, p, w, noise_w, 0, m) == 0,
        m <= n && n <= k2 ==> recall_hits(seed, n, p, w, noise_w, k2, m) == m,
    decreases m,
{
    if m > 0 {
        lemma_recall_hits_in_k(seed, n, p, w, noise_w, k1, k2, (m - 1) as nat);
        let q = (m - 1) as nat;
        if m <= n && n <= k2 {
            lemma_beaten_excludes_self(seed, n, p, w, noise_w, q, n);
        }
    }
}

proof fn lemma_beaten_excludes_self(
    seed: u64,
    n: nat,
    p: nat,
    w: u64,
    noise_w: u64,
    q: nat,
    b: nat,
)
    requires
        q < b,
    ensures
        beaten_count(seed, n, p, w, noise_w, q, b) < b,
    decreases b,
{
    if b - 1 > q {
        lemma_beaten_excludes_self(seed, n, p, w, noise_w, q, (b - 1) as nat);
    } else {
        lemma_beaten_monotone(seed, n, p, w, noise_w, q, q, q);
    }
}

/// Build a synthetic corpus of `n` documents of expected weight `w` over
/// `p` bits, and for each of the first `min(n_queries, n)` documents a
/// query (the document OR-ed with noise of expected weight `noise_w`).
/// Returns `(hits, queries)`: the number of queries whose relevant
/// document appears in the top `k` of the score-sorted list (fewer than
/// `k` documents score strictly higher), and the number of queries.
/// The empirical recall@k is `hits / queries`.
pub fn measure_recall_counts(
    n: u64,
    w: u64,
    p: u64,
    n_queries: u64,
    k: u32,
    noise_w: u64,
    seed: u64,
) -> (r: (u64, u64))
    requires
        seed != 0,
        n > 0 ==> 0 < p <= usize::MAX && p % 64 == 0,
        n <= usize::MAX,
        forall|q: nat, d: nat|
            q < n && q < n_queries && d < n ==> #[trigger] query_score(
                seed,
                n as nat,
                p as nat,
                w,
                noise_w,
                q,
                d,
            ) <= u32::MAX,
    ensures
        r.1 == if n_queries < n {
            n_queries
        } else {
            n
        },
        r.0 == recall_hits(seed, n as nat, p as nat, w, noise_w, k as nat, r.1 as nat),
{
    if n == 0 {
        return (0, 0);
    }
    let p_us = p as usize;
    let mut rng = XorShift64::new(seed);
    let mut corpus: Vec<BitVec> = Vec::new();
    let mut d: u64 = 0;
    while d < n
        invariant
            d <= n,
            n <= usize::MAX,
            p_us == p,
            p > 0,
            p % 64 == 0,
            corpus.len() == d,
            rng.state() == xorshift_iter(seed, (d * p) as nat),
            forall|j: int|
                0 <= j < d ==> (#[trigger] corpus@[j]).well_formed() && corpus@[j]@
                    == corpus_doc(seed, p as nat, w, j as nat),
        decreases n - d,
    {
        let doc = sample_doc(&mut rng, p_us, w);
        proof {
            crate::prng::lemma_iter_add(seed, (d * p) as nat, p as nat);
            assert((d * p) as nat + p as nat == ((d + 1) * p) as nat) by (nonlinear_arith);
        }
        corpus.push(doc);
        d = d + 1;
    }
    let nq: u64 = if n_queries < n {
        n_queries
    } else {
        n
    };
    let mut hits: u64 = 0;
    let mut q: u64 = 0;
    while q < nq
        invariant
            q <= nq,
            nq <= n,
            nq <= n_queries,
            n <= usize::MAX,
            p_us == p,
            p > 0,
            p % 64 == 0,
            corpus.len() == n,
            rng.state() == xorshift_iter(seed, ((n + q) * p) as nat),
            forall|j: int|
                0 <= j < n ==> (#[trigger] corpus@[j]).well_formed() && corpus@[j]@
                    == corpus_doc(seed, p as nat, w, j as nat),
            forall|q: nat, d: nat|
                q < n && q < n_queries && d < n ==> #[trigger] query_score(
                    seed,
                    n as nat,
                    p as nat,
                    w,
                    noise_w,
                    q,
                    d,
                ) <= u32::MAX,
            hits == recall_hits(seed, n as nat, p as nat, w, noise_w, k as nat, q as nat),
            hits <= q,
        decreases nq - q,
    {
        let qi = q as usize;
        let mut query = sample_doc(&mut rng, p_us, noise_w);
        query.or_assign(&corpus[qi]);
        let ghost qdoc = query_doc(seed, n as nat, p as nat, w, noise_w, q as nat);
        proof {
            crate::prng::lemma_iter_add(seed, ((n + q) * p) as nat, p as nat);
            assert(((n + q) * p) as nat + p as nat == ((n + q + 1) * p) as nat)
                by (nonlinear_arith);
            assert(query@ =~= qdoc);
            assert(query_score(seed, n as nat, p as nat, w, noise_w, q as nat, q as nat)
                <= u32::MAX);
        }
        let true_score = query.and_popcount(&corpus[qi]);
        let mut better: u32 = 0;
        let mut j: usize = 0;
        while j < corpus.len()
            invariant_except_break
                better == beaten_count(seed, n as nat, p as nat, w, noise_w, q as nat, j as nat),
                better == 0 || better < k,
            invariant
                j <= corpus.len(),
                qi == q,
                q < nq,
                nq <= n,
                nq <= n_queries,
                corpus.len() == n,
                p > 0,
                query.well_formed(),
                query@ == qdoc,
                qdoc == query_doc(seed, n as nat, p as nat, w, noise_w, q as nat),
                query@.len() == p,
                forall|j: int|
                    0 <= j < n ==> (#[trigger] corpus@[j]).well_formed() && corpus@[j]@
                        == corpus_doc(seed, p as nat, w, j as nat),
                forall|q: nat, d: nat|
                    q < n && q < n_queries && d < n ==> #[trigger] query_score(
                        seed,
                        n as nat,
                        p as nat,
                        w,
                        noise_w,
                        q,
                        d,
                    ) <= u32::MAX,
                true_score == query_score(seed, n as nat, p as nat, w, noise_w, q as nat, q as nat),
            ensures
                (better < k) == (beaten_count(seed, n as nat, p as nat, w, noise_w, q as nat, n as nat)
                    < k),
            decreases corpus.len() - j,
        {
            if j != qi {
                proof {
                    assert(query_score(seed, n as nat, p as nat, w, noise_w, q as nat, j as nat)
                        <= u32::MAX);
                }
                let s = query.and_popcount(&corpus[j]);
                assert(s == query_score(seed, n as nat, p as nat, w, noise_w, q as nat, j as nat));
                if s > true_score {
                    better = better + 1;
                    if better >= k {
                        proof {
                            lemma_beaten_monotone(
                                seed,
                                n as nat,
                                p as nat,
                                w,
                                noise_w,
                                q as nat,
                                (j + 1) as nat,
                                n as nat,
                            );
                        }
                        break;
                    }
                }
            }
            assert(beaten_count(seed, n as nat, p as nat, w, noise_w, q as nat, (j + 1) as nat)
                == beaten_count(seed, n as nat, p as nat, w, noise_w, q as nat, j as nat) + if j
                != q && query_score(seed, n as nat, p as nat, w, noise_w, q as nat, j as nat)
                > query_score(seed, n as nat, p as nat, w, noise_w, q as nat, q as nat) {
                1nat
            } else {
                0nat
            });
            j = j + 1;
        }
        if better < k {
            hits = hits + 1;
        }
        q = q + 1;
    }
    (hits, nq)
}

/// `count_both` grows with its first argument.
proof fn lemma_count_both_grows(s1: Seq<bool>, s2: Seq<bool>, t: Seq<bool>, n: nat)
    requires
        forall|i: int| 0 <= i < n && #[trigger] s1[i] ==> s2[i],
    ensures
        count_both(s1, t, n) <= count_both(s2, t, n),
    decreases n,
{
    if n > 0 {
        lemma_count_both_grows(s1, s2, t, (n - 1) as nat);
    }
}

/// Each query is its relevant document with a noise document laid over
/// it: a query bit is set exactly when the document's bit or the bit of
/// the noise document sampled after the corpus is set.  So a query scores
/// every corpus document at least as high as its relevant document alone
/// does, and at least as high as its noise alone does; with no noise
/// (`noise_w == 0`) the query is the document itself.
pub proof fn lemma_query_overlays_noise(
    seed: u64,
    n: nat,
    p: nat,
    w: u64,
    noise_w: u64,
    q: nat,
    d: nat,
)
    requires
        p > 0,
    ensures
        query_doc(seed, n, p, w, noise_w, q).len() == p,
        forall|i: int|
            0 <= i < p ==> (#[trigger] query_doc(seed, n, p, w, noise_w, q)[i] <==> (corpus_doc(
                seed,
                p,
                w,
                q,
            )[i] || sampled_bits(xorshift_iter(seed, (n + q) * p), p, noise_w)[i])),
        query_score(seed, n, p, w, noise_w, q, d) >= count_both(
            corpus_doc(seed, p, w, q),
            corpus_doc(seed, p, w, d),
            p,
        ),
        query_score(seed, n, p, w, noise_w, q, d) >= count_both(
            sampled_bits(xorshift_iter(seed, (n + q) * p), p, noise_w),
            corpus_doc(seed, p, w, d),
            p,
        ),
        noise_w == 0 ==> query_doc(seed, n, p, w, noise_w, q) == corpus_doc(seed, p, w, q),
{
    let qd = query_doc(seed, n, p, w, noise_w, q);
    let doc = corpus_doc(seed, p, w, q);
    let noise = sampled_bits(xorshift_iter(seed, (n + q) * p), p, noise_w);
    lemma_count_both_grows(doc, qd, corpus_doc(seed, p, w, d), p);
    lemma_count_both_grows(noise, qd, corpus_doc(seed, p, w, d), p);
    if noise_w == 0 {
        assert(sample_threshold(p, 0) == 0) by (nonlinear_arith)
            requires
                p > 0,
        ;
        assert(qd =~= doc);
    }
}

/// The beaten count counts exactly the other documents that score
/// strictly above the relevant one: none when no document does (a tie is
/// not a defeat), at least one when some document does, and never the
/// relevant document itself.
pub proof fn lemma_beaten_counts_strictly_higher(
    seed: u64,
    n: nat,
    p: nat,
    w: u64,
    noise_w: u64,
    q: nat,
    j: nat,
    m: nat,
)
    ensures
        (forall|i: nat|
            i < m && i != q ==> #[trigger] query_score(seed, n, p, w, noise_w, q, i) <= query_score(
                seed,
                n,
                p,
                w,
                noise_w,
                q,
                q,
            )) ==> beaten_count(seed, n, p, w, noise_w, q, m) == 0,
        j < m && j != q && query_score(seed, n, p, w, noise_w, q, j) > query_score(
            seed,
            n,
            p,
            w,
            noise_w,
            q,
            q,
        ) ==> beaten_count(seed, n, p, w, noise_w, q, m) >= 1,
        q < m ==> beaten_count(seed, n, p, w, noise_w, q, m) < m,
    decreases m,
{
    if m > 0 {
        lemma_beaten_counts_strictly_higher(seed, n, p, w, noise_w, q, j, (m - 1) as nat);
        if forall|i: nat|
            i < m && i != q ==> #[trigger] query_score(seed, n, p, w, noise_w, q, i) <= query_score(
                seed,
                n,
                p,
                w,
                noise_w,
                q,
                q,
            ) {
            assert(forall|i: nat|
                i < (m - 1) as nat && i != q ==> #[trigger] query_score(seed, n, p, w, noise_w, q, i)
                    <= query_score(seed, n, p, w, noise_w, q, q));
            assert((m - 1) as nat != q ==> query_score(seed, n, p, w, noise_w, q, (m - 1) as nat)
                <= query_score(seed, n, p, w, noise_w, q, q));
        }
        if j < m - 1 {
            lemma_beaten_monotone(seed, n, p, w, noise_w, q, (m - 1) as nat, (m - 1) as nat);
        }
        if q < m {
            lemma_beaten_excludes_self(seed, n, p, w, noise_w, q, m);
        }
    }
}

/// The sampling threshold is the largest `t` with `t * p <= w * 2^64`
/// while `w < p`, so a PRNG output is below it with probability `w / p`;
/// it is `0` for weight `0` and `u64::MAX` once `w >= p`.
pub proof fn lemma_sample_threshold(p: nat, w: u64)
    requires
        p > 0,
    ensures
        w == 0 ==> sample_threshold(p, w) == 0,
        w >= p ==> sample_threshold(p, w) == u64::MAX,
        w < p ==> sample_threshold(p, w) * p <= w * 0x1_0000_0000_0000_0000int
            && w * 0x1_0000_0000_0000_0000int < (sample_threshold(p, w) + 1) * p,
{
    let a = w as int * 0x1_0000_0000_0000_0000int;
    let t = a / (p as int);
    vstd::arithmetic::div_mod::lemma_fundamental_div_mod(a, p as int);
    if w >= p {
        assert(t >= 0x1_0000_0000_0000_0000int) by (nonlinear_arith)
            requires
                t == a / (p as int),
                a == w as int * 0x1_0000_0000_0000_0000int,
                w >= p,
                p > 0,
        ;
    } else {
        assert(t < 0x1_0000_0000_0000_0000int) by (nonlinear_arith)
            requires
                t == a / (p as int),
                a == w as int * 0x1_0000_0000_0000_0000int,
                w < p,
                p > 0,
        ;
        vstd::arithmetic::div_mod::lemma_mod_bound(a, p as int);
        assert(sample_threshold(p, w) == t);
        assert(t * p <= a && a < (t + 1) * p) by (nonlinear_arith)
            requires
                a == (p as int) * t + a % (p as int),
                0 <= a % (p as int) < p,
        ;
    }
    if w == 0 {
        vstd::arithmetic::div_mod::lemma_div_of0(p as int);
    }
}

} // verus!
